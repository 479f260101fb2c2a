use vstd::prelude::*;

use crate::error::{OpbError, OpbStage};
use crate::header::OpbFormat;
use crate::tables::{chunk_view, payload_len, OpbData};
use crate::varint::{lemma_u7_prefix, lemma_u7_truncated, read_u7, u7_at};

verus! {

/// One timestamped register write.
#[derive(Clone, Copy, Debug, PartialEq, Eq)]
pub struct OpbCommand {
    /// The register address, below 512.
    pub addr: u16,
    pub data: u8,
    /// The absolute time in ticks: the sum of the deltas read so far.
    pub time: u128,
    /// The place of the command in decode order, counting from zero.
    pub order_index: usize,
    /// The dictionary entry the command came from, if any.
    pub data_index: Option<u32>,
}

/// Whether `a` comes before `b` in playback order: earlier in time, or at
/// the same time and earlier in decode order.
pub open spec fn precedes(a: OpbCommand, b: OpbCommand) -> bool {
    a.time < b.time || (a.time == b.time && a.order_index < b.order_index)
}

/// Whether every command of `s` comes before every later one.
pub open spec fn in_order(s: Seq<OpbCommand>) -> bool {
    forall|i: int, j: int| 0 <= i < j < s.len() ==> #[trigger] precedes(s[i], s[j])
}

/// The address that a bank selector and a register byte make.
pub open spec fn address_of(bank: u8, reg: u8) -> u16 {
    ((bank % 2) as int * 256 + reg as int) as u16
}

/// The command at `p`, read with the running time `t` and order index `oi`,
/// and the position after it.
///
/// A Raw command is a time delta, then an address of two bytes (of whose
/// first byte only the low bit counts) and a data byte. A Standard command is
/// a time delta, a bank selector byte (of which only the low bit counts) and
/// the index of a dictionary entry, whose payload gives the register and the
/// data byte.
pub open spec fn command_at(
    b: Seq<u8>,
    p: int,
    fmt: OpbFormat,
    dict: Seq<(u32, Seq<u8>)>,
    t: int,
    oi: int,
) -> Result<(OpbCommand, int), OpbError> {
    match u7_at(b, p) {
        None => Err(OpbError::Truncated(OpbStage::Commands)),
        Some((delta, q)) => match fmt {
            OpbFormat::Raw => if q + 3 > b.len() {
                Err(OpbError::Truncated(OpbStage::Commands))
            } else {
                Ok(
                    (
                        OpbCommand {
                            addr: address_of(b[q], b[q + 1]),
                            data: b[q + 2],
                            time: (t + delta) as u128,
                            order_index: oi as usize,
                            data_index: None,
                        },
                        q + 3,
                    ),
                )
            },
            OpbFormat::Standard => if q + 1 > b.len() {
                Err(OpbError::Truncated(OpbStage::Commands))
            } else {
                match u7_at(b, q + 1) {
                    None => Err(OpbError::Truncated(OpbStage::Commands)),
                    Some((index, q2)) => if index >= dict.len() {
                        Err(OpbError::BadDictionaryReference { index, len: dict.len() as usize })
                    } else {
                        Ok(
                            (
                                OpbCommand {
                                    addr: address_of(b[q], dict[index as int].1[0]),
                                    data: dict[index as int].1[1],
                                    time: (t + delta) as u128,
                                    order_index: oi as usize,
                                    data_index: Some(index),
                                },
                                q2,
                            ),
                        )
                    },
                }
            },
        },
    }
}

/// The commands from `p` to the end of the buffer, or the first error.
pub open spec fn commands_from(
    b: Seq<u8>,
    p: int,
    fmt: OpbFormat,
    dict: Seq<(u32, Seq<u8>)>,
    t: int,
    oi: int,
) -> Result<Seq<OpbCommand>, OpbError>
    decreases b.len() - p,
{
    if p < 0 || p >= b.len() {
        Ok(Seq::empty())
    } else {
        match command_at(b, p, fmt, dict, t, oi) {
            Err(e) => Err(e),
            // A command always takes at least one byte, so the first branch
            // is never taken; it only makes the recursion visibly finite.
            Ok((c, q)) => if q <= p {
                Err(OpbError::Truncated(OpbStage::Commands))
            } else {
                match commands_from(b, q, fmt, dict, c.time as int, oi + 1) {
                    Ok(rest) => Ok(seq![c] + rest),
                    Err(e) => Err(e),
                }
            },
        }
    }
}

/// `s` put in front of the commands of `r`, or the error of `r`.
pub open spec fn prepend(s: Seq<OpbCommand>, r: Result<Seq<OpbCommand>, OpbError>) -> Result<Seq<OpbCommand>, OpbError> {
    match r {
        Ok(rest) => Ok(s + rest),
        Err(e) => Err(e),
    }
}

/// Whether every entry of a dictionary has the payload length of `fmt`.
pub open spec fn dict_well_formed(dict: Seq<OpbData>, fmt: OpbFormat) -> bool {
    forall|i: int| 0 <= i < dict.len() ==> (#[trigger] dict[i]).args@.len() == payload_len(fmt)
}

/// Reads the command stream from `pos` to the end of the buffer, starting
/// at time zero and order index zero.
pub fn parse_commands(input: &[u8], pos: usize, fmt: OpbFormat, dict: &Vec<OpbData>) -> (r: Result<Vec<OpbCommand>, OpbError>)
    requires
        pos <= input@.len(),
        dict_well_formed(dict@, fmt),
    ensures
        match r {
            Ok(v) => commands_from(input@, pos as int, fmt, dict@.map_values(|d: OpbData| chunk_view(d)), 0, 0) == Ok::<Seq<OpbCommand>, OpbError>(v@),
            Err(e) => commands_from(input@, pos as int, fmt, dict@.map_values(|d: OpbData| chunk_view(d)), 0, 0) == Err::<Seq<OpbCommand>, OpbError>(e),
        },
        r matches Ok(v) ==> in_order(v@),
{
    let ghost d = dict@.map_values(|e: OpbData| chunk_view(e));
    let len = input.len();
    let mut out: Vec<OpbCommand> = Vec::new();
    let mut p: usize = pos;
    let mut time: u128 = 0;
    while p < len
        invariant
            len == input@.len(),
            pos <= p <= len,
            d == dict@.map_values(|e: OpbData| chunk_view(e)),
            dict_well_formed(dict@, fmt),
            time as int <= (p - pos) * 0x1_0000_0000,
            out@.len() <= p - pos,
            commands_from(input@, pos as int, fmt, d, 0, 0) == prepend(out@, commands_from(input@, p as int, fmt, d, time as int, out@.len() as int)),
            in_order(out@),
            forall|k: int| 0 <= k < out@.len() ==> (#[trigger] out@[k]).time <= time && out@[k].order_index < out@.len(),
        decreases len - p,
    {
        let oi: usize = out.len();
        let (delta, q) = match read_u7(input, p) {
            Ok(x) => x,
            Err(_) => {
                return Err(OpbError::Truncated(OpbStage::Commands));
            }
        };
        let new_time: u128 = time + delta as u128;
        let (cmd, next) = match fmt {
            OpbFormat::Raw => {
                if len - q < 3 {
                    return Err(OpbError::Truncated(OpbStage::Commands));
                }
                let addr: u16 = ((input[q] % 2) as u16) * 256 + input[q + 1] as u16;
                (OpbCommand { addr, data: input[q + 2], time: new_time, order_index: oi, data_index: None }, q + 3)
            },
            OpbFormat::Standard => {
                if q >= len {
                    return Err(OpbError::Truncated(OpbStage::Commands));
                }
                let bank = input[q];
                let (index, q2) = match read_u7(input, q + 1) {
                    Ok(x) => x,
                    Err(_) => {
                        return Err(OpbError::Truncated(OpbStage::Commands));
                    }
                };
                if index as usize >= dict.len() {
                    return Err(OpbError::BadDictionaryReference { index, len: dict.len() });
                }
                let entry = &dict[index as usize];
                assert(entry.args@.len() == 2);
                let addr: u16 = ((bank % 2) as u16) * 256 + entry.args[0] as u16;
                (OpbCommand { addr, data: entry.args[1], time: new_time, order_index: oi, data_index: Some(index) }, q2)
            },
        };
        assert(command_at(input@, p as int, fmt, d, time as int, oi as int) == Ok::<(OpbCommand, int), OpbError>((cmd, next as int)));
        let ghost before = out@;
        out.push(cmd);
        proof {
            match commands_from(input@, next as int, fmt, d, new_time as int, oi + 1) {
                Ok(rest) => {
                    assert(before + (seq![cmd] + rest) =~= out@ + rest);
                },
                Err(e) => {},
            }
            assert forall|i: int, j: int| 0 <= i < j < out@.len() implies #[trigger] precedes(out@[i], out@[j]) by {
                if j < before.len() {
                    assert(precedes(before[i], before[j]));
                }
            }
            assert(new_time as int <= (next - pos) * 0x1_0000_0000);
        }
        time = new_time;
        p = next;
    }
    Ok(out)
}

/// Any buffer that stops inside a command that could be read is refused as
/// truncated, as is the command stream that starts with it.
pub proof fn lemma_command_truncated(
    b: Seq<u8>,
    p: int,
    fmt: OpbFormat,
    dict: Seq<(u32, Seq<u8>)>,
    t: int,
    oi: int,
    k: int,
)
    requires
        command_at(b, p, fmt, dict, t, oi) is Ok,
        p <= k < command_at(b, p, fmt, dict, t, oi).unwrap().1,
    ensures
        command_at(b.take(k), p, fmt, dict, t, oi) == Err::<(OpbCommand, int), OpbError>(
            OpbError::Truncated(OpbStage::Commands),
        ),
        p < k ==> commands_from(b.take(k), p, fmt, dict, t, oi) == Err::<Seq<OpbCommand>, OpbError>(
            OpbError::Truncated(OpbStage::Commands),
        ),
{
    let c = b.take(k);
    let (delta, q) = u7_at(b, p).unwrap();
    if k < q {
        lemma_u7_truncated(b, p, k);
    } else {
        lemma_u7_prefix(b, p, k);
        assert(forall|i: int| 0 <= i < k ==> c[i] == b[i]);
        if fmt == OpbFormat::Standard && k > q {
            lemma_u7_truncated(b, q + 1, k);
        }
    }
}

} // verus!
