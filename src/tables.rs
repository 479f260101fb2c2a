use vstd::prelude::*;

use crate::error::{OpbError, OpbStage};
use crate::header::OpbFormat;
use crate::varint::{lemma_u7_prefix, lemma_u7_truncated, read_u7, u7_at};

verus! {

/// The number of bytes in one instrument record: nine 16-bit fields.
pub const INSTRUMENT_SIZE: usize = 18;

/// The registers of one operator of an FM voice.
#[derive(Clone, Copy, Debug, PartialEq, Eq)]
pub struct OpbInstOp {
    pub characteristic: i16,
    pub attack_decay: i16,
    pub sustain_release: i16,
    pub wave_select: i16,
}

/// One FM voice: the feedback/connection register and its two operators.
#[derive(Clone, Copy, Debug, PartialEq, Eq)]
pub struct OpbInstrument {
    pub feed_conn: i16,
    pub modulator: OpbInstOp,
    pub carrier: OpbInstOp,
    pub index: u32,
}

/// One dictionary entry: a repeat count and its raw payload bytes.
#[derive(Clone, Debug, PartialEq, Eq)]
pub struct OpbData {
    pub count: u32,
    pub args: Vec<u8>,
}

/// The big-endian signed 16-bit integer in the two bytes at `p`.
pub open spec fn be_i16_at(b: Seq<u8>, p: int) -> i16 {
    (#[verifier::truncate] (((b[p] as u16) * 256 + (b[p + 1] as u16)) as i16))
}

/// The operator whose four fields start at `p`.
pub open spec fn inst_op_at(b: Seq<u8>, p: int) -> OpbInstOp {
    OpbInstOp {
        characteristic: be_i16_at(b, p),
        attack_decay: be_i16_at(b, p + 2),
        sustain_release: be_i16_at(b, p + 4),
        wave_select: be_i16_at(b, p + 6),
    }
}

/// The instrument record at `p`, given its place `index` in the table.
pub open spec fn instrument_at(b: Seq<u8>, p: int, index: u32) -> OpbInstrument {
    OpbInstrument {
        feed_conn: be_i16_at(b, p),
        modulator: inst_op_at(b, p + 2),
        carrier: inst_op_at(b, p + 10),
        index,
    }
}

/// The instrument table of `n` records at `pos`: its entries are exactly
/// the records read in turn, numbered from zero.
pub open spec fn instruments_at(b: Seq<u8>, pos: int, n: nat) -> Result<(Seq<OpbInstrument>, int), OpbError> {
    if pos + n * 18 > b.len() {
        Err(OpbError::Truncated(OpbStage::Instruments))
    } else {
        Ok((Seq::new(n, |i: int| instrument_at(b, pos + i * 18, i as u32)), pos + n * 18))
    }
}

/// Reads the big-endian signed 16-bit integer at `p`.
fn read_be_i16(b: &[u8], p: usize) -> (r: i16)
    requires
        p + 2 <= b@.len(),
    ensures
        r == be_i16_at(b@, p as int),
{
    let w: u16 = (b[p] as u16) * 256 + (b[p + 1] as u16);
    let x: i16 = #[verifier::truncate] (w as i16);
    x
}

/// Reads the four operator fields at `p`.
fn read_inst_op(b: &[u8], p: usize) -> (r: OpbInstOp)
    requires
        p + 8 <= b@.len(),
    ensures
        r == inst_op_at(b@, p as int),
{
    let len = b.len();
    assert(p + 8 <= len);
    OpbInstOp {
        characteristic: read_be_i16(b, p),
        attack_decay: read_be_i16(b, p + 2),
        sustain_release: read_be_i16(b, p + 4),
        wave_select: read_be_i16(b, p + 6),
    }
}

/// Reads `n` instrument records starting at `pos`, numbering them from zero.
pub fn parse_instruments(input: &[u8], pos: usize, n: u32) -> (r: Result<(Vec<OpbInstrument>, usize), OpbError>)
    requires
        pos <= input@.len(),
    ensures
        match r {
            Ok((v, next)) => instruments_at(input@, pos as int, n as nat) == Ok::<(Seq<OpbInstrument>, int), OpbError>((v@, next as int)),
            Err(e) => instruments_at(input@, pos as int, n as nat) == Err::<(Seq<OpbInstrument>, int), OpbError>(e),
        },
{
    let len = input.len();
    if (len - pos) / INSTRUMENT_SIZE < n as usize {
        return Err(OpbError::Truncated(OpbStage::Instruments));
    }
    let mut out: Vec<OpbInstrument> = Vec::new();
    let mut p: usize = pos;
    let mut i: u32 = 0;
    while i < n
        invariant
            pos <= len,
            len == input@.len(),
            pos + n * 18 <= len,
            i <= n,
            p == pos + i * 18,
            out@.len() == i,
            forall|k: int| 0 <= k < i ==> out@[k] == instrument_at(input@, pos + k * 18, k as u32),
        decreases n - i,
    {
        proof {
            assert(p + 18 <= pos + n * 18) by (nonlinear_arith)
                requires p == pos + i * 18, i < n;
        }
        let feed_conn = read_be_i16(input, p);
        let modulator = read_inst_op(input, p + 2);
        let carrier = read_inst_op(input, p + 10);
        out.push(OpbInstrument { feed_conn, modulator, carrier, index: i });
        p = p + INSTRUMENT_SIZE;
        i = i + 1;
    }
    assert(out@ =~= Seq::new(n as nat, |k: int| instrument_at(input@, pos + k * 18, k as u32)));
    Ok((out, p))
}

/// The number of payload bytes in each dictionary entry: a register and a
/// value for Standard files, an address of two bytes and a value for Raw ones.
pub open spec fn payload_len(fmt: OpbFormat) -> int {
    match fmt {
        OpbFormat::Standard => 2,
        OpbFormat::Raw => 3,
    }
}

/// The dictionary entry at `p`, as its count and payload, and the position
/// after it.
pub open spec fn chunk_at(b: Seq<u8>, p: int, fmt: OpbFormat) -> Option<(u32, Seq<u8>, int)> {
    match u7_at(b, p) {
        None => None,
        Some((count, q)) => if q + payload_len(fmt) > b.len() {
            None
        } else {
            Some((count, b.subrange(q, q + payload_len(fmt)), q + payload_len(fmt)))
        },
    }
}

/// The first `n` dictionary entries from `pos`, read one after another.
pub open spec fn chunks_at(b: Seq<u8>, pos: int, n: nat, fmt: OpbFormat) -> Option<(Seq<(u32, Seq<u8>)>, int)>
    decreases n,
{
    if n == 0 {
        Some((Seq::empty(), pos))
    } else {
        match chunks_at(b, pos, (n - 1) as nat, fmt) {
            None => None,
            Some((s, q)) => match chunk_at(b, q, fmt) {
                None => None,
                Some((count, payload, q2)) => Some((s.push((count, payload)), q2)),
            },
        }
    }
}

/// An entry seen as its count and payload.
pub open spec fn chunk_view(d: OpbData) -> (u32, Seq<u8>) {
    (d.count, d.args@)
}

/// Once some entry cannot be read, no longer table can be read either.
proof fn lemma_chunks_none_grows(b: Seq<u8>, pos: int, i: nat, n: nat, fmt: OpbFormat)
    requires
        i <= n,
        chunks_at(b, pos, i, fmt) is None,
    ensures
        chunks_at(b, pos, n, fmt) is None,
    decreases n - i,
{
    if i < n {
        lemma_chunks_none_grows(b, pos, i + 1, n, fmt);
    }
}

/// Reads `n` dictionary entries starting at `pos`.
pub fn parse_chunks(input: &[u8], pos: usize, n: u32, fmt: OpbFormat) -> (r: Result<(Vec<OpbData>, usize), OpbError>)
    requires
        pos <= input@.len(),
    ensures
        match r {
            Ok((v, next)) => chunks_at(input@, pos as int, n as nat, fmt) == Some((v@.map_values(|d: OpbData| chunk_view(d)), next as int)),
            Err(e) => chunks_at(input@, pos as int, n as nat, fmt) is None && e == OpbError::Truncated(OpbStage::Dictionary),
        },
{
    let plen: usize = match fmt {
        OpbFormat::Standard => 2,
        OpbFormat::Raw => 3,
    };
    let mut out: Vec<OpbData> = Vec::new();
    let mut p: usize = pos;
    let mut i: u32 = 0;
    while i < n
        invariant
            pos <= p <= input@.len(),
            plen == payload_len(fmt),
            i <= n,
            chunks_at(input@, pos as int, i as nat, fmt) == Some((out@.map_values(|d: OpbData| chunk_view(d)), p as int)),
        decreases n - i,
    {
        let (count, q) = match read_u7(input, p) {
            Ok(x) => x,
            Err(_) => {
                proof { lemma_chunks_none_grows(input@, pos as int, (i + 1) as nat, n as nat, fmt); }
                return Err(OpbError::Truncated(OpbStage::Dictionary));
            }
        };
        if input.len() - q < plen {
            proof { lemma_chunks_none_grows(input@, pos as int, (i + 1) as nat, n as nat, fmt); }
            return Err(OpbError::Truncated(OpbStage::Dictionary));
        }
        let mut args: Vec<u8> = Vec::new();
        let end: usize = q + plen;
        let mut k: usize = q;
        while k < end
            invariant
                end == q + plen,
                q <= k <= end <= input@.len(),
                args@ == input@.subrange(q as int, k as int),
            decreases q + plen - k,
        {
            args.push(input[k]);
            proof {
                assert(args@ =~= input@.subrange(q as int, k + 1));
            }
            k = k + 1;
        }
        let ghost before = out@;
        out.push(OpbData { count, args });
        proof {
            assert(out@.map_values(|d: OpbData| chunk_view(d)) =~= before.map_values(|d: OpbData| chunk_view(d)).push((count, input@.subrange(q as int, q + plen))));
        }
        p = q + plen;
        i = i + 1;
    }
    Ok((out, p))
}

/// Any buffer that stops inside an instrument table that could be read is
/// refused as truncated.
pub proof fn lemma_instruments_truncated(b: Seq<u8>, pos: int, n: nat, k: int)
    requires
        instruments_at(b, pos, n) is Ok,
        0 <= k < instruments_at(b, pos, n).unwrap().1,
    ensures
        instruments_at(b.take(k), pos, n) == Err::<(Seq<OpbInstrument>, int), OpbError>(
            OpbError::Truncated(OpbStage::Instruments),
        ),
{
}

/// Reading a dictionary gives the same from any prefix of the buffer that
/// holds it whole, and it ends no earlier than it starts.
proof fn lemma_chunks_prefix(b: Seq<u8>, pos: int, n: nat, fmt: OpbFormat, k: int)
    requires
        chunks_at(b, pos, n, fmt) is Some,
        chunks_at(b, pos, n, fmt).unwrap().1 <= k <= b.len(),
    ensures
        chunks_at(b.take(k), pos, n, fmt) == chunks_at(b, pos, n, fmt),
        pos <= chunks_at(b, pos, n, fmt).unwrap().1,
    decreases n,
{
    if n > 0 {
        let (s, q) = chunks_at(b, pos, (n - 1) as nat, fmt).unwrap();
        lemma_u7_prefix(b, q, k);
        lemma_chunks_prefix(b, pos, (n - 1) as nat, fmt, k);
        let c = b.take(k);
        let (count, q1) = u7_at(b, q).unwrap();
        assert(c.subrange(q1, q1 + payload_len(fmt)) =~= b.subrange(q1, q1 + payload_len(fmt)));
    }
}

/// Any buffer that stops inside a dictionary that could be read is refused
/// as truncated.
pub proof fn lemma_chunks_truncated(b: Seq<u8>, pos: int, n: nat, fmt: OpbFormat, k: int)
    requires
        chunks_at(b, pos, n, fmt) is Some,
        pos <= k < chunks_at(b, pos, n, fmt).unwrap().1,
    ensures
        chunks_at(b.take(k), pos, n, fmt) is None,
    decreases n,
{
    if n > 0 {
        let (s, q) = chunks_at(b, pos, (n - 1) as nat, fmt).unwrap();
        if k < q {
            lemma_chunks_truncated(b, pos, (n - 1) as nat, fmt, k);
        } else {
            lemma_chunks_prefix(b, pos, (n - 1) as nat, fmt, k);
            let (count, q1) = u7_at(b, q).unwrap();
            if k < q1 {
                lemma_u7_truncated(b, q, k);
            } else {
                lemma_u7_prefix(b, q, k);
            }
        }
    }
}

} // verus!
