use vstd::prelude::*;

use crate::commands::{commands_from, dict_well_formed, in_order, parse_commands, OpbCommand};
use crate::error::OpbError;
use crate::header::{header_at, lemma_header_truncated, parse_header, OpbFormat, OpbHeader};
use crate::tables::{chunk_view, chunks_at, instrument_at, instruments_at, lemma_chunks_truncated, lemma_instruments_truncated, parse_chunks, parse_instruments, payload_len, OpbData, OpbInstrument};
use crate::tracks::{demux, tracks_of};

verus! {

/// Everything a file decodes to: its header, instrument table, dictionary,
/// command stream in decode order, and that stream split into tracks.
#[derive(Clone, Debug)]
pub struct OpbFile {
    pub header: OpbHeader,
    pub instruments: Vec<OpbInstrument>,
    pub data_map: Vec<OpbData>,
    pub cmd_stream: Vec<OpbCommand>,
    pub tracks: Vec<Vec<OpbCommand>>,
}

/// A file's header, instruments, dictionary (as counts and payloads) and
/// command stream, or the error of the first stage that fails.
pub open spec fn decode_at(b: Seq<u8>) -> Result<(OpbHeader, Seq<OpbInstrument>, Seq<(u32, Seq<u8>)>, Seq<OpbCommand>), OpbError> {
    match header_at(b) {
        Err(e) => Err(e),
        Ok(h) => match instruments_at(b, 20, h.num_instruments as nat) {
            Err(e) => Err(e),
            Ok((insts, p1)) => match chunks_at(b, p1, h.num_chunks as nat, h.fmt) {
                None => Err(OpbError::Truncated(crate::error::OpbStage::Dictionary)),
                Some((dict, p2)) => match commands_from(b, p2, h.fmt, dict, 0, 0) {
                    Err(e) => Err(e),
                    Ok(cmds) => Ok((h, insts, dict, cmds)),
                },
            },
        },
    }
}

impl OpbFile {
    /// The dictionary as counts and payloads.
    pub open spec fn dict_view(&self) -> Seq<(u32, Seq<u8>)> {
        self.data_map@.map_values(|d: OpbData| chunk_view(d))
    }

    /// The tracks as sequences.
    pub open spec fn tracks_view(&self) -> Seq<Seq<OpbCommand>> {
        self.tracks@.map_values(|t: Vec<OpbCommand>| t@)
    }

    /// Whether the parts agree: the tracks split the command stream, which
    /// is in playback order.
    pub open spec fn wf(&self) -> bool {
        &&& self.tracks_view() == tracks_of(self.cmd_stream@)
        &&& in_order(self.cmd_stream@)
    }
}

/// Decodes a whole file: header, instrument table, dictionary and command
/// stream in turn, each starting where the last one stopped, then splits the
/// commands into tracks. The first stage that fails decides the error.
pub fn parse_opb(input: &[u8]) -> (r: Result<OpbFile, OpbError>)
    ensures
        match r {
            Ok(f) => decode_at(input@) == Ok::<_, OpbError>((f.header, f.instruments@, f.dict_view(), f.cmd_stream@)) && f.wf(),
            Err(e) => decode_at(input@) == Err::<(OpbHeader, Seq<OpbInstrument>, Seq<(u32, Seq<u8>)>, Seq<OpbCommand>), OpbError>(e),
        },
{
    let (header, p0) = match parse_header(input) {
        Ok(x) => x,
        Err(e) => {
            return Err(e);
        }
    };
    let (instruments, p1) = match parse_instruments(input, p0, header.num_instruments) {
        Ok(x) => x,
        Err(e) => {
            return Err(e);
        }
    };
    let (data_map, p2) = match parse_chunks(input, p1, header.num_chunks, header.fmt) {
        Ok(x) => x,
        Err(e) => {
            return Err(e);
        }
    };
    proof {
        assert forall|i: int| 0 <= i < data_map@.len() implies (#[trigger] data_map@[i]).args@.len() == payload_len(header.fmt) by {
            lemma_chunk_payload_len(input@, p1 as int, header.num_chunks as nat, header.fmt, i);
            assert(data_map@.map_values(|d: OpbData| chunk_view(d))[i] == chunk_view(data_map@[i]));
        }
        assert(dict_well_formed(data_map@, header.fmt));
    }
    let cmd_stream = match parse_commands(input, p2, header.fmt, &data_map) {
        Ok(x) => x,
        Err(e) => {
            return Err(e);
        }
    };
    let tracks = demux(&cmd_stream);
    let f = OpbFile { header, instruments, data_map, cmd_stream, tracks };
    assert(f.tracks_view() =~= tracks_of(f.cmd_stream@));
    Ok(f)
}

/// Every entry of a dictionary that was read has the payload length of its
/// format.
proof fn lemma_chunk_payload_len(b: Seq<u8>, pos: int, n: nat, fmt: OpbFormat, i: int)
    requires
        chunks_at(b, pos, n, fmt) is Some,
        0 <= i < chunks_at(b, pos, n, fmt).unwrap().0.len(),
    ensures
        chunks_at(b, pos, n, fmt).unwrap().0[i].1.len() == payload_len(fmt),
    decreases n,
{
    if n > 0 {
        let prev = chunks_at(b, pos, (n - 1) as nat, fmt).unwrap();
        if i < prev.0.len() {
            lemma_chunk_payload_len(b, pos, (n - 1) as nat, fmt, i);
        }
    }
}

/// Where a whole file decodes, every prefix of it that stops short of the
/// command stream is refused as truncated, in the stage that it stops in.
pub proof fn lemma_decode_truncated(b: Seq<u8>, k: int)
    requires
        decode_at(b) is Ok,
        0 <= k,
        k < 20 || k < instruments_at(b, 20, header_at(b).unwrap().num_instruments as nat).unwrap().1 || k < chunks_at(
            b,
            instruments_at(b, 20, header_at(b).unwrap().num_instruments as nat).unwrap().1,
            header_at(b).unwrap().num_chunks as nat,
            header_at(b).unwrap().fmt,
        ).unwrap().1,
    ensures
        decode_at(b.take(k)) matches Err(OpbError::Truncated(_)),
{
    let c = b.take(k);
    let h = header_at(b).unwrap();
    if k < 20 {
        lemma_header_truncated(b, k);
    } else {
        assert(c.subrange(0, 7) =~= b.subrange(0, 7));
        assert(header_at(c) == header_at(b));
        let (insts, p1) = instruments_at(b, 20, h.num_instruments as nat).unwrap();
        if k < p1 {
            lemma_instruments_truncated(b, 20, h.num_instruments as nat, k);
        } else {
            let n = h.num_instruments as nat;
            assert forall|i: int| 0 <= i < n implies #[trigger] instrument_at(c, 20 + i * 18, i as u32) == instrument_at(
                b,
                20 + i * 18,
                i as u32,
            ) by {
                assert(20 + i * 18 + 18 <= 20 + n * 18) by (nonlinear_arith)
                    requires 0 <= i < n;
                assert(forall|j: int| 0 <= j < k ==> c[j] == b[j]);
            }
            assert(Seq::new(n, |i: int| instrument_at(c, 20 + i * 18, i as u32)) =~= Seq::new(
                n,
                |i: int| instrument_at(b, 20 + i * 18, i as u32),
            ));
            lemma_chunks_truncated(b, p1, h.num_chunks as nat, h.fmt, k);
        }
    }
}

} // verus!
