use vstd::prelude::*;

use crate::commands::{in_order, precedes, OpbCommand};

verus! {

/// The number of channels of the chip.
pub const NUM_CHANNELS: usize = 18;

/// The number of tracks: one per channel and the global one.
pub const NUM_TRACKS: usize = 19;

/// The channel (0 to 2 within a bank) and slot group that an operator
/// register offset from 0x00 to 0x15 belongs to, or `None` for the offsets
/// that name no operator.
pub open spec fn operator_channel(off: int) -> Option<int> {
    if 0 <= off < 0x16 && off % 8 < 6 {
        Some((off / 8) * 3 + (off % 8) % 3)
    } else {
        None
    }
}

/// The track that a register address belongs to: the channel it configures
/// (0 to 17), or 18 for registers of no channel.
///
/// Within each bank of 256 registers, 0xA0 to 0xA8, 0xB0 to 0xB8 and 0xC0 to
/// 0xC8 name channels 0 to 8 directly; the operator registers 0x20, 0x40,
/// 0x60, 0x80 and 0xE0 plus an offset up to 0x15 name the channel of their
/// operator. The second bank holds channels 9 to 17.
pub open spec fn channel_of(addr: u16) -> int {
    let bank = (addr / 256) % 2;
    let reg = addr % 256;
    let hi = reg / 16 * 16;
    let lo = reg % 16;
    if (hi == 0xa0 || hi == 0xb0 || hi == 0xc0) && lo < 9 {
        bank * 9 + lo
    } else if 0x20 <= reg < 0xa0 || 0xe0 <= reg {
        let off = if reg >= 0xe0 {
            reg - 0xe0
        } else {
            (reg - 0x20) % 0x20
        };
        match operator_channel(off) {
            Some(c) => bank * 9 + c,
            None => 18,
        }
    } else {
        18
    }
}

/// Computes the track that a register address belongs to.
pub fn track_of_addr(addr: u16) -> (r: usize)
    ensures
        r as int == channel_of(addr),
        r < NUM_TRACKS,
{
    let bank: usize = ((addr / 256) % 2) as usize;
    let reg: u16 = addr % 256;
    let hi: u16 = reg / 16 * 16;
    let lo: u16 = reg % 16;
    if (hi == 0xa0 || hi == 0xb0 || hi == 0xc0) && lo < 9 {
        bank * 9 + lo as usize
    } else if (0x20 <= reg && reg < 0xa0) || 0xe0 <= reg {
        let off: u16 = if reg >= 0xe0 {
            reg - 0xe0
        } else {
            (reg - 0x20) % 0x20
        };
        if off < 0x16 && off % 8 < 6 {
            bank * 9 + ((off / 8) * 3 + (off % 8) % 3) as usize
        } else {
            18
        }
    } else {
        18
    }
}

/// The commands of `s` that belong to track `c`, in the order of `s`.
pub open spec fn track_seq(s: Seq<OpbCommand>, c: int) -> Seq<OpbCommand>
    decreases s.len(),
{
    if s.len() == 0 {
        Seq::empty()
    } else {
        let t = track_seq(s.drop_last(), c);
        if channel_of(s.last().addr) == c {
            t.push(s.last())
        } else {
            t
        }
    }
}

/// All tracks of a command stream, the global one last.
pub open spec fn tracks_of(s: Seq<OpbCommand>) -> Seq<Seq<OpbCommand>> {
    Seq::new(19, |c: int| track_seq(s, c))
}

/// The commands of `stream` that belong to track `c`, in stream order.
pub fn demux_track(stream: &Vec<OpbCommand>, c: usize) -> (r: Vec<OpbCommand>)
    ensures
        r@ == track_seq(stream@, c as int),
{
    let mut out: Vec<OpbCommand> = Vec::new();
    let mut i: usize = 0;
    while i < stream.len()
        invariant
            i <= stream@.len(),
            out@ == track_seq(stream@.take(i as int), c as int),
        decreases stream@.len() - i,
    {
        let cmd = stream[i];
        assert(stream@.take(i + 1).drop_last() =~= stream@.take(i as int));
        if track_of_addr(cmd.addr) == c {
            out.push(cmd);
        }
        i = i + 1;
    }
    assert(stream@.take(i as int) =~= stream@);
    out
}

/// Splits a command stream into its 19 tracks: track `c` holds, in stream
/// order, the commands whose address belongs to channel `c`, and the last
/// track those of no channel.
pub fn demux(stream: &Vec<OpbCommand>) -> (r: Vec<Vec<OpbCommand>>)
    ensures
        r@.len() == NUM_TRACKS,
        forall|c: int| 0 <= c < NUM_TRACKS ==> (#[trigger] r@[c])@ == track_seq(stream@, c),
{
    let mut tracks: Vec<Vec<OpbCommand>> = Vec::new();
    let mut c: usize = 0;
    while c < NUM_TRACKS
        invariant
            c <= NUM_TRACKS,
            tracks@.len() == c,
            forall|k: int| 0 <= k < c ==> (#[trigger] tracks@[k])@ == track_seq(stream@, k),
        decreases NUM_TRACKS - c,
    {
        let t = demux_track(stream, c);
        tracks.push(t);
        c = c + 1;
    }
    tracks
}

/// Every command of a track comes from the stream it was taken from.
proof fn lemma_track_seq_from_stream(s: Seq<OpbCommand>, c: int, j: int)
    requires
        0 <= j < track_seq(s, c).len(),
    ensures
        exists|i: int| 0 <= i < s.len() && s[i] == #[trigger] track_seq(s, c)[j],
    decreases s.len(),
{
    let t = track_seq(s.drop_last(), c);
    if j < t.len() {
        lemma_track_seq_from_stream(s.drop_last(), c, j);
        let i = choose|i: int| 0 <= i < s.drop_last().len() && s.drop_last()[i] == t[j];
        assert(s[i] == track_seq(s, c)[j]);
    } else {
        assert(s[s.len() - 1] == track_seq(s, c)[j]);
    }
}

/// Each track of a stream in playback order is itself in playback order.
proof fn lemma_track_seq_in_order(s: Seq<OpbCommand>, c: int)
    requires
        in_order(s),
    ensures
        in_order(track_seq(s, c)),
    decreases s.len(),
{
    if s.len() > 0 {
        let d = s.drop_last();
        assert(in_order(d)) by {
            assert forall|i: int, j: int| 0 <= i < j < d.len() implies #[trigger] precedes(d[i], d[j]) by {
                assert(precedes(s[i], s[j]));
            }
        }
        lemma_track_seq_in_order(d, c);
        let t = track_seq(d, c);
        if channel_of(s.last().addr) == c {
            let u = t.push(s.last());
            assert forall|i: int, j: int| 0 <= i < j < u.len() implies #[trigger] precedes(u[i], u[j]) by {
                if j == t.len() {
                    lemma_track_seq_from_stream(d, c, i);
                    let k = choose|k: int| 0 <= k < d.len() && d[k] == t[i];
                    assert(precedes(s[k], s[s.len() - 1]));
                } else {
                    assert(precedes(t[i], t[j]));
                }
            }
        }
    }
}

/// In every track of a stream in playback order, each command comes before
/// the next one: it is earlier, or at the same time with a lower order index.
pub proof fn lemma_tracks_in_order(s: Seq<OpbCommand>)
    requires
        in_order(s),
    ensures
        forall|c: int, j: int|
            0 <= c < NUM_TRACKS && 0 <= j && j + 1 < tracks_of(s)[c].len() ==> precedes(
                #[trigger] tracks_of(s)[c][j],
                tracks_of(s)[c][j + 1],
            ),
{
    assert forall|c: int, j: int|
        0 <= c < NUM_TRACKS && 0 <= j && j + 1 < tracks_of(s)[c].len() implies precedes(
        #[trigger] tracks_of(s)[c][j],
        tracks_of(s)[c][j + 1],
    ) by {
        lemma_track_seq_in_order(s, c);
        assert(precedes(track_seq(s, c)[j], track_seq(s, c)[j + 1]));
    }
}

/// Splitting one track again puts all of it back on the same track and
/// nothing on any other.
pub proof fn lemma_track_seq_idempotent(s: Seq<OpbCommand>, c: int, k: int)
    ensures
        track_seq(track_seq(s, c), k) == (if k == c {
            track_seq(s, c)
        } else {
            Seq::<OpbCommand>::empty()
        }),
    decreases s.len(),
{
    if s.len() > 0 {
        lemma_track_seq_idempotent(s.drop_last(), c, k);
        let t = track_seq(s.drop_last(), c);
        if channel_of(s.last().addr) == c {
            assert(t.push(s.last()).drop_last() =~= t);
        }
    }
}

/// The result of splitting is fixed by the stream alone: any two results
/// that meet what `demux` promises for the same stream are equal, and
/// splitting any of their tracks again changes nothing.
pub proof fn lemma_demux_deterministic(s: Seq<OpbCommand>, r1: Seq<Seq<OpbCommand>>, r2: Seq<Seq<OpbCommand>>)
    requires
        r1.len() == NUM_TRACKS,
        r2.len() == NUM_TRACKS,
        forall|c: int| 0 <= c < NUM_TRACKS ==> #[trigger] r1[c] == track_seq(s, c),
        forall|c: int| 0 <= c < NUM_TRACKS ==> #[trigger] r2[c] == track_seq(s, c),
    ensures
        r1 == r2,
        r1 == tracks_of(s),
        forall|c: int, k: int|
            0 <= c < NUM_TRACKS && 0 <= k < NUM_TRACKS ==> #[trigger] tracks_of(r1[c])[k] == (if k == c {
                r1[c]
            } else {
                Seq::<OpbCommand>::empty()
            }),
{
    assert(r1 =~= r2);
    assert(r1 =~= tracks_of(s));
    assert forall|c: int, k: int| 0 <= c < NUM_TRACKS && 0 <= k < NUM_TRACKS implies #[trigger] tracks_of(r1[c])[k] == (if k == c {
        r1[c]
    } else {
        Seq::<OpbCommand>::empty()
    }) by {
        lemma_track_seq_idempotent(s, c, k);
    }
}

} // verus!
