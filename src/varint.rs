use vstd::prelude::*;

use crate::error::{OpbError, OpbStage};

verus! {

/// Whether byte `i` of `b` exists and has its continuation bit set.
pub open spec fn continues(b: Seq<u8>, i: int) -> bool {
    0 <= i < b.len() && b[i] >= 128
}

/// How many bytes the varint starting at `pos` occupies, judged from the
/// continuation bits that are present.
pub open spec fn u7_len(b: Seq<u8>, pos: int) -> int {
    if !continues(b, pos) {
        1
    } else if !continues(b, pos + 1) {
        2
    } else if !continues(b, pos + 2) {
        3
    } else {
        4
    }
}

/// The contribution of byte `i` of the varint at `pos`, before shifting:
/// all but the last byte are masked to seven bits, the last is taken whole.
pub open spec fn u7_group(b: Seq<u8>, pos: int, i: int) -> u32 {
    let n = u7_len(b, pos);
    if i < n - 1 {
        (b[pos + i] & 0x7f) as u32
    } else if i == n - 1 {
        b[pos + i] as u32
    } else {
        0
    }
}

/// The varint at `pos`: its value and the position just after it, or `None`
/// when the buffer ends inside it.
pub open spec fn u7_at(b: Seq<u8>, pos: int) -> Option<(u32, int)> {
    let n = u7_len(b, pos);
    if pos < 0 || pos + n > b.len() {
        None
    } else {
        Some(
            (
                u7_group(b, pos, 0) | (u7_group(b, pos, 1) << 7u32) | (u7_group(b, pos, 2) << 14u32)
                    | (u7_group(b, pos, 3) << 21u32),
                pos + n,
            ),
        )
    }
}

/// The number of bytes in the shortest encoding of `v`.
pub open spec fn u7_size(v: u32) -> int {
    if v >= 2097152 {
        4
    } else if v >= 16384 {
        3
    } else if v >= 128 {
        2
    } else {
        1
    }
}

/// The shortest encoding of `v` (for `v` below 2^28).
pub open spec fn u7_encoding(v: u32) -> Seq<u8> {
    let n = u7_size(v);
    if n == 1 {
        seq![v as u8]
    } else if n == 2 {
        seq![((v & 0x7f) | 0x80) as u8, (v >> 7u32) as u8]
    } else if n == 3 {
        seq![((v & 0x7f) | 0x80) as u8, (((v >> 7u32) & 0x7f) | 0x80) as u8, (v >> 14u32) as u8]
    } else {
        seq![
            ((v & 0x7f) | 0x80) as u8,
            (((v >> 7u32) & 0x7f) | 0x80) as u8,
            (((v >> 14u32) & 0x7f) | 0x80) as u8,
            (v >> 21u32) as u8,
        ]
    }
}

/// Reads the varint that starts at `pos`.
pub fn read_u7(input: &[u8], pos: usize) -> (r: Result<(u32, usize), OpbError>)
    requires
        pos <= input@.len(),
    ensures
        match r {
            Ok((v, next)) => u7_at(input@, pos as int) == Some((v, next as int)),
            Err(e) => u7_at(input@, pos as int) is None && e == OpbError::Truncated(OpbStage::Varint),
        },
{
    let b = input;
    let len = input.len();
    if pos >= len {
        return Err(OpbError::Truncated(OpbStage::Varint));
    }
    let mut b0: u8 = b[pos];
    let mut b1: u8 = 0;
    let mut b2: u8 = 0;
    let mut b3: u8 = 0;
    let mut next: usize = pos + 1;
    if b0 >= 128 {
        b0 = b0 & 0x7f;
        if next >= len {
            return Err(OpbError::Truncated(OpbStage::Varint));
        }
        b1 = b[next];
        next = next + 1;
        if b1 >= 128 {
            b1 = b1 & 0x7f;
            if next >= len {
                return Err(OpbError::Truncated(OpbStage::Varint));
            }
            b2 = b[next];
            next = next + 1;
            if b2 >= 128 {
                b2 = b2 & 0x7f;
                if next >= len {
                    return Err(OpbError::Truncated(OpbStage::Varint));
                }
                b3 = b[next];
                next = next + 1;
            }
        }
    }
    let v: u32 = (b0 as u32) | ((b1 as u32) << 7u32) | ((b2 as u32) << 14u32) | ((b3 as u32) << 21u32);
    Ok((v, next))
}

/// The number of bytes in the shortest encoding of `val`.
pub fn size_u7(val: u32) -> (r: usize)
    ensures
        r as int == u7_size(val),
{
    if val >= 2097152 {
        4
    } else if val >= 16384 {
        3
    } else if val >= 128 {
        2
    } else {
        1
    }
}

/// Writes the shortest encoding of `val`.
pub fn write_u7(val: u32) -> (r: Vec<u8>)
    requires
        val < 0x1000_0000,
    ensures
        r@ == u7_encoding(val),
        r@.len() == u7_size(val),
{
    let mut out: Vec<u8> = Vec::new();
    if val >= 2097152 {
        out.push(((val & 0x7f) | 0x80) as u8);
        out.push((((val >> 7u32) & 0x7f) | 0x80) as u8);
        out.push((((val >> 14u32) & 0x7f) | 0x80) as u8);
        out.push((val >> 21u32) as u8);
    } else if val >= 16384 {
        out.push(((val & 0x7f) | 0x80) as u8);
        out.push((((val >> 7u32) & 0x7f) | 0x80) as u8);
        out.push((val >> 14u32) as u8);
    } else if val >= 128 {
        out.push(((val & 0x7f) | 0x80) as u8);
        out.push((val >> 7u32) as u8);
    } else {
        out.push(val as u8);
    }
    assert(out@ =~= u7_encoding(val));
    out
}

/// Decoding the shortest encoding of any value below 2^28, followed by any
/// bytes at all, gives back the value and stops right after the encoding.
pub proof fn lemma_u7_round_trip(v: u32, rest: Seq<u8>)
    requires
        v < 0x1000_0000,
    ensures
        u7_at(u7_encoding(v) + rest, 0) == Some((v, u7_size(v))),
{
    let e = u7_encoding(v);
    let b = e + rest;
    assert(b.subrange(0, e.len() as int) =~= e);
    assert forall|i: int| 0 <= i < e.len() implies b[i] == e[i] by {
        assert(b[i] == b.subrange(0, e.len() as int)[i]);
    }
    if v < 128 {
        let x0 = v as u8;
        assert(x0 < 128) by (bit_vector)
            requires x0 == v as u8, v < 128u32;
        assert(((v as u8) as u32) | (0u32 << 7u32) | (0u32 << 14u32) | (0u32 << 21u32) == v) by (bit_vector)
            requires v < 128u32;
    } else if v < 16384 {
        let x0 = ((v & 0x7f) | 0x80) as u8;
        let x1 = (v >> 7u32) as u8;
        assert(x0 >= 128 && x1 < 128 && (((x0 & 0x7f) as u32) | ((x1 as u32) << 7u32) | (0u32 << 14u32) | (0u32 << 21u32)) == v) by (bit_vector)
            requires x0 == ((v & 0x7f) | 0x80) as u8, x1 == (v >> 7u32) as u8, 128 <= v < 16384;
    } else if v < 2097152 {
        let x0 = ((v & 0x7f) | 0x80) as u8;
        let x1 = (((v >> 7u32) & 0x7f) | 0x80) as u8;
        let x2 = (v >> 14u32) as u8;
        assert(x0 >= 128 && x1 >= 128 && x2 < 128 && (((x0 & 0x7f) as u32) | (((x1 & 0x7f) as u32) << 7u32) | ((x2 as u32) << 14u32) | (0u32 << 21u32)) == v) by (bit_vector)
            requires x0 == ((v & 0x7f) | 0x80) as u8, x1 == (((v >> 7u32) & 0x7f) | 0x80) as u8, x2 == (v >> 14u32) as u8, 16384 <= v < 2097152;
    } else {
        let x0 = ((v & 0x7f) | 0x80) as u8;
        let x1 = (((v >> 7u32) & 0x7f) | 0x80) as u8;
        let x2 = (((v >> 14u32) & 0x7f) | 0x80) as u8;
        let x3 = (v >> 21u32) as u8;
        assert(x0 >= 128 && x1 >= 128 && x2 >= 128 && (((x0 & 0x7f) as u32) | (((x1 & 0x7f) as u32) << 7u32) | (((x2 & 0x7f) as u32) << 14u32) | ((x3 as u32) << 21u32)) == v) by (bit_vector)
            requires x0 == ((v & 0x7f) | 0x80) as u8, x1 == (((v >> 7u32) & 0x7f) | 0x80) as u8, x2 == (((v >> 14u32) & 0x7f) | 0x80) as u8, x3 == (v >> 21u32) as u8, 2097152 <= v < 0x1000_0000;
    }
}

/// Cutting a buffer anywhere inside a varint that could be read leaves one
/// that cannot.
pub proof fn lemma_u7_truncated(b: Seq<u8>, pos: int, k: int)
    requires
        u7_at(b, pos) is Some,
        pos <= k < u7_at(b, pos).unwrap().1,
    ensures
        u7_at(b.take(k), pos) is None,
{
    let c = b.take(k);
    assert(forall|i: int| 0 <= i < k ==> c[i] == b[i]);
    assert(k - pos == 0 || continues(b, pos));
    assert(k - pos <= 1 || continues(b, pos + 1));
    assert(k - pos <= 2 || continues(b, pos + 2));
}

/// Reading a varint from a buffer gives the same as reading it from any
/// prefix that holds it whole.
pub proof fn lemma_u7_prefix(b: Seq<u8>, pos: int, k: int)
    requires
        u7_at(b, pos) is Some,
        u7_at(b, pos).unwrap().1 <= k <= b.len(),
    ensures
        u7_at(b.take(k), pos) == u7_at(b, pos),
{
    let c = b.take(k);
    assert(forall|i: int| 0 <= i < k ==> c[i] == b[i]);
    assert(u7_len(c, pos) == u7_len(b, pos));
}

} // verus!
