//! Fixed little-endian byte layout for signed 32-bit integers.
//!
//! Keys and ciphertext are raw concatenations of `i32` values, four bytes
//! each, no padding and no length prefix.  `le_ints` is the canonical
//! reading of such a buffer; serialization contracts are stated over it.

use vstd::prelude::*;

verus! {

/// The two's-complement 32-bit pattern of `x`, as a `u32`.
pub open spec fn u32_of_i32(x: i32) -> u32 {
    if x >= 0 {
        x as u32
    } else {
        (x + 0x1_0000_0000) as u32
    }
}

/// The signed value of a 32-bit pattern.
pub open spec fn i32_of_u32(u: u32) -> i32 {
    if u < 0x8000_0000 {
        u as i32
    } else {
        (u - 0x1_0000_0000) as i32
    }
}

/// The four little-endian bytes of `x`.
pub open spec fn i32_le_bytes(x: i32) -> Seq<u8> {
    let u = u32_of_i32(x);
    seq![
        (u & 0xff) as u8,
        ((u >> 8) & 0xff) as u8,
        ((u >> 16) & 0xff) as u8,
        ((u >> 24) & 0xff) as u8,
    ]
}

/// The `i32` stored little-endian at byte offset `off` of `b`.
pub open spec fn i32_from_le_at(b: Seq<u8>, off: int) -> i32 {
    i32_of_u32(
        (b[off] as u32) | ((b[off + 1] as u32) << 8) | ((b[off + 2] as u32) << 16) | ((b[off + 3]
            as u32) << 24),
    )
}

/// All the `i32` values of a byte buffer read little-endian in order;
/// trailing bytes beyond the last whole group of four are ignored.
pub open spec fn le_ints(b: Seq<u8>) -> Seq<i32> {
    Seq::new((b.len() / 4) as nat, |j: int| i32_from_le_at(b, 4 * j))
}

/// The little-endian bytes of a whole word sequence, in order.
pub open spec fn ints_le_bytes(s: Seq<i32>) -> Seq<u8>
    decreases s.len(),
{
    if s.len() == 0 {
        Seq::empty()
    } else {
        ints_le_bytes(s.drop_last()) + i32_le_bytes(s.last())
    }
}

proof fn lemma_u32_bytes_round_trip(u: u32)
    ensures
        ((u & 0xff) as u8 as u32) | (((u >> 8) & 0xff) as u8 as u32) << 8 | (((u >> 16)
            & 0xff) as u8 as u32) << 16 | (((u >> 24) & 0xff) as u8 as u32) << 24 == u,
{
    assert(((u & 0xff) as u8 as u32) | (((u >> 8) & 0xff) as u8 as u32) << 8 | (((u >> 16)
        & 0xff) as u8 as u32) << 16 | (((u >> 24) & 0xff) as u8 as u32) << 24 == u)
        by (bit_vector);
}

/// Reading back the four little-endian bytes of `x` yields `x` again.
pub proof fn lemma_i32_le_round_trip(b: Seq<u8>, off: int, x: i32)
    requires
        0 <= off,
        off + 4 <= b.len(),
        b[off] == i32_le_bytes(x)[0],
        b[off + 1] == i32_le_bytes(x)[1],
        b[off + 2] == i32_le_bytes(x)[2],
        b[off + 3] == i32_le_bytes(x)[3],
    ensures
        i32_from_le_at(b, off) == x,
{
    let u = u32_of_i32(x);
    lemma_u32_bytes_round_trip(u);
    assert(i32_of_u32(u) == x);
}

/// Reading a serialized word sequence back yields the sequence: the byte
/// layout loses nothing.
pub proof fn lemma_le_ints_of_ints_le_bytes(s: Seq<i32>)
    ensures
        ints_le_bytes(s).len() == 4 * s.len(),
        le_ints(ints_le_bytes(s)) == s,
    decreases s.len(),
{
    if s.len() > 0 {
        let pre = ints_le_bytes(s.drop_last());
        let b = ints_le_bytes(s);
        lemma_le_ints_of_ints_le_bytes(s.drop_last());
        lemma_i32_le_round_trip(b, 4 * (s.len() - 1), s.last());
        assert forall|j: int| 0 <= j < s.len() - 1 implies i32_from_le_at(b, 4 * j) == s[j] by {
            assert(i32_from_le_at(b, 4 * j) == i32_from_le_at(pre, 4 * j));
            assert(le_ints(pre)[j] == i32_from_le_at(pre, 4 * j));
        }
        assert(le_ints(b) =~= s);
    } else {
        assert(le_ints(ints_le_bytes(s)) =~= s);
    }
}

/// Appends the four little-endian bytes of `x`.
pub fn push_i32_le(out: &mut Vec<u8>, x: i32)
    ensures
        final(out)@ == old(out)@ + i32_le_bytes(x),
{
    let u: u32 = if x >= 0 {
        x as u32
    } else {
        ((x as i64) + 0x1_0000_0000i64) as u32
    };
    proof {
        assert(u == u32_of_i32(x));
        assert(u & 0xff < 256 && (u >> 8) & 0xff < 256 && (u >> 16) & 0xff < 256 && (u >> 24)
            & 0xff < 256) by (bit_vector);
    }
    out.push((u & 0xff) as u8);
    out.push(((u >> 8) & 0xff) as u8);
    out.push(((u >> 16) & 0xff) as u8);
    out.push(((u >> 24) & 0xff) as u8);
    proof {
        assert(out@ =~= old(out)@ + i32_le_bytes(x));
    }
}

/// Reads the `i32` stored little-endian at byte offset `off`.
pub fn read_i32_le(b: &Vec<u8>, off: usize) -> (x: i32)
    requires
        off + 4 <= b@.len(),
    ensures
        x == i32_from_le_at(b@, off as int),
{
    let n: usize = b.len();
    proof {
        assert(off + 4 <= n);
    }
    let u: u32 = (b[off] as u32) | ((b[off + 1] as u32) << 8) | ((b[off + 2] as u32) << 16) | ((b[off
        + 3] as u32) << 24);
    if u < 0x8000_0000 {
        u as i32
    } else {
        ((u as i64) - 0x1_0000_0000i64) as i32
    }
}

} // verus!
