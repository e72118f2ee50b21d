//! Little-endian fixed-width fields of the block wire format.

use vstd::prelude::*;

verus! {

use vstd::arithmetic::div_mod::lemma_fundamental_div_mod;

/// The two little-endian bytes of a 16-bit value.
pub open spec fn le16(x: u16) -> Seq<u8> {
    seq![(x % 256) as u8, (x / 256) as u8]
}

/// The four little-endian bytes of a 32-bit value.
pub open spec fn le32(x: u32) -> Seq<u8> {
    seq![
        (x % 256) as u8,
        ((x / 256) % 256) as u8,
        ((x / 65536) % 256) as u8,
        ((x / 16777216) % 256) as u8,
    ]
}

/// The 16-bit value held little-endian at position `p`.
pub open spec fn spec_u16_at(c: Seq<u8>, p: int) -> int {
    c[p] + 256 * c[p + 1]
}

/// The 32-bit value held little-endian at position `p`.
pub open spec fn spec_u32_at(c: Seq<u8>, p: int) -> int {
    c[p] + 256 * c[p + 1] + 65536 * c[p + 2] + 16777216 * c[p + 3]
}

/// Parsing reads back what `le16` wrote.
pub proof fn lemma_le16_parse(c: Seq<u8>, p: int, x: u16)
    requires
        0 <= p,
        p + 2 <= c.len(),
        c.subrange(p, p + 2) == le16(x),
    ensures
        spec_u16_at(c, p) == x,
{
    assert(c[p] == le16(x)[0]);
    assert(c[p + 1] == le16(x)[1]);
    lemma_fundamental_div_mod(x as int, 256);
    assert(x / 256 < 256);
}

/// Parsing reads back what `le32` wrote.
pub proof fn lemma_le32_parse(c: Seq<u8>, p: int, x: u32)
    requires
        0 <= p,
        p + 4 <= c.len(),
        c.subrange(p, p + 4) == le32(x),
    ensures
        spec_u32_at(c, p) == x,
{
    assert(c[p] == le32(x)[0]);
    assert(c[p + 1] == le32(x)[1]);
    assert(c[p + 2] == le32(x)[2]);
    assert(c[p + 3] == le32(x)[3]);
    assert(x == x % 256 + 256 * ((x / 256) % 256) + 65536 * ((x / 65536) % 256) + 16777216 * ((x
        / 16777216) % 256)) by (bit_vector);
}

/// Append a byte to the metadata buffer.
pub fn put_u8(v: &mut Vec<u8>, val: u8)
    ensures
        final(v)@ == old(v)@.push(val),
{
    v.push(val);
}

/// Append a 16-bit value, little-endian.
pub fn put_u16(v: &mut Vec<u8>, val: u16)
    ensures
        final(v)@ == old(v)@ + le16(val),
{
    let lo: u8 = (val % 256) as u8;
    let hi: u8 = (val / 256) as u8;
    v.push(lo);
    v.push(hi);
    proof {
        assert(v@ =~= old(v)@ + le16(val));
    }
}

/// Append a 32-bit value, little-endian.
pub fn put_u32(v: &mut Vec<u8>, val: u32)
    ensures
        final(v)@ == old(v)@ + le32(val),
{
    let b0: u8 = (val % 256) as u8;
    let b1: u8 = ((val / 256) % 256) as u8;
    let b2: u8 = ((val / 65536) % 256) as u8;
    let b3: u8 = ((val / 16777216) % 256) as u8;
    v.push(b0);
    v.push(b1);
    v.push(b2);
    v.push(b3);
    proof {
        assert(v@ =~= old(v)@ + le32(val));
    }
}

/// Read a byte at `p`; returns the next position and the value.
pub fn get_u8(v: &[u8], p: usize) -> (r: (usize, u8))
    requires
        p + 1 <= v@.len(),
    ensures
        r.0 == p + 1,
        r.1 == v@[p as int],
{
    let n = v.len();
    assert(p + 1 <= n);
    (p + 1, v[p])
}

/// Read a little-endian 16-bit value at `p`.
pub fn get_u16(v: &[u8], p: usize) -> (r: (usize, u16))
    requires
        p + 2 <= v@.len(),
    ensures
        r.0 == p + 2,
        r.1 == spec_u16_at(v@, p as int),
{
    let n = v.len();
    assert(p + 2 <= n);
    let lo = v[p];
    let hi = v[p + 1];
    let x: u16 = ((hi as u16) << 8) | (lo as u16);
    proof {
        assert(((hi as u16) << 8) | (lo as u16) == (hi as u16) * 256 + (lo as u16))
            by (bit_vector);
    }
    (p + 2, x)
}

/// Read a little-endian 32-bit value at `p`.
pub fn get_u32(v: &[u8], p: usize) -> (r: (usize, u32))
    requires
        p + 4 <= v@.len(),
    ensures
        r.0 == p + 4,
        r.1 == spec_u32_at(v@, p as int),
{
    let n = v.len();
    assert(p + 4 <= n);
    let b0 = v[p];
    let b1 = v[p + 1];
    let b2 = v[p + 2];
    let b3 = v[p + 3];
    let x: u32 = ((b3 as u32) << 24) | ((b2 as u32) << 16) | ((b1 as u32) << 8) | (b0 as u32);
    proof {
        assert(((b3 as u32) << 24) | ((b2 as u32) << 16) | ((b1 as u32) << 8) | (b0 as u32) == (
        b0 as u32) + 256 * (b1 as u32) + 65536 * (b2 as u32) + 16777216 * (b3 as u32))
            by (bit_vector);
    }
    (p + 4, x)
}

} // verus!
