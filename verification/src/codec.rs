use vstd::prelude::*;

verus! {

/// The little-endian value of the two bytes of `s` at `off`.
pub open spec fn le_u16(s: Seq<u8>, off: int) -> int {
    s[off] + s[off + 1] * 256
}

/// The little-endian value of the four bytes of `s` at `off`.
pub open spec fn le_u32(s: Seq<u8>, off: int) -> int {
    s[off] + s[off + 1] * 256 + s[off + 2] * 65536 + s[off + 3] * 16777216
}

/// The little-endian value of the eight bytes of `s` at `off`.
pub open spec fn le_u64(s: Seq<u8>, off: int) -> int {
    le_u32(s, off) + le_u32(s, off + 4) * 4294967296
}

/// The little-endian bytes of `x`.
pub open spec fn u16_bytes(x: u16) -> Seq<u8> {
    seq![(x % 256) as u8, (x / 256) as u8]
}

/// The little-endian bytes of `x`.
pub open spec fn u32_bytes(x: u32) -> Seq<u8> {
    seq![
        (x % 256) as u8,
        ((x / 256) % 256) as u8,
        ((x / 65536) % 256) as u8,
        (x / 16777216) as u8,
    ]
}

/// The little-endian bytes of `x`.
pub open spec fn u64_bytes(x: u64) -> Seq<u8> {
    u32_bytes((x % 4294967296) as u32) + u32_bytes((x / 4294967296) as u32)
}

/// Reading the two little-endian bytes of `x` gives `x` back.
pub proof fn lemma_u16_roundtrip(x: u16)
    ensures
        u16_bytes(x).len() == 2,
        le_u16(u16_bytes(x), 0) == x,
{
}

/// Reading the four little-endian bytes of `x` gives `x` back.
pub proof fn lemma_u32_roundtrip(x: u32)
    ensures
        u32_bytes(x).len() == 4,
        le_u32(u32_bytes(x), 0) == x,
{
}

/// Reading the eight little-endian bytes of `x` gives `x` back.
pub proof fn lemma_u64_roundtrip(x: u64)
    ensures
        u64_bytes(x).len() == 8,
        le_u64(u64_bytes(x), 0) == x,
{
    lemma_u32_roundtrip((x % 4294967296) as u32);
    lemma_u32_roundtrip((x / 4294967296) as u32);
    let b = u64_bytes(x);
    assert(b.subrange(0, 4) =~= u32_bytes((x % 4294967296) as u32));
    assert(b.subrange(4, 8) =~= u32_bytes((x / 4294967296) as u32));
    assert(le_u32(b, 0) == le_u32(b.subrange(0, 4), 0));
    assert(le_u32(b, 4) == le_u32(b.subrange(4, 8), 0));
}

/// The little-endian digits of a four-byte value are the bytes it was made from.
pub proof fn lemma_le_u32_digits(a: int, b: int, c: int, d: int)
    requires
        0 <= a < 256,
        0 <= b < 256,
        0 <= c < 256,
        0 <= d < 256,
    ensures
        ({
            let x = a + b * 256 + c * 65536 + d * 16777216;
            &&& 0 <= x < 4294967296
            &&& x % 256 == a
            &&& (x / 256) % 256 == b
            &&& (x / 65536) % 256 == c
            &&& x / 16777216 == d
        }),
{
    let x = a + b * 256 + c * 65536 + d * 16777216;
    let y = b + c * 256 + d * 65536;
    let z = c + d * 256;
    vstd::arithmetic::div_mod::lemma_fundamental_div_mod_converse(x, 256, y, a);
    vstd::arithmetic::div_mod::lemma_fundamental_div_mod_converse(y, 256, z, b);
    vstd::arithmetic::div_mod::lemma_fundamental_div_mod_converse(z, 256, d, c);
    vstd::arithmetic::div_mod::lemma_fundamental_div_mod_converse(x, 65536, z, a + b * 256);
    vstd::arithmetic::div_mod::lemma_fundamental_div_mod_converse(x, 16777216, d, a + b * 256 + c * 65536);
}

/// The little-endian `u16` at `off` in `s`.
pub fn read_u16(s: &[u8], off: usize) -> (r: u16)
    requires
        off + 2 <= s@.len(),
    ensures
        r == le_u16(s@, off as int),
{
    s[off] as u16 + (s[off + 1] as u16) * 256
}

/// The little-endian `u32` at `off` in `s`.
pub fn read_u32(s: &[u8], off: usize) -> (r: u32)
    requires
        off + 4 <= s@.len(),
    ensures
        r == le_u32(s@, off as int),
{
    s[off] as u32 + (s[off + 1] as u32) * 256 + (s[off + 2] as u32) * 65536 + (s[off + 3] as u32)
        * 16777216
}

/// The little-endian `u64` at `off` in `s`.
pub fn read_u64(s: &[u8], off: usize) -> (r: u64)
    requires
        off + 8 <= s@.len(),
    ensures
        r == le_u64(s@, off as int),
{
    let len = s.len();
    assert(off + 8 <= len);
    let lo = read_u32(s, off) as u64;
    let hi = read_u32(s, off + 4) as u64;
    lo + hi * 4294967296
}

/// Appends the little-endian bytes of `x` to `v`.
pub fn push_u16(v: &mut Vec<u8>, x: u16)
    ensures
        final(v)@ == old(v)@ + u16_bytes(x),
{
    v.push((x % 256) as u8);
    v.push((x / 256) as u8);
    assert(final(v)@ =~= old(v)@ + u16_bytes(x));
}

/// Appends the little-endian bytes of `x` to `v`.
pub fn push_u32(v: &mut Vec<u8>, x: u32)
    ensures
        final(v)@ == old(v)@ + u32_bytes(x),
{
    v.push((x % 256) as u8);
    v.push(((x / 256) % 256) as u8);
    v.push(((x / 65536) % 256) as u8);
    v.push((x / 16777216) as u8);
    assert(final(v)@ =~= old(v)@ + u32_bytes(x));
}

/// Appends the little-endian bytes of `x` to `v`.
pub fn push_u64(v: &mut Vec<u8>, x: u64)
    ensures
        final(v)@ == old(v)@ + u64_bytes(x),
{
    push_u32(v, (x % 4294967296) as u32);
    push_u32(v, (x / 4294967296) as u32);
    assert(final(v)@ =~= old(v)@ + u64_bytes(x));
}

/// The little-endian bytes of `x`.
pub fn u32_to_bytes(x: u32) -> (r: Vec<u8>)
    ensures
        r@ == u32_bytes(x),
{
    let mut v: Vec<u8> = Vec::new();
    push_u32(&mut v, x);
    assert(v@ =~= u32_bytes(x));
    v
}

} // verus!
