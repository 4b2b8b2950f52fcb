//! Fixed-width encodings of `u64`, as specifications and as code.
use vstd::prelude::*;

verus! {

/// The eight bytes of `n`, most significant first.
pub open spec fn u64_be_bytes(n: u64) -> Seq<u8> {
    seq![
        ((n >> 56) & 0xff) as u8,
        ((n >> 48) & 0xff) as u8,
        ((n >> 40) & 0xff) as u8,
        ((n >> 32) & 0xff) as u8,
        ((n >> 24) & 0xff) as u8,
        ((n >> 16) & 0xff) as u8,
        ((n >> 8) & 0xff) as u8,
        (n & 0xff) as u8,
    ]
}

/// The eight bytes of `n`, least significant first.
pub open spec fn u64_le_bytes(n: u64) -> Seq<u8> {
    seq![
        (n & 0xff) as u8,
        ((n >> 8) & 0xff) as u8,
        ((n >> 16) & 0xff) as u8,
        ((n >> 24) & 0xff) as u8,
        ((n >> 32) & 0xff) as u8,
        ((n >> 40) & 0xff) as u8,
        ((n >> 48) & 0xff) as u8,
        ((n >> 56) & 0xff) as u8,
    ]
}

/// The number whose big-endian bytes are the first eight bytes of `s`.
pub open spec fn u64_from_be_bytes(s: Seq<u8>) -> u64 {
    (s[0] as u64) << 56 | (s[1] as u64) << 48 | (s[2] as u64) << 40 | (s[3] as u64) << 32 | (s[4] as u64)
        << 24 | (s[5] as u64) << 16 | (s[6] as u64) << 8 | (s[7] as u64)
}

/// Decoding the big-endian bytes of a number gives the number back.
pub proof fn lemma_be_round_trip(n: u64)
    ensures
        u64_be_bytes(n).len() == 8,
        u64_from_be_bytes(u64_be_bytes(n)) == n,
{
    assert((((n >> 56) & 0xff) as u8 as u64) << 56 | (((n >> 48) & 0xff) as u8 as u64) << 48 | (((n
        >> 40) & 0xff) as u8 as u64) << 40 | (((n >> 32) & 0xff) as u8 as u64) << 32 | (((n >> 24)
        & 0xff) as u8 as u64) << 24 | (((n >> 16) & 0xff) as u8 as u64) << 16 | (((n >> 8) & 0xff) as u8 as u64)
        << 8 | ((n & 0xff) as u8 as u64) == n) by (bit_vector);
}

/// Every sequence of eight bytes is the big-endian encoding of the number it decodes to.
pub proof fn lemma_be_onto(s: Seq<u8>)
    requires
        s.len() == 8,
    ensures
        u64_be_bytes(u64_from_be_bytes(s)) == s,
{
    let (a, b, c, d, e, f, g, h) = (s[0], s[1], s[2], s[3], s[4], s[5], s[6], s[7]);
    let n = u64_from_be_bytes(s);
    assert(n == (a as u64) << 56 | (b as u64) << 48 | (c as u64) << 40 | (d as u64) << 32 | (e as u64) << 24
        | (f as u64) << 16 | (g as u64) << 8 | (h as u64));
    assert(n == (a as u64) << 56 | (b as u64) << 48 | (c as u64) << 40 | (d as u64) << 32 | (e as u64) << 24
        | (f as u64) << 16 | (g as u64) << 8 | (h as u64) ==> ((n >> 56) & 0xff) as u8 == a && ((n >> 48)
        & 0xff) as u8 == b && ((n >> 40) & 0xff) as u8 == c && ((n >> 32) & 0xff) as u8 == d && ((n >> 24)
        & 0xff) as u8 == e && ((n >> 16) & 0xff) as u8 == f && ((n >> 8) & 0xff) as u8 == g && (n
        & 0xff) as u8 == h) by (bit_vector);
    assert(u64_be_bytes(n) =~= s);
}

/// Numbers are ordered as their big-endian bytes are, byte by byte from the front.
pub proof fn lemma_be_order(a: u64, b: u64)
    ensures
        a < b <==> be_less_from(u64_be_bytes(a), u64_be_bytes(b), 0),
        a == b <==> u64_be_bytes(a) == u64_be_bytes(b),
{
    let a0 = (a >> 56) & 0xff;
    let a1 = (a >> 48) & 0xff;
    let a2 = (a >> 40) & 0xff;
    let a3 = (a >> 32) & 0xff;
    let a4 = (a >> 24) & 0xff;
    let a5 = (a >> 16) & 0xff;
    let a6 = (a >> 8) & 0xff;
    let a7 = a & 0xff;
    let b0 = (b >> 56) & 0xff;
    let b1 = (b >> 48) & 0xff;
    let b2 = (b >> 40) & 0xff;
    let b3 = (b >> 32) & 0xff;
    let b4 = (b >> 24) & 0xff;
    let b5 = (b >> 16) & 0xff;
    let b6 = (b >> 8) & 0xff;
    let b7 = b & 0xff;
    assert(a0 <= 0xff && a1 <= 0xff && a2 <= 0xff && a3 <= 0xff && a4 <= 0xff && a5 <= 0xff && a6 <= 0xff
        && a7 <= 0xff) by (bit_vector)
        requires
            a0 == (a >> 56) & 0xff,
            a1 == (a >> 48) & 0xff,
            a2 == (a >> 40) & 0xff,
            a3 == (a >> 32) & 0xff,
            a4 == (a >> 24) & 0xff,
            a5 == (a >> 16) & 0xff,
            a6 == (a >> 8) & 0xff,
            a7 == a & 0xff,
    ;
    assert(b0 <= 0xff && b1 <= 0xff && b2 <= 0xff && b3 <= 0xff && b4 <= 0xff && b5 <= 0xff && b6 <= 0xff
        && b7 <= 0xff) by (bit_vector)
        requires
            b0 == (b >> 56) & 0xff,
            b1 == (b >> 48) & 0xff,
            b2 == (b >> 40) & 0xff,
            b3 == (b >> 32) & 0xff,
            b4 == (b >> 24) & 0xff,
            b5 == (b >> 16) & 0xff,
            b6 == (b >> 8) & 0xff,
            b7 == b & 0xff,
    ;
    assert(a < b <==> (a0 < b0 || (a0 == b0 && (a1 < b1 || (a1 == b1 && (a2 < b2 || (a2 == b2 && (a3 < b3 || (
    a3 == b3 && (a4 < b4 || (a4 == b4 && (a5 < b5 || (a5 == b5 && (a6 < b6 || (a6 == b6 && a7
        < b7))))))))))))))) by (bit_vector)
        requires
            a0 == (a >> 56) & 0xff,
            a1 == (a >> 48) & 0xff,
            a2 == (a >> 40) & 0xff,
            a3 == (a >> 32) & 0xff,
            a4 == (a >> 24) & 0xff,
            a5 == (a >> 16) & 0xff,
            a6 == (a >> 8) & 0xff,
            a7 == a & 0xff,
            b0 == (b >> 56) & 0xff,
            b1 == (b >> 48) & 0xff,
            b2 == (b >> 40) & 0xff,
            b3 == (b >> 32) & 0xff,
            b4 == (b >> 24) & 0xff,
            b5 == (b >> 16) & 0xff,
            b6 == (b >> 8) & 0xff,
            b7 == b & 0xff,
    ;
    reveal_with_fuel(be_less_from, 9);
    lemma_be_round_trip(a);
    lemma_be_round_trip(b);
}

/// Whether `x` comes before `y` when both are compared byte by byte from
/// position `i` on, the first differing byte deciding.
pub open spec fn be_less_from(x: Seq<u8>, y: Seq<u8>, i: int) -> bool
    decreases 8 - i,
{
    if i < 0 || i >= 8 {
        false
    } else {
        x[i] < y[i] || (x[i] == y[i] && be_less_from(x, y, i + 1))
    }
}

/// Encodes `n` as eight bytes, most significant first.
pub fn u64_to_be(n: u64) -> (out: Vec<u8>)
    ensures
        out@ == u64_be_bytes(n),
{
    let mut out: Vec<u8> = Vec::with_capacity(8);
    out.push(((n >> 56) & 0xff) as u8);
    out.push(((n >> 48) & 0xff) as u8);
    out.push(((n >> 40) & 0xff) as u8);
    out.push(((n >> 32) & 0xff) as u8);
    out.push(((n >> 24) & 0xff) as u8);
    out.push(((n >> 16) & 0xff) as u8);
    out.push(((n >> 8) & 0xff) as u8);
    out.push((n & 0xff) as u8);
    assert(out@ =~= u64_be_bytes(n));
    out
}

/// Decodes the first eight bytes of `s` as a big-endian number.
pub(crate) fn u64_from_be(s: &[u8]) -> (n: u64)
    requires
        s@.len() >= 8,
    ensures
        n == u64_from_be_bytes(s@),
{
    (s[0] as u64) << 56 | (s[1] as u64) << 48 | (s[2] as u64) << 40 | (s[3] as u64) << 32 | (s[4] as u64)
        << 24 | (s[5] as u64) << 16 | (s[6] as u64) << 8 | (s[7] as u64)
}

} // verus!
