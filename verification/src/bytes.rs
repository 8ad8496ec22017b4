//! Fixed-width integers on the wire, in both byte orders, and the one
//! conversion from bytes to text that the codecs need.

use vstd::prelude::*;
use vstd::utf8::*;
use vstd::string::*;

verus! {

/// The two bytes of `x`, most significant first.
pub open spec fn spec_u16_be(x: u16) -> Seq<u8> {
    seq![(x / 256) as u8, (x % 256) as u8]
}

/// The number whose big-endian bytes are the first two of `s`.
pub open spec fn spec_u16_from_be(s: Seq<u8>) -> u16 {
    (s[0] as int * 256 + s[1] as int) as u16
}

/// The two bytes of `x`, least significant first.
pub open spec fn spec_u16_le(x: u16) -> Seq<u8> {
    seq![(x % 256) as u8, (x / 256) as u8]
}

/// The number whose little-endian bytes are the first two of `s`.
pub open spec fn spec_u16_from_le(s: Seq<u8>) -> u16 {
    (s[1] as int * 256 + s[0] as int) as u16
}

/// The four bytes of `x`, most significant first.
pub open spec fn spec_u32_be(x: u32) -> Seq<u8> {
    seq![
        (x / 0x100_0000) as u8,
        ((x / 0x1_0000) % 256) as u8,
        ((x / 0x100) % 256) as u8,
        (x % 256) as u8,
    ]
}

/// The number whose big-endian bytes are the first four of `s`.
pub open spec fn spec_u32_from_be(s: Seq<u8>) -> u32 {
    (((s[0] as int * 256 + s[1] as int) * 256 + s[2] as int) * 256 + s[3] as int) as u32
}

/// The four bytes of `x`, least significant first.
pub open spec fn spec_u32_le(x: u32) -> Seq<u8> {
    seq![
        (x % 256) as u8,
        ((x / 0x100) % 256) as u8,
        ((x / 0x1_0000) % 256) as u8,
        (x / 0x100_0000) as u8,
    ]
}

/// The number whose little-endian bytes are the first four of `s`.
pub open spec fn spec_u32_from_le(s: Seq<u8>) -> u32 {
    (((s[3] as int * 256 + s[2] as int) * 256 + s[1] as int) * 256 + s[0] as int) as u32
}

/// The eight bytes of `x`, most significant first: the high word, then the low.
pub open spec fn spec_u64_be(x: u64) -> Seq<u8> {
    spec_u32_be((x / 0x1_0000_0000) as u32) + spec_u32_be((x % 0x1_0000_0000) as u32)
}

/// The number whose big-endian bytes are the first eight of `s`.
pub open spec fn spec_u64_from_be(s: Seq<u8>) -> u64 {
    (spec_u32_from_be(s.subrange(0, 4)) as int * 0x1_0000_0000 + spec_u32_from_be(
        s.subrange(4, 8),
    ) as int) as u64
}

/// Reading back what was written gives the number again.
pub proof fn lemma_u16_roundtrip(x: u16)
    ensures
        spec_u16_be(x).len() == 2,
        spec_u16_le(x).len() == 2,
        spec_u16_from_be(spec_u16_be(x)) == x,
        spec_u16_from_le(spec_u16_le(x)) == x,
{
}

/// Writing what was read gives the two bytes again.
pub proof fn lemma_u16_bytes_roundtrip(s: Seq<u8>)
    requires
        s.len() == 2,
    ensures
        spec_u16_be(spec_u16_from_be(s)) == s,
        spec_u16_le(spec_u16_from_le(s)) == s,
{
    assert(spec_u16_be(spec_u16_from_be(s)) =~= s);
    assert(spec_u16_le(spec_u16_from_le(s)) =~= s);
}

/// Reading back what was written gives the number again.
pub proof fn lemma_u32_roundtrip(x: u32)
    ensures
        spec_u32_be(x).len() == 4,
        spec_u32_le(x).len() == 4,
        spec_u32_from_be(spec_u32_be(x)) == x,
        spec_u32_from_le(spec_u32_le(x)) == x,
{
}

/// Writing what was read gives the four bytes again.
pub proof fn lemma_u32_bytes_roundtrip(s: Seq<u8>)
    requires
        s.len() == 4,
    ensures
        spec_u32_be(spec_u32_from_be(s)) == s,
        spec_u32_le(spec_u32_from_le(s)) == s,
{
    lemma_base256_digits(s[0], s[1], s[2], s[3]);
    lemma_base256_digits(s[3], s[2], s[1], s[0]);
    assert(spec_u32_be(spec_u32_from_be(s)) =~= s);
    assert(spec_u32_le(spec_u32_from_le(s)) =~= s);
}

/// The base-256 digits of a four-digit number are the digits it was made of.
proof fn lemma_base256_digits(a: u8, b: u8, c: u8, d: u8)
    ensures
        ({
            let x: int = ((a as int * 256 + b as int) * 256 + c as int) * 256 + d as int;
            &&& 0 <= x < 0x1_0000_0000
            &&& x / 0x100_0000 == a
            &&& (x / 0x1_0000) % 256 == b
            &&& (x / 0x100) % 256 == c
            &&& x % 256 == d
        }),
{
    let x: int = ((a as int * 256 + b as int) * 256 + c as int) * 256 + d as int;
    let y: int = (a as int * 256 + b as int) * 256 + c as int;
    let z: int = a as int * 256 + b as int;
    assert(x == y * 256 + d);
    assert(x / 256 == y && x % 256 == d);
    assert(y / 256 == z && y % 256 == c);
    assert(z / 256 == a && z % 256 == b);
    assert(x / 0x1_0000 == z);
    assert(x / 0x100_0000 == a);
}

/// Reading back what was written gives the number again.
pub proof fn lemma_u64_roundtrip(x: u64)
    ensures
        spec_u64_be(x).len() == 8,
        spec_u64_from_be(spec_u64_be(x)) == x,
{
    let hi: u32 = (x / 0x1_0000_0000) as u32;
    let lo: u32 = (x % 0x1_0000_0000) as u32;
    lemma_u32_roundtrip(hi);
    lemma_u32_roundtrip(lo);
    assert(spec_u64_be(x).subrange(0, 4) =~= spec_u32_be(hi));
    assert(spec_u64_be(x).subrange(4, 8) =~= spec_u32_be(lo));
}

/// Writing what was read gives the eight bytes again.
pub proof fn lemma_u64_bytes_roundtrip(s: Seq<u8>)
    requires
        s.len() == 8,
    ensures
        spec_u64_be(spec_u64_from_be(s)) == s,
{
    let hi: u32 = spec_u32_from_be(s.subrange(0, 4));
    let lo: u32 = spec_u32_from_be(s.subrange(4, 8));
    lemma_u32_bytes_roundtrip(s.subrange(0, 4));
    lemma_u32_bytes_roundtrip(s.subrange(4, 8));
    let x: u64 = spec_u64_from_be(s);
    assert((x / 0x1_0000_0000) as u32 == hi);
    assert((x % 0x1_0000_0000) as u32 == lo);
    assert(spec_u64_be(x) =~= s);
}

/// Appends the big-endian bytes of `x`.
pub fn push_u16_be(out: &mut Vec<u8>, x: u16)
    ensures
        final(out)@ == old(out)@ + spec_u16_be(x),
{
    out.push((x / 256) as u8);
    out.push((x % 256) as u8);
    assert(out@ =~= old(out)@ + spec_u16_be(x));
}

/// Appends the big-endian bytes of `x`.
pub fn push_u32_be(out: &mut Vec<u8>, x: u32)
    ensures
        final(out)@ == old(out)@ + spec_u32_be(x),
{
    out.push((x / 0x100_0000) as u8);
    out.push(((x / 0x1_0000) % 256) as u8);
    out.push(((x / 0x100) % 256) as u8);
    out.push((x % 256) as u8);
    assert(out@ =~= old(out)@ + spec_u32_be(x));
}

/// Appends the little-endian bytes of `x`.
pub fn push_u32_le(out: &mut Vec<u8>, x: u32)
    ensures
        final(out)@ == old(out)@ + spec_u32_le(x),
{
    out.push((x % 256) as u8);
    out.push(((x / 0x100) % 256) as u8);
    out.push(((x / 0x1_0000) % 256) as u8);
    out.push((x / 0x100_0000) as u8);
    assert(out@ =~= old(out)@ + spec_u32_le(x));
}

/// Appends the big-endian bytes of `x`.
pub fn push_u64_be(out: &mut Vec<u8>, x: u64)
    ensures
        final(out)@ == old(out)@ + spec_u64_be(x),
{
    let ghost start: Seq<u8> = out@;
    let hi: u32 = (x / 0x1_0000_0000) as u32;
    let lo: u32 = (x % 0x1_0000_0000) as u32;
    push_u32_be(out, hi);
    push_u32_be(out, lo);
    assert(out@ =~= start + spec_u64_be(x));
}

/// Appends every byte of `src`.
pub fn push_all(out: &mut Vec<u8>, src: &[u8])
    ensures
        final(out)@ == old(out)@ + src@,
{
    let mut i: usize = 0;
    while i < src.len()
        invariant
            i <= src.len(),
            out@ == old(out)@ + src@.subrange(0, i as int),
        decreases src.len() - i,
    {
        out.push(src[i]);
        i += 1;
        assert(out@ =~= old(out)@ + src@.subrange(0, i as int));
    }
    assert(src@.subrange(0, src.len() as int) =~= src@);
}

/// The big-endian number in the two bytes of `b` that start at `at`.
pub fn read_u16_be(b: &[u8], at: usize) -> (x: u16)
    requires
        at + 2 <= b.len(),
    ensures
        x == spec_u16_from_be(b@.subrange(at as int, at + 2)),
{
    (b[at] as u16) * 256 + (b[at + 1] as u16)
}

/// The little-endian number in the two bytes of `b` that start at `at`.
pub fn read_u16_le(b: &[u8], at: usize) -> (x: u16)
    requires
        at + 2 <= b.len(),
    ensures
        x == spec_u16_from_le(b@.subrange(at as int, at + 2)),
{
    (b[at + 1] as u16) * 256 + (b[at] as u16)
}

/// The big-endian number in the four bytes of `b` that start at `at`.
pub fn read_u32_be(b: &[u8], at: usize) -> (x: u32)
    requires
        at + 4 <= b.len(),
    ensures
        x == spec_u32_from_be(b@.subrange(at as int, at + 4)),
{
    (((b[at] as u32) * 256 + (b[at + 1] as u32)) * 256 + (b[at + 2] as u32)) * 256 + (b[at
        + 3] as u32)
}

/// The little-endian number in the four bytes of `b` that start at `at`.
pub fn read_u32_le(b: &[u8], at: usize) -> (x: u32)
    requires
        at + 4 <= b.len(),
    ensures
        x == spec_u32_from_le(b@.subrange(at as int, at + 4)),
{
    (((b[at + 3] as u32) * 256 + (b[at + 2] as u32)) * 256 + (b[at + 1] as u32)) * 256 + (b[at] as u32)
}

/// The big-endian number in the eight bytes of `b` that start at `at`.
pub fn read_u64_be(b: &[u8], at: usize) -> (x: u64)
    requires
        at + 8 <= b.len(),
    ensures
        x == spec_u64_from_be(b@.subrange(at as int, at + 8)),
{
    let hi: u32 = read_u32_be(b, at);
    let lo: u32 = read_u32_be(b, at + 4);
    proof {
        let s: Seq<u8> = b@.subrange(at as int, at + 8);
        assert(s.subrange(0, 4) =~= b@.subrange(at as int, at + 4));
        assert(s.subrange(4, 8) =~= b@.subrange(at + 4, at + 8));
    }
    (hi as u64) * 0x1_0000_0000 + (lo as u64)
}

/// Whether every byte is a 7-bit character other than NUL.
pub open spec fn ascii_safe(s: Seq<u8>) -> bool {
    forall|i: int| 0 <= i < s.len() ==> 0 < #[trigger] s[i] < 128
}

/// The characters that a run of 7-bit bytes spells.
pub open spec fn ascii_chars(s: Seq<u8>) -> Seq<char> {
    Seq::new(s.len(), |i: int| s[i] as char)
}

/// A run of 7-bit bytes is well-formed UTF-8, one character a byte.
pub proof fn lemma_ascii_is_utf8(s: Seq<u8>)
    requires
        forall|i: int| 0 <= i < s.len() ==> #[trigger] s[i] < 128,
    ensures
        valid_utf8(s),
        encode_utf8(ascii_chars(s)) == s,
        decode_utf8(s) == ascii_chars(s),
{
    let c: Seq<char> = ascii_chars(s);
    assert(is_ascii_chars(c));
    is_ascii_chars_encode_utf8(c);
    assert(encode_utf8(c) =~= s);
    encode_utf8_valid_utf8(c);
    encode_utf8_decode_utf8(c);
}

/// Encoding text and decoding it again gives the text back.
pub proof fn lemma_text_roundtrip(c: Seq<char>)
    ensures
        valid_utf8(encode_utf8(c)),
        decode_utf8(encode_utf8(c)) == c,
{
    encode_utf8_valid_utf8(c);
    encode_utf8_decode_utf8(c);
}

/// Decoding well-formed bytes and encoding the text gives the bytes back.
pub proof fn lemma_bytes_roundtrip(b: Seq<u8>)
    requires
        valid_utf8(b),
    ensures
        encode_utf8(decode_utf8(b)) == b,
{
    decode_utf8_encode_utf8(b);
}

/// The text that `b` spells, where `b` is well-formed UTF-8.
pub fn string_of(b: &[u8]) -> (r: Option<String>)
    ensures
        r is Some <==> valid_utf8(b@),
        r is Some ==> r.unwrap()@ == decode_utf8(b@),
{
    match text_of(b) {
        Some(s) => {
            proof {
                lemma_text_roundtrip(s@);
            }
            Some(s.to_owned())
        },
        None => None,
    }
}

/// Whether two texts are the same.
pub fn same_text(a: &str, b: &str) -> (r: bool)
    ensures
        r == (a@ == b@),
{
    let x: &[u8] = a.as_bytes();
    let y: &[u8] = b.as_bytes();
    proof {
        lemma_text_roundtrip(a@);
        lemma_text_roundtrip(b@);
    }
    if x.len() != y.len() {
        return false;
    }
    let mut i: usize = 0;
    while i < x.len()
        invariant
            i <= x@.len(),
            x@.len() == y@.len(),
            a@ == b@ ==> x@ == y@,
            forall|k: int| 0 <= k < i ==> x@[k] == y@[k],
        decreases x@.len() - i,
    {
        if x[i] != y[i] {
            return false;
        }
        i += 1;
    }
    assert(x@ =~= y@);
    true
}

/// Calls `core::str::from_utf8`: the bytes as text where they are
/// well-formed UTF-8, the same bytes under another type, and nothing
/// otherwise.
#[verifier::external_body]
pub(crate) fn text_of<'a>(b: &'a [u8]) -> (r: Option<&'a str>)
    ensures
        r is Some <==> valid_utf8(b@),
        r is Some ==> r.unwrap().spec_bytes() == b@,
{
    core::str::from_utf8(b).ok()
}

} // verus!
