//! Little-endian integers and length-prefixed byte strings.

use vstd::prelude::*;
use vstd::slice::slice_subrange;
use vstd::utf8::*;

verus! {

/// The four little-endian bytes of `x`.
pub open spec fn le_u32(x: u32) -> Seq<u8> {
    seq![
        (x & 0xff) as u8,
        ((x >> 8u32) & 0xff) as u8,
        ((x >> 16u32) & 0xff) as u8,
        ((x >> 24u32) & 0xff) as u8,
    ]
}

/// The number whose little-endian bytes start `b`.
pub open spec fn u32_of_le(b: Seq<u8>) -> u32
    recommends
        b.len() >= 4,
{
    (b[0] as u32) | ((b[1] as u32) << 8u32) | ((b[2] as u32) << 16u32) | ((b[3] as u32) << 24u32)
}

/// The eight little-endian bytes of `x`.
pub open spec fn le_u64(x: u64) -> Seq<u8> {
    le_u32((x & 0xffff_ffff) as u32) + le_u32((x >> 32u64) as u32)
}

/// The number whose little-endian bytes start `b`.
pub open spec fn u64_of_le(b: Seq<u8>) -> u64
    recommends
        b.len() >= 8,
{
    (u32_of_le(b) as u64) | ((u32_of_le(b.skip(4)) as u64) << 32u64)
}

pub proof fn lemma_u32_round_trip(x: u32)
    ensures
        le_u32(x).len() == 4,
        u32_of_le(le_u32(x)) == x,
{
    let b = le_u32(x);
    let (b0, b1, b2, b3) = (b[0], b[1], b[2], b[3]);
    assert(((b0 as u32) | ((b1 as u32) << 8u32) | ((b2 as u32) << 16u32) | ((b3 as u32)
        << 24u32)) == x) by (bit_vector)
        requires
            b0 == (x & 0xff) as u8,
            b1 == ((x >> 8u32) & 0xff) as u8,
            b2 == ((x >> 16u32) & 0xff) as u8,
            b3 == ((x >> 24u32) & 0xff) as u8,
    ;
}

pub proof fn lemma_u32_bytes(b: Seq<u8>)
    requires
        b.len() == 4,
    ensures
        le_u32(u32_of_le(b)) == b,
{
    let (b0, b1, b2, b3) = (b[0], b[1], b[2], b[3]);
    let x = u32_of_le(b);
    assert(b0 == (x & 0xff) as u8 && b1 == ((x >> 8u32) & 0xff) as u8 && b2 == ((x >> 16u32)
        & 0xff) as u8 && b3 == ((x >> 24u32) & 0xff) as u8) by (bit_vector)
        requires
            x == (b0 as u32) | ((b1 as u32) << 8u32) | ((b2 as u32) << 16u32) | ((b3 as u32)
                << 24u32),
    ;
    assert(le_u32(x) =~= b);
}

pub proof fn lemma_u64_round_trip(x: u64)
    ensures
        le_u64(x).len() == 8,
        u64_of_le(le_u64(x)) == x,
{
    let lo = (x & 0xffff_ffff) as u32;
    let hi = (x >> 32u64) as u32;
    lemma_u32_round_trip(lo);
    lemma_u32_round_trip(hi);
    let b = le_u64(x);
    assert(b.skip(4) =~= le_u32(hi));
    assert(u32_of_le(b) == u32_of_le(le_u32(lo)));
    assert(((lo as u64) | ((hi as u64) << 32u64)) == x) by (bit_vector)
        requires
            lo == (x & 0xffff_ffff) as u32,
            hi == (x >> 32u64) as u32,
    ;
}

pub proof fn lemma_u64_bytes(b: Seq<u8>)
    requires
        b.len() == 8,
    ensures
        le_u64(u64_of_le(b)) == b,
{
    let lo = u32_of_le(b);
    let hi = u32_of_le(b.skip(4));
    let x = u64_of_le(b);
    assert(lo == (x & 0xffff_ffff) as u32 && hi == (x >> 32u64) as u32) by (bit_vector)
        requires
            x == (lo as u64) | ((hi as u64) << 32u64),
    ;
    lemma_u32_bytes(b.take(4));
    lemma_u32_bytes(b.skip(4));
    assert(u32_of_le(b.take(4)) == lo);
    assert(le_u64(x) =~= b.take(4) + b.skip(4));
    assert(b.take(4) + b.skip(4) =~= b);
}

/// Appends the little-endian bytes of `x`.
pub fn push_u32(out: &mut Vec<u8>, x: u32)
    ensures
        final(out)@ == old(out)@ + le_u32(x),
{
    out.push((x & 0xff) as u8);
    out.push(((x >> 8u32) & 0xff) as u8);
    out.push(((x >> 16u32) & 0xff) as u8);
    out.push(((x >> 24u32) & 0xff) as u8);
    assert(final(out)@ =~= old(out)@ + le_u32(x));
}

/// Appends the little-endian bytes of `x`.
pub fn push_u64(out: &mut Vec<u8>, x: u64)
    ensures
        final(out)@ == old(out)@ + le_u64(x),
{
    let ghost start = out@;
    push_u32(out, (x & 0xffff_ffff) as u32);
    push_u32(out, (x >> 32u64) as u32);
    assert(out@ =~= start + le_u64(x));
}

/// Reads the little-endian number at `pos`.
pub fn read_u32(buf: &[u8], pos: usize) -> (r: u32)
    requires
        pos + 4 <= buf.len(),
    ensures
        r == u32_of_le(buf@.skip(pos as int)),
{
    (buf[pos] as u32) | ((buf[pos + 1] as u32) << 8u32) | ((buf[pos + 2] as u32) << 16u32) | ((
    buf[pos + 3] as u32) << 24u32)
}

/// Reads the little-endian number at `pos`.
pub fn read_u64(buf: &[u8], pos: usize) -> (r: u64)
    requires
        pos + 8 <= buf.len(),
    ensures
        r == u64_of_le(buf@.skip(pos as int)),
{
    let lo = read_u32(buf, pos);
    let hi = read_u32(buf, pos + 4);
    assert(buf@.skip(pos as int).skip(4) =~= buf@.skip(pos + 4));
    (lo as u64) | ((hi as u64) << 32u64)
}

/// The bytes of a string field: the UTF-8 length as four bytes, then the UTF-8 bytes.
#[verifier::opaque]
pub open spec fn str_field(s: Seq<char>) -> Seq<u8> {
    le_u32(encode_utf8(s).len() as u32) + encode_utf8(s)
}

/// A string that fits a string field.
pub open spec fn fits_field(s: Seq<char>) -> bool {
    encode_utf8(s).len() <= u32::MAX
}

/// Reads a string field from the front of `b`: the string and what follows it.
pub open spec fn parse_str_field(b: Seq<u8>) -> Option<(Seq<char>, Seq<u8>)> {
    if b.len() < 4 {
        None
    } else {
        let n = u32_of_le(b) as int;
        if b.len() < 4 + n || !valid_utf8(b.subrange(4, 4 + n)) {
            None
        } else {
            Some((decode_utf8(b.subrange(4, 4 + n)), b.skip(4 + n)))
        }
    }
}

pub proof fn lemma_str_field_parses(s: Seq<char>, rest: Seq<u8>)
    requires
        fits_field(s),
    ensures
        parse_str_field(str_field(s) + rest) == Some((s, rest)),
{
    reveal(str_field);
    let e = encode_utf8(s);
    let n = e.len() as int;
    let b = str_field(s) + rest;
    lemma_u32_round_trip(e.len() as u32);
    assert(b.take(4) =~= le_u32(e.len() as u32));
    assert(u32_of_le(b) == u32_of_le(b.take(4)));
    assert(b.subrange(4, 4 + n) =~= e);
    encode_utf8_valid_utf8(s);
    encode_utf8_decode_utf8(s);
    assert(b.skip(4 + n) =~= rest);
}

pub proof fn lemma_str_field_unparses(b: Seq<u8>)
    requires
        parse_str_field(b) is Some,
    ensures
        ({
            let (s, rest) = parse_str_field(b)->0;
            fits_field(s) && b == str_field(s) + rest
        }),
{
    reveal(str_field);
    let n = u32_of_le(b) as int;
    let body = b.subrange(4, 4 + n);
    let s = decode_utf8(body);
    decode_utf8_encode_utf8(body);
    assert(encode_utf8(s) == body);
    lemma_u32_bytes(b.take(4));
    assert(u32_of_le(b.take(4)) == u32_of_le(b));
    assert(b =~= le_u32(n as u32) + body + b.skip(4 + n));
}

/// Appends `s` as a string field.
pub fn push_str_field(out: &mut Vec<u8>, s: &str)
    requires
        fits_field(s@),
    ensures
        final(out)@ == old(out)@ + str_field(s@),
{
    reveal(str_field);
    let b = s.as_bytes();
    let ghost start = out@;
    push_u32(out, b.len() as u32);
    let mut i: usize = 0;
    while i < b.len()
        invariant
            i <= b@.len(),
            b@ == encode_utf8(s@),
            out@ == start + le_u32(b@.len() as u32) + b@.take(i as int),
        decreases b@.len() - i,
    {
        out.push(b[i]);
        i += 1;
        assert(out@ =~= start + le_u32(b@.len() as u32) + b@.take(i as int));
    }
    assert(b@.take(i as int) =~= b@);
}

/// Relies on std::str::from_utf8: it accepts exactly the well-formed UTF-8
/// byte strings, and the accepted string holds the characters they encode.
#[verifier::external_body]
fn utf8_to_string(b: &[u8]) -> (r: Option<String>)
    ensures
        match r {
            Some(s) => valid_utf8(b@) && s@ == decode_utf8(b@),
            None => !valid_utf8(b@),
        },
{
    std::str::from_utf8(b).ok().map(|s| s.to_string())
}

/// Reads the string field at `pos`, with the position just past it.
pub fn read_str_field(buf: &[u8], pos: usize) -> (r: Option<(String, usize)>)
    requires
        pos <= buf@.len(),
    ensures
        match r {
            Some((s, next)) => pos <= next <= buf@.len() && parse_str_field(buf@.skip(pos as int))
                == Some((s@, buf@.skip(next as int))),
            None => parse_str_field(buf@.skip(pos as int)) is None,
        },
{
    let ghost b = buf@.skip(pos as int);
    if buf.len() - pos < 4 {
        return None;
    }
    let n = read_u32(buf, pos);
    if buf.len() - pos - 4 < n as usize {
        return None;
    }
    let start = pos + 4;
    let end = start + n as usize;
    let body = slice_subrange(buf, start, end);
    assert(body@ =~= b.subrange(4, 4 + n as int));
    match utf8_to_string(body) {
        Some(s) => {
            assert(buf@.skip(end as int) =~= b.skip(4 + n as int));
            Some((s, end))
        },
        None => None,
    }
}

} // verus!
