//! Firmware pasted as base64 text: the text is cleaned of the line breaks
//! and surrounding blanks that a terminal adds, then decoded with the
//! `base64` crate.

use vstd::prelude::*;
use base64::Engine;
use vstd::string::{StringSliceAdditionalSpecFns, StrSliceExecFns};

verus! {

#[verifier::external_type_specification]
#[verifier::external_body]
pub struct ExDecodeError(base64::DecodeError);

/// What standard, padded base64 decoding makes of some bytes: the bytes
/// they encode, or `None` when they encode none.
pub uninterp spec fn base64_decoded(input: Seq<u8>) -> Option<Seq<u8>>;

/// Relies on the `decode` method of `base64`'s `STANDARD` engine: the bytes
/// that `input` encodes, or an error when it is not valid padded base64.
#[verifier::external_body]
fn base64_decode(input: &Vec<u8>) -> (r: Result<Vec<u8>, base64::DecodeError>)
    ensures
        match r {
            Ok(v) => base64_decoded(input@) == Some(v@),
            Err(_) => base64_decoded(input@) is None,
        },
{
    base64::prelude::BASE64_STANDARD.decode(input)
}

/// Why pasted firmware was refused.
#[derive(Clone, Copy, Debug, PartialEq, Eq, Structural)]
pub enum UploadError {
    /// The text is not base64.
    NotBase64,
}

/// Whether `c` is an ASCII blank: space, tab, line feed, vertical tab, form
/// feed or carriage return.
pub open spec fn is_blank(c: u8) -> bool {
    c == 32 || (9 <= c && c <= 13)
}

/// Whether three bytes encode, in UTF-8, one of the three-byte characters
/// that Unicode counts as white space: U+1680, U+2000 to U+200A, U+2028,
/// U+2029, U+202F, U+205F and U+3000.
pub open spec fn is_blank3(x: u8, y: u8, z: u8) -> bool {
    ||| x == 0xe1 && y == 0x9a && z == 0x80
    ||| x == 0xe2 && y == 0x80 && ((0x80 <= z && z <= 0x8a) || z == 0xa8 || z == 0xa9 || z == 0xaf)
    ||| x == 0xe2 && y == 0x81 && z == 0x9f
    ||| x == 0xe3 && y == 0x80 && z == 0x80
}

/// Whether two bytes encode U+0085 or U+00A0, the two-byte white space
/// characters.
pub open spec fn is_blank2(x: u8, y: u8) -> bool {
    x == 0xc2 && (y == 0x85 || y == 0xa0)
}

/// The length of the white space character (as `char::is_whitespace` has
/// it) that UTF-8 text `b` starts with, or zero.
pub open spec fn lead_blank(b: Seq<u8>) -> nat {
    if b.len() >= 1 && is_blank(b[0]) {
        1
    } else if b.len() >= 2 && is_blank2(b[0], b[1]) {
        2
    } else if b.len() >= 3 && is_blank3(b[0], b[1], b[2]) {
        3
    } else {
        0
    }
}

/// The length of the white space character that UTF-8 text `b` ends with,
/// or zero.
pub open spec fn trail_blank(b: Seq<u8>) -> nat {
    let n = b.len() as int;
    if n >= 1 && is_blank(b[n - 1]) {
        1
    } else if n >= 2 && is_blank2(b[n - 2], b[n - 1]) {
        2
    } else if n >= 3 && is_blank3(b[n - 3], b[n - 2], b[n - 1]) {
        3
    } else {
        0
    }
}

pub open spec fn trim_start(b: Seq<u8>) -> Seq<u8>
    decreases b.len(),
{
    if lead_blank(b) > 0 {
        trim_start(b.skip(lead_blank(b) as int))
    } else {
        b
    }
}

pub open spec fn trim_end(b: Seq<u8>) -> Seq<u8>
    decreases b.len(),
{
    if trail_blank(b) > 0 {
        trim_end(b.take(b.len() - trail_blank(b)))
    } else {
        b
    }
}

/// UTF-8 text `b` without leading and trailing white space, as `str::trim`
/// removes it.
pub open spec fn trim(b: Seq<u8>) -> Seq<u8> {
    trim_end(trim_start(b))
}

/// `b` without any byte `x`.
pub open spec fn without(b: Seq<u8>, x: u8) -> Seq<u8>
    decreases b.len(),
{
    if b.len() == 0 {
        b
    } else if b.last() == x {
        without(b.drop_last(), x)
    } else {
        without(b.drop_last(), x).push(b.last())
    }
}

/// Pasted text as it is decoded: trimmed, carriage returns dropped, trimmed
/// again, line feeds dropped.
pub open spec fn cleaned(b: Seq<u8>) -> Seq<u8> {
    without(trim(without(trim(b), 13)), 10)
}

fn is_blank_byte(c: u8) -> (r: bool)
    ensures
        r == is_blank(c),
{
    c == 32 || (9 <= c && c <= 13)
}

fn is_blank3_bytes(x: u8, y: u8, z: u8) -> (r: bool)
    ensures
        r == is_blank3(x, y, z),
{
    (x == 0xe1 && y == 0x9a && z == 0x80) || (x == 0xe2 && y == 0x80 && ((0x80 <= z && z <= 0x8a)
        || z == 0xa8 || z == 0xa9 || z == 0xaf)) || (x == 0xe2 && y == 0x81 && z == 0x9f) || (x
        == 0xe3 && y == 0x80 && z == 0x80)
}

/// The width of the white space character at `i`, or zero.
fn blank_at(b: &Vec<u8>, i: usize) -> (r: usize)
    requires
        i <= b@.len(),
    ensures
        r == lead_blank(b@.skip(i as int)),
{
    let n = b.len() - i;
    let ghost s = b@.skip(i as int);
    if n >= 1 && is_blank_byte(b[i]) {
        1
    } else if n >= 2 && b[i] == 0xc2 && (b[i + 1] == 0x85 || b[i + 1] == 0xa0) {
        2
    } else if n >= 3 && is_blank3_bytes(b[i], b[i + 1], b[i + 2]) {
        3
    } else {
        0
    }
}

/// The width of the white space character that ends just before `j`, or zero.
fn blank_before(b: &Vec<u8>, start: usize, j: usize) -> (r: usize)
    requires
        start <= j <= b@.len(),
    ensures
        r == trail_blank(b@.skip(start as int).take(j - start)),
{
    let n = j - start;
    let ghost s = b@.skip(start as int).take(j - start);
    assert(forall|k: int| 0 <= k < n ==> s[k] == b@[start + k]);
    if n >= 1 && is_blank_byte(b[j - 1]) {
        1
    } else if n >= 2 && b[j - 2] == 0xc2 && (b[j - 1] == 0x85 || b[j - 1] == 0xa0) {
        2
    } else if n >= 3 && is_blank3_bytes(b[j - 3], b[j - 2], b[j - 1]) {
        3
    } else {
        0
    }
}

fn trimmed(b: &Vec<u8>) -> (r: Vec<u8>)
    ensures
        r@ == trim(b@),
{
    let len = b.len();
    let mut start: usize = 0;
    assert(b@.skip(0) =~= b@);
    loop
        invariant
            len == b@.len(),
            start <= len,
            trim_start(b@) == trim_start(b@.skip(start as int)),
        ensures
            start <= len,
            trim_start(b@) == trim_start(b@.skip(start as int)),
            lead_blank(b@.skip(start as int)) == 0,
        decreases len - start,
    {
        let w = blank_at(b, start);
        if w == 0 {
            break;
        }
        assert(b@.skip(start as int).skip(w as int) =~= b@.skip(start + w));
        start = start + w;
    }
    let ghost t = b@.skip(start as int);
    assert(trim_start(b@) == t);
    let mut end: usize = len;
    assert(t.take(t.len() as int) =~= t);
    loop
        invariant
            len == b@.len(),
            start <= end <= len,
            t == b@.skip(start as int),
            trim_start(b@) == t,
            trim_end(t) == trim_end(t.take(end - start)),
        ensures
            start <= end <= len,
            trim_end(t) == trim_end(t.take(end - start)),
            trail_blank(t.take(end - start)) == 0,
        decreases end,
    {
        let w = blank_before(b, start, end);
        if w == 0 {
            break;
        }
        assert(t.take(end - start).take(end - start - w) =~= t.take(end - w - start));
        end = end - w;
    }
    let mut out: Vec<u8> = Vec::new();
    let mut i: usize = start;
    while i < end
        invariant
            len == b@.len(),
            start <= i <= end <= len,
            out@ == b@.subrange(start as int, i as int),
        decreases end - i,
    {
        out.push(b[i]);
        i = i + 1;
        assert(out@ =~= b@.subrange(start as int, i as int));
    }
    assert(out@ =~= t.take(end - start));
    out
}

fn dropping(b: &Vec<u8>, x: u8) -> (r: Vec<u8>)
    ensures
        r@ == without(b@, x),
{
    let mut out: Vec<u8> = Vec::new();
    let mut i: usize = 0;
    while i < b.len()
        invariant
            i <= b@.len(),
            out@ == without(b@.take(i as int), x),
        decreases b@.len() - i,
    {
        assert(b@.take(i + 1).drop_last() =~= b@.take(i as int));
        if b[i] != x {
            out.push(b[i]);
        }
        i = i + 1;
    }
    assert(b@.take(i as int) =~= b@);
    out
}

/// Decodes firmware pasted as base64 text: trimmed of white space, carriage
/// returns dropped, trimmed again, line feeds dropped, then decoded.
pub fn decode_pasted(src: &str) -> (r: Result<Vec<u8>, UploadError>)
    ensures
        match base64_decoded(cleaned(src.spec_bytes())) {
            Some(v) => r matches Ok(w) && w@ == v,
            None => r == Err::<Vec<u8>, UploadError>(UploadError::NotBase64),
        },
{
    let bytes = src.as_bytes_vec();
    let a = trimmed(&bytes);
    let b = dropping(&a, 13);
    let c = trimmed(&b);
    let d = dropping(&c, 10);
    match base64_decode(&d) {
        Ok(v) => Ok(v),
        Err(_) => Err(UploadError::NotBase64),
    }
}

} // verus!
