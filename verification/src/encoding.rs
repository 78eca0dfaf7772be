//! Byte/text encodings the protocol needs: base64 (trusted, named results),
//! MD5 digests (trusted, named result), lowercase hex (verified), random
//! bytes and identifiers (trusted), and UTF-8 decoding (trusted, specified
//! against vstd's UTF-8 model).

use base64::Engine;
use rand::Rng;
use vstd::prelude::*;
use vstd::utf8::{decode_utf8, valid_utf8};

verus! {

// ---------------------------------------------------------------------------
// base64
// ---------------------------------------------------------------------------

/// What the standard base64 engine encodes a byte sequence to.
pub uninterp spec fn b64_of(bytes: Seq<u8>) -> Seq<char>;

/// What the standard base64 engine decodes a (whitespace-trimmed) string to;
/// `None` when the input is not valid base64.
pub uninterp spec fn b64_decode_of(s: Seq<char>) -> Option<Seq<u8>>;

/// Relies on base64's `STANDARD` engine `encode`: the encoding is a function
/// of the bytes alone, `decode` inverts it, and the padded form holds four
/// characters for every three input bytes, rounded up.
#[verifier::external_body]
pub fn b64_encode(data: &[u8]) -> (r: String)
    ensures
        r@ == b64_of(data@),
        b64_decode_of(r@) == Some(data@),
        r@.len() == 4 * ((data@.len() + 2) / 3),
{
    base64::engine::general_purpose::STANDARD.encode(data)
}

/// Relies on base64's `STANDARD` engine `decode`, applied to the trimmed
/// input as the session does: the result is a function of the characters
/// alone.
#[verifier::external_body]
pub fn b64_decode(s: &str) -> (r: Result<Vec<u8>, ()>)
    ensures
        match r {
            Ok(v) => b64_decode_of(s@) == Some(v@),
            Err(()) => b64_decode_of(s@) is None,
        },
{
    match base64::engine::general_purpose::STANDARD.decode(s.trim()) {
        Ok(v) => Ok(v),
        Err(_) => Err(()),
    }
}

// ---------------------------------------------------------------------------
// UTF-8
// ---------------------------------------------------------------------------

/// Relies on `String::from_utf8`: succeeds exactly on valid UTF-8 and keeps
/// the bytes, decoded as vstd's UTF-8 model describes.
#[verifier::external_body]
pub fn string_from_utf8(v: Vec<u8>) -> (r: Result<String, ()>)
    ensures
        match r {
            Ok(s) => valid_utf8(v@) && s@ == decode_utf8(v@),
            Err(()) => !valid_utf8(v@),
        },
{
    match String::from_utf8(v) {
        Ok(s) => Ok(s),
        Err(_) => Err(()),
    }
}

/// Base64-decode, then read the bytes as UTF-8 text.
pub open spec fn spec_b64_utf8(s: Seq<char>) -> Option<Seq<char>> {
    match b64_decode_of(s) {
        Some(bytes) => if valid_utf8(bytes) {
            Some(decode_utf8(bytes))
        } else {
            None
        },
        None => None,
    }
}

/// Decodes a base64 line to text, as every AUTH sub-dialog step does.
pub fn base64_decode(input: &str) -> (r: Result<String, ()>)
    ensures
        match r {
            Ok(d) => spec_b64_utf8(input@) == Some(d@),
            Err(()) => spec_b64_utf8(input@) is None,
        },
{
    let bytes = match b64_decode(input) {
        Ok(v) => v,
        Err(()) => {
            return Err(());
        },
    };
    match string_from_utf8(bytes) {
        Ok(s) => Ok(s),
        Err(()) => Err(()),
    }
}

// ---------------------------------------------------------------------------
// MD5
// ---------------------------------------------------------------------------

/// What `md5::compute` returns: the 16-byte MD5 digest of the input.
pub uninterp spec fn md5_of(bytes: Seq<u8>) -> Seq<u8>;

/// Relies on `md5::compute`: the digest is a function of the input bytes and
/// is 16 bytes long.
#[verifier::external_body]
pub fn md5_digest(data: &[u8]) -> (r: Vec<u8>)
    ensures
        r@ == md5_of(data@),
        r@.len() == 16,
{
    md5::compute(data).0.to_vec()
}

// ---------------------------------------------------------------------------
// Lowercase hex (verified; small enough to state directly)
// ---------------------------------------------------------------------------

/// The lowercase hex digit for a value below 16.
pub open spec fn hex_char(n: int) -> char {
    if n == 0 {
        '0'
    } else if n == 1 {
        '1'
    } else if n == 2 {
        '2'
    } else if n == 3 {
        '3'
    } else if n == 4 {
        '4'
    } else if n == 5 {
        '5'
    } else if n == 6 {
        '6'
    } else if n == 7 {
        '7'
    } else if n == 8 {
        '8'
    } else if n == 9 {
        '9'
    } else if n == 10 {
        'a'
    } else if n == 11 {
        'b'
    } else if n == 12 {
        'c'
    } else if n == 13 {
        'd'
    } else if n == 14 {
        'e'
    } else {
        'f'
    }
}

/// Two lowercase hex digits per byte, high nibble first.
pub open spec fn spec_hex_lower(b: Seq<u8>) -> Seq<char>
    decreases b.len(),
{
    if b.len() == 0 {
        Seq::empty()
    } else {
        seq![hex_char(b.first() as int / 16), hex_char(b.first() as int % 16)] + spec_hex_lower(
            b.drop_first(),
        )
    }
}

fn hex_char_exec(n: u8) -> (r: char)
    requires
        n < 16,
    ensures
        r == hex_char(n as int),
{
    match n {
        0 => '0',
        1 => '1',
        2 => '2',
        3 => '3',
        4 => '4',
        5 => '5',
        6 => '6',
        7 => '7',
        8 => '8',
        9 => '9',
        10 => 'a',
        11 => 'b',
        12 => 'c',
        13 => 'd',
        14 => 'e',
        _ => 'f',
    }
}

/// The lowercase digit character for a value below 16.
pub fn hex_char_exec_pub(n: u8) -> (r: char)
    requires
        n < 16,
    ensures
        r == hex_char(n as int),
{
    hex_char_exec(n)
}

/// Lowercase hex encoding of a byte sequence, as a character vector.
pub fn to_hex_lower(b: &Vec<u8>) -> (r: Vec<char>)
    ensures
        r@ == spec_hex_lower(b@),
{
    let mut out: Vec<char> = Vec::new();
    let mut i: usize = 0;
    let n = b.len();
    assert(b@.skip(0) =~= b@);
    while i < n
        invariant
            n == b@.len(),
            i <= n,
            out@ + spec_hex_lower(b@.skip(i as int)) == spec_hex_lower(b@),
        decreases n - i,
    {
        let byte = b[i];
        proof {
            let rest = b@.skip(i as int);
            assert(rest.len() > 0);
            assert(rest.first() == b@[i as int]);
            assert(rest.drop_first() =~= b@.skip(i + 1));
        }
        out.push(hex_char_exec(byte / 16));
        out.push(hex_char_exec(byte % 16));
        i += 1;
    }
    assert(b@.skip(n as int).len() == 0);
    assert(out@ + spec_hex_lower(b@.skip(n as int)) =~= out@);
    out
}

// ---------------------------------------------------------------------------
// Randomness and identifiers (trusted; nothing is promised of the values)
// ---------------------------------------------------------------------------

/// Relies on `rand::thread_rng` / `Rng::gen::<u8>`: one random byte; nothing
/// is promised of its value.
#[verifier::external_body]
pub fn random_byte() -> u8 {
    rand::thread_rng().gen::<u8>()
}

pub open spec fn is_uuid_char(c: char) -> bool {
    ||| 48 <= c as u32 <= 57
    ||| 97 <= c as u32 <= 102
    ||| c == '-'
}

/// Relies on `uuid::Uuid::new_v4` / `Uuid::to_string`: the hyphenated form
/// is 36 characters of lowercase hex and hyphens; the value itself is random
/// and nothing more is promised of it.
#[verifier::external_body]
pub fn new_uuid() -> (r: String)
    ensures
        r@.len() == 36,
        forall|i: int| 0 <= i < 36 ==> is_uuid_char(#[trigger] r@[i]),
{
    uuid::Uuid::new_v4().to_string()
}

} // verus!
