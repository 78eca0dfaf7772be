//! HMAC-MD5 challenge/response material (RFC 2104 with MD5): the key is
//! padded to a 64-byte block (hashed first when longer), XORed with the
//! inner pad 0x36 and the outer pad 0x5c, and digested twice.

use crate::encoding::{b64_encode, b64_of, md5_digest, md5_of, random_byte, spec_hex_lower, to_hex_lower};
use vstd::prelude::*;
use vstd::string::StringExecFns;

verus! {

/// The 64-byte key block: the key itself zero-padded, or its MD5 digest
/// zero-padded when the key is longer than one block.
pub open spec fn spec_key_block(key: Seq<u8>) -> Seq<u8> {
    if key.len() > 64 {
        md5_of(key) + Seq::new(48, |i: int| 0u8)
    } else {
        key + Seq::new((64 - key.len()) as nat, |i: int| 0u8)
    }
}

pub open spec fn spec_xor_pad(block: Seq<u8>, pad: u8) -> Seq<u8> {
    block.map_values(|b: u8| b ^ pad)
}

/// HMAC-MD5(key, msg) = MD5((K' ^ opad) || MD5((K' ^ ipad) || msg)).
pub open spec fn spec_hmac_md5(key: Seq<u8>, msg: Seq<u8>) -> Seq<u8> {
    md5_of(
        spec_xor_pad(spec_key_block(key), 0x5c) + md5_of(
            spec_xor_pad(spec_key_block(key), 0x36) + msg,
        ),
    )
}

fn key_block(key: &[u8]) -> (r: Vec<u8>)
    ensures
        r@ == spec_key_block(key@),
{
    let mut block: Vec<u8> = Vec::new();
    let zeros: usize;
    if key.len() > 64 {
        let digest = md5_digest(key);
        append_bytes(&mut block, digest.as_slice());
        zeros = 48;
    } else {
        append_bytes(&mut block, key);
        zeros = 64 - key.len();
    }
    let ghost before = block@;
    let mut z: usize = 0;
    while z < zeros
        invariant
            z <= zeros,
            block@ == before + Seq::new(z as nat, |i: int| 0u8),
        decreases zeros - z,
    {
        block.push(0u8);
        proof {
            assert(before + Seq::new((z + 1) as nat, |i: int| 0u8) =~= (before + Seq::new(
                z as nat,
                |i: int| 0u8,
            )).push(0u8));
        }
        z += 1;
    }
    proof {
        if key@.len() > 64 {
            assert(block@ =~= spec_key_block(key@));
        } else {
            assert(block@ =~= spec_key_block(key@));
        }
    }
    block
}

fn append_bytes(dst: &mut Vec<u8>, src: &[u8])
    ensures
        final(dst)@ == old(dst)@ + src@,
{
    let mut i: usize = 0;
    let n = src.len();
    while i < n
        invariant
            n == src@.len(),
            i <= n,
            dst@ == old(dst)@ + src@.take(i as int),
        decreases n - i,
    {
        dst.push(src[i]);
        proof {
            assert(old(dst)@ + src@.take((i + 1) as int) =~= (old(dst)@ + src@.take(
                i as int,
            )).push(src@[i as int]));
        }
        i += 1;
    }
    assert(old(dst)@ + src@.take(n as int) =~= old(dst)@ + src@);
}

fn xor_pad(block: &Vec<u8>, pad: u8) -> (r: Vec<u8>)
    ensures
        r@ == spec_xor_pad(block@, pad),
{
    let mut out: Vec<u8> = Vec::new();
    let mut i: usize = 0;
    let n = block.len();
    while i < n
        invariant
            n == block@.len(),
            i <= n,
            out@.len() == i,
            forall|k: int| 0 <= k < i ==> out@[k] == #[trigger] block@[k] ^ pad,
        decreases n - i,
    {
        out.push(block[i] ^ pad);
        i += 1;
    }
    assert(out@ =~= spec_xor_pad(block@, pad));
    out
}

/// The lowercase hex form of HMAC-MD5(key, msg), as the CRAM-MD5 client is
/// expected to send it.
pub fn hmac_md5_hex(key: &[u8], msg: &[u8]) -> (r: Vec<char>)
    ensures
        r@ == spec_hex_lower(spec_hmac_md5(key@, msg@)),
{
    let block = key_block(key);
    let ipad = xor_pad(&block, 0x36);
    let mut inner_data = ipad;
    append_bytes(&mut inner_data, msg);
    let inner_hash = md5_digest(inner_data.as_slice());
    let opad = xor_pad(&block, 0x5c);
    let mut outer_data = opad;
    append_bytes(&mut outer_data, inner_hash.as_slice());
    let outer_hash = md5_digest(outer_data.as_slice());
    to_hex_lower(&outer_hash)
}

/// A fresh CRAM-MD5 challenge holds 16 random bytes in base64 between fixed
/// delimiters.
pub open spec fn is_cram_challenge(ch: Seq<char>) -> bool {
    exists|bs: Seq<u8>|
        bs.len() == 16 && ch == "<"@ + b64_of(bs) + "@mailfang.com>"@
}

/// A fixed challenge value that witnesses satisfiability of
/// `is_cram_challenge`.
pub open spec fn default_challenge() -> Seq<char> {
    "<"@ + b64_of(Seq::new(16, |i: int| 0u8)) + "@mailfang.com>"@
}

pub proof fn lemma_default_challenge()
    ensures
        is_cram_challenge(default_challenge()),
{
    let bs = Seq::new(16, |i: int| 0u8);
    assert(bs.len() == 16 && default_challenge() == "<"@ + b64_of(bs) + "@mailfang.com>"@);
}

/// Builds the server's CRAM-MD5 challenge string from 16 random bytes: one
/// opening bracket, 24 base64 characters, and the fixed 14-character domain
/// suffix.
pub fn generate_cram_md5_challenge() -> (r: String)
    ensures
        is_cram_challenge(r@),
        r@.len() == 39,
{
    let mut bytes: Vec<u8> = Vec::new();
    let mut i: usize = 0;
    while i < 16
        invariant
            i <= 16,
            bytes@.len() == i,
        decreases 16 - i,
    {
        bytes.push(random_byte());
        i += 1;
    }
    let encoded = b64_encode(bytes.as_slice());
    let mut challenge = String::from_str("<");
    challenge.append(encoded.as_str());
    challenge.append("@mailfang.com>");
    proof {
        let ghost bs = bytes@;
        assert(bs.len() == 16 && challenge@ == "<"@ + b64_of(bs) + "@mailfang.com>"@);
        reveal_strlit("<");
        reveal_strlit("@mailfang.com>");
        assert(challenge@.len() == 1 + 24 + 14);
    }
    challenge
}

} // verus!
