//! Content digests: every blob, tree and commit is identified by a
//! cryptographic digest of its byte encoding, rendered as a fixed-width
//! lowercase hexadecimal string.  Equal content always yields an equal
//! digest, which makes digest equality a usable stand-in for content
//! equality throughout the store.

use vstd::prelude::*;

verus! {

/// The number of raw digest bytes kept from the hash output.
pub const DIGEST_BYTES: usize = 20;

/// The length of a digest in hexadecimal characters.
pub const DIGEST_HEX_LEN: usize = 40;

/// The hash function's output, as a function of the hashed bytes alone.
/// The hash is cryptographic: this name is never given a definition, and
/// nothing is assumed of it beyond its output length.
pub uninterp spec fn digest_of(data: Seq<u8>) -> Seq<u8>;

/// The lowercase hexadecimal character for a value below 16.
pub open spec fn hex_char_of(v: u8) -> char
    recommends
        v < 16,
{
    if v < 10 {
        (('0' as u8) + v) as char
    } else {
        (('a' as u8) + (v - 10)) as char
    }
}

/// Lowercase hexadecimal rendering of a byte sequence, two characters a byte.
pub open spec fn hex_of(data: Seq<u8>) -> Seq<char>
    decreases data.len(),
{
    if data.len() == 0 {
        Seq::<char>::empty()
    } else {
        seq![hex_char_of(data[0] / 16), hex_char_of(data[0] % 16)] + hex_of(data.drop_first())
    }
}

/// The digest of a byte sequence as this library renders it: the leading
/// bytes of the hash output, in lowercase hexadecimal.
pub open spec fn content_digest(data: Seq<u8>) -> Seq<char> {
    hex_of(digest_of(data).take(DIGEST_BYTES as int))
}

/// Relies on blake3::hash: the hash of the input bytes alone, 32 bytes long.
#[verifier::external_body]
fn blake3_hash(data: &Vec<u8>) -> (r: Vec<u8>)
    ensures
        r@ == digest_of(data@),
        r@.len() == 32,
{
    blake3::hash(data.as_slice()).as_bytes().to_vec()
}

/// Relies on hex::encode: two lowercase hexadecimal digits for each byte,
/// in order.
#[verifier::external_body]
fn hex_encode(data: &Vec<u8>) -> (r: String)
    ensures
        r@ == hex_of(data@),
{
    hex::encode(data.as_slice())
}

proof fn lemma_hex_of_len(data: Seq<u8>)
    ensures
        hex_of(data).len() == 2 * data.len(),
    decreases data.len(),
{
    if data.len() > 0 {
        lemma_hex_of_len(data.drop_first());
    }
}

/// Hash a byte sequence and render it as this library's digest string.
pub fn digest_hex(data: &Vec<u8>) -> (r: String)
    ensures
        r@ == content_digest(data@),
        r@.len() == DIGEST_HEX_LEN as int,
{
    let full = blake3_hash(data);
    let mut lead: Vec<u8> = Vec::new();
    let mut i: usize = 0;
    while i < DIGEST_BYTES
        invariant
            i <= DIGEST_BYTES,
            full@ == digest_of(data@),
            full@.len() == 32,
            lead@ == digest_of(data@).take(i as int),
        decreases DIGEST_BYTES - i,
    {
        lead.push(full[i]);
        assert(lead@ =~= digest_of(data@).take(i + 1));
        i += 1;
    }
    let r = hex_encode(&lead);
    proof {
        lemma_hex_of_len(digest_of(data@).take(DIGEST_BYTES as int));
    }
    r
}

} // verus!
