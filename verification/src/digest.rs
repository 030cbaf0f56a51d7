//! The content digest of a file's bytes, as the manifest records it.

use vstd::prelude::*;

use sha2::Digest;

verus! {

use crate::entry::{Entry, EntryModel};

/// The SHA-256 digest of a byte sequence.
pub uninterp spec fn sha256_of(data: Seq<u8>) -> Seq<u8>;

/// The lowercase hexadecimal digit for one value below sixteen.
pub open spec fn hex_digit(d: int) -> char {
    if d == 0 {
        '0'
    } else if d == 1 {
        '1'
    } else if d == 2 {
        '2'
    } else if d == 3 {
        '3'
    } else if d == 4 {
        '4'
    } else if d == 5 {
        '5'
    } else if d == 6 {
        '6'
    } else if d == 7 {
        '7'
    } else if d == 8 {
        '8'
    } else if d == 9 {
        '9'
    } else if d == 10 {
        'a'
    } else if d == 11 {
        'b'
    } else if d == 12 {
        'c'
    } else if d == 13 {
        'd'
    } else if d == 14 {
        'e'
    } else {
        'f'
    }
}

/// The lowercase hexadecimal rendering of a byte sequence: two digits per
/// byte, high nibble first.
pub open spec fn hex_of(data: Seq<u8>) -> Seq<char>
    decreases data.len(),
{
    if data.len() == 0 {
        Seq::empty()
    } else {
        seq![
            hex_digit((data.first() as int) / 16),
            hex_digit((data.first() as int) % 16),
        ] + hex_of(data.drop_first())
    }
}

/// The digest string the manifest stores for a file with these bytes.
pub open spec fn spec_digest(data: Seq<u8>) -> Seq<char> {
    hex_of(sha256_of(data))
}

/// The hexadecimal rendering is twice as long as its input.
pub proof fn lemma_hex_of_len(data: Seq<u8>)
    ensures
        hex_of(data).len() == 2 * data.len(),
    decreases data.len(),
{
    if data.len() > 0 {
        lemma_hex_of_len(data.drop_first());
    }
}

/// Relies on sha2's `Sha256::digest`: the digest depends on the input
/// bytes alone and is 32 bytes long.
#[verifier::external_body]
fn sha256_digest(data: &Vec<u8>) -> (r: Vec<u8>)
    ensures
        r@ == sha256_of(data@),
        r@.len() == 32,
{
    sha2::Sha256::digest(data.as_slice()).to_vec()
}

/// Relies on hex::encode: each byte becomes two lowercase hexadecimal
/// digits, high nibble first, in input order.
#[verifier::external_body]
fn hex_encode(data: &Vec<u8>) -> (r: String)
    ensures
        r@ == hex_of(data@),
{
    hex::encode(data.as_slice())
}

/// The digest string of a file's bytes: the lowercase hexadecimal form of
/// their SHA-256 digest, 64 digits long — in particular never empty.
pub fn digest_hex(data: &Vec<u8>) -> (r: String)
    ensures
        r@ == spec_digest(data@),
        r@.len() == 64,
{
    let d = sha256_digest(data);
    proof {
        lemma_hex_of_len(d@);
    }
    hex_encode(&d)
}

impl Entry {
    /// Records the digest of the file's bytes on this entry: 64 hexadecimal
    /// digits, never empty.
    pub fn fill_digest(&mut self, data: &Vec<u8>)
        ensures
            final(self)@ == (EntryModel { hash: spec_digest(data@), ..old(self)@ }),
            final(self).hash@.len() == 64,
    {
        self.hash = digest_hex(data);
    }
}

} // verus!
