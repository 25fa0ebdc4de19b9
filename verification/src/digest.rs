//! The digest primitive: SHA-256 for leaf hashing, internal-node hashing
//! (ordered concatenation of two child digests), and lowercase hexadecimal
//! rendering of digests.

use vstd::prelude::*;
use sha2::Digest;

verus! {

/// The SHA-256 digest of a byte sequence. The digest is a pure function of
/// the input bytes alone; its value is left abstract and supplied at run
/// time by the `sha2` crate.
pub uninterp spec fn sha256_of(data: Seq<u8>) -> Seq<u8>;

/// Digest of an internal node: SHA-256 over the left child's digest
/// followed by the right child's digest, in that order.
pub open spec fn internal_hash(left: Seq<u8>, right: Seq<u8>) -> Seq<u8> {
    sha256_of(left + right)
}

/// The lowercase hexadecimal digit for a value below sixteen.
pub open spec fn nibble_char(v: int) -> char
    recommends
        0 <= v < 16,
{
    if v == 0 {
        '0'
    } else if v == 1 {
        '1'
    } else if v == 2 {
        '2'
    } else if v == 3 {
        '3'
    } else if v == 4 {
        '4'
    } else if v == 5 {
        '5'
    } else if v == 6 {
        '6'
    } else if v == 7 {
        '7'
    } else if v == 8 {
        '8'
    } else if v == 9 {
        '9'
    } else if v == 10 {
        'a'
    } else if v == 11 {
        'b'
    } else if v == 12 {
        'c'
    } else if v == 13 {
        'd'
    } else if v == 14 {
        'e'
    } else {
        'f'
    }
}

/// Lowercase hexadecimal encoding: two digits per byte, high nibble first.
pub open spec fn hex_of(bytes: Seq<u8>) -> Seq<char> {
    Seq::new(
        2 * bytes.len(),
        |i: int|
            if i % 2 == 0 {
                nibble_char(bytes[i / 2] as int / 16)
            } else {
                nibble_char(bytes[i / 2] as int % 16)
            },
    )
}

/// Relies on `sha2::Sha256::digest`: the 32-byte SHA-256 digest of the
/// input, determined by the input bytes alone.
#[verifier::external_body]
pub(crate) fn sha256(data: &[u8]) -> (r: Vec<u8>)
    ensures
        r@ == sha256_of(data@),
        r@.len() == 32,
{
    sha2::Sha256::digest(data).to_vec()
}

/// Relies on `hex::encode`: lowercase hexadecimal, two digits per byte,
/// high nibble first.
#[verifier::external_body]
pub(crate) fn to_hex(bytes: &Vec<u8>) -> (r: String)
    ensures
        r@ == hex_of(bytes@),
{
    hex::encode(bytes)
}

/// Digest of two child digests joined left-then-right.
pub(crate) fn internal_hash_bytes(left: &Vec<u8>, right: &Vec<u8>) -> (r: Vec<u8>)
    ensures
        r@ == internal_hash(left@, right@),
        r@.len() == 32,
{
    let mut buf: Vec<u8> = Vec::new();
    let mut i: usize = 0;
    while i < left.len()
        invariant
            i <= left@.len(),
            buf@ == left@.take(i as int),
        decreases left@.len() - i,
    {
        buf.push(left[i]);
        i = i + 1;
    }
    assert(buf@ =~= left@);
    let mut j: usize = 0;
    while j < right.len()
        invariant
            j <= right@.len(),
            buf@ == left@ + right@.take(j as int),
        decreases right@.len() - j,
    {
        proof {
            assert(left@ + right@.take(j as int + 1) =~= (left@ + right@.take(j as int)).push(
                right@[j as int],
            ));
        }
        buf.push(right[j]);
        j = j + 1;
    }
    assert(buf@ =~= left@ + right@);
    sha256(buf.as_slice())
}

/// Byte-for-byte comparison of two byte strings.
pub(crate) fn bytes_eq(a: &[u8], b: &[u8]) -> (r: bool)
    ensures
        r == (a@ == b@),
{
    if a.len() != b.len() {
        return false;
    }
    let mut i: usize = 0;
    while i < a.len()
        invariant
            i <= a@.len(),
            a@.len() == b@.len(),
            forall|j: int| 0 <= j < i ==> a@[j] == b@[j],
        decreases a@.len() - i,
    {
        if a[i] != b[i] {
            return false;
        }
        i = i + 1;
    }
    proof {
        assert(a@ =~= b@);
    }
    true
}

} // verus!
