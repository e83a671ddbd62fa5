//! Hashing and hexadecimal names for objects.
//!
//! An object id is the 40-byte lowercase hexadecimal form of the SHA-1
//! digest of the object's framed bytes.  The digest itself is computed by
//! an outside crate and is only named here; the hexadecimal coding is
//! specified exactly.

use vstd::prelude::*;

use sha1::Digest;

verus! {

/// The SHA-1 digest of a byte sequence.  Named only: the digest is a pure
/// function of the input bytes, computed by the `sha1` crate.
pub uninterp spec fn sha1_of(bytes: Seq<u8>) -> Seq<u8>;

/// Relies on `sha1::Sha1` (RustCrypto): the 20-byte digest is a function of
/// the input bytes alone.
#[verifier::external_body]
pub fn sha1_digest(bytes: &Vec<u8>) -> (r: Vec<u8>)
    ensures
        r@ == sha1_of(bytes@),
        r@.len() == 20,
{
    let mut hasher = sha1::Sha1::new();
    hasher.update(bytes.as_slice());
    hasher.finalize().to_vec()
}

/// The lowercase hexadecimal digit for a value below 16.
pub open spec fn hex_digit(n: u8) -> u8 {
    if n < 10 {
        (48 + n) as u8
    } else {
        (87 + n) as u8
    }
}

/// The numeric value of a lowercase hexadecimal digit.
pub open spec fn hex_val(c: u8) -> u8 {
    if 48 <= c <= 57 {
        (c - 48) as u8
    } else {
        (c - 87) as u8
    }
}

/// Whether `c` is a lowercase hexadecimal digit byte.
pub open spec fn is_hex_digit(c: u8) -> bool {
    (48 <= c <= 57) || (97 <= c <= 102)
}

/// Whether `s` is a lowercase hexadecimal coding of some byte sequence.
pub open spec fn is_hex_lower(s: Seq<u8>) -> bool {
    s.len() % 2 == 0 && forall|i: int| 0 <= i < s.len() ==> is_hex_digit(#[trigger] s[i])
}

/// The lowercase hexadecimal coding of a byte sequence: two digit bytes,
/// high nibble first, for each input byte.
pub open spec fn hex_of(b: Seq<u8>) -> Seq<u8> {
    Seq::new(
        2 * b.len(),
        |i: int|
            if i % 2 == 0 {
                hex_digit(b[i / 2] / 16)
            } else {
                hex_digit(b[i / 2] % 16)
            },
    )
}

/// The byte sequence whose hexadecimal coding is `s`.
pub open spec fn unhex_of(s: Seq<u8>) -> Seq<u8> {
    Seq::new(s.len() / 2, |i: int| (16 * hex_val(s[2 * i]) + hex_val(s[2 * i + 1])) as u8)
}

/// Hexadecimal coding is inverted exactly by `unhex_of`.
pub proof fn lemma_unhex_hex(b: Seq<u8>)
    ensures
        unhex_of(hex_of(b)) =~= b,
        is_hex_lower(hex_of(b)),
{
    assert forall|i: int| 0 <= i < b.len() implies unhex_of(hex_of(b))[i] == b[i] by {
        assert(hex_of(b)[2 * i] == hex_digit(b[i] / 16));
        assert(hex_of(b)[2 * i + 1] == hex_digit(b[i] % 16));
    }
    assert forall|i: int| 0 <= i < hex_of(b).len() implies is_hex_digit(#[trigger] hex_of(b)[i])
    by {
        if i % 2 == 0 {
            assert(hex_of(b)[i] == hex_digit(b[i / 2] / 16));
        } else {
            assert(hex_of(b)[i] == hex_digit(b[i / 2] % 16));
        }
    }
}

/// Every lowercase hexadecimal string is the coding of its decoded bytes.
pub proof fn lemma_hex_unhex(s: Seq<u8>)
    requires
        is_hex_lower(s),
    ensures
        hex_of(unhex_of(s)) =~= s,
{
    assert forall|i: int| 0 <= i < s.len() implies hex_of(unhex_of(s))[i] == s[i] by {
        let j = i / 2;
        assert(is_hex_digit(s[2 * j]) && is_hex_digit(s[2 * j + 1]));
        let v = unhex_of(s)[j];
        assert(v == 16 * hex_val(s[2 * j]) + hex_val(s[2 * j + 1]));
        assert(v / 16 == hex_val(s[2 * j]) && v % 16 == hex_val(s[2 * j + 1])) by (nonlinear_arith)
            requires
                v == 16 * hex_val(s[2 * j]) + hex_val(s[2 * j + 1]),
                hex_val(s[2 * j]) < 16,
                hex_val(s[2 * j + 1]) < 16,
        ;
        if i % 2 == 0 {
            assert(i == 2 * j);
            assert(hex_of(unhex_of(s))[i] == hex_digit(v / 16));
        } else {
            assert(i == 2 * j + 1);
            assert(hex_of(unhex_of(s))[i] == hex_digit(v % 16));
        }
    }
}

/// Relies on `hex::encode`: lowercase, two digits per byte, high nibble
/// first.
#[verifier::external_body]
pub fn hex_encode(b: &Vec<u8>) -> (r: Vec<u8>)
    ensures
        r@ == hex_of(b@),
{
    hex::encode(b.as_slice()).into_bytes()
}

/// Relies on `hex::decode`: a string of lowercase hexadecimal digit pairs
/// decodes to the bytes it codes.
#[verifier::external_body]
pub fn hex_decode(s: &Vec<u8>) -> (r: Option<Vec<u8>>)
    ensures
        match r {
            Some(v) => is_hex_lower(s@) ==> v@ == unhex_of(s@),
            None => !is_hex_lower(s@),
        },
{
    hex::decode(s.as_slice()).ok()
}

/// The 40-byte hexadecimal SHA-1 name of a byte sequence.
pub open spec fn hex_sha1_of(bytes: Seq<u8>) -> Seq<u8> {
    hex_of(sha1_of(bytes))
}

/// Computes the 40-byte hexadecimal SHA-1 name of `bytes`.
pub fn hash_bytes(bytes: &Vec<u8>) -> (r: Vec<u8>)
    ensures
        r@ == hex_sha1_of(bytes@),
        r@.len() == 40,
        is_hex_lower(r@),
{
    let digest = sha1_digest(bytes);
    let r = hex_encode(&digest);
    proof {
        lemma_unhex_hex(digest@);
    }
    r
}

} // verus!
