//! The digest of a file's content.
//!
//! The content is handed over piece by piece, so that a file need not be
//! held in memory as a whole, and the digest is written in lower-case
//! hexadecimal. The hashing itself is done by the `md-5` crate.

use vstd::prelude::*;
use md5::Digest;

verus! {

#[verifier::external_type_specification]
#[verifier::external_body]
pub struct ExMd5(md5::Md5);

/// The bytes that a hasher has been fed so far, in the order in which they
/// came.
pub uninterp spec fn md5_absorbed(h: md5::Md5) -> Seq<u8>;

/// The MD5 digest of a sequence of bytes, as `md5::Md5` computes it.
pub uninterp spec fn md5_digest(data: Seq<u8>) -> Seq<u8>;

/// Calls `md5::Md5::new`: a hasher that has been fed nothing.
#[verifier::external_body]
fn hasher_new() -> (h: md5::Md5)
    ensures
        md5_absorbed(h) == Seq::<u8>::empty(),
{
    md5::Md5::new()
}

/// Calls `update` of `md5::Digest`, which feeds the bytes to the hasher
/// after those that it has been fed before.
#[verifier::external_body]
fn hasher_update(h: &mut md5::Md5, data: &[u8])
    ensures
        md5_absorbed(*final(h)) == md5_absorbed(*old(h)) + data@,
{
    h.update(data);
}

/// Calls `finalize` of `md5::Digest`. The contract claims that the digest
/// depends only on the bytes that the hasher has been fed, and that it has
/// sixteen bytes.
#[verifier::external_body]
fn hasher_finish(h: md5::Md5) -> (r: Vec<u8>)
    ensures
        r@ == md5_digest(md5_absorbed(h)),
        r@.len() == 16,
{
    h.finalize().to_vec()
}

/// The character for a hexadecimal digit, in lower case.
pub open spec fn hex_char(d: nat) -> char {
    if d == 0 {
        '0'
    } else if d == 1 {
        '1'
    } else if d == 2 {
        '2'
    } else if d == 3 {
        '3'
    } else if d == 4 {
        '4'
    } else if d == 5 {
        '5'
    } else if d == 6 {
        '6'
    } else if d == 7 {
        '7'
    } else if d == 8 {
        '8'
    } else if d == 9 {
        '9'
    } else if d == 10 {
        'a'
    } else if d == 11 {
        'b'
    } else if d == 12 {
        'c'
    } else if d == 13 {
        'd'
    } else if d == 14 {
        'e'
    } else {
        'f'
    }
}

/// The bytes written in lower-case hexadecimal, two digits for each.
pub open spec fn hex_lower(bytes: Seq<u8>) -> Seq<char>
    decreases bytes.len(),
{
    if bytes.len() == 0 {
        Seq::empty()
    } else {
        hex_lower(bytes.drop_last()).push(hex_char((bytes.last() / 16) as nat)).push(
            hex_char((bytes.last() % 16) as nat),
        )
    }
}

fn hex_digit(d: u8) -> (r: char)
    requires
        d < 16,
    ensures
        r == hex_char(d as nat),
{
    if d == 0 {
        '0'
    } else if d == 1 {
        '1'
    } else if d == 2 {
        '2'
    } else if d == 3 {
        '3'
    } else if d == 4 {
        '4'
    } else if d == 5 {
        '5'
    } else if d == 6 {
        '6'
    } else if d == 7 {
        '7'
    } else if d == 8 {
        '8'
    } else if d == 9 {
        '9'
    } else if d == 10 {
        'a'
    } else if d == 11 {
        'b'
    } else if d == 12 {
        'c'
    } else if d == 13 {
        'd'
    } else if d == 14 {
        'e'
    } else {
        'f'
    }
}

/// Writes bytes in lower-case hexadecimal.
pub fn to_hex(bytes: &Vec<u8>) -> (r: String)
    ensures
        r@ == hex_lower(bytes@),
{
    let mut r = String::new();
    let mut i: usize = 0;
    while i < bytes.len()
        invariant
            i <= bytes.len(),
            r@ == hex_lower(bytes@.take(i as int)),
        decreases bytes.len() - i,
    {
        proof {
            assert(bytes@.take(i + 1).drop_last() == bytes@.take(i as int));
        }
        let b = bytes[i];
        r.push(hex_digit(b / 16));
        r.push(hex_digit(b % 16));
        i = i + 1;
    }
    assert(bytes@.take(bytes.len() as int) == bytes@);
    r
}

/// The digest of a content that comes piece by piece.
pub struct ContentDigest {
    hasher: md5::Md5,
}

impl ContentDigest {
    /// The bytes taken in so far.
    pub closed spec fn absorbed(&self) -> Seq<u8> {
        md5_absorbed(self.hasher)
    }

    /// A digest that has taken in nothing yet.
    pub fn new() -> (r: ContentDigest)
        ensures
            r.absorbed() == Seq::<u8>::empty(),
    {
        ContentDigest { hasher: hasher_new() }
    }

    /// Takes in the next piece of the content.
    pub fn update(&mut self, chunk: &[u8])
        ensures
            final(self).absorbed() == old(self).absorbed() + chunk@,
    {
        hasher_update(&mut self.hasher, chunk);
    }

    /// The digest of all that was taken in, in lower-case hexadecimal.
    pub fn finish(self) -> (r: String)
        ensures
            r@ == hex_lower(md5_digest(self.absorbed())),
    {
        let bytes = hasher_finish(self.hasher);
        to_hex(&bytes)
    }
}

/// The pieces in a row.
pub open spec fn concatenated(chunks: Seq<Vec<u8>>) -> Seq<u8>
    decreases chunks.len(),
{
    if chunks.len() == 0 {
        Seq::empty()
    } else {
        concatenated(chunks.drop_last()) + chunks.last()@
    }
}

/// The digest of a content given as its pieces, in lower-case hexadecimal.
pub fn digest_of(chunks: &Vec<Vec<u8>>) -> (r: String)
    ensures
        r@ == hex_lower(md5_digest(concatenated(chunks@))),
{
    let mut digest = ContentDigest::new();
    let mut i: usize = 0;
    while i < chunks.len()
        invariant
            i <= chunks.len(),
            digest.absorbed() == concatenated(chunks@.take(i as int)),
        decreases chunks.len() - i,
    {
        proof {
            assert(chunks@.take(i + 1).drop_last() == chunks@.take(i as int));
        }
        digest.update(chunks[i].as_slice());
        i = i + 1;
    }
    assert(chunks@.take(chunks.len() as int) == chunks@);
    digest.finish()
}

/// The size in bytes above which a file's content is not digested:
/// 100 MiB.
pub const DIGEST_LIMIT: u64 = 104857600;

/// Whether a file of the given size is too large to be digested, so that
/// it is classified without a digest.
pub fn exceeds_digest_limit(size: u64) -> (r: bool)
    ensures
        r == (size > DIGEST_LIMIT),
{
    size > DIGEST_LIMIT
}

} // verus!
