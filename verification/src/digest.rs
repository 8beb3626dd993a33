//! The two outside computations a directory node's identifier rests on:
//! hashing the rendered bytes with SHA-256, and framing the digest as a
//! version-0 content identifier.

use vstd::prelude::*;

verus! {

/// The SHA-256 digest of a byte string: a function of the bytes alone.
pub uninterp spec fn sha256_of(b: Seq<u8>) -> Seq<u8>;

/// Relies on sha2::Sha256 (the `Digest::digest` one-shot interface): the
/// digest is 32 bytes and depends on the input bytes alone.
#[verifier::external_body]
pub fn sha256(b: &Vec<u8>) -> (r: Vec<u8>)
    ensures
        r@ == sha256_of(b@),
        r@.len() == 32,
{
    <sha2::Sha256 as sha2::Digest>::digest(b.as_slice()).to_vec()
}

/// The binary encoding of a version-0 content identifier over a SHA-256
/// digest: the multihash code for SHA-256, the digest length, the digest.
pub open spec fn cid_v0_of(block: Seq<u8>) -> Seq<u8> {
    seq![0x12u8, 0x20u8] + sha256_of(block)
}

/// Relies on multihash::Multihash::wrap and cid::Cid::{new_v0, to_bytes}:
/// a version-0 content identifier encodes as its multihash, which for a
/// 32-byte SHA-256 digest is the code varint 0x12, the size varint 0x20,
/// and the digest bytes.
#[verifier::external_body]
fn cid_v0_bytes(digest: &Vec<u8>) -> (r: Vec<u8>)
    requires
        digest@.len() == 32,
    ensures
        r@ == seq![0x12u8, 0x20u8] + digest@,
{
    let mh = multihash::Multihash::<64>::wrap(0x12, digest.as_slice()).expect(
        "a 32-byte digest fits a 64-byte multihash",
    );
    let cid = cid::Cid::new_v0(mh).expect("a 32-byte sha2-256 multihash makes a valid cid v0");
    cid.to_bytes()
}

/// The content identifier of a rendered directory block: the SHA-256 digest
/// of the exact bytes, framed as a version-0 content identifier.
pub fn cid_of_block(block: &Vec<u8>) -> (r: Vec<u8>)
    ensures
        r@ == cid_v0_of(block@),
{
    let digest = sha256(block);
    cid_v0_bytes(&digest)
}

} // verus!
