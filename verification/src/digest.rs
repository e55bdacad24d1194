//! SHA-1 digests of pieces and of the metainfo's `info` dictionary, computed
//! by `ring`.
use ring::digest;
use vstd::prelude::*;

verus! {

/// The most bytes `ring` accepts in one message: its bit count must fit in
/// 64 bits.
pub const MAX_DIGEST_INPUT: u64 = 0x1fff_ffff_ffff_ffff;

/// The SHA-1 digest of a byte string, as `ring::digest::digest` computes it
/// with `SHA1_FOR_LEGACY_USE_ONLY`.
pub uninterp spec fn sha1(data: Seq<u8>) -> Seq<u8>;

/// `ring::digest::digest` with `SHA1_FOR_LEGACY_USE_ONLY`, and `as_ref` on
/// the `Digest` it returns. Claims that the result is the SHA-1 digest of
/// `data`, twenty bytes (the algorithm's `output_len`). The call panics on
/// an input whose length in bits overflows a `u64`; `requires` leaves that
/// out.
#[verifier::external_body]
fn ring_sha1(data: &[u8]) -> (d: Vec<u8>)
    requires
        data@.len() <= MAX_DIGEST_INPUT,
    ensures
        d@ == sha1(data@),
        d@.len() == 20,
{
    digest::digest(&digest::SHA1_FOR_LEGACY_USE_ONLY, data).as_ref().to_vec()
}

/// The SHA-1 digest of `data`; `None` when `data` is too long to digest.
pub fn sha1_digest(data: &[u8]) -> (r: Option<Vec<u8>>)
    ensures
        r is Some <==> data@.len() <= MAX_DIGEST_INPUT,
        r is Some ==> r->0@ == sha1(data@) && r->0@.len() == 20,
{
    if data.len() as u64 <= MAX_DIGEST_INPUT {
        Some(ring_sha1(data))
    } else {
        None
    }
}

/// Whether a computed digest is the expected one, byte for byte.
pub fn digest_equals(digest: &[u8], expected: &[u8; 20]) -> (r: bool)
    ensures
        r == (digest@ == expected@),
{
    if digest.len() != 20 {
        return false;
    }
    let mut i: usize = 0;
    while i < 20
        invariant
            i <= 20,
            digest@.len() == 20,
            forall|k: int| 0 <= k < i ==> digest@[k] == expected@[k],
        decreases 20 - i,
    {
        if digest[i] != expected[i] {
            return false;
        }
        i += 1;
    }
    assert(digest@ =~= expected@);
    true
}

/// Whether `data` can be digested and its SHA-1 digest is `expected`.
pub open spec fn digest_matches(data: Seq<u8>, expected: Seq<u8>) -> bool {
    data.len() <= MAX_DIGEST_INPUT && sha1(data) == expected
}

/// Whether `data` hashes to `expected`.
pub fn has_digest(data: &[u8], expected: &[u8; 20]) -> (r: bool)
    ensures
        r == digest_matches(data@, expected@),
{
    match sha1_digest(data) {
        Some(d) => digest_equals(d.as_slice(), expected),
        None => false,
    }
}

} // verus!
