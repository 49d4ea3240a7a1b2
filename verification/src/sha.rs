//! The SHA-1 digest, the integrity check of every piece and the identity of
//! the torrent itself.

use vstd::prelude::*;
use sha1::{Digest, Sha1};

verus! {

/// The SHA-1 digest of a byte sequence. The algorithm is not restated here;
/// the digest is a function of the input bytes alone, always 20 bytes long.
pub uninterp spec fn sha1_of(data: Seq<u8>) -> Seq<u8>;

/// Relies on the sha1 crate's `Sha1` (`new`, `update`, `finalize`): it
/// computes the 20-byte SHA-1 digest of the input, which depends on the
/// input bytes alone.
#[verifier::external_body]
pub(crate) fn sha1_digest(data: &[u8]) -> (r: [u8; 20])
    ensures
        r@ == sha1_of(data@),
{
    let mut hasher = Sha1::new();
    hasher.update(data);
    let out: [u8; 20] = hasher.finalize().into();
    out
}

/// True exactly when the SHA-1 digest of `data` is `expected`.
pub fn digest_matches(data: &[u8], expected: &[u8; 20]) -> (r: bool)
    ensures
        r == (sha1_of(data@) == expected@),
{
    let actual = sha1_digest(data);
    let mut i: usize = 0;
    while i < 20
        invariant
            i <= 20,
            actual@ == sha1_of(data@),
            forall|k: int| 0 <= k < i ==> actual@[k] == expected@[k],
        decreases 20 - i,
    {
        if actual[i] != expected[i] {
            proof {
                assert(sha1_of(data@)[i as int] != expected@[i as int]);
            }
            return false;
        }
        i = i + 1;
    }
    proof {
        assert(sha1_of(data@) =~= expected@);
    }
    true
}

} // verus!
