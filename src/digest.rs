use sha2::Digest as _;
use vstd::prelude::*;

verus! {

/// A node of the tree: 32 bytes, the output of the compression function.
pub type Digest = [u8; 32];

/// The SHA-256 digest of the 64 bytes `left` followed by `right`.
pub uninterp spec fn sha256_pair(left: [u8; 32], right: [u8; 32]) -> [u8; 32];

/// Relies on `sha2::Sha256` (`new`, `chain_update`, `finalize`): the digest of the
/// bytes of `left` followed by the bytes of `right`, which depends on these bytes alone.
#[verifier::external_body]
fn sha256_concat(left: &[u8; 32], right: &[u8; 32]) -> (r: [u8; 32])
    ensures
        r == sha256_pair(*left, *right),
{
    sha2::Sha256::new().chain_update(left).chain_update(right).finalize().into()
}

/// The parent of two sibling nodes, `left` being the even one.
pub open spec fn merge_spec(left: Digest, right: Digest) -> Digest {
    sha256_pair(left, right)
}

/// Merges two sibling nodes into their parent.
pub fn merge(left: &Digest, right: &Digest) -> (r: Digest)
    ensures
        r == merge_spec(*left, *right),
{
    sha256_concat(left, right)
}

/// The all-zero digest, which stands for "no root yet".
pub open spec fn is_zero_digest(d: Digest) -> bool {
    forall|i: int| 0 <= i < 32 ==> #[trigger] d[i] == 0u8
}

/// The all-zero digest.
pub fn zero_digest() -> (r: Digest)
    ensures
        is_zero_digest(r),
{
    [0u8; 32]
}

/// Tests whether every byte of `d` is zero.
pub fn digest_is_zero(d: &Digest) -> (r: bool)
    ensures
        r == is_zero_digest(*d),
{
    let mut i: usize = 0;
    while i < 32
        invariant
            i <= 32,
            forall|j: int| 0 <= j < i ==> #[trigger] d[j] == 0u8,
        decreases 32 - i,
    {
        if d[i] != 0 {
            return false;
        }
        i = i + 1;
    }
    true
}

/// Tests two digests for equality, byte by byte.
pub fn digests_equal(a: &Digest, b: &Digest) -> (r: bool)
    ensures
        r == (*a == *b),
{
    let mut i: usize = 0;
    while i < 32
        invariant
            i <= 32,
            forall|j: int| 0 <= j < i ==> #[trigger] a[j] == b[j],
        decreases 32 - i,
    {
        if a[i] != b[i] {
            return false;
        }
        i = i + 1;
    }
    assert(*a =~= *b);
    true
}

} // verus!
