//! The hash function that the tree is built on, and the two ways the library
//! feeds it: one blob at a time for leaves, two digests in a row for parents.

use vstd::prelude::*;

verus! {

/// Length in bytes of every digest.
pub const DIGEST_LEN: usize = 32;

/// The bytes that BLAKE3's default hash gives for `input`.
pub uninterp spec fn blake3_output(input: Seq<u8>) -> Seq<u8>;

#[verifier::external_type_specification]
#[verifier::external_body]
pub struct ExHasher(blake3::Hasher);

/// Everything written to an incremental hash state so far, in order.
pub uninterp spec fn hasher_input(h: blake3::Hasher) -> Seq<u8>;

/// The input offset an incremental hash state was set to; 0 unless moved.
pub uninterp spec fn hasher_offset(h: blake3::Hasher) -> nat;

/// The digest of `input` as the contracts of this library speak of it: the
/// hash function's output, which is always `DIGEST_LEN` bytes long.
pub open spec fn digest(input: Seq<u8>) -> Seq<u8> {
    let out = blake3_output(input);
    if out.len() == DIGEST_LEN {
        out
    } else {
        Seq::new(DIGEST_LEN as nat, |i: int| 0u8)
    }
}

/// Two different byte strings with one digest.
pub open spec fn is_collision(x: Seq<u8>, y: Seq<u8>) -> bool {
    x != y && digest(x) == digest(y)
}

/// Some pair of byte strings collides under the hash function.
pub open spec fn collision_exists() -> bool {
    exists|x: Seq<u8>, y: Seq<u8>| is_collision(x, y)
}

/// Calls `blake3::hash` and copies the 32 bytes of the `Hash` it returns.
/// Trusted: the bytes are the hash of `input`, a function of `input` alone,
/// and there are 32 of them.
#[verifier::external_body]
pub(crate) fn blake3_hash(input: &[u8]) -> (out: Vec<u8>)
    ensures
        out@ == blake3_output(input@),
        out@.len() == DIGEST_LEN,
{
    blake3::hash(input).as_bytes().to_vec()
}

/// Calls `blake3::Hasher::new`. Trusted: the fresh state has taken no input
/// and sits at offset 0.
#[verifier::external_body]
pub(crate) fn hasher_new() -> (h: blake3::Hasher)
    ensures
        hasher_input(h) == Seq::<u8>::empty(),
        hasher_offset(h) == 0,
{
    blake3::Hasher::new()
}

/// Calls `blake3::Hasher::update`. Trusted: `input` is appended to what the
/// state has taken, and the offset stays. At an offset other than 0 `update`
/// panics on input that outgrows the subtree, so offset 0 is required.
#[verifier::external_body]
pub(crate) fn hasher_update(h: &mut blake3::Hasher, input: &[u8])
    requires
        hasher_offset(*old(h)) == 0,
    ensures
        hasher_input(*final(h)) == hasher_input(*old(h)) + input@,
        hasher_offset(*final(h)) == hasher_offset(*old(h)),
{
    h.update(input);
}

/// Calls `blake3::Hasher::finalize` and copies the 32 bytes of the `Hash`.
/// Trusted: the result is the default hash of all input written so far, as
/// the crate documents for incremental hashing. `finalize` panics on a state
/// whose offset was moved, so offset 0 is required.
#[verifier::external_body]
pub(crate) fn hasher_finalize(h: &blake3::Hasher) -> (out: Vec<u8>)
    requires
        hasher_offset(*h) == 0,
    ensures
        out@ == blake3_output(hasher_input(*h)),
        out@.len() == DIGEST_LEN,
{
    h.finalize().as_bytes().to_vec()
}

/// The digest of one blob.
pub fn hash_leaf(data: &[u8]) -> (out: Vec<u8>)
    ensures
        out@ == digest(data@),
{
    blake3_hash(data)
}

/// The digest of `left` followed by `right`, fed to the hash in two writes.
pub fn hash_pair(left: &[u8], right: &[u8]) -> (out: Vec<u8>)
    ensures
        out@ == digest(left@ + right@),
{
    let mut h = hasher_new();
    hasher_update(&mut h, left);
    hasher_update(&mut h, right);
    proof {
        assert(hasher_input(h) =~= left@ + right@);
    }
    hasher_finalize(&h)
}

/// Whether two byte strings are the same.
pub fn bytes_equal(a: &[u8], b: &[u8]) -> (same: bool)
    ensures
        same == (a@ == b@),
{
    if a.len() != b.len() {
        return false;
    }
    let mut i: usize = 0;
    while i < a.len()
        invariant
            a.len() == b.len(),
            i <= a.len(),
            forall|j: int| 0 <= j < i ==> a@[j] == b@[j],
        decreases a.len() - i,
    {
        if a[i] != b[i] {
            return false;
        }
        i += 1;
    }
    proof {
        assert(a@ =~= b@);
    }
    true
}

} // verus!
