//! The SHA-1 hashing that the search relies on, through the `sha1` crate.
use sha1::{Digest, Sha1};
use vstd::prelude::*;

verus! {

/// A SHA-1 hasher part way through a message: it can take in more bytes, be
/// copied, and be finished into a digest.
#[verifier::external_body]
pub struct PrefixHasher {
    inner: Sha1,
}

/// The SHA-1 digest of a byte sequence.
pub uninterp spec fn sha1_of(data: Seq<u8>) -> Seq<u8>;

/// The bytes that a hasher has taken in since it was created.
pub uninterp spec fn absorbed(state: PrefixHasher) -> Seq<u8>;

/// Relies on `Digest::new` for `Sha1`: a hasher that has taken in nothing.
#[verifier::external_body]
pub(crate) fn fresh_hasher() -> (r: PrefixHasher)
    ensures
        absorbed(r) == Seq::<u8>::empty(),
{
    PrefixHasher { inner: Sha1::new() }
}

/// Relies on `Digest::update` for `Sha1`: the bytes are appended to what the
/// hasher has taken in.
#[verifier::external_body]
pub(crate) fn absorb(state: &mut PrefixHasher, data: &[u8])
    ensures
        absorbed(*final(state)) == absorbed(*old(state)) + data@,
{
    state.inner.update(data)
}

/// Relies on `Clone` for `Sha1`: the copy has taken in the same bytes.
#[verifier::external_body]
pub(crate) fn copy_hasher(state: &PrefixHasher) -> (r: PrefixHasher)
    ensures
        absorbed(r) == absorbed(*state),
{
    PrefixHasher { inner: state.inner.clone() }
}

/// Relies on `Digest::finalize_into` for `Sha1`: the 20-byte digest of all the
/// bytes the hasher has taken in.
#[verifier::external_body]
pub(crate) fn finish(state: PrefixHasher) -> (r: [u8; 20])
    ensures
        r@ == sha1_of(absorbed(state)),
{
    let mut out = [0u8; 20];
    state.inner.finalize_into((&mut out).into());
    out
}

} // verus!
