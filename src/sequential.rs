//! The sequential engine: nonces are tried in increasing order, each from a
//! copy of a hasher that has already taken in the payload.
use crate::decimal::{decimal, decimal_ascii};
use crate::digest::{absorb, absorbed, copy_hasher, finish, fresh_hasher, sha1_of, PrefixHasher};
use vstd::prelude::*;
use vstd::slice::slice_to_vec;

verus! {

/// Whether `nonce`, written in decimal after `payload`, gives the digest `expected`.
pub open spec fn hashes_to(payload: Seq<u8>, expected: Seq<u8>, nonce: nat) -> bool {
    sha1_of(payload + decimal(nonce)) == expected
}

/// Whether `r` is the outcome of a search of the nonces `0..bound`: the least
/// nonce there that gives `expected`, or `None` when none does.
pub open spec fn is_least_match(payload: Seq<u8>, expected: Seq<u8>, bound: nat, r: Option<u128>) -> bool {
    match r {
        Some(n) => {
            &&& n < bound
            &&& hashes_to(payload, expected, n as nat)
            &&& forall|m: nat| m < n ==> !hashes_to(payload, expected, m)
        },
        None => forall|m: nat| m < bound ==> !hashes_to(payload, expected, m),
    }
}

/// A nonce planted in the target (the digest of the payload followed by that
/// nonce) is what a search of `0..diff * job_mul` returns, when the nonce lies
/// in that range and no smaller nonce gives the same digest.
pub proof fn lemma_planted_nonce_is_found(
    payload: Seq<u8>,
    n: nat,
    diff: nat,
    job_mul: nat,
    r: Option<u128>,
)
    requires
        n < diff * job_mul,
        forall|m: nat| m < n ==> !hashes_to(payload, sha1_of(payload + decimal(n)), m),
        is_least_match(payload, sha1_of(payload + decimal(n)), diff * job_mul, r),
    ensures
        r is Some && r->0 == n,
{
    let expected = sha1_of(payload + decimal(n));
    assert(hashes_to(payload, expected, n));
    if let Some(k) = r {
        if k < n {
            assert(!hashes_to(payload, expected, k as nat));
        }
        if k > n {
            assert(!hashes_to(payload, expected, n));
        }
    }
}

/// A search of `0..diff * job_mul` returns `None` when no nonce in that range
/// gives the expected digest.
pub proof fn lemma_no_preimage_not_found(
    payload: Seq<u8>,
    expected: Seq<u8>,
    diff: nat,
    job_mul: nat,
    r: Option<u128>,
)
    requires
        forall|m: nat| m < diff * job_mul ==> !hashes_to(payload, expected, m),
        is_least_match(payload, expected, diff * job_mul, r),
    ensures
        r is None,
{
    if let Some(k) = r {
        assert(hashes_to(payload, expected, k as nat));
    }
}

/// Whether a digest equals the expected bytes.
pub fn digest_matches(digest: &[u8; 20], expected: &[u8]) -> (r: bool)
    ensures
        r == (digest@ == expected@),
{
    if expected.len() != 20 {
        return false;
    }
    let mut i: usize = 0;
    while i < 20
        invariant
            i <= 20,
            expected@.len() == 20,
            forall|j: int| 0 <= j < i ==> digest@[j] == expected@[j],
        decreases 20 - i,
    {
        if digest[i] != expected[i] {
            return false;
        }
        i = i + 1;
    }
    assert(digest@ =~= expected@);
    true
}

/// A search handle: a fixed payload, and a hasher that has already taken it in.
pub struct DUCOHasher {
    base_data: Vec<u8>,
    prehash: PrefixHasher,
}

impl View for DUCOHasher {
    type V = Seq<u8>;

    /// The payload that every candidate nonce is appended to.
    closed spec fn view(&self) -> Seq<u8> {
        self.base_data@
    }
}

impl Clone for DUCOHasher {
    /// A handle for the same payload, with its own copy of the hasher.
    fn clone(&self) -> (r: Self)
        ensures
            r@ == self@,
    {
        proof {
            use_type_invariant(self);
        }
        let base_data = self.base_data.clone();
        assert(base_data@ =~= self.base_data@);
        DUCOHasher { base_data, prehash: copy_hasher(&self.prehash) }
    }
}

impl DUCOHasher {
    #[verifier::type_invariant]
    spec fn prehash_holds_payload(&self) -> bool {
        absorbed(self.prehash) == self.base_data@
    }

    /// A handle for the payload `data`.
    pub fn new(data: &[u8]) -> (r: Self)
        ensures
            r@ == data@,
    {
        let mut prehash = fresh_hasher();
        absorb(&mut prehash, data);
        let base_data = slice_to_vec(data);
        assert(absorbed(prehash) =~= base_data@);
        DUCOHasher { base_data, prehash }
    }

    /// Whether `nonce` completes the payload to the digest `expected`.
    pub fn hashes_at(&self, expected: &[u8], nonce: u128) -> (r: bool)
        ensures
            r == hashes_to(self@, expected@, nonce as nat),
    {
        proof {
            use_type_invariant(self);
        }
        let mut hasher = copy_hasher(&self.prehash);
        let text = decimal_ascii(nonce);
        absorb(&mut hasher, text.as_slice());
        let digest = finish(hasher);
        digest_matches(&digest, expected)
    }

    /// The least nonce in `0..diff * job_mul` that gives `expected_hash`, or
    /// `None` when there is none; with `diff` or `job_mul` zero the range is
    /// empty and nothing is hashed. Nonces here are 128-bit, so the product
    /// must fit in `u128`; the batched engine works in 64 bits (see
    /// `crate::batched`).
    #[allow(non_snake_case)]
    pub fn DUCOS1(&self, expected_hash: &[u8], diff: u128, job_mul: u128) -> (r: Option<u128>)
        requires
            diff * job_mul <= u128::MAX,
        ensures
            is_least_match(self@, expected_hash@, (diff * job_mul) as nat, r),
            diff * job_mul == 0 ==> r is None,
    {
        let bound: u128 = diff * job_mul;
        let mut nonce: u128 = 0;
        while nonce < bound
            invariant
                nonce <= bound,
                bound == diff * job_mul,
                forall|m: nat| m < nonce ==> !hashes_to(self@, expected_hash@, m),
            decreases bound - nonce,
        {
            if self.hashes_at(expected_hash, nonce) {
                return Some(nonce);
            }
            nonce = nonce + 1;
        }
        None
    }
}

} // verus!
