//! The decisions of the batched engine. The nonces `0..total` are cut into
//! chunks of at most `chunk_size`; a device tries each chunk in parallel and
//! reports back. The device work happens outside: this state machine says which
//! chunk to send next, and takes what came back.
//!
//! Nonces here are 64-bit, and the device's result slot holds 32 bits, so a
//! hit is only ever reported below `2^32`; the sequential engine works in 128
//! bits over the same half-open range `0..diff * job_mul`.
use crate::sequential::{hashes_to, is_least_match, DUCOHasher};
use vstd::arithmetic::div_mod::{lemma_fundamental_div_mod, lemma_fundamental_div_mod_converse};
use vstd::prelude::*;

verus! {

/// The chunk size used when the caller has no better one: small enough that
/// one dispatch stays short on constrained devices.
pub const DEFAULT_CHUNK_SIZE: u64 = 131072;

/// The length of the chunk that starts at `start`: `chunk_size`, cut short at
/// `total`, and zero from `total` on.
pub open spec fn chunk_len(total: nat, chunk_size: nat, start: nat) -> nat {
    if start >= total {
        0
    } else if chunk_size <= total - start {
        chunk_size
    } else {
        (total - start) as nat
    }
}

/// The first nonce of the `k`-th chunk.
pub open spec fn chunk_start(chunk_size: nat, k: nat) -> nat {
    k * chunk_size
}

/// Whether `n` lies in the `k`-th chunk of `0..total`.
pub open spec fn in_chunk(total: nat, chunk_size: nat, k: nat, n: nat) -> bool {
    let s = chunk_start(chunk_size, k);
    s <= n < s + chunk_len(total, chunk_size, s)
}

/// The chunks cut `0..total` into consecutive pieces: each one that starts
/// below `total` ends where the next starts, or at `total`; every nonce below
/// `total` lies in exactly one chunk, the `n / chunk_size`-th; and no chunk
/// holds a nonce from `total` on.
pub proof fn lemma_chunks_partition(total: nat, chunk_size: nat)
    requires
        chunk_size > 0,
    ensures
        forall|k: nat|
            #![trigger chunk_start(chunk_size, k)]
            chunk_start(chunk_size, k) < total ==> chunk_start(chunk_size, k) + chunk_len(
                total,
                chunk_size,
                chunk_start(chunk_size, k),
            ) == if chunk_start(chunk_size, k + 1) <= total {
                chunk_start(chunk_size, k + 1)
            } else {
                total
            },
        forall|n: nat| n < total ==> #[trigger] in_chunk(total, chunk_size, n / chunk_size, n),
        forall|k: nat, n: nat| #[trigger]
            in_chunk(total, chunk_size, k, n) ==> n < total && k == n / chunk_size,
{
    assert forall|k: nat|
        #![trigger chunk_start(chunk_size, k)]
        chunk_start(chunk_size, k) < total implies chunk_start(chunk_size, k) + chunk_len(
            total,
            chunk_size,
            chunk_start(chunk_size, k),
        ) == if chunk_start(chunk_size, k + 1) <= total {
            chunk_start(chunk_size, k + 1)
        } else {
            total
        } by {
        assert(chunk_start(chunk_size, k + 1) == chunk_start(chunk_size, k) + chunk_size) by (
        nonlinear_arith);
    }
    assert forall|n: nat| n < total implies #[trigger] in_chunk(
        total,
        chunk_size,
        n / chunk_size,
        n,
    ) by {
        lemma_fundamental_div_mod(n as int, chunk_size as int);
        assert(chunk_start(chunk_size, n / chunk_size) == chunk_size * (n / chunk_size)) by (
        nonlinear_arith);
    }
    assert forall|k: nat, n: nat| #[trigger]
        in_chunk(total, chunk_size, k, n) implies n < total && k == n / chunk_size by {
        let s = chunk_start(chunk_size, k);
        assert(s == k * chunk_size);
        lemma_fundamental_div_mod_converse(
            n as int,
            chunk_size as int,
            k as int,
            (n - s) as int,
        );
    }
}

/// A search of an empty range (`diff` or `job_mul` zero) is over at once with
/// no match: no chunk is ever dispatched.
pub proof fn lemma_empty_range_dispatches_nothing(diff: nat, job_mul: nat, chunk_size: nat)
    requires
        diff == 0 || job_mul == 0,
    ensures
        SearchView::initial(diff * job_mul, chunk_size).step() == Step::Finished(
            BatchOutcome::NotFound,
        ),
{
    assert(diff * job_mul == 0) by (nonlinear_arith)
        requires
            diff == 0 || job_mul == 0,
    ;
}

/// What the device reported for one dispatched chunk.
pub enum ChunkEvent {
    /// The dispatch did not run.
    DispatchFailed,
    /// The dispatch ran; the result slot held this value (0: no lane matched).
    Completed(u32),
}

/// How a batched search ended.
#[derive(PartialEq, Eq, Structural, Debug, Clone, Copy)]
pub enum BatchOutcome {
    /// This nonce was reported by the device and gives the expected digest.
    Found(u64),
    /// Every chunk ran and none reported a match.
    NotFound,
    /// No match was reported, but some chunk failed twice and was skipped.
    Incomplete,
}

/// What the driver of a batched search does next.
#[derive(PartialEq, Eq, Structural, Debug, Clone, Copy)]
pub enum Step {
    /// Run the nonces `start..start + batch_size` on the device.
    Dispatch { start: u64, batch_size: u64 },
    /// The search is over.
    Finished(BatchOutcome),
}

/// The state of a batched search, as mathematical values.
pub struct SearchView {
    pub total: nat,
    pub chunk_size: nat,
    /// The first nonce of the chunk in hand.
    pub start: nat,
    /// Whether the chunk in hand has already failed once.
    pub retried: bool,
    /// Whether some chunk was given up on.
    pub skipped: bool,
    pub found: Option<nat>,
}

impl SearchView {
    /// A search of `0..total` that has done nothing yet.
    pub open spec fn initial(total: nat, chunk_size: nat) -> SearchView {
        SearchView { total, chunk_size, start: 0, retried: false, skipped: false, found: None }
    }

    /// The length of the chunk in hand.
    pub open spec fn batch_len(self) -> nat {
        chunk_len(self.total, self.chunk_size, self.start)
    }

    pub open spec fn is_done(self) -> bool {
        self.found is Some || self.start >= self.total
    }

    /// The chunk in hand is settled: go on to the next one.
    pub open spec fn advanced(self) -> SearchView {
        SearchView { start: self.start + self.batch_len(), retried: false, ..self }
    }

    /// The chunk in hand failed: try it once more, or give up on it after the
    /// second failure.
    pub open spec fn failed(self) -> SearchView {
        if self.retried {
            SearchView { skipped: true, ..self.advanced() }
        } else {
            SearchView { retried: true, ..self }
        }
    }

    /// The state after `event` for the chunk in hand. A reported nonce is
    /// taken only if it lies in the chunk and gives `expected` after
    /// `payload`; any other report counts as a failure of the chunk.
    pub open spec fn next(self, event: ChunkEvent, payload: Seq<u8>, expected: Seq<u8>) -> SearchView {
        match event {
            ChunkEvent::DispatchFailed => self.failed(),
            ChunkEvent::Completed(slot) => {
                if slot == 0 {
                    self.advanced()
                } else if self.start <= slot < self.start + self.batch_len() && hashes_to(
                    payload,
                    expected,
                    slot as nat,
                ) {
                    SearchView { found: Some(slot as nat), ..self }
                } else {
                    self.failed()
                }
            },
        }
    }

    /// What the driver does in this state.
    pub open spec fn step(self) -> Step {
        match self.found {
            Some(n) => Step::Finished(BatchOutcome::Found(n as u64)),
            None => if self.start >= self.total {
                if self.skipped {
                    Step::Finished(BatchOutcome::Incomplete)
                } else {
                    Step::Finished(BatchOutcome::NotFound)
                }
            } else {
                Step::Dispatch { start: self.start as u64, batch_size: self.batch_len() as u64 }
            },
        }
    }
}

/// A batched search in progress.
pub struct BatchSearch {
    total: u64,
    chunk_size: u64,
    start: u64,
    retried: bool,
    skipped: bool,
    found: Option<u64>,
}

impl View for BatchSearch {
    type V = SearchView;

    closed spec fn view(&self) -> SearchView {
        SearchView {
            total: self.total as nat,
            chunk_size: self.chunk_size as nat,
            start: self.start as nat,
            retried: self.retried,
            skipped: self.skipped,
            found: match self.found {
                Some(n) => Some(n as nat),
                None => None,
            },
        }
    }
}

impl BatchSearch {
    #[verifier::type_invariant]
    spec fn well_formed(&self) -> bool {
        &&& self.chunk_size > 0
        &&& self.start <= self.total
    }

    /// A search of the nonces `0..diff * job_mul` in chunks of `chunk_size`.
    /// With an empty range it is over before any chunk is sent.
    pub fn new(diff: u64, job_mul: u64, chunk_size: u64) -> (r: Self)
        requires
            diff * job_mul <= u64::MAX,
            chunk_size > 0,
        ensures
            r@ == SearchView::initial((diff * job_mul) as nat, chunk_size as nat),
            diff * job_mul == 0 ==> r@.step() == Step::Finished(BatchOutcome::NotFound),
    {
        BatchSearch {
            total: diff * job_mul,
            chunk_size,
            start: 0,
            retried: false,
            skipped: false,
            found: None,
        }
    }

    /// What to do next: dispatch the chunk in hand, or stop with the outcome.
    pub fn next_step(&self) -> (r: Step)
        ensures
            r == self@.step(),
    {
        proof {
            use_type_invariant(self);
        }
        match self.found {
            Some(n) => Step::Finished(BatchOutcome::Found(n)),
            None => if self.start >= self.total {
                if self.skipped {
                    Step::Finished(BatchOutcome::Incomplete)
                } else {
                    Step::Finished(BatchOutcome::NotFound)
                }
            } else {
                Step::Dispatch { start: self.start, batch_size: self.batch_size() }
            },
        }
    }

    fn batch_size(&self) -> (r: u64)
        ensures
            r == self@.batch_len(),
    {
        proof {
            use_type_invariant(self);
        }
        if self.start >= self.total {
            0
        } else if self.chunk_size <= self.total - self.start {
            self.chunk_size
        } else {
            self.total - self.start
        }
    }

    fn advance(&mut self)
        ensures
            final(self)@ == old(self)@.advanced(),
    {
        proof {
            use_type_invariant(&*self);
        }
        let batch = self.batch_size();
        self.start = self.start + batch;
        self.retried = false;
    }

    fn fail(&mut self)
        ensures
            final(self)@ == old(self)@.failed(),
    {
        proof {
            use_type_invariant(&*self);
        }
        if self.retried {
            self.advance();
            self.skipped = true;
        } else {
            self.retried = true;
        }
    }

    /// Takes what the device reported for the chunk in hand. A reported nonce
    /// is checked against `hasher`'s payload before it is believed.
    pub fn record(&mut self, hasher: &DUCOHasher, expected_hash: &[u8], event: ChunkEvent)
        requires
            !old(self)@.is_done(),
        ensures
            final(self)@ == old(self)@.next(event, hasher@, expected_hash@),
    {
        proof {
            use_type_invariant(&*self);
        }
        match event {
            ChunkEvent::DispatchFailed => self.fail(),
            ChunkEvent::Completed(slot) => {
                let nonce = slot as u64;
                if slot == 0 {
                    self.advance();
                } else if self.start <= nonce && nonce - self.start < self.batch_size()
                    && hasher.hashes_at(expected_hash, slot as u128) {
                    self.found = Some(nonce);
                } else {
                    self.fail();
                }
            },
        }
    }
}

/// The state reached from `s` once the driver has recorded `events` in turn.
pub open spec fn run(
    s: SearchView,
    events: Seq<ChunkEvent>,
    payload: Seq<u8>,
    expected: Seq<u8>,
) -> SearchView
    decreases events.len(),
{
    if events.len() == 0 {
        s
    } else {
        run(s, events.drop_last(), payload, expected).next(events.last(), payload, expected)
    }
}

/// The reports of a device that finds `n` in its own chunk and nothing in any
/// chunk before it.
pub open spec fn reports_up_to(n: nat, chunk_size: nat) -> Seq<ChunkEvent> {
    Seq::new(
        n / chunk_size + 1,
        |i: int|
            if i < n / chunk_size {
                ChunkEvent::Completed(0)
            } else {
                ChunkEvent::Completed(n as u32)
            },
    )
}

proof fn lemma_clean_chunks_advance(
    payload: Seq<u8>,
    expected: Seq<u8>,
    total: nat,
    chunk_size: nat,
    n: nat,
    k: nat,
)
    requires
        chunk_size > 0,
        n < total,
        k <= n / chunk_size,
    ensures
        run(
            SearchView::initial(total, chunk_size),
            reports_up_to(n, chunk_size).take(k as int),
            payload,
            expected,
        ) == (SearchView { start: k * chunk_size, ..SearchView::initial(total, chunk_size) }),
    decreases k,
{
    let reports = reports_up_to(n, chunk_size);
    let q = n / chunk_size;
    if k == 0 {
        assert(reports.take(0).len() == 0);
        assert(0 * chunk_size == 0);
    } else {
        let j = (k - 1) as nat;
        lemma_clean_chunks_advance(payload, expected, total, chunk_size, n, j);
        assert(reports.take(k as int).drop_last() =~= reports.take(j as int));
        assert(reports.take(k as int).last() == ChunkEvent::Completed(0));
        lemma_fundamental_div_mod(n as int, chunk_size as int);
        assert(k * chunk_size <= q * chunk_size) by (nonlinear_arith)
            requires
                k <= q,
        ;
        assert(q * chunk_size == chunk_size * q) by (nonlinear_arith);
        assert(k * chunk_size == j * chunk_size + chunk_size) by (nonlinear_arith)
            requires
                k == j + 1,
        ;
        let init = SearchView::initial(total, chunk_size);
        let prev = run(init, reports.take(j as int), payload, expected);
        assert(prev.batch_len() == chunk_size);
        assert(run(init, reports.take(k as int), payload, expected) == prev.next(
            ChunkEvent::Completed(0),
            payload,
            expected,
        ));
    }
}

/// The two engines agree where the answer is unambiguous. Let `n`, not zero,
/// be the least nonce that gives `expected`, with `n` below `diff * job_mul` and
/// small enough for the device's 32-bit result slot. A device that reports no
/// match for the chunks before the one holding `n`, and `n` for that chunk,
/// leads the batched search to find `n`, as the sequential search does.
pub proof fn lemma_engines_agree(
    payload: Seq<u8>,
    expected: Seq<u8>,
    diff: nat,
    job_mul: nat,
    chunk_size: nat,
    n: u128,
)
    requires
        chunk_size > 0,
        0 < n < diff * job_mul,
        n <= u32::MAX,
        is_least_match(payload, expected, diff * job_mul, Some(n)),
    ensures
        run(
            SearchView::initial(diff * job_mul, chunk_size),
            reports_up_to(n as nat, chunk_size),
            payload,
            expected,
        ).step() == Step::Finished(BatchOutcome::Found(n as u64)),
{
    let total: nat = diff * job_mul;
    let reports = reports_up_to(n as nat, chunk_size);
    let q = (n as nat) / chunk_size;
    lemma_clean_chunks_advance(payload, expected, total, chunk_size, n as nat, q);
    assert(reports.drop_last() =~= reports.take(q as int));
    assert(reports.last() == ChunkEvent::Completed(n as u32));
    assert((n as u32) as nat == n as nat);
    lemma_fundamental_div_mod(n as int, chunk_size as int);
    assert(q * chunk_size == chunk_size * q) by (nonlinear_arith);
    let init = SearchView::initial(total, chunk_size);
    let before = run(init, reports.take(q as int), payload, expected);
    assert(before.start <= n < before.start + before.batch_len());
    assert(hashes_to(payload, expected, n as nat));
    assert(run(init, reports, payload, expected) == before.next(
        ChunkEvent::Completed(n as u32),
        payload,
        expected,
    ));
    let after = before.next(ChunkEvent::Completed(n as u32), payload, expected);
    assert(after.found == Some(n as nat));
}

/// Whether `event` is what a device that reports the least hit of each chunk
/// could send for the chunk in hand of `s`: `0` only when no nonce of the
/// chunk but possibly `0` gives `expected` (the slot cannot tell a hit at `0`
/// from none), and a nonzero value only when no smaller nonzero nonce of the
/// chunk does. A failed dispatch is always possible.
pub open spec fn least_hit_report(s: SearchView, event: ChunkEvent, payload: Seq<u8>, expected: Seq<u8>) -> bool {
    match event {
        ChunkEvent::DispatchFailed => true,
        ChunkEvent::Completed(slot) => {
            if slot == 0 {
                forall|m: nat|
                    s.start <= m < s.start + s.batch_len() && m != 0 ==> !#[trigger] hashes_to(
                        payload,
                        expected,
                        m,
                    )
            } else {
                forall|m: nat|
                    s.start <= m < slot && m != 0 ==> !#[trigger] hashes_to(payload, expected, m)
            }
        },
    }
}

/// Whether a driver that records `events` in turn from `s` only records while
/// the search is not over, and receives only least-hit reports.
pub open spec fn least_hit_run(s: SearchView, events: Seq<ChunkEvent>, payload: Seq<u8>, expected: Seq<u8>) -> bool
    decreases events.len(),
{
    events.len() == 0 || {
        let before = run(s, events.drop_last(), payload, expected);
        &&& least_hit_run(s, events.drop_last(), payload, expected)
        &&& !before.is_done()
        &&& least_hit_report(before, events.last(), payload, expected)
    }
}

/// What holds at every state of a least-hit run from the start.
pub open spec fn least_hit_state(t: SearchView, payload: Seq<u8>, expected: Seq<u8>) -> bool {
    &&& t.start <= t.total
    &&& !t.skipped ==> forall|m: nat|
        0 < m < t.start ==> !#[trigger] hashes_to(payload, expected, m)
    &&& t.found matches Some(n) ==> {
        &&& n < t.total
        &&& hashes_to(payload, expected, n)
        &&& !t.skipped ==> forall|m: nat|
            0 < m < n ==> !#[trigger] hashes_to(payload, expected, m)
    }
}

proof fn lemma_least_hit_state(
    payload: Seq<u8>,
    expected: Seq<u8>,
    total: nat,
    chunk_size: nat,
    events: Seq<ChunkEvent>,
)
    requires
        least_hit_run(SearchView::initial(total, chunk_size), events, payload, expected),
    ensures
        least_hit_state(
            run(SearchView::initial(total, chunk_size), events, payload, expected),
            payload,
            expected,
        ),
        run(SearchView::initial(total, chunk_size), events, payload, expected).total == total,
    decreases events.len(),
{
    if events.len() > 0 {
        let init = SearchView::initial(total, chunk_size);
        lemma_least_hit_state(payload, expected, total, chunk_size, events.drop_last());
        let t = run(init, events.drop_last(), payload, expected);
        let u = t.next(events.last(), payload, expected);
        assert(run(init, events, payload, expected) == u);
        if let ChunkEvent::Completed(slot) = events.last() {
            if slot == 0 {
                assert forall|m: nat| 0 < m < u.start && !t.skipped implies !#[trigger] hashes_to(
                    payload,
                    expected,
                    m,
                ) by {
                    if m >= t.start {
                        assert(t.start <= m < t.start + t.batch_len() && m != 0);
                    }
                }
            } else if t.start <= slot < t.start + t.batch_len() && hashes_to(
                payload,
                expected,
                slot as nat,
            ) {
                assert forall|m: nat| 0 < m < slot && !t.skipped implies !#[trigger] hashes_to(
                    payload,
                    expected,
                    m,
                ) by {
                    if m >= t.start {
                        assert(t.start <= m < slot && m != 0);
                    }
                }
            }
        }
    }
}

/// A nonce that the batched search finds is a hit below `diff * job_mul`. If
/// the device reports the least hit of each chunk and no chunk was skipped, no
/// smaller nonce other than `0` gives `expected`: the sequential search finds
/// the same nonce unless `0` is a hit. After a skipped chunk a found nonce need
/// not be the least.
pub proof fn lemma_found_is_least(
    payload: Seq<u8>,
    expected: Seq<u8>,
    diff: nat,
    job_mul: nat,
    chunk_size: nat,
    events: Seq<ChunkEvent>,
)
    requires
        least_hit_run(SearchView::initial(diff * job_mul, chunk_size), events, payload, expected),
    ensures
        ({
            let t = run(SearchView::initial(diff * job_mul, chunk_size), events, payload, expected);
            t.found matches Some(n) ==> {
                &&& n < diff * job_mul
                &&& hashes_to(payload, expected, n)
                &&& !t.skipped ==> forall|m: nat|
                    0 < m < n ==> !#[trigger] hashes_to(payload, expected, m)
            }
        }),
{
    let total: nat = diff * job_mul;
    lemma_least_hit_state(payload, expected, total, chunk_size, events);
}

} // verus!
