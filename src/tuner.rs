//! The tuner: answers from the cache where it can, otherwise benchmarks the
//! eligible candidates, records the fastest and runs it on the real inputs.
use vstd::prelude::*;

use crate::bench::{aggregate, aggregate_of};
use crate::cache::{records_map, PersistedStore, TuneCache};
use crate::key::{eligible, should_run, AutotuneKey, EligibilityPolicy};

verus! {

/// What benchmarking made of one candidate.
#[derive(Clone, Copy, Debug, PartialEq, Eq, Structural)]
pub enum CandidateOutcome {
    /// The eligibility rule excluded it: it was not run.
    Ineligible,
    /// One of its runs failed: it is out of this tuning cycle.
    Failed,
    /// Its representative duration.
    Measured(u64),
}

/// At least one candidate has a duration.
pub open spec fn any_measured(o: Seq<CandidateOutcome>) -> bool {
    exists|i: int| 0 <= i < o.len() && o[i] is Measured
}

/// Candidate `w` has the least duration, and every candidate before it a
/// strictly greater one: ties go to the lowest index.
pub open spec fn is_fastest(o: Seq<CandidateOutcome>, w: int) -> bool {
    &&& 0 <= w < o.len()
    &&& o[w] is Measured
    &&& forall|j: int|
        0 <= j < o.len() && #[trigger] o[j] is Measured ==> o[w]->Measured_0 <= o[j]->Measured_0
    &&& forall|j: int|
        0 <= j < w && #[trigger] o[j] is Measured ==> o[w]->Measured_0 < o[j]->Measured_0
}

/// Candidate `index` was run `runs` times, every run succeeded, and `d` is
/// the representative duration of those runs.
pub open spec fn measured_by<B: Fn(usize, usize) -> Option<u64>>(
    bench: B,
    index: int,
    runs: int,
    d: u64,
) -> bool {
    exists|times: Seq<u64>|
        #![trigger aggregate_of(times)]
        times.len() == runs && d == aggregate_of(times) && forall|j: int|
            0 <= j < runs ==> bench.ensures((index as usize, j as usize), Some(#[trigger] times[j]))
}

/// Some run of candidate `index` failed.
pub open spec fn failed_by<B: Fn(usize, usize) -> Option<u64>>(
    bench: B,
    index: int,
    runs: int,
) -> bool {
    exists|j: int| 0 <= j < runs && #[trigger] bench.ensures((index as usize, j as usize), None)
}

/// `o` holds one outcome per candidate: exactly the ineligible ones were not
/// run, and each other outcome is what its runs gave.
pub open spec fn benchmarked<B: Fn(usize, usize) -> Option<u64>>(
    bench: B,
    key: AutotuneKey,
    policy: EligibilityPolicy,
    runs: int,
    count: int,
    o: Seq<CandidateOutcome>,
) -> bool {
    &&& o.len() == count
    &&& forall|i: int|
        0 <= i < count ==> (#[trigger] o[i] is Ineligible <==> !eligible(key, i, policy))
    &&& forall|i: int| 0 <= i < count && #[trigger] o[i] is Failed ==> failed_by(bench, i, runs)
    &&& forall|i: int|
        0 <= i < count && #[trigger] o[i] is Measured ==> measured_by(
            bench,
            i,
            runs,
            o[i]->Measured_0,
        )
}

/// The index of the fastest candidate, ties going to the lowest index, or
/// `None` where no candidate has a duration.
pub fn select_fastest(outcomes: &Vec<CandidateOutcome>) -> (r: Option<usize>)
    ensures
        r is None <==> !any_measured(outcomes@),
        r matches Some(w) ==> is_fastest(outcomes@, w as int),
{
    let mut best: Option<usize> = None;
    let mut best_time: u64 = 0;
    let mut i: usize = 0;
    while i < outcomes.len()
        invariant
            i <= outcomes.len(),
            best is None ==> forall|j: int| 0 <= j < i ==> !(outcomes@[j] is Measured),
            best matches Some(w) ==> w < i && is_fastest(outcomes@.take(i as int), w as int)
                && outcomes@[w as int] == CandidateOutcome::Measured(best_time),
        decreases outcomes.len() - i,
    {
        let ghost prefix = outcomes@.take(i as int);
        let ghost next = outcomes@.take(i + 1);
        proof {
            assert forall|j: int| 0 <= j < i implies next[j] == prefix[j] by {}
        }
        match outcomes[i] {
            CandidateOutcome::Measured(d) => {
                let better = match best {
                    None => true,
                    Some(_) => d < best_time,
                };
                if better {
                    best = Some(i);
                    best_time = d;
                }
            },
            _ => {},
        }
        proof {
            if let Some(w) = best {
                assert(next[w as int] == outcomes@[w as int]);
                assert forall|j: int| 0 <= j < next.len() && #[trigger] next[j] is Measured implies next[w as int]->Measured_0
                    <= next[j]->Measured_0 by {
                    if j < i {
                        assert(prefix[j] == next[j]);
                    }
                }
                assert forall|j: int| 0 <= j < w && #[trigger] next[j] is Measured implies next[w as int]->Measured_0
                    < next[j]->Measured_0 by {
                    assert(prefix[j] == next[j]);
                }
            }
        }
        i = i + 1;
    }
    proof {
        assert(outcomes@.take(i as int) =~= outcomes@);
        if let Some(w) = best {
            assert(outcomes@[w as int] is Measured);
        }
    }
    best
}

/// Runs candidate `index` `runs` times through `bench`, stopping at the first
/// failed run.
fn benchmark_candidate<B: Fn(usize, usize) -> Option<u64>>(
    bench: &B,
    index: usize,
    runs: usize,
) -> (r: CandidateOutcome)
    requires
        runs >= 2,
        forall|j: usize| j < runs ==> bench.requires((index, j)),
    ensures
        !(r is Ineligible),
        r is Failed ==> failed_by(*bench, index as int, runs as int),
        r matches CandidateOutcome::Measured(d) ==> measured_by(
            *bench,
            index as int,
            runs as int,
            d,
        ),
{
    let mut times: Vec<u64> = Vec::new();
    let mut j: usize = 0;
    while j < runs
        invariant
            j <= runs,
            runs >= 2,
            forall|k: usize| k < runs ==> bench.requires((index, k)),
            times@.len() == j,
            forall|k: int| 0 <= k < j ==> bench.ensures((index, k as usize), Some(#[trigger] times@[k])),
        decreases runs - j,
    {
        match bench(index, j) {
            Some(t) => {
                times.push(t);
            },
            None => {
                proof {
                    let jj = j as int;
                    assert(0 <= jj < runs);
                    assert((*bench).ensures(((index as int) as usize, jj as usize), None));
                    assert(failed_by(*bench, index as int, runs as int));
                }
                return CandidateOutcome::Failed;
            },
        }
        j = j + 1;
    }
    let d = aggregate(&times);
    proof {
        assert(times@.len() == runs && d == aggregate_of(times@));
    }
    CandidateOutcome::Measured(d)
}

/// Benchmarks every eligible candidate among the first `count`.
fn benchmark_all<B: Fn(usize, usize) -> Option<u64>>(
    bench: &B,
    key: &AutotuneKey,
    policy: &EligibilityPolicy,
    runs: usize,
    count: usize,
) -> (r: Vec<CandidateOutcome>)
    requires
        runs >= 2,
        forall|i: usize, j: usize|
            i < count && j < runs && eligible(*key, i as int, *policy) ==> bench.requires((i, j)),
    ensures
        benchmarked(*bench, *key, *policy, runs as int, count as int, r@),
{
    let mut outcomes: Vec<CandidateOutcome> = Vec::new();
    let mut i: usize = 0;
    while i < count
        invariant
            i <= count,
            runs >= 2,
            forall|a: usize, b: usize|
                a < count && b < runs && eligible(*key, a as int, *policy) ==> bench.requires(
                    (a, b),
                ),
            benchmarked(*bench, *key, *policy, runs as int, i as int, outcomes@),
        decreases count - i,
    {
        let outcome = if should_run(key, i, policy) {
            benchmark_candidate(bench, i, runs)
        } else {
            CandidateOutcome::Ineligible
        };
        outcomes.push(outcome);
        i = i + 1;
    }
    outcomes
}

/// The decision recorded for `key` may be reused: it names one of the
/// `count` candidates, and the eligibility rule admits that candidate for
/// `key`. A decision that fails either test, such as one read from a store
/// written under another policy, is tuned anew.
pub open spec fn reusable(
    before: Map<AutotuneKey, usize>,
    key: AutotuneKey,
    count: usize,
    policy: EligibilityPolicy,
) -> bool {
    &&& before.dom().contains(key)
    &&& before[key] < count
    &&& eligible(key, before[key] as int, policy)
}

/// What a call of `execute` for `key` over `count` candidates does, from the
/// decisions `before` to the decisions `after`, returning `r`.
///
/// A reusable decision for `key` is reused: its candidate runs and nothing
/// is benchmarked. Otherwise the outcomes are those of
/// benchmarking every candidate; the fastest is recorded and run, or, where
/// none has a duration, the call fails and records nothing.
pub open spec fn executed<T, B: Fn(usize, usize) -> Option<u64>, R: FnOnce(usize) -> T>(
    before: Map<AutotuneKey, usize>,
    key: AutotuneKey,
    count: usize,
    policy: EligibilityPolicy,
    runs: int,
    bench: B,
    run: R,
    r: Result<Execution<T>, TuneError>,
    after: Map<AutotuneKey, usize>,
) -> bool {
    if reusable(before, key, count, policy) {
        &&& r matches Ok(e) && e.index == before[key] && e.outcomes@.len() == 0 && run.ensures(
            (e.index,),
            e.output,
        )
        &&& after == before
    } else {
        match r {
            Ok(e) => {
                &&& benchmarked(bench, key, policy, runs, count as int, e.outcomes@)
                &&& is_fastest(e.outcomes@, e.index as int)
                &&& run.ensures((e.index,), e.output)
                &&& after == before.insert(key, e.index)
            },
            Err(TuneError::NoViableCandidate { key: k, outcomes }) => {
                &&& k == key
                &&& benchmarked(bench, key, policy, runs, count as int, outcomes@)
                &&& !any_measured(outcomes@)
                &&& after == before
            },
        }
    }
}

/// The result of running a tuned operation: which candidate ran, what it
/// returned, and the outcomes of the tuning cycle (empty where the decision
/// came from the cache).
pub struct Execution<T> {
    pub index: usize,
    pub output: T,
    pub outcomes: Vec<CandidateOutcome>,
}

/// The one failure that reaches the caller of a tuned operation.
pub enum TuneError {
    /// No candidate was eligible for `key`, or every eligible one failed.
    /// Nothing is cached: a later call tries again.
    NoViableCandidate { key: AutotuneKey, outcomes: Vec<CandidateOutcome> },
}

/// Identity of a device: the kind of runtime and the index of the device
/// among those of its kind.
#[derive(Clone, Copy, Debug, PartialEq, Eq, Hash, Structural)]
pub struct DeviceId {
    pub type_id: u16,
    pub index_id: u32,
}

/// The tuning state of one device: its cache of decisions, its eligibility
/// policy, and how many times each candidate runs when benchmarked.
pub struct Tuner {
    device: DeviceId,
    cache: TuneCache,
    policy: EligibilityPolicy,
    runs: usize,
}

impl Tuner {
    /// Which candidate index is recorded for each key.
    pub closed spec fn decisions(&self) -> Map<AutotuneKey, usize> {
        self.cache@
    }

    /// The device whose decisions these are.
    pub closed spec fn device(&self) -> DeviceId {
        self.device
    }

    /// Which candidates may run for a key.
    pub closed spec fn policy(&self) -> EligibilityPolicy {
        self.policy
    }

    /// Runs of each candidate per benchmark, the first being a warm-up.
    pub closed spec fn runs(&self) -> usize {
        self.runs
    }

    /// The cache is well formed and a benchmark has a warm-up and a timed run.
    pub closed spec fn wf(&self) -> bool {
        self.cache.wf() && self.runs >= 2
    }

    /// A well-formed tuner runs each candidate at least twice per benchmark:
    /// a warm-up run and a timed one.
    pub proof fn lemma_runs_of_wf(&self)
        requires
            self.wf(),
        ensures
            self.runs() >= 2,
    {
    }

    /// A tuner with no decisions yet.
    pub fn new(device: DeviceId, policy: EligibilityPolicy, runs: usize) -> (r: Tuner)
        requires
            runs >= 2,
        ensures
            r.wf(),
            r.decisions() == Map::<AutotuneKey, usize>::empty(),
            r.device() == device,
            r.policy() == policy,
            r.runs() == runs,
    {
        Tuner { device, cache: TuneCache::new(), policy, runs }
    }

    /// A tuner that starts from a persisted store: from its decisions where
    /// its checksum is `checksum`, from none otherwise.
    pub fn with_store(
        device: DeviceId,
        policy: EligibilityPolicy,
        runs: usize,
        store: &PersistedStore,
        checksum: u64,
    ) -> (r: Tuner)
        requires
            runs >= 2,
        ensures
            r.wf(),
            store.checksum != checksum ==> r.decisions() == Map::<AutotuneKey, usize>::empty(),
            store.checksum == checksum ==> r.decisions() == records_map(store.records@),
            r.device() == device,
            r.policy() == policy,
            r.runs() == runs,
    {
        Tuner { device, cache: TuneCache::load(store, checksum), policy, runs }
    }

    /// The decision recorded for `key`, if any.
    pub fn fastest(&self, key: &AutotuneKey) -> (r: Option<usize>)
        requires
            self.wf(),
        ensures
            r == (if self.decisions().dom().contains(*key) {
                Some(self.decisions()[*key])
            } else {
                None::<usize>
            }),
    {
        self.cache.get(key)
    }

    /// The decisions in persisted form, stamped with `checksum`.
    pub fn to_store(&self, checksum: u64) -> (r: PersistedStore)
        requires
            self.wf(),
        ensures
            r.checksum == checksum,
            records_map(r.records@) == self.decisions(),
    {
        self.cache.to_store(checksum)
    }

    /// Runs the operation identified by `key`, whose candidates are the
    /// indices below `count`.
    ///
    /// Where a decision below `count` is recorded for `key`, that candidate
    /// runs on the real inputs through `run` and nothing is benchmarked.
    /// Otherwise every eligible candidate is benchmarked through `bench`
    /// (`bench(i, j)` times run `j` of candidate `i` on synthetic inputs, or
    /// fails), the fastest is recorded and then run through `run`. Where no
    /// candidate has a duration, the call fails and records nothing.
    pub fn execute<T, B, R>(&mut self, key: &AutotuneKey, count: usize, bench: B, run: R) -> (r:
        Result<Execution<T>, TuneError>) where
        B: Fn(usize, usize) -> Option<u64>,
        R: FnOnce(usize) -> T,

        requires
            old(self).wf(),
            forall|i: usize, j: usize|
                i < count && j < old(self).runs() && eligible(*key, i as int, old(self).policy())
                    ==> bench.requires((i, j)),
            forall|i: usize| i < count ==> run.requires((i,)),
        ensures
            final(self).wf(),
            final(self).device() == old(self).device(),
            final(self).policy() == old(self).policy(),
            final(self).runs() == old(self).runs(),
            executed(
                old(self).decisions(),
                *key,
                count,
                old(self).policy(),
                old(self).runs() as int,
                bench,
                run,
                r,
                final(self).decisions(),
            ),
    {
        if let Some(w) = self.cache.get(key) {
            if w < count && should_run(key, w, &self.policy) {
                let output = run(w);
                return Ok(Execution { index: w, output, outcomes: Vec::new() });
            }
        }
        let outcomes = benchmark_all(&bench, key, &self.policy, self.runs, count);
        match select_fastest(&outcomes) {
            Some(w) => {
                self.cache.put(key, w);
                let output = run(w);
                Ok(Execution { index: w, output, outcomes })
            },
            None => Err(TuneError::NoViableCandidate { key: *key, outcomes }),
        }
    }
}

/// How one call of `execute` for `key` over `count` candidates may change the
/// decisions: a reusable decision is kept untouched; otherwise the call
/// records for `key` one candidate below `count` that `policy` admits, or
/// nothing.
pub open spec fn execute_step(
    before: Map<AutotuneKey, usize>,
    key: AutotuneKey,
    count: usize,
    policy: EligibilityPolicy,
    after: Map<AutotuneKey, usize>,
) -> bool {
    if reusable(before, key, count, policy) {
        after == before
    } else {
        after == before || exists|w: usize|
            w < count && eligible(key, w as int, policy) && after == #[trigger] before.insert(key, w)
    }
}

/// Determinism: once `key` has a decision `w` below `count` that `policy`
/// admits, every later sequence of `execute` calls under `policy`, for this
/// key with the same `count` or for any other key, keeps `w` as its
/// decision, so each later call for `key` selects `w`.
pub proof fn lemma_decision_is_final(
    states: Seq<Map<AutotuneKey, usize>>,
    keys: Seq<AutotuneKey>,
    counts: Seq<usize>,
    policy: EligibilityPolicy,
    key: AutotuneKey,
    count: usize,
    w: usize,
)
    requires
        states.len() >= 1,
        keys.len() == states.len() - 1,
        counts.len() == states.len() - 1,
        states[0].dom().contains(key),
        states[0][key] == w,
        w < count,
        eligible(key, w as int, policy),
        forall|i: int| 0 <= i < keys.len() && keys[i] == key ==> counts[i] == count,
        forall|i: int|
            0 <= i < keys.len() ==> execute_step(
                #[trigger] states[i],
                keys[i],
                counts[i],
                policy,
                states[i + 1],
            ),
    ensures
        forall|i: int| 0 <= i < states.len() ==> #[trigger] states[i].dom().contains(key)
            && states[i][key] == w,
    decreases states.len(),
{
    if states.len() > 1 {
        let init = states.drop_last();
        lemma_decision_is_final(init, keys.drop_last(), counts.drop_last(), policy, key, count, w);
        let n = states.len() - 1;
        assert(init[n - 1] == states[n - 1]);
        let before = states[n - 1];
        let after = states[n];
        assert(execute_step(before, keys[n - 1], counts[n - 1], policy, after));
        if keys[n - 1] != key && after != before && !reusable(
            before,
            keys[n - 1],
            counts[n - 1],
            policy,
        ) {
            let v = choose|v: usize|
                v < counts[n - 1] && eligible(keys[n - 1], v as int, policy) && after
                    == #[trigger] before.insert(keys[n - 1], v);
            assert(after[key] == before[key]);
        }
        assert forall|i: int| 0 <= i < states.len() implies #[trigger] states[i].dom().contains(
            key,
        ) && states[i][key] == w by {
            if i < n {
                assert(init[i] == states[i]);
            }
        }
    }
}

/// Each call of `execute` is an `execute_step`: whatever the benchmarks
/// returned, the decisions after it are those before it, or those before it
/// with one candidate below `count` recorded for `key`.
pub proof fn lemma_execute_is_step<T, B: Fn(usize, usize) -> Option<u64>, R: FnOnce(usize) -> T>(
    before: Map<AutotuneKey, usize>,
    key: AutotuneKey,
    count: usize,
    policy: EligibilityPolicy,
    runs: int,
    bench: B,
    run: R,
    r: Result<Execution<T>, TuneError>,
    after: Map<AutotuneKey, usize>,
)
    requires
        executed(before, key, count, policy, runs, bench, run, r, after),
    ensures
        execute_step(before, key, count, policy, after),
{
    if !reusable(before, key, count, policy) {
        if let Ok(e) = r {
            assert(!(e.outcomes@[e.index as int] is Ineligible));
            assert(e.index < count && eligible(key, e.index as int, policy) && after
                == before.insert(key, e.index));
        }
    }
}

/// A reusable decision answers the call: its candidate runs, nothing is
/// benchmarked, and the decisions stay as they were.
pub proof fn lemma_reuse_without_benchmark<
    T,
    B: Fn(usize, usize) -> Option<u64>,
    R: FnOnce(usize) -> T,
>(
    before: Map<AutotuneKey, usize>,
    key: AutotuneKey,
    count: usize,
    policy: EligibilityPolicy,
    runs: int,
    bench: B,
    run: R,
    r: Result<Execution<T>, TuneError>,
    after: Map<AutotuneKey, usize>,
)
    requires
        executed(before, key, count, policy, runs, bench, run, r, after),
        reusable(before, key, count, policy),
    ensures
        r matches Ok(e) && e.index == before[key] && e.outcomes@.len() == 0 && run.ensures(
            (e.index,),
            e.output,
        ),
        after == before,
{
}

/// Graceful degradation of a call of `execute`: for a key without a
/// reusable decision, over two eligible candidates of which the first fails
/// every run and the second succeeds every run, the call succeeds, selects
/// the second, records it, and returns what running it gave.
pub proof fn lemma_execute_degrades_gracefully<
    T,
    B: Fn(usize, usize) -> Option<u64>,
    R: FnOnce(usize) -> T,
>(
    before: Map<AutotuneKey, usize>,
    key: AutotuneKey,
    policy: EligibilityPolicy,
    runs: int,
    bench: B,
    run: R,
    r: Result<Execution<T>, TuneError>,
    after: Map<AutotuneKey, usize>,
)
    requires
        executed(before, key, 2, policy, runs, bench, run, r, after),
        !reusable(before, key, 2, policy),
        runs >= 1,
        eligible(key, 0, policy),
        eligible(key, 1, policy),
        forall|j: usize, v: Option<u64>| #[trigger] bench.ensures((0usize, j), v) ==> v is None,
        forall|j: usize, v: Option<u64>| #[trigger] bench.ensures((1usize, j), v) ==> v is Some,
    ensures
        r matches Ok(e) && e.index == 1 && run.ensures((1usize,), e.output),
        after == before.insert(key, 1),
{
    match r {
        Ok(e) => {
            let o = e.outcomes@;
            lemma_graceful_degradation(bench, key, policy, runs, o);
            if e.index == 0 {
                assert(o[0] is Measured && o[1] is Measured);
                assert(o[0]->Measured_0 <= o[1]->Measured_0);
                assert(o[1]->Measured_0 < o[0]->Measured_0);
            }
        },
        Err(TuneError::NoViableCandidate { key: k, outcomes }) => {
            lemma_graceful_degradation(bench, key, policy, runs, outcomes@);
        },
    }
}

/// Eligibility is respected by every call of `execute`: the candidate it
/// runs on the real inputs is one that `policy` admits for `key`, whether
/// the decision came from the cache or from a tuning cycle.
pub proof fn lemma_execute_selects_eligible<
    T,
    B: Fn(usize, usize) -> Option<u64>,
    R: FnOnce(usize) -> T,
>(
    before: Map<AutotuneKey, usize>,
    key: AutotuneKey,
    count: usize,
    policy: EligibilityPolicy,
    runs: int,
    bench: B,
    run: R,
    r: Result<Execution<T>, TuneError>,
    after: Map<AutotuneKey, usize>,
)
    requires
        executed(before, key, count, policy, runs, bench, run, r, after),
    ensures
        r matches Ok(e) ==> e.index < count && eligible(key, e.index as int, policy),
{
    if !reusable(before, key, count, policy) {
        if let Ok(e) = r {
            assert(!(e.outcomes@[e.index as int] is Ineligible));
        }
    }
}

/// Eligibility is respected: an ineligible candidate is never benchmarked,
/// and the selected candidate is eligible.
pub proof fn lemma_eligibility_respected<B: Fn(usize, usize) -> Option<u64>>(
    bench: B,
    key: AutotuneKey,
    policy: EligibilityPolicy,
    runs: int,
    count: int,
    outcomes: Seq<CandidateOutcome>,
    w: int,
)
    requires
        benchmarked(bench, key, policy, runs, count, outcomes),
        is_fastest(outcomes, w),
    ensures
        eligible(key, w, policy),
        forall|i: int|
            0 <= i < count && !eligible(key, i, policy) ==> #[trigger] outcomes[i]
                == CandidateOutcome::Ineligible,
{
    assert(!(outcomes[w] is Ineligible));
}

/// Graceful degradation: where candidate 0 fails every run and candidate 1
/// succeeds every run, both being eligible, candidate 1 is selected.
pub proof fn lemma_graceful_degradation<B: Fn(usize, usize) -> Option<u64>>(
    bench: B,
    key: AutotuneKey,
    policy: EligibilityPolicy,
    runs: int,
    outcomes: Seq<CandidateOutcome>,
)
    requires
        runs >= 1,
        benchmarked(bench, key, policy, runs, 2, outcomes),
        eligible(key, 0, policy),
        eligible(key, 1, policy),
        forall|j: usize, r: Option<u64>| #[trigger] bench.ensures((0usize, j), r) ==> r is None,
        forall|j: usize, r: Option<u64>| #[trigger] bench.ensures((1usize, j), r) ==> r is Some,
    ensures
        any_measured(outcomes),
        is_fastest(outcomes, 1),
{
    if outcomes[0] is Measured {
        let d = outcomes[0]->Measured_0;
        assert(measured_by(bench, 0, runs, d));
        let times = choose|times: Seq<u64>|
            #![trigger aggregate_of(times)]
            times.len() == runs && d == aggregate_of(times) && forall|j: int|
                0 <= j < runs ==> bench.ensures((0int as usize, j as usize), Some(#[trigger] times[j]));
        assert(bench.ensures((0usize, 0usize), Some(times[0])));
    }
    if outcomes[1] is Failed {
        assert(failed_by(bench, 1, runs));
        let j = choose|j: int| 0 <= j < runs && #[trigger] bench.ensures((1int as usize, j as usize), None);
        assert(bench.ensures((1usize, j as usize), None));
    }
    assert(outcomes[1] is Measured);
    assert(!(outcomes[0] is Measured));
}

/// Total failure: where no candidate is eligible, no candidate has a
/// duration, so `execute` fails and records nothing.
pub proof fn lemma_total_failure<B: Fn(usize, usize) -> Option<u64>>(
    bench: B,
    key: AutotuneKey,
    policy: EligibilityPolicy,
    runs: int,
    count: int,
    outcomes: Seq<CandidateOutcome>,
)
    requires
        benchmarked(bench, key, policy, runs, count, outcomes),
        forall|i: int| 0 <= i < count ==> !eligible(key, i, policy),
    ensures
        !any_measured(outcomes),
{
    assert forall|i: int| 0 <= i < outcomes.len() implies !(outcomes[i] is Measured) by {
        assert(outcomes[i] is Ineligible);
    }
}

/// The decisions of each device that a list of tuners holds.
pub open spec fn device_map(s: Seq<Tuner>) -> Map<DeviceId, Map<AutotuneKey, usize>>
    decreases s.len(),
{
    if s.len() == 0 {
        Map::empty()
    } else {
        device_map(s.drop_last()).insert(s.last().device(), s.last().decisions())
    }
}

/// No device has two tuners.
pub open spec fn unique_devices(s: Seq<Tuner>) -> bool {
    forall|i: int, j: int| 0 <= i < j < s.len() ==> s[i].device() != s[j].device()
}

proof fn lemma_device_map_dom(s: Seq<Tuner>, d: DeviceId)
    ensures
        device_map(s).dom().contains(d) <==> exists|i: int| 0 <= i < s.len() && s[i].device() == d,
    decreases s.len(),
{
    if s.len() > 0 {
        let init = s.drop_last();
        lemma_device_map_dom(init, d);
        if device_map(s).dom().contains(d) && d != s.last().device() {
            let i = choose|i: int| 0 <= i < init.len() && init[i].device() == d;
            assert(s[i].device() == d);
        }
        if exists|i: int| 0 <= i < s.len() && s[i].device() == d {
            let i = choose|i: int| 0 <= i < s.len() && s[i].device() == d;
            if i < s.len() - 1 {
                assert(init[i].device() == d);
            }
        }
    }
}

proof fn lemma_device_map_value(s: Seq<Tuner>, i: int)
    requires
        unique_devices(s),
        0 <= i < s.len(),
    ensures
        device_map(s).dom().contains(s[i].device()),
        device_map(s)[s[i].device()] == s[i].decisions(),
    decreases s.len(),
{
    let init = s.drop_last();
    if i < s.len() - 1 {
        lemma_device_map_value(init, i);
        assert(init[i] == s[i]);
        assert(s.last().device() != s[i].device());
    }
}

proof fn lemma_device_map_update(s: Seq<Tuner>, i: int, t: Tuner)
    requires
        unique_devices(s),
        0 <= i < s.len(),
        t.device() == s[i].device(),
    ensures
        unique_devices(s.update(i, t)),
        device_map(s.update(i, t)) == device_map(s).insert(t.device(), t.decisions()),
{
    let after = s.update(i, t);
    let d = t.device();
    assert forall|a: int, b: int| 0 <= a < b < after.len() implies after[a].device()
        != after[b].device() by {
        assert(after[a].device() == s[a].device());
        assert(after[b].device() == s[b].device());
    }
    assert forall|k: DeviceId|
        #![trigger device_map(after).dom().contains(k)]
        device_map(after).dom().contains(k) == device_map(s).insert(d, t.decisions()).dom().contains(
            k,
        ) && (device_map(after).dom().contains(k) ==> device_map(after)[k] == device_map(
            s,
        ).insert(d, t.decisions())[k]) by {
        lemma_device_map_dom(after, k);
        lemma_device_map_dom(s, k);
        if k == d {
            lemma_device_map_value(after, i);
        } else if device_map(after).dom().contains(k) {
            let j = choose|j: int| 0 <= j < after.len() && after[j].device() == k;
            lemma_device_map_value(after, j);
            lemma_device_map_value(s, j);
        } else if device_map(s).dom().contains(k) {
            let j = choose|j: int| 0 <= j < s.len() && s[j].device() == k;
            assert(after[j].device() == k);
        }
    }
    assert(device_map(after) =~= device_map(s).insert(d, t.decisions()));
}

/// The decisions that a device starts from on its first use: those of its
/// persisted store where the store's checksum is `checksum`, none otherwise.
pub open spec fn initial_decisions(store: Option<PersistedStore>, checksum: u64) -> Map<
    AutotuneKey,
    usize,
> {
    match store {
        Some(s) => if s.checksum == checksum {
            records_map(s.records@)
        } else {
            Map::empty()
        },
        None => Map::empty(),
    }
}

/// The tuners of every device in use, each created on the first call for
/// its device and kept from then on. Decisions of one device are never used
/// for another.
///
/// A tuning cycle runs with exclusive access to the registry, so callers that
/// share one hold it behind a lock: a second caller for the same key waits and
/// then finds the decision cached, and no key is tuned twice at once.
pub struct LocalTuner {
    tuners: Vec<Tuner>,
    policy: EligibilityPolicy,
    runs: usize,
}

impl View for LocalTuner {
    type V = Map<DeviceId, Map<AutotuneKey, usize>>;

    closed spec fn view(&self) -> Map<DeviceId, Map<AutotuneKey, usize>> {
        device_map(self.tuners@)
    }
}

impl LocalTuner {
    /// One well-formed tuner per device, each with the registry's settings.
    pub closed spec fn wf(&self) -> bool {
        &&& unique_devices(self.tuners@)
        &&& forall|i: int| 0 <= i < self.tuners@.len() ==> (#[trigger] self.tuners@[i]).wf()
            && self.tuners@[i].policy() == self.policy && self.tuners@[i].runs() == self.runs
        &&& self.runs >= 2
    }

    /// Eligibility policy of every tuner.
    pub closed spec fn policy(&self) -> EligibilityPolicy {
        self.policy
    }

    /// Runs per benchmark of every tuner.
    pub closed spec fn runs(&self) -> usize {
        self.runs
    }

    /// A well-formed registry runs each candidate at least twice per
    /// benchmark: a warm-up run and a timed one.
    pub proof fn lemma_runs_of_wf(&self)
        requires
            self.wf(),
        ensures
            self.runs() >= 2,
    {
    }

    /// A registry with no device yet.
    pub fn new(policy: EligibilityPolicy, runs: usize) -> (r: LocalTuner)
        requires
            runs >= 2,
        ensures
            r.wf(),
            r@ == Map::<DeviceId, Map<AutotuneKey, usize>>::empty(),
            r.policy() == policy,
            r.runs() == runs,
    {
        LocalTuner { tuners: Vec::new(), policy, runs }
    }

    /// Whether `device` has been used, so that its store was already read.
    pub fn knows(&self, device: &DeviceId) -> (r: bool)
        ensures
            r == self@.dom().contains(*device),
    {
        proof {
            lemma_device_map_dom(self.tuners@, *device);
        }
        self.position(device).is_some()
    }

    /// The decisions of `device` in persisted form, stamped with `checksum`;
    /// `None` where the device has not been used.
    pub fn to_store(&self, device: &DeviceId, checksum: u64) -> (r: Option<PersistedStore>)
        requires
            self.wf(),
        ensures
            r is Some <==> self@.dom().contains(*device),
            r matches Some(s) ==> s.checksum == checksum && records_map(s.records@)
                == self@[*device],
    {
        proof {
            lemma_device_map_dom(self.tuners@, *device);
        }
        match self.position(device) {
            Some(i) => {
                proof {
                    lemma_device_map_value(self.tuners@, i as int);
                }
                Some(self.tuners[i].to_store(checksum))
            },
            None => None,
        }
    }

    fn position(&self, device: &DeviceId) -> (r: Option<usize>)
        ensures
            r matches Some(i) ==> i < self.tuners@.len() && self.tuners@[i as int].device()
                == *device,
            r is None ==> forall|i: int|
                0 <= i < self.tuners@.len() ==> self.tuners@[i].device() != *device,
    {
        let mut i: usize = 0;
        while i < self.tuners.len()
            invariant
                i <= self.tuners.len(),
                forall|j: int| 0 <= j < i ==> self.tuners@[j].device() != *device,
            decreases self.tuners.len() - i,
        {
            if self.tuners[i].device == *device {
                return Some(i);
            }
            i = i + 1;
        }
        None
    }

    /// Runs the operation identified by `key` on `device` as
    /// `Tuner::execute` does. On the first call for `device` its tuner is
    /// created from `store`, which is trusted only where its checksum is
    /// `checksum`; on later calls `store` is not read. The decisions of
    /// other devices are left as they were.
    pub fn execute<T, B, R>(
        &mut self,
        device: &DeviceId,
        store: Option<&PersistedStore>,
        checksum: u64,
        key: &AutotuneKey,
        count: usize,
        bench: B,
        run: R,
    ) -> (r: Result<Execution<T>, TuneError>) where
        B: Fn(usize, usize) -> Option<u64>,
        R: FnOnce(usize) -> T,

        requires
            old(self).wf(),
            forall|i: usize, j: usize|
                i < count && j < old(self).runs() && eligible(*key, i as int, old(self).policy())
                    ==> bench.requires((i, j)),
            forall|i: usize| i < count ==> run.requires((i,)),
        ensures
            final(self).wf(),
            final(self).policy() == old(self).policy(),
            final(self).runs() == old(self).runs(),
            final(self)@.dom() == old(self)@.dom().insert(*device),
            forall|d: DeviceId|
                d != *device && #[trigger] old(self)@.dom().contains(d) ==> final(self)@[d] == old(
                    self,
                )@[d],
            executed(
                if old(self)@.dom().contains(*device) {
                    old(self)@[*device]
                } else {
                    initial_decisions(
                        match store {
                            Some(s) => Some(*s),
                            None => None,
                        },
                        checksum,
                    )
                },
                *key,
                count,
                old(self).policy(),
                old(self).runs() as int,
                bench,
                run,
                r,
                final(self)@[*device],
            ),
    {
        proof {
            lemma_device_map_dom(self.tuners@, *device);
        }
        let i = match self.position(device) {
            Some(i) => {
                proof {
                    lemma_device_map_value(self.tuners@, i as int);
                }
                i
            },
            None => {
                let tuner = match store {
                    Some(s) => Tuner::with_store(*device, self.policy, self.runs, s, checksum),
                    None => Tuner::new(*device, self.policy, self.runs),
                };
                let ghost before = self.tuners@;
                self.tuners.push(tuner);
                proof {
                    assert(self.tuners@.drop_last() =~= before);
                    assert forall|a: int, b: int|
                        0 <= a < b < self.tuners@.len() implies self.tuners@[a].device()
                        != self.tuners@[b].device() by {
                        if b < before.len() {
                            assert(before[a] == self.tuners@[a]);
                            assert(before[b] == self.tuners@[b]);
                        } else {
                            assert(before[a] == self.tuners@[a]);
                        }
                    }
                    assert forall|j: int| 0 <= j < self.tuners@.len() implies (
                    #[trigger] self.tuners@[j]).wf() && self.tuners@[j].policy() == self.policy
                        && self.tuners@[j].runs() == self.runs by {
                        if j < before.len() {
                            assert(before[j] == self.tuners@[j]);
                        }
                    }
                    lemma_device_map_value(self.tuners@, before.len() as int);
                }
                self.tuners.len() - 1
            },
        };
        let ghost mid = self.tuners@;
        let ghost mid_map = device_map(mid);
        let mut tuner = self.tuners.remove(i);
        let r = tuner.execute(key, count, bench, run);
        self.tuners.insert(i, tuner);
        proof {
            assert(self.tuners@ =~= mid.update(i as int, tuner));
            lemma_device_map_update(mid, i as int, tuner);
            assert forall|j: int| 0 <= j < self.tuners@.len() implies (
            #[trigger] self.tuners@[j]).wf() && self.tuners@[j].policy() == self.policy
                && self.tuners@[j].runs() == self.runs by {
                if j != i {
                    assert(mid[j] == self.tuners@[j]);
                }
            }
            assert(self@.dom() =~= old(self)@.dom().insert(*device));
        }
        r
    }
}

} // verus!
