//! The machine: a calculator orchestrated over a checkpoint cache.
//!
//! A `Calculator` advances a phase step by step from one index to a later
//! one; the `Machine` resumes each query from the closest cached phase,
//! evicts stale cache entries when the configured thresholds are exceeded,
//! and writes the advanced phase back. The recurrence's value at `n` is
//! `value_at`: the head of the window reached by `n` steps from the
//! calculator's base case, and both the cached and the uncached entry points
//! return exactly that value.

use vstd::prelude::*;

use crate::caches::{CacheResult, MachineCache};
use crate::phases::{MMInt, MMSize, Phase};

verus! {

/// Error occurred during some calculation. It is the slot through which a
/// failing calculator propagates its error unmodified; the reference
/// calculators are total over their valid inputs and never produce one.
#[derive(Clone, Copy, Debug, PartialEq, Eq)]
pub enum MachineError {
    /// A calculator could not advance its phase.
    CalculatorFailure,
}

/// Alias for Result<T, MachineError>.
pub type MachineResult<T> = Result<T, MachineError>;

/// A pluggable recurrence strategy: one step of the recurrence, its base
/// case, and an executable `calculate` that advances a phase to a target
/// index by repeating that step.
///
/// `iter_spec` and `can_advance_spec` name the step's closure under
/// repetition; the three lemma obligations pin them to `step_spec` and
/// `step_ok`, so that every implementation advances by its own single step
/// and by nothing else.
pub trait Calculator: Sized {
    /// One step of the recurrence: the window at some index, advanced to the
    /// window at the next index.
    spec fn step_spec(&self, w: Seq<MMInt>) -> Seq<MMInt>;

    /// Whether one step from window `w` stays within the machine's integer
    /// limits, so that the executable step can take it.
    spec fn step_ok(&self, w: Seq<MMInt>) -> bool;

    /// The window of the recurrence's base case, its state at index zero.
    spec fn base_spec(&self) -> Seq<MMInt>;

    /// The window `k` steps after `w`.
    spec fn iter_spec(&self, w: Seq<MMInt>, k: nat) -> Seq<MMInt>;

    /// Every one of the `k` steps from `w` stays within machine limits.
    spec fn can_advance_spec(&self, w: Seq<MMInt>, k: nat) -> bool;

    /// Taking no steps changes nothing.
    proof fn lemma_iter_zero(&self, w: Seq<MMInt>)
        ensures
            self.iter_spec(w, 0) == w,
    ;

    /// One more iterated step is one application of the single step.
    proof fn lemma_iter_succ(&self, w: Seq<MMInt>, k: nat)
        ensures
            self.iter_spec(w, k + 1) == self.step_spec(self.iter_spec(w, k)),
    ;

    /// `can_advance_spec` means exactly that each intermediate window admits
    /// its step.
    proof fn lemma_can_advance(&self, w: Seq<MMInt>, k: nat)
        ensures
            self.can_advance_spec(w, k) <==> (forall|j: nat|
                j < k ==> self.step_ok(#[trigger] self.iter_spec(w, j))),
    ;

    /// A phase holding the recurrence's base case at index zero.
    fn base(&self) -> (p: Phase)
        ensures
            p.input_spec() == 0,
            p.window() == self.base_spec(),
    ;

    /// Advance `phase` from its own index up to exactly index `n`, leaving
    /// the result in the head slot. Total over valid inputs: it cannot fail
    /// when every step stays within machine limits.
    fn calculate(&self, n: MMInt, phase: &mut Phase) -> (r: MachineResult<Phase>)
        requires
            old(phase).input_spec() <= n,
            self.can_advance_spec(old(phase).window(), (n - old(phase).input_spec()) as nat),
        ensures
            r is Ok,
            r matches Ok(p) ==> p == *final(phase),
            final(phase).input_spec() == n,
            final(phase).window() == self.iter_spec(
                old(phase).window(),
                (n - old(phase).input_spec()) as nat,
            ),
    ;
}

/// The window `k` steps of `step` after `w`: the canonical body for
/// `iter_spec`.
pub open spec fn iter_fn(step: spec_fn(Seq<MMInt>) -> Seq<MMInt>, w: Seq<MMInt>, k: nat) -> Seq<
    MMInt,
>
    decreases k,
{
    if k == 0 {
        w
    } else {
        step(iter_fn(step, w, (k - 1) as nat))
    }
}

/// Every one of the `k` steps of `step` from `w` satisfies `ok`: the
/// canonical body for `can_advance_spec`.
pub open spec fn advance_ok_fn(
    step: spec_fn(Seq<MMInt>) -> Seq<MMInt>,
    ok: spec_fn(Seq<MMInt>) -> bool,
    w: Seq<MMInt>,
    k: nat,
) -> bool {
    forall|j: nat| j < k ==> ok(#[trigger] iter_fn(step, w, j))
}

/// The canonical window of the recurrence at index `n`: `n` steps from the
/// base case.
pub open spec fn canonical_window<C: Calculator>(c: C, n: MMInt) -> Seq<MMInt> {
    c.iter_spec(c.base_spec(), n as nat)
}

/// The value of the recurrence at index `n`.
pub open spec fn value_at<C: Calculator>(c: C, n: MMInt) -> MMInt {
    canonical_window(c, n)[0]
}

/// The recurrence can be computed from its base case up to index `n`
/// without leaving machine limits.
pub open spec fn can_reach<C: Calculator>(c: C, n: MMInt) -> bool {
    c.can_advance_spec(c.base_spec(), n as nat)
}

/// Resumption equivalence: advancing a window `a + b` steps is the same as
/// advancing it `a` steps and then `b` more — so a computation resumed from
/// any intermediate checkpoint agrees with one done in a single run.
pub proof fn lemma_iterate_add<C: Calculator>(c: C, w: Seq<MMInt>, a: nat, b: nat)
    ensures
        c.iter_spec(w, a + b) == c.iter_spec(c.iter_spec(w, a), b),
    decreases b,
{
    if b == 0 {
        c.lemma_iter_zero(c.iter_spec(w, a));
    } else {
        lemma_iterate_add(c, w, a, (b - 1) as nat);
        c.lemma_iter_succ(w, (a + b - 1) as nat);
        c.lemma_iter_succ(c.iter_spec(w, a), (b - 1) as nat);
    }
}

/// If all `a + b` steps from `w` stay in limits, so do the first `a`, and so
/// do the `b` steps taken after them.
pub proof fn lemma_can_advance_split<C: Calculator>(c: C, w: Seq<MMInt>, a: nat, b: nat)
    requires
        c.can_advance_spec(w, a + b),
    ensures
        c.can_advance_spec(w, a),
        c.can_advance_spec(c.iter_spec(w, a), b),
{
    c.lemma_can_advance(w, a + b);
    c.lemma_can_advance(w, a);
    c.lemma_can_advance(c.iter_spec(w, a), b);
    assert forall|j: nat| j < a implies c.step_ok(#[trigger] c.iter_spec(w, j)) by {
        assert(j < a + b);
    }
    assert forall|j: nat| j < b implies c.step_ok(#[trigger] c.iter_spec(c.iter_spec(w, a), j)) by {
        lemma_iterate_add(c, w, a, j);
        assert(a + j < a + b);
        assert(c.step_ok(c.iter_spec(w, a + j)));
    }
}

/// Orchestrates a calculator over a checkpoint cache: lookups, eviction when
/// capacity or staleness thresholds are met, and write-back of results.
#[derive(Debug)]
pub struct Machine<MM: Calculator> {
    cache: MachineCache,
    machine: MM,
    max_entry_cap: MMSize,
    max_usage_age: MMSize,
}

impl<MM: Calculator> Machine<MM> {
    /// The checkpoint cache this machine works over.
    pub closed spec fn cache_spec(&self) -> MachineCache {
        self.cache
    }

    /// The calculator this machine runs.
    pub closed spec fn calc_spec(&self) -> MM {
        self.machine
    }

    /// Entry count at which an eviction sweep is considered.
    pub closed spec fn cap_spec(&self) -> MMSize {
        self.max_entry_cap
    }

    /// Staleness age at which an eviction sweep is considered.
    pub closed spec fn age_cap_spec(&self) -> MMSize {
        self.max_usage_age
    }

    /// Well-formed: the cache is well-formed and every cached phase is the
    /// canonical state of this machine's recurrence at its own index.
    pub open spec fn wf(&self) -> bool {
        &&& self.cache_spec().wf()
        &&& forall|k: MMInt|
            self.cache_spec().has_key(k) ==> #[trigger] self.cache_spec().phase_at(k).window()
                == canonical_window(self.calc_spec(), k) && self.cache_spec().phase_at(
                k,
            ).input_spec() == k
    }

    /// The machine's configuration: the calculator and both thresholds.
    pub open spec fn same_config(pre: &Machine<MM>, post: &Machine<MM>) -> bool {
        &&& post.calc_spec() == pre.calc_spec()
        &&& post.cap_spec() == pre.cap_spec()
        &&& post.age_cap_spec() == pre.age_cap_spec()
    }

    /// Create a new machine over an empty cache.
    pub fn new(machine: MM, max_entries: MMSize, max_age: MMSize) -> (m: Machine<MM>)
        ensures
            m.wf(),
            m.calc_spec() == machine,
            m.cap_spec() == max_entries,
            m.age_cap_spec() == max_age,
            m.cache_spec().len_spec() == 0,
            forall|k: MMInt| !m.cache_spec().has_key(k),
    {
        Machine {
            cache: MachineCache::new(),
            machine,
            max_entry_cap: max_entries,
            max_usage_age: max_age,
        }
    }

    /// Number of checkpoints currently cached.
    pub fn cache_len(&self) -> (n: MMSize)
        ensures
            n == self.cache_spec().len_spec(),
    {
        self.cache.len()
    }

    /// Whether a checkpoint for exactly index `n` is currently cached.
    pub fn cache_contains(&self, n: MMInt) -> (r: bool)
        requires
            self.wf(),
        ensures
            r == self.cache_spec().has_key(n),
    {
        self.cache.contains(n)
    }

    /// Do the internal calculation.
    fn calculate(&self, n: MMInt, phase: &mut Phase) -> (r: MachineResult<Phase>)
        requires
            old(phase).input_spec() <= n,
            self.calc_spec().can_advance_spec(
                old(phase).window(),
                (n - old(phase).input_spec()) as nat,
            ),
        ensures
            r is Ok,
            r matches Ok(p) ==> p == *final(phase),
            final(phase).input_spec() == n,
            final(phase).window() == self.calc_spec().iter_spec(
                old(phase).window(),
                (n - old(phase).input_spec()) as nat,
            ),
    {
        self.machine.calculate(n, phase)
    }

    /// Sweep the most stale entries out of the cache.
    fn drop_invalid(&mut self) -> (r: CacheResult<Vec<Phase>>)
        requires
            old(self).wf(),
        ensures
            final(self).wf(),
            Machine::same_config(old(self), final(self)),
            final(self).cache_spec().len_spec() <= old(self).cache_spec().len_spec(),
            old(self).cache_spec().len_spec() > 0 ==> final(self).cache_spec().len_spec() < old(
                self,
            ).cache_spec().len_spec(),
    {
        let r = self.cache.drop_invalid();
        proof {
            assert forall|k: MMInt| self.cache.has_key(k) implies #[trigger] self.cache.phase_at(
                k,
            ).window() == canonical_window(self.calc_spec(), k) && self.cache.phase_at(
                k,
            ).input_spec() == k by {
                assert(old(self).cache.has_key(k));
                assert(self.cache.phase_at(k) == old(self).cache.phase_at(k));
            }
        }
        r
    }

    /// The cache has grown to the configured entry cap.
    fn is_too_big(&self) -> (r: bool)
        ensures
            r == (self.cache_spec().len_spec() >= self.cap_spec()),
    {
        self.cache.len() >= self.max_entry_cap()
    }

    /// Some cache entry has gone unused for the configured number of ticks.
    fn is_too_old(&self) -> (r: bool)
        requires
            self.wf(),
        ensures
            r == (self.cache_spec().highest_spec() >= self.age_cap_spec()),
    {
        self.cache.highest_usage() >= self.max_usage_age()
    }

    /// Closest-preceding lookup in the cache; a hit is a touch.
    fn lookup(&mut self, n: MMInt) -> (r: CacheResult<Phase>)
        requires
            old(self).wf(),
        ensures
            final(self).wf(),
            Machine::same_config(old(self), final(self)),
            final(self).cache_spec().len_spec() == old(self).cache_spec().len_spec(),
            r matches Ok(p) ==> p.input_spec() <= n && p.window() == canonical_window(
                final(self).calc_spec(),
                p.input_spec(),
            ),
    {
        let r = self.cache.find_closest(n);
        proof {
            if let Ok(p) = r {
                assert(old(self).cache.has_key(p.input_spec()));
                assert(p == old(self).cache.phase_at(p.input_spec()));
                assert forall|k: MMInt|
                    self.cache.has_key(k) implies #[trigger] self.cache.phase_at(k).window()
                    == canonical_window(self.calc_spec(), k) && self.cache.phase_at(
                    k,
                ).input_spec() == k by {
                    assert(old(self).cache.has_key(k));
                    assert(self.cache.phase_at(k) == old(self).cache.phase_at(k));
                }
            }
        }
        r
    }

    /// Maximum entries before a cleanup sweep is considered.
    fn max_entry_cap(&self) -> (r: MMSize)
        ensures
            r == self.cap_spec(),
    {
        self.max_entry_cap
    }

    /// Maximum staleness before a cleanup sweep is considered.
    fn max_usage_age(&self) -> (r: MMSize)
        ensures
            r == self.age_cap_spec(),
    {
        self.max_usage_age
    }

    /// Write an advanced phase back into the cache, aging all other entries.
    fn update(&mut self, phase: Phase)
        requires
            old(self).wf(),
            phase.window() == canonical_window(old(self).calc_spec(), phase.input_spec()),
        ensures
            final(self).wf(),
            Machine::same_config(old(self), final(self)),
            final(self).cache_spec().has_key(phase.input_spec()),
            final(self).cache_spec().phase_at(phase.input_spec()) == phase,
            final(self).cache_spec().age_at(phase.input_spec()) == 0,
            final(self).cache_spec().len_spec() <= old(self).cache_spec().len_spec() + 1,
    {
        let ghost key = phase.input_spec();
        self.cache.push(phase);
        proof {
            assert forall|k: MMInt| self.cache.has_key(k) implies #[trigger] self.cache.phase_at(
                k,
            ).window() == canonical_window(self.calc_spec(), k) && self.cache.phase_at(
                k,
            ).input_spec() == k by {
                if k != key {
                    assert(old(self).cache.has_key(k));
                    assert(self.cache.phase_at(k) == old(self).cache.phase_at(k));
                } else {
                    assert(self.cache.phase_at(k) == phase);
                }
            }
        }
    }
}

/// Find the phase to resume from: the closest cached checkpoint at or below
/// `n`, or the calculator's base case if none qualifies.
fn lru_find_phase<MM: Calculator>(mm: &mut Machine<MM>, n: MMInt) -> (p: Phase)
    requires
        old(mm).wf(),
    ensures
        final(mm).wf(),
        Machine::same_config(old(mm), final(mm)),
        final(mm).cache_spec().len_spec() == old(mm).cache_spec().len_spec(),
        p.input_spec() <= n,
        p.window() == canonical_window(final(mm).calc_spec(), p.input_spec()),
{
    match mm.lookup(n) {
        Ok(p) => p,
        Err(_) => {
            let base = mm.machine.base();
            proof {
                mm.calc_spec().lemma_iter_zero(mm.calc_spec().base_spec());
            }
            base
        },
    }
}

/// Run the eviction sweep if the cache has met its capacity or staleness
/// threshold.
fn lru_drop_if_capacity_met<MM: Calculator>(mm: &mut Machine<MM>)
    requires
        old(mm).wf(),
    ensures
        final(mm).wf(),
        Machine::same_config(old(mm), final(mm)),
        final(mm).cache_spec().len_spec() <= old(mm).cache_spec().len_spec(),
        old(mm).cache_spec().len_spec() >= old(mm).cap_spec() && old(mm).cache_spec().len_spec()
            > 0 ==> final(mm).cache_spec().len_spec() < old(mm).cache_spec().len_spec(),
{
    if mm.is_too_big() || mm.is_too_old() {
        let _ = mm.drop_invalid();
    }
}

/// Advance `phase` to `n`, write the result back into the cache, and return
/// the recurrence's value at `n`.
fn lru_do_calculation<MM: Calculator>(mm: &mut Machine<MM>, n: MMInt, phase: &mut Phase) -> (r:
    MachineResult<MMInt>)
    requires
        old(mm).wf(),
        old(phase).input_spec() <= n,
        old(phase).window() == canonical_window(old(mm).calc_spec(), old(phase).input_spec()),
        can_reach(old(mm).calc_spec(), n),
    ensures
        final(mm).wf(),
        Machine::same_config(old(mm), final(mm)),
        r == MachineResult::<MMInt>::Ok(value_at(final(mm).calc_spec(), n)),
        final(mm).cache_spec().has_key(n),
        final(mm).cache_spec().age_at(n) == 0,
        final(mm).cache_spec().len_spec() <= old(mm).cache_spec().len_spec() + 1,
{
    let ghost c = mm.calc_spec();
    let ghost i = phase.input_spec() as nat;
    proof {
        lemma_can_advance_split(c, c.base_spec(), i, (n as nat - i) as nat);
    }
    match mm.calculate(n, phase) {
        Ok(calc) => {
            proof {
                lemma_iterate_add(c, c.base_spec(), i, (n as nat - i) as nat);
                assert(calc.window() == canonical_window(c, n));
            }
            mm.update(calc);
            Ok(calc.result())
        },
        Err(m) => Err(m),
    }
}

/// Compute the recurrence's value at `n`, resuming from the closest cached
/// checkpoint, sweeping stale entries when a threshold is met, and caching
/// the result. The cache never grows beyond its starting size, the entry
/// cap, or one entry, whichever is largest.
pub fn lru_calculate<MM: Calculator>(mm: &mut Machine<MM>, n: MMInt) -> (r: MachineResult<MMInt>)
    requires
        old(mm).wf(),
        can_reach(old(mm).calc_spec(), n),
    ensures
        final(mm).wf(),
        Machine::same_config(old(mm), final(mm)),
        r == MachineResult::<MMInt>::Ok(value_at(old(mm).calc_spec(), n)),
        final(mm).cache_spec().has_key(n),
        final(mm).cache_spec().age_at(n) == 0,
        final(mm).cache_spec().phase_at(n).result_spec() == value_at(old(mm).calc_spec(), n),
        final(mm).cache_spec().len_spec() <= max3(
            old(mm).cache_spec().len_spec() as int,
            old(mm).cap_spec() as int,
            1,
        ),
{
    let mut phase = lru_find_phase(mm, n);
    lru_drop_if_capacity_met(mm);
    lru_do_calculation(mm, n, &mut phase)
}

/// The largest of three numbers.
pub open spec fn max3(a: int, b: int, c: int) -> int {
    if a >= b && a >= c {
        a
    } else if b >= c {
        b
    } else {
        c
    }
}

/// Compute the recurrence's value at `n` from the base case alone, without
/// reading or writing any cache. The baseline oracle: it returns exactly the
/// value `lru_calculate` returns, whatever the cache holds.
pub fn raw_calculate<MM: Calculator>(mm: &Machine<MM>, n: MMInt) -> (r: MachineResult<MMInt>)
    requires
        can_reach(mm.calc_spec(), n),
    ensures
        r == MachineResult::<MMInt>::Ok(value_at(mm.calc_spec(), n)),
{
    let mut phase = mm.machine.base();
    match mm.calculate(n, &mut phase) {
        Ok(calc) => Ok(calc.result()),
        Err(m) => Err(m),
    }
}

} // verus!
