//! The checkpoint cache: phases keyed by input with staleness tracking.
//!
//! The cache stores at most one phase per input. Every successful access
//! ("touch") — an exact find, a closest find, or a push — resets the touched
//! entry's age to zero and ages every other entry by one tick, so that the
//! entry with the highest age is always the least recently used. The eviction
//! sweep removes exactly the most stale entry (or entries, on a tie).

use vstd::prelude::*;

use crate::phases::{MMInt, MMSize, Phase};

verus! {

/// Alias for Result<T, CacheError>.
pub type CacheResult<T> = Result<T, CacheError>;

/// Error raised while retrieving from or updating a cache.
#[derive(Clone, Copy, Debug, PartialEq, Eq)]
pub enum CacheError {
    /// No phase qualified for the requested lookup.
    PhaseNotFound,
}

/// One cache slot: a stored phase and its age, the count of touches of other
/// entries since this one was last touched.
#[derive(Clone, Copy, Debug)]
struct Entry {
    phase: Phase,
    age: MMSize,
}

/// Stores phases keyed by their input, together with a staleness counter per
/// entry.
#[derive(Clone, Debug)]
pub struct MachineCache {
    entries: Vec<Entry>,
}

/// An age one tick later: ages saturate at the machine's integer limit
/// instead of wrapping.
pub open spec fn bump_spec(a: nat) -> nat {
    if a < usize::MAX as nat {
        a + 1
    } else {
        a
    }
}

/// A touch of the entry at index `i`, seen slot by slot: its age is zero,
/// every other age is one tick later, and the phases are untouched.
spec fn touched_at(pre: Seq<Entry>, post: Seq<Entry>, i: int) -> bool {
    &&& post.len() == pre.len()
    &&& forall|j: int| 0 <= j < pre.len() ==> #[trigger] post[j].phase == pre[j].phase
    &&& post[i].age == 0
    &&& forall|j: int|
        0 <= j < pre.len() && j != i ==> #[trigger] post[j].age as nat == bump_spec(
            pre[j].age as nat,
        )
}

/// No two entries of `s` share an input.
spec fn entries_unique(s: Seq<Entry>) -> bool {
    forall|i: int, j: int|
        0 <= i < j < s.len() ==> #[trigger] s[i].phase.input_spec()
            != #[trigger] s[j].phase.input_spec()
}

/// The first `i` entries contain `e`, with age strictly below `h`.
spec fn in_prefix_kept(entries: Seq<Entry>, i: int, h: MMSize, e: Entry) -> bool {
    exists|j: int| 0 <= j < i && #[trigger] entries[j] == e && entries[j].age < h
}

/// Some of the first `i` entries has phase `ph` and age at least `h`.
spec fn in_prefix_removed(entries: Seq<Entry>, i: int, h: MMSize, ph: Phase) -> bool {
    exists|j: int| 0 <= j < i && #[trigger] entries[j].phase == ph && entries[j].age >= h
}

/// Every entry of the first `i` with age below `h` appears in `kept`.
#[verifier::opaque]
spec fn covers_kept(entries: Seq<Entry>, kept: Seq<Entry>, i: int, h: MMSize) -> bool {
    forall|j: int| #![trigger entries[j]]
        0 <= j < i && entries[j].age < h ==> kept.contains(entries[j])
}

/// Every entry of the first `i` with age at least `h` has its phase in
/// `removed`.
#[verifier::opaque]
spec fn covers_removed(entries: Seq<Entry>, removed: Seq<Phase>, i: int, h: MMSize) -> bool {
    forall|j: int| #![trigger entries[j]]
        0 <= j < i && entries[j].age >= h ==> removed.contains(entries[j].phase)
}

/// Everything in `kept` is one of the first `i` entries, with age below `h`.
#[verifier::opaque]
spec fn sound_kept(entries: Seq<Entry>, kept: Seq<Entry>, i: int, h: MMSize) -> bool {
    forall|m: int| #![trigger kept[m]]
        0 <= m < kept.len() ==> in_prefix_kept(entries, i, h, kept[m])
}

/// Everything in `removed` is the phase of one of the first `i` entries,
/// with age at least `h`.
#[verifier::opaque]
spec fn sound_removed(entries: Seq<Entry>, removed: Seq<Phase>, i: int, h: MMSize) -> bool {
    forall|m: int| #![trigger removed[m]]
        0 <= m < removed.len() ==> in_prefix_removed(entries, i, h, removed[m])
}

/// After scanning the first `i` entries: `kept` holds exactly those with age
/// strictly below `h`, `removed` the phases of the rest, and the kept
/// entries still have pairwise distinct inputs.
spec fn sweep_inv(entries: Seq<Entry>, kept: Seq<Entry>, removed: Seq<Phase>, i: int, h: MMSize) -> bool {
    &&& kept.len() + removed.len() == i
    &&& covers_kept(entries, kept, i, h)
    &&& covers_removed(entries, removed, i, h)
    &&& sound_kept(entries, kept, i, h)
    &&& sound_removed(entries, removed, i, h)
    &&& entries_unique(kept)
}

/// A prefix membership still holds of a longer prefix.
proof fn lemma_in_prefix_kept_mono(entries: Seq<Entry>, i: int, h: MMSize, e: Entry)
    requires
        in_prefix_kept(entries, i, h, e),
    ensures
        in_prefix_kept(entries, i + 1, h, e),
{
    let j = choose|j: int| 0 <= j < i && #[trigger] entries[j] == e && entries[j].age < h;
    assert(0 <= j < i + 1 && entries[j] == e && entries[j].age < h);
}

/// A prefix membership still holds of a longer prefix.
proof fn lemma_in_prefix_removed_mono(entries: Seq<Entry>, i: int, h: MMSize, ph: Phase)
    requires
        in_prefix_removed(entries, i, h, ph),
    ensures
        in_prefix_removed(entries, i + 1, h, ph),
{
    let j = choose|j: int| 0 <= j < i && #[trigger] entries[j].phase == ph && entries[j].age >= h;
    assert(0 <= j < i + 1 && entries[j].phase == ph && entries[j].age >= h);
}

/// The sweep invariant holds before any entry has been scanned.
proof fn lemma_sweep_init(entries: Seq<Entry>, h: MMSize)
    ensures
        sweep_inv(entries, Seq::empty(), Seq::empty(), 0, h),
{
    reveal(covers_kept);
    reveal(covers_removed);
    reveal(sound_kept);
    reveal(sound_removed);
}

/// One sweep step over an entry that is kept.
proof fn lemma_sweep_keep(entries: Seq<Entry>, kept: Seq<Entry>, removed: Seq<Phase>, i: int, h: MMSize)
    requires
        entries_unique(entries),
        0 <= i < entries.len(),
        entries[i].age < h,
        sweep_inv(entries, kept, removed, i, h),
    ensures
        sweep_inv(entries, kept.push(entries[i]), removed, i + 1, h),
{
    let kept1 = kept.push(entries[i]);
    assert(covers_kept(entries, kept1, i + 1, h)) by {
        reveal(covers_kept);
        assert forall|j: int| #![trigger entries[j]]
            0 <= j < i + 1 && entries[j].age < h implies kept1.contains(entries[j]) by {
            if j < i {
                assert(kept.contains(entries[j]));
                let m = choose|m: int| 0 <= m < kept.len() && kept[m] == entries[j];
                assert(kept1[m] == entries[j]);
            } else {
                assert(kept1[kept1.len() - 1] == entries[j]);
            }
        }
    }
    assert(covers_removed(entries, removed, i + 1, h)) by {
        reveal(covers_removed);
        assert forall|j: int| #![trigger entries[j]]
            0 <= j < i + 1 && entries[j].age >= h implies removed.contains(entries[j].phase) by {
            assert(j < i);
        }
    }
    assert(sound_kept(entries, kept1, i + 1, h)) by {
        reveal(sound_kept);
        assert forall|m: int| #![trigger kept1[m]]
            0 <= m < kept1.len() implies in_prefix_kept(entries, i + 1, h, kept1[m]) by {
            if m < kept.len() {
                assert(kept1[m] == kept[m]);
                assert(in_prefix_kept(entries, i, h, kept[m]));
                lemma_in_prefix_kept_mono(entries, i, h, kept[m]);
            } else {
                assert(kept1[m] == entries[i]);
                assert(0 <= i < i + 1 && entries[i] == entries[i] && entries[i].age < h);
            }
        }
    }
    assert(sound_removed(entries, removed, i + 1, h)) by {
        reveal(sound_removed);
        assert forall|m: int| #![trigger removed[m]]
            0 <= m < removed.len() implies in_prefix_removed(entries, i + 1, h, removed[m]) by {
            assert(in_prefix_removed(entries, i, h, removed[m]));
            lemma_in_prefix_removed_mono(entries, i, h, removed[m]);
        }
    }
    assert(entries_unique(kept1)) by {
        reveal(sound_kept);
        assert forall|m1: int, m2: int|
            0 <= m1 < m2 < kept1.len() implies #[trigger] kept1[m1].phase.input_spec()
            != #[trigger] kept1[m2].phase.input_spec() by {
            if m2 == kept1.len() - 1 {
                assert(kept1[m1] == kept[m1]);
                assert(in_prefix_kept(entries, i, h, kept[m1]));
                let j = choose|j: int|
                    0 <= j < i && #[trigger] entries[j] == kept[m1] && entries[j].age < h;
                assert(entries[j].phase.input_spec() != entries[i].phase.input_spec());
                assert(kept1[m2] == entries[i]);
            } else {
                assert(kept1[m1] == kept[m1]);
                assert(kept1[m2] == kept[m2]);
            }
        }
    }
}

/// One sweep step over an entry that is removed.
proof fn lemma_sweep_remove(entries: Seq<Entry>, kept: Seq<Entry>, removed: Seq<Phase>, i: int, h: MMSize)
    requires
        0 <= i < entries.len(),
        entries[i].age >= h,
        sweep_inv(entries, kept, removed, i, h),
    ensures
        sweep_inv(entries, kept, removed.push(entries[i].phase), i + 1, h),
{
    let removed1 = removed.push(entries[i].phase);
    assert(covers_removed(entries, removed1, i + 1, h)) by {
        reveal(covers_removed);
        assert forall|j: int| #![trigger entries[j]]
            0 <= j < i + 1 && entries[j].age >= h implies removed1.contains(entries[j].phase) by {
            if j < i {
                assert(removed.contains(entries[j].phase));
                let m = choose|m: int| 0 <= m < removed.len() && removed[m] == entries[j].phase;
                assert(removed1[m] == entries[j].phase);
            } else {
                assert(removed1[removed1.len() - 1] == entries[j].phase);
            }
        }
    }
    assert(covers_kept(entries, kept, i + 1, h)) by {
        reveal(covers_kept);
        assert forall|j: int| #![trigger entries[j]]
            0 <= j < i + 1 && entries[j].age < h implies kept.contains(entries[j]) by {
            assert(j < i);
        }
    }
    assert(sound_removed(entries, removed1, i + 1, h)) by {
        reveal(sound_removed);
        assert forall|m: int| #![trigger removed1[m]]
            0 <= m < removed1.len() implies in_prefix_removed(entries, i + 1, h, removed1[m]) by {
            if m < removed.len() {
                assert(removed1[m] == removed[m]);
                assert(in_prefix_removed(entries, i, h, removed[m]));
                lemma_in_prefix_removed_mono(entries, i, h, removed[m]);
            } else {
                assert(removed1[m] == entries[i].phase);
                assert(0 <= i < i + 1 && entries[i].phase == entries[i].phase && entries[i].age
                    >= h);
            }
        }
    }
    assert(sound_kept(entries, kept, i + 1, h)) by {
        reveal(sound_kept);
        assert forall|m: int| #![trigger kept[m]]
            0 <= m < kept.len() implies in_prefix_kept(entries, i + 1, h, kept[m]) by {
            assert(in_prefix_kept(entries, i, h, kept[m]));
            lemma_in_prefix_kept_mono(entries, i, h, kept[m]);
        }
    }
}

/// The largest age among the entries of `s`, zero if there are none.
spec fn ages_max(s: Seq<Entry>) -> nat
    decreases s.len(),
{
    if s.len() == 0 {
        0
    } else {
        let rest = ages_max(s.drop_last());
        if s.last().age as nat > rest {
            s.last().age as nat
        } else {
            rest
        }
    }
}

impl MachineCache {
    /// Well-formed: no two entries share an input.
    pub closed spec fn wf(self) -> bool {
        entries_unique(self.entries@)
    }

    /// Number of entries held.
    pub closed spec fn len_spec(self) -> nat {
        self.entries@.len()
    }

    /// Whether some entry is keyed by `k`.
    pub closed spec fn has_key(self, k: MMInt) -> bool {
        exists|i: int|
            0 <= i < self.entries@.len() && #[trigger] self.entries@[i].phase.input_spec() == k
    }

    /// Index of the entry keyed by `k` (meaningful only when `has_key(k)`).
    spec fn idx_of(self, k: MMInt) -> int {
        choose|i: int|
            0 <= i < self.entries@.len() && #[trigger] self.entries@[i].phase.input_spec() == k
    }

    /// The phase stored under `k` (meaningful only when `has_key(k)`).
    pub closed spec fn phase_at(self, k: MMInt) -> Phase {
        self.entries@[self.idx_of(k)].phase
    }

    /// The age of the entry under `k` (meaningful only when `has_key(k)`).
    pub closed spec fn age_at(self, k: MMInt) -> nat {
        self.entries@[self.idx_of(k)].age as nat
    }

    /// The greatest age over all entries, zero for an empty cache.
    pub closed spec fn highest_spec(self) -> nat {
        ages_max(self.entries@)
    }

    /// A touch of key `k`: the touched entry's age is reset to zero, every
    /// other entry ages by one tick, and the stored phases are unchanged.
    pub open spec fn touched(pre: MachineCache, post: MachineCache, k: MMInt) -> bool {
        &&& post.len_spec() == pre.len_spec()
        &&& forall|x: MMInt| pre.has_key(x) <==> #[trigger] post.has_key(x)
        &&& forall|x: MMInt| pre.has_key(x) ==> #[trigger] post.phase_at(x) == pre.phase_at(x)
        &&& post.age_at(k) == 0
        &&& forall|x: MMInt|
            pre.has_key(x) && x != k ==> #[trigger] post.age_at(x) == bump_spec(pre.age_at(x))
    }

    /// The unique index of the entry keyed by `k`.
    proof fn lemma_idx(self, k: MMInt)
        requires
            self.wf(),
            self.has_key(k),
        ensures
            0 <= self.idx_of(k) < self.entries@.len(),
            self.entries@[self.idx_of(k)].phase.input_spec() == k,
            forall|j: int|
                0 <= j < self.entries@.len() && #[trigger] self.entries@[j].phase.input_spec()
                    == k ==> j == self.idx_of(k),
    {
        let i = self.idx_of(k);
        assert(0 <= i < self.entries@.len() && self.entries@[i].phase.input_spec() == k);
        assert forall|j: int|
            0 <= j < self.entries@.len() && #[trigger] self.entries@[j].phase.input_spec()
                == k implies j == i by {
            if j < i {
                assert(self.entries@[j].phase.input_spec() != self.entries@[i].phase.input_spec());
            } else if i < j {
                assert(self.entries@[i].phase.input_spec() != self.entries@[j].phase.input_spec());
            }
        }
    }

    /// Create an empty cache.
    pub fn new() -> (c: MachineCache)
        ensures
            c.wf(),
            c.len_spec() == 0,
            forall|k: MMInt| !c.has_key(k),
            c.highest_spec() == 0,
    {
        MachineCache { entries: Vec::new() }
    }

    /// Number of entries in this cache.
    pub fn len(&self) -> (n: MMSize)
        ensures
            n == self.len_spec(),
    {
        self.entries.len()
    }

    /// A slot-by-slot touch gives the key-level touch of the entry's input.
    proof fn lemma_touch_keys(pre: MachineCache, post: MachineCache, i: int)
        requires
            pre.wf(),
            0 <= i < pre.entries@.len(),
            touched_at(pre.entries@, post.entries@, i),
        ensures
            post.wf(),
            MachineCache::touched(pre, post, pre.entries@[i].phase.input_spec()),
    {
        let k = pre.entries@[i].phase.input_spec();
        assert(post.wf()) by {
            assert forall|a: int, b: int|
                0 <= a < b < post.entries@.len() implies #[trigger] post.entries@[a].phase.input_spec()
                != #[trigger] post.entries@[b].phase.input_spec() by {
                assert(post.entries@[a].phase == pre.entries@[a].phase);
                assert(post.entries@[b].phase == pre.entries@[b].phase);
            }
        }
        assert forall|x: MMInt| pre.has_key(x) <==> #[trigger] post.has_key(x) by {
            if pre.has_key(x) {
                let j = pre.idx_of(x);
                assert(post.entries@[j].phase == pre.entries@[j].phase);
                assert(post.has_key(x));
            }
            if post.has_key(x) {
                let j = post.idx_of(x);
                assert(post.entries@[j].phase == pre.entries@[j].phase);
                assert(pre.has_key(x));
            }
        }
        assert forall|x: MMInt| pre.has_key(x) implies #[trigger] post.phase_at(x)
            == pre.phase_at(x) by {
            pre.lemma_idx(x);
            post.lemma_idx(x);
            let j = pre.idx_of(x);
            assert(post.entries@[j].phase == pre.entries@[j].phase);
            assert(post.idx_of(x) == j);
        }
        assert forall|x: MMInt| pre.has_key(x) && x != k implies #[trigger] post.age_at(x)
            == bump_spec(pre.age_at(x)) by {
            pre.lemma_idx(x);
            post.lemma_idx(x);
            let j = pre.idx_of(x);
            assert(post.entries@[j].phase == pre.entries@[j].phase);
            assert(post.idx_of(x) == j);
            assert(j != i);
        }
        pre.lemma_idx(k);
        post.lemma_idx(k);
        assert(post.idx_of(k) == i);
        assert(post.age_at(k) == 0);
    }

    /// Reset the age of the entry at `i` and age every other entry by one.
    fn touch(&mut self, i: usize)
        requires
            old(self).wf(),
            i < old(self).entries@.len(),
        ensures
            touched_at(old(self).entries@, final(self).entries@, i as int),
    {
        let mut j: usize = 0;
        while j < self.entries.len()
            invariant
                j <= self.entries@.len(),
                self.entries@.len() == old(self).entries@.len(),
                forall|m: int|
                    0 <= m < self.entries@.len() ==> #[trigger] self.entries@[m].phase == old(
                        self,
                    ).entries@[m].phase,
                forall|m: int|
                    0 <= m < j ==> #[trigger] self.entries@[m].age as nat == bump_spec(
                        old(self).entries@[m].age as nat,
                    ),
                forall|m: int|
                    j <= m < self.entries@.len() ==> #[trigger] self.entries@[m].age == old(
                        self,
                    ).entries@[m].age,
            decreases self.entries@.len() - j,
        {
            let mut e = self.entries[j];
            if e.age < usize::MAX {
                e.age = e.age + 1;
            }
            self.entries.set(j, e);
            j = j + 1;
        }
        let mut e = self.entries[i];
        e.age = 0;
        self.entries.set(i, e);
    }

    /// Index of the entry keyed exactly by `key`, if one exists.
    fn index_of_exact(&self, key: MMInt) -> (r: Option<usize>)
        requires
            self.wf(),
        ensures
            match r {
                Some(i) => i < self.entries@.len() && self.entries@[i as int].phase.input_spec()
                    == key,
                None => !self.has_key(key),
            },
    {
        let mut i: usize = 0;
        while i < self.entries.len()
            invariant
                i <= self.entries@.len(),
                forall|j: int|
                    0 <= j < i ==> #[trigger] self.entries@[j].phase.input_spec() != key,
            decreases self.entries@.len() - i,
        {
            if self.entries[i].phase.input() == key {
                return Some(i);
            }
            i = i + 1;
        }
        None
    }

    /// Index of the entry with the greatest input at most `key`, if any.
    fn index_of_floor(&self, key: MMInt) -> (r: Option<usize>)
        requires
            self.wf(),
        ensures
            match r {
                Some(i) => i < self.entries@.len() && self.entries@[i as int].phase.input_spec()
                    <= key && forall|j: int|
                    0 <= j < self.entries@.len()
                        && #[trigger] self.entries@[j].phase.input_spec() <= key
                        ==> self.entries@[j].phase.input_spec()
                        <= self.entries@[i as int].phase.input_spec(),
                None => forall|j: int|
                    0 <= j < self.entries@.len() ==> #[trigger] self.entries@[j].phase.input_spec()
                        > key,
            },
    {
        let mut best: Option<usize> = None;
        let mut i: usize = 0;
        while i < self.entries.len()
            invariant
                i <= self.entries@.len(),
                match best {
                    Some(b) => b < i && self.entries@[b as int].phase.input_spec() <= key
                        && forall|j: int|
                        0 <= j < i && #[trigger] self.entries@[j].phase.input_spec() <= key
                            ==> self.entries@[j].phase.input_spec()
                            <= self.entries@[b as int].phase.input_spec(),
                    None => forall|j: int|
                        0 <= j < i ==> #[trigger] self.entries@[j].phase.input_spec() > key,
                },
            decreases self.entries@.len() - i,
        {
            let input = self.entries[i].phase.input();
            if input <= key {
                best = match best {
                    Some(b) => {
                        if self.entries[b].phase.input() < input {
                            Some(i)
                        } else {
                            Some(b)
                        }
                    },
                    None => Some(i),
                };
            }
            i = i + 1;
        }
        best
    }

    /// Whether a phase is stored under `key`. Unlike a find, this does not
    /// count as a touch.
    pub fn contains(&self, key: MMInt) -> (r: bool)
        requires
            self.wf(),
        ensures
            r == self.has_key(key),
    {
        match self.index_of_exact(key) {
            Some(i) => {
                proof {
                    assert(self.entries@[i as int].phase.input_spec() == key);
                }
                true
            },
            None => false,
        }
    }

    /// Find the phase stored exactly under `key`. A hit counts as a touch:
    /// the entry's age resets to zero and every other entry ages by one. A
    /// miss leaves the cache unchanged.
    pub fn find(&mut self, key: MMInt) -> (r: CacheResult<Phase>)
        requires
            old(self).wf(),
        ensures
            final(self).wf(),
            r is Ok <==> old(self).has_key(key),
            r matches Ok(p) ==> p == old(self).phase_at(key) && p.input_spec() == key
                && MachineCache::touched(*old(self), *final(self), key),
            r is Err ==> *final(self) == *old(self) && r == CacheResult::<Phase>::Err(
                CacheError::PhaseNotFound,
            ),
    {
        match self.index_of_exact(key) {
            Some(i) => {
                let p = self.entries[i].phase;
                self.touch(i);
                proof {
                    old(self).lemma_idx(key);
                    MachineCache::lemma_touch_keys(*old(self), *self, i as int);
                }
                Ok(p)
            },
            None => Err(CacheError::PhaseNotFound),
        }
    }

    /// Find the phase with the greatest input not exceeding `key` — the
    /// closest preceding checkpoint. A hit counts as a touch of that entry; a
    /// miss (every stored input exceeds `key`, or the cache is empty) leaves
    /// the cache unchanged.
    pub fn find_closest(&mut self, key: MMInt) -> (r: CacheResult<Phase>)
        requires
            old(self).wf(),
        ensures
            final(self).wf(),
            r is Ok <==> exists|x: MMInt| old(self).has_key(x) && x <= key,
            r matches Ok(p) ==> {
                &&& old(self).has_key(p.input_spec())
                &&& p == old(self).phase_at(p.input_spec())
                &&& p.input_spec() <= key
                &&& forall|x: MMInt| old(self).has_key(x) && x <= key ==> x <= p.input_spec()
                &&& MachineCache::touched(*old(self), *final(self), p.input_spec())
            },
            r is Err ==> *final(self) == *old(self) && r == CacheResult::<Phase>::Err(
                CacheError::PhaseNotFound,
            ),
    {
        match self.index_of_floor(key) {
            Some(i) => {
                let p = self.entries[i].phase;
                self.touch(i);
                proof {
                    let k = p.input_spec();
                    assert(old(self).has_key(k));
                    old(self).lemma_idx(k);
                    MachineCache::lemma_touch_keys(*old(self), *self, i as int);
                    assert forall|x: MMInt| old(self).has_key(x) && x <= key implies x
                        <= p.input_spec() by {
                        let j = old(self).idx_of(x);
                        assert(old(self).entries@[j].phase.input_spec() <= key);
                    }
                }
                Ok(p)
            },
            None => {
                proof {
                    if exists|x: MMInt| old(self).has_key(x) && x <= key {
                        let x = choose|x: MMInt| old(self).has_key(x) && x <= key;
                        let j = old(self).idx_of(x);
                        assert(old(self).entries@[j].phase.input_spec() > key);
                    }
                }
                Err(CacheError::PhaseNotFound)
            },
        }
    }

    /// Insert `entry` under its input, replacing any phase already stored
    /// there. The upsert counts as a touch: the entry enters with age zero
    /// and every other entry ages by one tick.
    pub fn push(&mut self, entry: Phase)
        requires
            old(self).wf(),
        ensures
            final(self).wf(),
            final(self).has_key(entry.input_spec()),
            final(self).phase_at(entry.input_spec()) == entry,
            final(self).age_at(entry.input_spec()) == 0,
            forall|x: MMInt|
                x != entry.input_spec() ==> (final(self).has_key(x) <==> old(self).has_key(x)),
            forall|x: MMInt|
                x != entry.input_spec() && old(self).has_key(x)
                    ==> #[trigger] final(self).phase_at(x) == old(self).phase_at(x)
                    && final(self).age_at(x) == bump_spec(old(self).age_at(x)),
            final(self).len_spec() == old(self).len_spec() + (if old(self).has_key(
                entry.input_spec(),
            ) {
                0int
            } else {
                1int
            }),
    {
        let key = entry.input();
        match self.index_of_exact(key) {
            Some(i) => {
                let mut e = self.entries[i];
                e.phase = entry;
                self.entries.set(i, e);
                let ghost mid = *self;
                proof {
                    assert forall|a: int, b: int|
                        0 <= a < b < mid.entries@.len() implies #[trigger] mid.entries@[a].phase.input_spec()
                        != #[trigger] mid.entries@[b].phase.input_spec() by {
                        old(self).lemma_idx(key);
                    }
                }
                self.touch(i);
                proof {
                    old(self).lemma_idx(key);
                    assert(mid.entries@[i as int].phase.input_spec() == key);
                    assert(mid.has_key(key));
                    mid.lemma_idx(key);
                    MachineCache::lemma_touch_keys(mid, *self, i as int);
                    assert(mid.idx_of(key) == i as int);
                    assert(mid.phase_at(key) == entry);
                    assert forall|x: MMInt|
                        x != key ==> (mid.has_key(x) <==> old(self).has_key(x)) by {
                        if old(self).has_key(x) && x != key {
                            let j = old(self).idx_of(x);
                            assert(mid.entries@[j].phase == old(self).entries@[j].phase);
                        }
                        if mid.has_key(x) && x != key {
                            let j = mid.idx_of(x);
                            assert(j != i);
                            assert(mid.entries@[j].phase == old(self).entries@[j].phase);
                        }
                    }
                    assert forall|x: MMInt| x != key && old(self).has_key(x) implies mid.phase_at(
                        x,
                    ) == old(self).phase_at(x) && mid.age_at(x) == old(self).age_at(x) by {
                        old(self).lemma_idx(x);
                        mid.lemma_idx(x);
                        let j = old(self).idx_of(x);
                        assert(j != i);
                        assert(mid.entries@[j] == old(self).entries@[j]);
                        assert(mid.idx_of(x) == j);
                    }
                }
            },
            None => {
                self.entries.push(Entry { phase: entry, age: 0 });
                let i = self.entries.len() - 1;
                let ghost mid = *self;
                proof {
                    assert forall|a: int, b: int|
                        0 <= a < b < mid.entries@.len() implies #[trigger] mid.entries@[a].phase.input_spec()
                        != #[trigger] mid.entries@[b].phase.input_spec() by {
                        if b == mid.entries@.len() - 1 {
                            assert(mid.entries@[a] == old(self).entries@[a]);
                            assert(!old(self).has_key(key));
                        }
                    }
                    assert(mid.entries@[i as int].phase.input_spec() == key);
                }
                self.touch(i);
                proof {
                    mid.lemma_idx(key);
                    MachineCache::lemma_touch_keys(mid, *self, i as int);
                    assert(mid.idx_of(key) == i as int);
                    assert(mid.phase_at(key) == entry);
                    assert forall|x: MMInt|
                        x != key ==> (mid.has_key(x) <==> old(self).has_key(x)) by {
                        if old(self).has_key(x) && x != key {
                            let j = old(self).idx_of(x);
                            assert(mid.entries@[j].phase == old(self).entries@[j].phase);
                        }
                        if mid.has_key(x) && x != key {
                            let j = mid.idx_of(x);
                            assert(j != i);
                            assert(mid.entries@[j].phase == old(self).entries@[j].phase);
                        }
                    }
                    assert forall|x: MMInt| x != key && old(self).has_key(x) implies mid.phase_at(
                        x,
                    ) == old(self).phase_at(x) && mid.age_at(x) == old(self).age_at(x) by {
                        old(self).lemma_idx(x);
                        mid.lemma_idx(x);
                        let j = old(self).idx_of(x);
                        assert(j != i);
                        assert(mid.entries@[j] == old(self).entries@[j]);
                        assert(mid.idx_of(x) == j);
                    }
                }
            },
        }
    }

    /// Remove the entry stored under `key`, returning its phase. The lookup
    /// part counts as a touch of `key`, so on a hit every remaining entry
    /// ages by one tick; on a miss the cache is unchanged.
    pub fn drop(&mut self, key: MMInt) -> (r: CacheResult<Phase>)
        requires
            old(self).wf(),
        ensures
            final(self).wf(),
            r is Ok <==> old(self).has_key(key),
            r matches Ok(p) ==> {
                &&& p == old(self).phase_at(key)
                &&& !final(self).has_key(key)
                &&& final(self).len_spec() == old(self).len_spec() - 1
                &&& forall|x: MMInt|
                    x != key ==> (final(self).has_key(x) <==> old(self).has_key(x))
                &&& forall|x: MMInt|
                    x != key && old(self).has_key(x)
                        ==> #[trigger] final(self).phase_at(x) == old(self).phase_at(x)
                        && final(self).age_at(x) == bump_spec(old(self).age_at(x))
            },
            r is Err ==> *final(self) == *old(self) && r == CacheResult::<Phase>::Err(
                CacheError::PhaseNotFound,
            ),
    {
        match self.find(key) {
            Ok(cached) => {
                let ghost mid = *self;
                match self.index_of_exact(key) {
                    Some(i) => {
                        proof {
                            mid.lemma_idx(key);
                            assert(mid.idx_of(key) == i as int);
                        }
                        self.entries.remove(i);
                        proof {
                            assert forall|a: int, b: int|
                                0 <= a < b < self.entries@.len() implies #[trigger] self.entries@[a].phase.input_spec()
                                != #[trigger] self.entries@[b].phase.input_spec() by {
                                let a0 = if a < i as int {
                                    a
                                } else {
                                    a + 1
                                };
                                let b0 = if b < i as int {
                                    b
                                } else {
                                    b + 1
                                };
                                assert(self.entries@[a] == mid.entries@[a0]);
                                assert(self.entries@[b] == mid.entries@[b0]);
                            }
                            assert(!self.has_key(key)) by {
                                if self.has_key(key) {
                                    let m = self.idx_of(key);
                                    let m0 = if m < i as int {
                                        m
                                    } else {
                                        m + 1
                                    };
                                    assert(self.entries@[m] == mid.entries@[m0]);
                                    assert(m0 != i as int);
                                    mid.lemma_idx(key);
                                }
                            }
                            assert forall|x: MMInt|
                                x != key ==> (self.has_key(x) <==> mid.has_key(x)) by {
                                if mid.has_key(x) && x != key {
                                    let j = mid.idx_of(x);
                                    mid.lemma_idx(x);
                                    assert(j != i);
                                    let j1 = if j < i as int {
                                        j
                                    } else {
                                        j - 1
                                    };
                                    assert(self.entries@[j1] == mid.entries@[j]);
                                }
                                if self.has_key(x) && x != key {
                                    let m = self.idx_of(x);
                                    let m0 = if m < i as int {
                                        m
                                    } else {
                                        m + 1
                                    };
                                    assert(self.entries@[m] == mid.entries@[m0]);
                                }
                            }
                            assert forall|x: MMInt|
                                x != key && mid.has_key(x) implies #[trigger] self.phase_at(x)
                                == mid.phase_at(x) && self.age_at(x) == mid.age_at(x) by {
                                mid.lemma_idx(x);
                                self.lemma_idx(x);
                                let j = mid.idx_of(x);
                                assert(j != i);
                                let j1 = if j < i as int {
                                    j
                                } else {
                                    j - 1
                                };
                                assert(self.entries@[j1] == mid.entries@[j]);
                                assert(self.idx_of(x) == j1);
                            }
                            assert forall|x: MMInt|
                                x != key && old(self).has_key(x) implies #[trigger] self.phase_at(
                                x,
                            ) == old(self).phase_at(x) && self.age_at(x) == bump_spec(
                                old(self).age_at(x),
                            ) by {
                                assert(mid.has_key(x));
                                assert(mid.phase_at(x) == old(self).phase_at(x));
                                assert(mid.age_at(x) == bump_spec(old(self).age_at(x)));
                                assert(self.phase_at(x) == mid.phase_at(x));
                            }
                            assert forall|x: MMInt|
                                x != key implies (self.has_key(x) <==> old(self).has_key(x)) by {
                                assert(mid.has_key(x) <==> old(self).has_key(x));
                                assert(self.has_key(x) <==> mid.has_key(x));
                            }
                        }
                        Ok(cached)
                    },
                    None => {
                        proof {
                            assert(mid.has_key(key));
                            assert(false);
                        }
                        Err(CacheError::PhaseNotFound)
                    },
                }
            },
            Err(e) => Err(e),
        }
    }

    /// Split the entries into those whose age is strictly below `h` (kept,
    /// in order) and the phases of the rest (removed, in order).
    fn sweep(entries: &Vec<Entry>, h: MMSize) -> (out: (Vec<Entry>, Vec<Phase>))
        requires
            entries_unique(entries@),
        ensures
            sweep_inv(entries@, out.0@, out.1@, entries@.len() as int, h),
    {
        let mut kept: Vec<Entry> = Vec::new();
        let mut removed: Vec<Phase> = Vec::new();
        let mut i: usize = 0;
        proof {
            lemma_sweep_init(entries@, h);
        }
        while i < entries.len()
            invariant
                entries_unique(entries@),
                i <= entries@.len(),
                sweep_inv(entries@, kept@, removed@, i as int, h),
            decreases entries@.len() - i,
        {
            let e = entries[i];
            let ghost kept0 = kept@;
            let ghost removed0 = removed@;
            if e.age < h {
                kept.push(e);
                proof {
                    lemma_sweep_keep(entries@, kept0, removed@, i as int, h);
                }
            } else {
                removed.push(e.phase);
                proof {
                    lemma_sweep_remove(entries@, kept@, removed0, i as int, h);
                }
            }
            i = i + 1;
        }
        (kept, removed)
    }

    /// What a completed sweep, written back as the new entry list, means for
    /// the cache keys: exactly the most stale entries are gone, survivors
    /// keep their phases and ages, and the removed phases are accounted for.
    #[verifier::rlimit(50)]
    proof fn lemma_sweep_to_cache(pre: MachineCache, post: MachineCache, removed: Seq<Phase>, h: MMSize)
        requires
            pre.wf(),
            h as nat == pre.highest_spec(),
            sweep_inv(pre.entries@, post.entries@, removed, pre.entries@.len() as int, h),
        ensures
            post.wf(),
            forall|x: MMInt|
                #[trigger] post.has_key(x) <==> (pre.has_key(x) && pre.age_at(x)
                    < pre.highest_spec()),
            forall|x: MMInt|
                post.has_key(x) ==> #[trigger] post.phase_at(x) == pre.phase_at(x) && post.age_at(
                    x,
                ) == pre.age_at(x),
            removed.len() + post.len_spec() == pre.len_spec(),
            forall|m: int|
                0 <= m < removed.len() ==> pre.has_key(#[trigger] removed[m].input_spec())
                    && removed[m] == pre.phase_at(removed[m].input_spec()) && pre.age_at(
                    removed[m].input_spec(),
                ) == pre.highest_spec(),
            forall|x: MMInt|
                pre.has_key(x) && pre.age_at(x) >= pre.highest_spec() ==> exists|m: int|
                    0 <= m < removed.len() && #[trigger] removed[m].input_spec() == x,
            pre.len_spec() > 0 ==> post.len_spec() < pre.len_spec(),
    {
        let n = pre.entries@.len() as int;
        assert forall|x: MMInt|
            #[trigger] post.has_key(x) <==> (pre.has_key(x) && pre.age_at(x)
                < pre.highest_spec()) by {
            if post.has_key(x) {
                reveal(sound_kept);
                let m = post.idx_of(x);
                assert(0 <= m < post.entries@.len() && post.entries@[m].phase.input_spec() == x);
                let j = choose|j: int|
                    0 <= j < n && #[trigger] pre.entries@[j] == post.entries@[m]
                        && pre.entries@[j].age < h;
                assert(pre.entries@[j].phase.input_spec() == x);
                assert(pre.has_key(x));
                pre.lemma_idx(x);
                assert(pre.idx_of(x) == j);
            }
            if pre.has_key(x) && pre.age_at(x) < pre.highest_spec() {
                reveal(covers_kept);
                pre.lemma_idx(x);
                let j = pre.idx_of(x);
                assert(pre.entries@[j].age < h);
                assert(post.entries@.contains(pre.entries@[j]));
                let m = choose|m: int|
                    0 <= m < post.entries@.len() && post.entries@[m] == pre.entries@[j];
                assert(post.entries@[m].phase.input_spec() == x);
            }
        }
        assert forall|x: MMInt| post.has_key(x) implies #[trigger] post.phase_at(x)
            == pre.phase_at(x) && post.age_at(x) == pre.age_at(x) by {
            reveal(sound_kept);
            post.lemma_idx(x);
            let m = post.idx_of(x);
            let j = choose|j: int|
                0 <= j < n && #[trigger] pre.entries@[j] == post.entries@[m]
                    && pre.entries@[j].age < h;
            assert(pre.entries@[j].phase.input_spec() == x);
            pre.lemma_idx(x);
            assert(pre.idx_of(x) == j);
        }
        assert forall|m: int| 0 <= m < removed.len() implies pre.has_key(
            #[trigger] removed[m].input_spec(),
        ) && removed[m] == pre.phase_at(removed[m].input_spec()) && pre.age_at(
            removed[m].input_spec(),
        ) == pre.highest_spec() by {
            reveal(sound_removed);
            assert(in_prefix_removed(pre.entries@, n, h, removed[m]));
            let j = choose|j: int|
                0 <= j < n && #[trigger] pre.entries@[j].phase == removed[m]
                    && pre.entries@[j].age >= h;
            let x = removed[m].input_spec();
            assert(pre.entries@[j].phase.input_spec() == x);
            assert(pre.has_key(x));
            pre.lemma_idx(x);
            assert(pre.idx_of(x) == j);
            MachineCache::lemma_ages_max(pre.entries@);
        }
        assert forall|x: MMInt|
            pre.has_key(x) && pre.age_at(x) >= pre.highest_spec() implies exists|m: int|
            0 <= m < removed.len() && #[trigger] removed[m].input_spec() == x by {
            reveal(covers_removed);
            pre.lemma_idx(x);
            let j = pre.idx_of(x);
            assert(pre.entries@[j].age >= h);
            assert(removed.contains(pre.entries@[j].phase));
            let m = choose|m: int| 0 <= m < removed.len() && removed[m] == pre.entries@[j].phase;
            assert(removed[m].input_spec() == x);
        }
        if pre.entries@.len() > 0 {
            MachineCache::lemma_ages_max(pre.entries@);
            let i0 = choose|i: int|
                0 <= i < pre.entries@.len() && #[trigger] pre.entries@[i].age as nat == ages_max(
                    pre.entries@,
                );
            assert(pre.entries@[i0].age >= h);
            assert(removed.contains(pre.entries@[i0].phase)) by {
                reveal(covers_removed);
            }
            let m0 = choose|m: int| 0 <= m < removed.len() && removed[m] == pre.entries@[i0].phase;
            assert(removed.len() > 0);
        }
    }

    /// Remove every most-stale entry: an entry survives the sweep exactly
    /// when its age is strictly below the highest age at entry to the sweep.
    /// The removed phases are returned; the survivors keep their ages.
    #[verifier::rlimit(100)]
    pub fn drop_invalid(&mut self) -> (r: CacheResult<Vec<Phase>>)
        requires
            old(self).wf(),
        ensures
            final(self).wf(),
            r is Ok,
            forall|x: MMInt|
                #[trigger] final(self).has_key(x) <==> (old(self).has_key(x) && old(self).age_at(x)
                    < old(self).highest_spec()),
            forall|x: MMInt|
                final(self).has_key(x)
                    ==> #[trigger] final(self).phase_at(x) == old(self).phase_at(x)
                    && final(self).age_at(x) == old(self).age_at(x),
            r matches Ok(v) ==> {
                &&& v@.len() + final(self).len_spec() == old(self).len_spec()
                &&& forall|m: int|
                    0 <= m < v@.len() ==> old(self).has_key(#[trigger] v@[m].input_spec())
                        && v@[m] == old(self).phase_at(v@[m].input_spec()) && old(self).age_at(
                        v@[m].input_spec(),
                    ) == old(self).highest_spec()
                &&& forall|x: MMInt|
                    old(self).has_key(x) && old(self).age_at(x) >= old(self).highest_spec()
                        ==> exists|m: int| 0 <= m < v@.len() && #[trigger] v@[m].input_spec() == x
            },
            old(self).len_spec() > 0 ==> final(self).len_spec() < old(self).len_spec(),
    {
        let h = self.highest_usage();
        let (kept, removed) = Self::sweep(&self.entries, h);
        let ghost pre = *old(self);
        self.entries = kept;
        proof {
            MachineCache::lemma_sweep_to_cache(pre, *self, removed@, h);
        }
        Ok(removed)
    }

    /// Every entry's age is at most the maximum, and some entry attains it
    /// when the cache is not empty.
    proof fn lemma_ages_max(s: Seq<Entry>)
        ensures
            forall|i: int| 0 <= i < s.len() ==> #[trigger] s[i].age as nat <= ages_max(s),
            s.len() > 0 ==> exists|i: int|
                0 <= i < s.len() && #[trigger] s[i].age as nat == ages_max(s),
        decreases s.len(),
    {
        if s.len() > 0 {
            Self::lemma_ages_max(s.drop_last());
            assert forall|i: int| 0 <= i < s.len() implies #[trigger] s[i].age as nat <= ages_max(
                s,
            ) by {
                if i < s.len() - 1 {
                    assert(s.drop_last()[i] == s[i]);
                }
            }
            if s.last().age as nat == ages_max(s) {
                assert(s[s.len() - 1].age as nat == ages_max(s));
            } else {
                let j = choose|i: int|
                    0 <= i < s.drop_last().len() && #[trigger] s.drop_last()[i].age as nat
                        == ages_max(s.drop_last());
                assert(s[j].age as nat == ages_max(s));
            }
        }
    }

    /// Return the greatest count of ticks since last use over all entries of
    /// this cache, zero for an empty cache.
    pub fn highest_usage(&self) -> (r: MMSize)
        requires
            self.wf(),
        ensures
            r as nat == self.highest_spec(),
            forall|k: MMInt| self.has_key(k) ==> #[trigger] self.age_at(k) <= r as nat,
            self.len_spec() > 0 ==> exists|k: MMInt|
                self.has_key(k) && #[trigger] self.age_at(k) == r as nat,
    {
        let mut m: MMSize = 0;
        let mut i: usize = 0;
        while i < self.entries.len()
            invariant
                i <= self.entries@.len(),
                m as nat == ages_max(self.entries@.subrange(0, i as int)),
            decreases self.entries@.len() - i,
        {
            let a = self.entries[i].age;
            proof {
                let pre = self.entries@.subrange(0, i as int);
                let cur = self.entries@.subrange(0, i as int + 1);
                assert(cur.drop_last() =~= pre);
                assert(cur.last() == self.entries@[i as int]);
            }
            if a > m {
                m = a;
            }
            i = i + 1;
        }
        proof {
            assert(self.entries@.subrange(0, self.entries@.len() as int) =~= self.entries@);
            Self::lemma_ages_max(self.entries@);
            assert forall|k: MMInt| self.has_key(k) implies #[trigger] self.age_at(k)
                <= m as nat by {
                self.lemma_idx(k);
            }
            if self.entries@.len() > 0 {
                let i0 = choose|i: int|
                    0 <= i < self.entries@.len() && #[trigger] self.entries@[i].age as nat
                        == ages_max(self.entries@);
                let k0 = self.entries@[i0].phase.input_spec();
                self.lemma_idx(k0);
                assert(self.has_key(k0) && self.age_at(k0) == m as nat);
            }
        }
        m
    }
}

} // verus!
