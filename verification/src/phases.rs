//! The `Phase` record: a resumable intermediate state of a recurrence.
//!
//! A phase holds a fixed window of the most recently produced values of a
//! recurrence together with the index (`input`) those values correspond to.
//! Slot 0 of the window is the externally visible result at that index; the
//! remaining slots retain just enough history for a calculator to keep
//! advancing the recurrence.

use vstd::prelude::*;

verus! {

/// Integer type the math machines compute over.
pub type MMInt = u128;

/// Size type the math machines use for counts and ages.
pub type MMSize = usize;

/// A window of the last values of a recurrence, plus the index (`input`)
/// the head of the window corresponds to.
#[derive(Clone, Copy, Debug, PartialEq, Eq)]
pub struct Phase {
    phase: [MMInt; 3],
    input: MMInt,
}

impl Phase {
    /// The window contents as a mathematical sequence, head first.
    pub closed spec fn window(self) -> Seq<MMInt> {
        self.phase@
    }

    /// The index this phase represents.
    pub closed spec fn input_spec(self) -> MMInt {
        self.input
    }

    /// The designated result slot of the window.
    pub open spec fn result_spec(self) -> MMInt {
        self.window()[0]
    }

    /// Every phase window has exactly the fixed number of slots.
    pub proof fn lemma_window_len(self)
        ensures
            self.window().len() == 3,
    {
    }

    /// A blank phase: index zero, all window slots zero.
    pub fn new() -> (p: Phase)
        ensures
            p.input_spec() == 0,
            p.window() == seq![0u128, 0u128, 0u128],
    {
        let p = Phase { phase: [0, 0, 0], input: 0 };
        proof {
            assert(p.phase@ =~= seq![0u128, 0u128, 0u128]);
        }
        p
    }

    /// The `N` of the recurrence evaluation this phase represents.
    pub fn input(&self) -> (n: MMInt)
        ensures
            n == self.input_spec(),
    {
        self.input
    }

    /// The component values of the phase window.
    pub fn phase(&self) -> (w: [MMInt; 3])
        ensures
            w@ == self.window(),
    {
        self.phase
    }

    /// The result value held in the head slot of the window.
    pub fn result(&self) -> (r: MMInt)
        ensures
            r == self.result_spec(),
    {
        self.phase[0]
    }

    /// The window slot at position `i`.
    pub fn get(&self, i: usize) -> (v: MMInt)
        requires
            i < 3,
        ensures
            v == self.window()[i as int],
    {
        self.phase[i]
    }

    /// Overwrite the window slot at position `i`.
    pub fn set(&mut self, i: usize, v: MMInt)
        requires
            i < 3,
        ensures
            final(self).window() == old(self).window().update(i as int, v),
            final(self).input_spec() == old(self).input_spec(),
    {
        self.phase[i] = v;
    }

    /// Rotate the window elements `k` places to the right.
    pub fn rotate(&mut self, k: usize)
        requires
            k <= 3,
        ensures
            final(self).input_spec() == old(self).input_spec(),
            forall|i: int|
                0 <= i < 3 ==> final(self).window()[i] == old(self).window()[(i + 3 - k) % 3],
    {
        let mut steps: usize = 0;
        while steps < k
            invariant
                steps <= k,
                k <= 3,
                self.input == old(self).input,
                forall|i: int|
                    0 <= i < 3 ==> self.phase@[i] == old(self).phase@[(i + 3 - steps) % 3],
            decreases k - steps,
        {
            let last = self.phase[2];
            self.phase[2] = self.phase[1];
            self.phase[1] = self.phase[0];
            self.phase[0] = last;
            steps = steps + 1;
        }
    }

    /// Set the input of this phase, leaving the window untouched.
    pub fn setinput(&mut self, n: MMInt)
        ensures
            final(self).input_spec() == n,
            final(self).window() == old(self).window(),
    {
        self.input = n;
    }
}

} // verus!
