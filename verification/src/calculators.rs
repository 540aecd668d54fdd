//! The reference recurrence strategies: Fibonacci and prime enumeration.
//!
//! Each strategy advances a phase window one index at a time. Fibonacci
//! keeps its last two values and appends `max(1, a + b)`; the prime stepper
//! keeps the last prime and replaces it with the next one.

use vstd::prelude::*;

use crate::machines::{advance_ok_fn, can_reach, iter_fn, Calculator, MachineResult};
use crate::phases::{MMInt, Phase};

verus! {

/// The Fibonacci rule for a new head value: `max(1, a + b)`, where `a` and
/// `b` are the last two values. Outside machine limits the value is left
/// unspecified; `step_ok` rules those inputs out.
pub open spec fn fib_next(a: MMInt, b: MMInt) -> MMInt {
    if a + b == 0 {
        1u128
    } else if a + b <= MMInt::MAX {
        (a + b) as MMInt
    } else {
        0u128
    }
}

/// Implements the Fibonacci sequence to calculate the Nth value. Starting
/// from the base window, the sequence of results runs 1, 1, 2, 3, 5, 8, ...
#[derive(Clone, Copy, Debug)]
pub struct Fibonacci;

impl Calculator for Fibonacci {
    /// Rotate the last two values down and put `max(1, a + b)` at the head.
    open spec fn step_spec(&self, w: Seq<MMInt>) -> Seq<MMInt> {
        seq![fib_next(w[0], w[1]), w[0], w[1]]
    }

    /// The new head value must fit the machine integer.
    open spec fn step_ok(&self, w: Seq<MMInt>) -> bool {
        w[0] + w[1] <= MMInt::MAX
    }

    /// The value at index zero is 1, with no earlier history.
    open spec fn base_spec(&self) -> Seq<MMInt> {
        seq![1u128, 0u128, 0u128]
    }

    open spec fn iter_spec(&self, w: Seq<MMInt>, k: nat) -> Seq<MMInt> {
        iter_fn(|x: Seq<MMInt>| self.step_spec(x), w, k)
    }

    open spec fn can_advance_spec(&self, w: Seq<MMInt>, k: nat) -> bool {
        advance_ok_fn(
            (|x: Seq<MMInt>| self.step_spec(x)),
            (|x: Seq<MMInt>| self.step_ok(x)),
            w,
            k,
        )
    }

    proof fn lemma_iter_zero(&self, w: Seq<MMInt>) {
    }

    proof fn lemma_iter_succ(&self, w: Seq<MMInt>, k: nat) {
    }

    proof fn lemma_can_advance(&self, w: Seq<MMInt>, k: nat) {
        let step = |x: Seq<MMInt>| self.step_spec(x);
        let ok = |x: Seq<MMInt>| self.step_ok(x);
        if self.can_advance_spec(w, k) {
            assert forall|j: nat| j < k implies self.step_ok(#[trigger] self.iter_spec(w, j)) by {
                assert(ok(iter_fn(step, w, j)));
            }
        }
        if forall|j: nat| j < k ==> self.step_ok(#[trigger] self.iter_spec(w, j)) {
            assert forall|j: nat| j < k implies ok(#[trigger] iter_fn(step, w, j)) by {
                assert(self.step_ok(self.iter_spec(w, j)));
            }
        }
    }

    fn base(&self) -> (p: Phase) {
        let mut p = Phase::new();
        p.set(0, 1);
        proof {
            assert(p.window() =~= seq![1u128, 0u128, 0u128]);
        }
        p
    }

    fn calculate(&self, n: MMInt, phase: &mut Phase) -> (r: MachineResult<Phase>) {
        let ghost w0 = phase.window();
        let ghost c = *self;
        let start = phase.input();
        phase.setinput(n);
        let mut i = start;
        while i < n
            invariant
                start <= i <= n,
                phase.input_spec() == n,
                phase.window() == c.iter_spec(w0, (i - start) as nat),
                c.can_advance_spec(w0, (n - start) as nat),
                c == *self,
            decreases n - i,
        {
            let ghost cur = phase.window();
            proof {
                phase.lemma_window_len();
                let step = |x: Seq<MMInt>| c.step_spec(x);
                let ok = |x: Seq<MMInt>| c.step_ok(x);
                assert(ok(#[trigger] iter_fn(step, w0, (i - start) as nat)));
                assert(c.step_ok(cur));
                assert(cur[0] + cur[1] <= MMInt::MAX);
            }
            phase.rotate(1);
            let ghost w1 = phase.window();
            proof {
                phase.lemma_window_len();
                assert(w1[1] == cur[(1 + 3 - 1) % 3]);
                assert(w1[2] == cur[(2 + 3 - 1) % 3]);
                assert(w1[1] == cur[0]);
                assert(w1[2] == cur[1]);
            }
            let a = phase.get(1);
            let b = phase.get(2);
            let s = a + b;
            let v = if s == 0 {
                1
            } else {
                s
            };
            phase.set(0, v);
            proof {
                let step = |x: Seq<MMInt>| c.step_spec(x);
                assert(phase.window() == w1.update(0, v));
                assert(phase.window()[0] == v);
                assert(phase.window()[1] == cur[0]);
                assert(phase.window()[2] == cur[1]);
                assert(v == fib_next(cur[0], cur[1]));
                assert(phase.window() =~= c.step_spec(cur));
                assert(iter_fn(step, w0, (i + 1 - start) as nat) == step(
                    iter_fn(step, w0, (i - start) as nat),
                ));
                assert(phase.window() == c.iter_spec(w0, (i + 1 - start) as nat));
            }
            i = i + 1;
        }
        Ok(*phase)
    }
}

/// Both retained Fibonacci values after `k` steps from the base case are at
/// most `2^k`, so the step after them fits the machine integer while `k`
/// stays below the integer's width.
proof fn lemma_fib_window_bound(c: Fibonacci, k: nat)
    ensures
        c.iter_spec(c.base_spec(), k)[0] <= vstd::arithmetic::power2::pow2(k),
        c.iter_spec(c.base_spec(), k)[1] <= vstd::arithmetic::power2::pow2(k),
    decreases k,
{
    let step = |x: Seq<MMInt>| c.step_spec(x);
    vstd::arithmetic::power2::lemma_pow2_pos(k);
    if k == 0 {
        assert(c.iter_spec(c.base_spec(), 0) == c.base_spec());
    } else {
        lemma_fib_window_bound(c, (k - 1) as nat);
        let prev = c.iter_spec(c.base_spec(), (k - 1) as nat);
        assert(c.iter_spec(c.base_spec(), k) == step(
            iter_fn(step, c.base_spec(), (k - 1) as nat),
        ));
        assert(c.iter_spec(c.base_spec(), k) == c.step_spec(prev));
        vstd::arithmetic::power2::lemma_pow2_pos((k - 1) as nat);
        assert(vstd::arithmetic::power2::pow2(k) == 2 * vstd::arithmetic::power2::pow2(
            (k - 1) as nat,
        )) by {
            vstd::arithmetic::power2::lemma_pow2_adds(1, (k - 1) as nat);
            vstd::arithmetic::power2::lemma2_to64();
        }
    }
}

/// The Fibonacci machine stays within its integer limits for every index up
/// to 126, so any query up to there is valid.
pub proof fn lemma_fib_can_reach(c: Fibonacci, n: MMInt)
    requires
        n <= 126,
    ensures
        can_reach(c, n),
{
    let step = |x: Seq<MMInt>| c.step_spec(x);
    let ok = |x: Seq<MMInt>| c.step_ok(x);
    assert forall|j: nat| j < n as nat implies ok(#[trigger] iter_fn(step, c.base_spec(), j)) by {
        lemma_fib_window_bound(c, j);
        let w = c.iter_spec(c.base_spec(), j);
        assert(w[0] + w[1] <= 2 * vstd::arithmetic::power2::pow2(j));
        assert(2 * vstd::arithmetic::power2::pow2(j) <= vstd::arithmetic::power2::pow2(126)) by {
            vstd::arithmetic::power2::lemma2_to64();
            vstd::arithmetic::power2::lemma_pow2_adds(1, j);
            assert(vstd::arithmetic::power2::pow2((j + 1) as nat) == 2
                * vstd::arithmetic::power2::pow2(j));
            if j + 1 < 126 {
                vstd::arithmetic::power2::lemma_pow2_strictly_increases((j + 1) as nat, 126);
            }
        }
        assert(vstd::arithmetic::power2::pow2(126) < MMInt::MAX) by {
            vstd::arithmetic::power2::lemma2_to64();
            vstd::arithmetic::power2::lemma_pow2_adds(64, 62);
            vstd::arithmetic::power2::lemma_pow2_adds(32, 30);
            assert(vstd::arithmetic::power2::pow2(62) == 0x100000000nat * 0x40000000nat);
            assert(vstd::arithmetic::power2::pow2(126) == 0x10000000000000000nat * (
            0x100000000nat * 0x40000000nat));
        }
    }
}

/// `d` divides `n`.
pub open spec fn divides(d: MMInt, n: MMInt) -> bool {
    n % d == 0
}

/// `n` is prime: greater than one, with no divisor strictly between one and
/// itself.
pub open spec fn prime_spec(n: MMInt) -> bool {
    1 < n && forall|d: MMInt| 1 < d < n ==> !(#[trigger] divides(d, n))
}

/// A product of two positive numbers is divided by either factor.
proof fn lemma_divides_mul(a: int, q: int, n: MMInt)
    requires
        1 <= a <= MMInt::MAX as int,
        0 <= q,
        n as int == a * q,
    ensures
        divides(a as MMInt, n),
{
    assert(n as int == q * a + 0) by (nonlinear_arith)
        requires
            n as int == a * q,
    ;
    vstd::arithmetic::div_mod::lemma_fundamental_div_mod_converse_mod(n as int, a, q, 0);
    assert((a as MMInt) as int == a);
}

/// Divisibility is transitive: a divisor of a divisor divides the number.
proof fn lemma_divides_factor(a: MMInt, d: MMInt, n: MMInt)
    requires
        1 <= a <= d,
        1 <= d,
        divides(a, d),
        divides(d, n),
    ensures
        divides(a, n),
{
    vstd::arithmetic::div_mod::lemma_fundamental_div_mod(n as int, d as int);
    vstd::arithmetic::div_mod::lemma_fundamental_div_mod(d as int, a as int);
    let qn = n as int / d as int;
    let qd = d as int / a as int;
    assert(n as int == d as int * qn);
    assert(d as int == a as int * qd);
    assert(n as int == a as int * (qd * qn) && 0 <= qd * qn) by (nonlinear_arith)
        requires
            n as int == d as int * qn,
            d as int == a as int * qd,
            1 <= a <= d,
            0 <= n,
    ;
    lemma_divides_mul(a as int, qd * qn, n);
}

/// Trial division is complete: a number with no divisor below some bound
/// whose square exceeds it has no divisor at all.
proof fn lemma_trial_division_complete(n: MMInt, s: MMInt)
    requires
        1 < n,
        1 <= s,
        s as int * s as int > n as int,
        forall|d: MMInt| 1 < d < s ==> !(#[trigger] divides(d, n)),
    ensures
        prime_spec(n),
{
    assert forall|d: MMInt| 1 < d < n implies !(#[trigger] divides(d, n)) by {
        if d >= s && divides(d, n) {
            vstd::arithmetic::div_mod::lemma_fundamental_div_mod(n as int, d as int);
            let q = n as int / d as int;
            assert(n as int == d as int * q);
            assert(1 < q < s) by (nonlinear_arith)
                requires
                    n as int == d as int * q,
                    s as int <= d as int,
                    1 < d < n,
                    1 <= s,
                    s as int * s as int > n as int,
            ;
            assert(divides(q as MMInt, n)) by {
                lemma_divides_mul(q, d as int, n);
            }
            assert(!divides(q as MMInt, n));
        }
    }
}

/// Extending the tested range by one block of six: beside the two candidates
/// tested directly, every number in the block is a multiple of two or three.
proof fn lemma_block_of_six(n: MMInt, s: MMInt)
    requires
        3 < n,
        !divides(2, n),
        !divides(3, n),
        5 <= s,
        s as int + 6 <= MMInt::MAX as int,
        s % 6 == 5,
        !divides(s, n),
        !divides((s + 2) as MMInt, n),
        forall|d: MMInt| 1 < d < s ==> !(#[trigger] divides(d, n)),
    ensures
        forall|d: MMInt| 1 < d < s + 6 ==> !(#[trigger] divides(d, n)),
{
    assert forall|d: MMInt| 1 < d < s + 6 implies !(#[trigger] divides(d, n)) by {
        if d >= s && d != s && d != s + 2 && divides(d, n) {
            assert(d == s + 1 || d == s + 3 || d == s + 4 || d == s + 5);
            if d == s + 1 || d == s + 3 || d == s + 5 {
                assert(d % 2 == 0);
                assert(divides(2, d));
                lemma_divides_factor(2, d, n);
            } else {
                assert(d % 3 == 0);
                assert(divides(3, d));
                lemma_divides_factor(3, d, n);
            }
        }
    }
}

/// Implements the sequence of prime numbers to calculate the Nth value in
/// the sequence. Starting from the base window, the sequence of results runs
/// 2, 3, 5, 7, 11, 13, ...
#[derive(Clone, Copy, Debug)]
pub struct Primes;

impl Primes {
    /// Integer is a prime number or not, by trial division over the numbers
    /// of the shape `6k - 1` and `6k + 1` up to the square root, after ruling
    /// out multiples of two and three.
    pub fn is_prime(n: MMInt) -> (r: bool)
        ensures
            r == prime_spec(n),
    {
        if n <= 1 {
            return false;
        }
        if n <= 3 {
            proof {
                assert forall|d: MMInt| 1 < d < n implies !(#[trigger] divides(d, n)) by {
                    assert(n == 3 && d == 2);
                }
            }
            return true;
        }
        if n % 2 == 0 {
            proof {
                assert(divides(2, n));
            }
            return false;
        }
        if n % 3 == 0 {
            proof {
                assert(divides(3, n));
            }
            return false;
        }
        let mut stepper: MMInt = 5;
        proof {
            assert forall|d: MMInt| 1 < d < 5 implies !(#[trigger] divides(d, n)) by {
                if d == 4 && divides(4, n) {
                    assert(divides(2, 4));
                    lemma_divides_factor(2, 4, n);
                }
            }
        }
        while stepper <= n / stepper
            invariant
                3 < n <= MMInt::MAX,
                n % 2 != 0,
                n % 3 != 0,
                5 <= stepper <= n,
                stepper % 6 == 5,
                forall|d: MMInt| 1 < d < stepper ==> !(#[trigger] divides(d, n)),
            decreases n - stepper,
        {
            proof {
                vstd::arithmetic::div_mod::lemma_fundamental_div_mod(n as int, stepper as int);
                assert(stepper as int * stepper as int <= n as int) by (nonlinear_arith)
                    requires
                        stepper as int <= (n as int) / (stepper as int),
                        n as int == (stepper as int) * ((n as int) / (stepper as int)) + (
                        n as int) % (stepper as int),
                        0 <= (n as int) % (stepper as int),
                        5 <= stepper,
                ;
                assert(stepper as int + 6 < n as int) by (nonlinear_arith)
                    requires
                        stepper as int * stepper as int <= n as int,
                        5 <= stepper,
                ;
            }
            if n % stepper == 0 {
                proof {
                    assert(divides(stepper, n));
                }
                return false;
            }
            if n % (stepper + 2) == 0 {
                proof {
                    assert(divides((stepper + 2) as MMInt, n));
                }
                return false;
            }
            proof {
                lemma_block_of_six(n, stepper);
            }
            stepper = stepper + 6;
        }
        proof {
            vstd::arithmetic::div_mod::lemma_fundamental_div_mod(n as int, stepper as int);
            assert(stepper as int * stepper as int > n as int) by (nonlinear_arith)
                requires
                    stepper as int > (n as int) / (stepper as int),
                    n as int == (stepper as int) * ((n as int) / (stepper as int)) + (n as int) % (
                    stepper as int),
                    (n as int) % (stepper as int) < stepper as int,
                    5 <= stepper,
            ;
            lemma_trial_division_complete(n, stepper);
        }
        true
    }

    /// Get the next sequential prime number: the smallest prime strictly
    /// greater than `n`. `n` must be at most two or odd, and within machine
    /// limits some prime above `n` must exist, or the search cannot end.
    pub fn next_prime(n: MMInt) -> (r: MMInt)
        requires
            next_prime_ok(n),
        ensures
            is_next_prime(n, r),
    {
        if n == 0 {
            proof {
                lemma_small_primes();
                assert forall|m: MMInt| 0 < m < 2 implies !(#[trigger] prime_spec(m)) by {
                    assert(m == 1);
                }
            }
            return 2;
        }
        if n == 1 || n == 2 {
            proof {
                lemma_small_primes();
            }
            return n + 1;
        }
        let ghost q0 = choose|q: MMInt| n < q && #[trigger] prime_spec(q);
        proof {
            lemma_prime_odd(q0);
            assert(q0 % 2 == 1 && n % 2 == 1);
            assert(n + 2 <= q0);
        }
        let mut m = n + 2;
        proof {
            assert forall|k: MMInt| n < k < m implies !(#[trigger] prime_spec(k)) by {
                assert(k == n + 1);
                assert(k % 2 == 0);
                if prime_spec(k) {
                    assert(divides(2, k));
                    assert(1 < 2 < k);
                }
            }
        }
        loop
            invariant_except_break
                3 <= n,
                n % 2 == 1,
                m % 2 == 1,
                n < m <= q0,
                prime_spec(q0),
                forall|k: MMInt| n < k < m ==> !(#[trigger] prime_spec(k)),
            ensures
                is_next_prime(n, m),
            decreases q0 - m,
        {
            if Primes::is_prime(m) {
                break ;
            }
            proof {
                assert(m < q0);
                assert((m + 1) % 2 == 0);
                assert(!prime_spec((m + 1) as MMInt)) by {
                    if prime_spec((m + 1) as MMInt) {
                        assert(divides(2, (m + 1) as MMInt));
                        assert(1 < 2 < m + 1);
                    }
                }
            }
            m = m + 2;
        }
        m
    }
}

/// `next_prime` terminates on `n`: the input is at most two or odd, and some
/// prime above it exists within machine limits.
pub open spec fn next_prime_ok(n: MMInt) -> bool {
    n <= 2 || (n % 2 == 1 && exists|q: MMInt| n < q && #[trigger] prime_spec(q))
}

/// `q` is the smallest prime strictly greater than `n`.
pub open spec fn is_next_prime(n: MMInt, q: MMInt) -> bool {
    &&& n < q
    &&& prime_spec(q)
    &&& forall|m: MMInt| n < m < q ==> !(#[trigger] prime_spec(m))
}

/// The smallest prime strictly greater than `n`, where one exists.
pub open spec fn next_prime_spec(n: MMInt) -> MMInt {
    choose|q: MMInt| is_next_prime(n, q)
}

/// There is only one smallest prime above `n`.
pub proof fn lemma_next_prime_unique(n: MMInt, q: MMInt)
    requires
        is_next_prime(n, q),
    ensures
        next_prime_spec(n) == q,
{
    let q2 = next_prime_spec(n);
    assert(is_next_prime(n, q2));
    if q < q2 {
        assert(!prime_spec(q));
    } else if q2 < q {
        assert(!prime_spec(q2));
    }
}

impl Calculator for Primes {
    /// Replace the head value with the next prime; the rest of the window is
    /// unused history.
    open spec fn step_spec(&self, w: Seq<MMInt>) -> Seq<MMInt> {
        seq![next_prime_spec(w[0]), w[1], w[2]]
    }

    /// The next prime must exist within the machine integer.
    open spec fn step_ok(&self, w: Seq<MMInt>) -> bool {
        next_prime_ok(w[0])
    }

    /// The value at index zero is the first prime, two.
    open spec fn base_spec(&self) -> Seq<MMInt> {
        seq![2u128, 0u128, 0u128]
    }

    open spec fn iter_spec(&self, w: Seq<MMInt>, k: nat) -> Seq<MMInt> {
        iter_fn(|x: Seq<MMInt>| self.step_spec(x), w, k)
    }

    open spec fn can_advance_spec(&self, w: Seq<MMInt>, k: nat) -> bool {
        advance_ok_fn(
            (|x: Seq<MMInt>| self.step_spec(x)),
            (|x: Seq<MMInt>| self.step_ok(x)),
            w,
            k,
        )
    }

    proof fn lemma_iter_zero(&self, w: Seq<MMInt>) {
    }

    proof fn lemma_iter_succ(&self, w: Seq<MMInt>, k: nat) {
    }

    proof fn lemma_can_advance(&self, w: Seq<MMInt>, k: nat) {
        let step = |x: Seq<MMInt>| self.step_spec(x);
        let ok = |x: Seq<MMInt>| self.step_ok(x);
        if self.can_advance_spec(w, k) {
            assert forall|j: nat| j < k implies self.step_ok(#[trigger] self.iter_spec(w, j)) by {
                assert(ok(iter_fn(step, w, j)));
            }
        }
        if forall|j: nat| j < k ==> self.step_ok(#[trigger] self.iter_spec(w, j)) {
            assert forall|j: nat| j < k implies ok(#[trigger] iter_fn(step, w, j)) by {
                assert(self.step_ok(self.iter_spec(w, j)));
            }
        }
    }

    fn base(&self) -> (p: Phase) {
        let mut p = Phase::new();
        p.set(0, 2);
        proof {
            assert(p.window() =~= seq![2u128, 0u128, 0u128]);
        }
        p
    }

    fn calculate(&self, n: MMInt, phase: &mut Phase) -> (r: MachineResult<Phase>) {
        let ghost w0 = phase.window();
        let ghost c = *self;
        let start = phase.input();
        phase.setinput(n);
        let mut i = start;
        while i < n
            invariant
                start <= i <= n,
                phase.input_spec() == n,
                phase.window() == c.iter_spec(w0, (i - start) as nat),
                c.can_advance_spec(w0, (n - start) as nat),
                c == *self,
            decreases n - i,
        {
            let ghost cur = phase.window();
            proof {
                phase.lemma_window_len();
                let step = |x: Seq<MMInt>| c.step_spec(x);
                let ok = |x: Seq<MMInt>| c.step_ok(x);
                assert(ok(#[trigger] iter_fn(step, w0, (i - start) as nat)));
                assert(c.step_ok(cur));
                assert(next_prime_ok(cur[0]));
            }
            let head = phase.get(0);
            let p = Primes::next_prime(head);
            phase.set(0, p);
            proof {
                let step = |x: Seq<MMInt>| c.step_spec(x);
                lemma_next_prime_unique(cur[0], p);
                assert(phase.window() == cur.update(0, p));
                assert(phase.window() =~= c.step_spec(cur));
                assert(iter_fn(step, w0, (i + 1 - start) as nat) == step(
                    iter_fn(step, w0, (i - start) as nat),
                ));
                assert(phase.window() == c.iter_spec(w0, (i + 1 - start) as nat));
            }
            i = i + 1;
        }
        Ok(*phase)
    }
}

/// Each of the first few primes is followed immediately by the next one.
proof fn lemma_first_primes()
    ensures
        is_next_prime(2, 3),
        is_next_prime(3, 5),
        is_next_prime(5, 7),
        is_next_prime(7, 11),
        is_next_prime(11, 13),
{
    lemma_small_primes();
    assert(prime_spec(5)) by {
        assert(!divides(2, 5));
        assert forall|d: MMInt| 1 < d < 3 implies !(#[trigger] divides(d, 5)) by {
            assert(d == 2);
        }
        lemma_trial_division_complete(5, 3);
    }
    assert(prime_spec(7)) by {
        assert forall|d: MMInt| 1 < d < 3 implies !(#[trigger] divides(d, 7)) by {
            assert(d == 2);
        }
        lemma_trial_division_complete(7, 3);
    }
    assert(prime_spec(11)) by {
        assert forall|d: MMInt| 1 < d < 4 implies !(#[trigger] divides(d, 11)) by {
            assert(d == 2 || d == 3);
        }
        lemma_trial_division_complete(11, 4);
    }
    assert(prime_spec(13)) by {
        assert forall|d: MMInt| 1 < d < 4 implies !(#[trigger] divides(d, 13)) by {
            assert(d == 2 || d == 3);
        }
        lemma_trial_division_complete(13, 4);
    }
    assert(!prime_spec(4)) by {
        assert(divides(2, 4));
    }
    assert(!prime_spec(6)) by {
        assert(divides(2, 6));
    }
    assert(!prime_spec(8)) by {
        assert(divides(2, 8));
    }
    assert(!prime_spec(9)) by {
        assert(divides(3, 9));
    }
    assert(!prime_spec(10)) by {
        assert(divides(2, 10));
    }
    assert(!prime_spec(12)) by {
        assert(divides(2, 12));
    }
    assert forall|m: MMInt| 7 < m < 11 implies !(#[trigger] prime_spec(m)) by {
        assert(m == 8 || m == 9 || m == 10);
    }
}

/// The prime machine stays within its limits for every index up to five, so
/// the first six primes can be asked of it.
pub proof fn lemma_primes_can_reach(c: Primes, n: MMInt)
    requires
        n <= 5,
    ensures
        can_reach(c, n),
{
    let step = |x: Seq<MMInt>| c.step_spec(x);
    let ok = |x: Seq<MMInt>| c.step_ok(x);
    lemma_first_primes();
    lemma_next_prime_unique(2, 3);
    lemma_next_prime_unique(3, 5);
    lemma_next_prime_unique(5, 7);
    lemma_next_prime_unique(7, 11);
    reveal_with_fuel(iter_fn, 6);
    assert(iter_fn(step, c.base_spec(), 0)[0] == 2);
    assert(iter_fn(step, c.base_spec(), 1)[0] == 3);
    assert(iter_fn(step, c.base_spec(), 2)[0] == 5);
    assert(iter_fn(step, c.base_spec(), 3)[0] == 7);
    assert(iter_fn(step, c.base_spec(), 4)[0] == 11);
    assert forall|j: nat| j < n as nat implies ok(#[trigger] iter_fn(step, c.base_spec(), j)) by {
        reveal_with_fuel(iter_fn, 6);
        if j == 0 {
            assert(next_prime_ok(2));
        } else if j == 1 {
            assert(next_prime_ok(3)) by {
                assert(2 < 5 && prime_spec(5));
            }
        } else if j == 2 {
            assert(next_prime_ok(5)) by {
                assert(5 < 7 && prime_spec(7));
            }
        } else if j == 3 {
            assert(next_prime_ok(7)) by {
                assert(7 < 11 && prime_spec(11));
            }
        } else {
            assert(j == 4);
            assert(next_prime_ok(11)) by {
                assert(11 < 13 && prime_spec(13));
            }
        }
    }
}

/// Two and three are prime.
proof fn lemma_small_primes()
    ensures
        prime_spec(2),
        prime_spec(3),
        !prime_spec(1),
        !prime_spec(0),
{
    assert forall|d: MMInt| 1 < d < 2 implies !(#[trigger] divides(d, 2)) by {
    }
    assert forall|d: MMInt| 1 < d < 3 implies !(#[trigger] divides(d, 3)) by {
        assert(d == 2);
    }
}

/// Every prime greater than two is odd.
proof fn lemma_prime_odd(q: MMInt)
    requires
        prime_spec(q),
        2 < q,
    ensures
        q % 2 == 1,
{
    if q % 2 == 0 {
        assert(divides(2, q));
        assert(1 < 2 < q);
    }
}

} // verus!

