//! The sieve of one window.
//!
//! [`sieve_of_eratosthenes`] sieves `[0, n]` on its own: it finds the primes
//! to strike with in the bitmap that it is filling. [`sieve_window`] sieves a
//! window further up with primes that an earlier run found.
//!
//! Both are laid out as a plan and its execution. The plan says which
//! marking is to be done and when a barrier is due ([`SievePlan`],
//! [`marking_tasks`]); the execution here runs each [`MarkTask`] on the spot.
//! A caller with a worker pool can follow the same plan and hand the tasks
//! out instead.

use vstd::prelude::*;
use vstd::arithmetic::mul::{lemma_mul_inequality, lemma_mul_strict_inequality};
use crate::bitmap::{cell_count, lemma_floor_index, CompositeBitmap};
use crate::primes::{
    divides,
    is_prime,
    lemma_composite_has_prime_factor,
    lemma_multiple_is_composite,
    lemma_prime_factor_of_coprime30,
    lemma_prime_is_coprime30,
    lemma_primes_split,
    lemma_select_congruent,
    primes_between,
    primes_upto,
    select_between,
};
use crate::wheel::{coprime30, lemma_next_coprime30, next_coprime30, WheelState};

verus! {

/// Every number that `bitmap` covers and has struck out is composite.
pub open spec fn marks_are_composite(bitmap: CompositeBitmap) -> bool {
    forall|v: int| bitmap.covers(v) && #[trigger] bitmap.marked(v) ==> !is_prime(v)
}

/// `bitmap` has struck out every number it covers that a prime below
/// `bound` divides and that is at least that prime's square.
pub open spec fn struck_by_primes_below(bitmap: CompositeBitmap, bound: int) -> bool {
    forall|v: int, q: int|
        #![trigger bitmap.marked(v), divides(q, v)]
        bitmap.covers(v) && is_prime(q) && q < bound && divides(q, v) && q * q <= v
            ==> bitmap.marked(v)
}

/// `base` holds primes only, in ascending order, and among them every prime
/// whose square does not exceed `high`: the primes that a window up to
/// `high` is to be struck with.
pub open spec fn is_base_for(base: Seq<u64>, high: int) -> bool {
    &&& forall|i: int, j: int| 0 <= i < j < base.len() ==> base[i] < base[j]
    &&& forall|i: int| 0 <= i < base.len() ==> is_prime(#[trigger] base[i] as int)
    &&& forall|q: int| #[trigger] is_prime(q) && q * q <= high ==> base.contains(q as u64)
}

/// The primes up to 6.
pub proof fn lemma_small_primes()
    ensures
        primes_upto(1) == Seq::<u64>::empty(),
        primes_upto(2) == seq![2u64],
        primes_upto(4) == seq![2u64, 3u64],
        primes_upto(6) == seq![2u64, 3u64, 5u64],
        forall|n: int| n <= 1 ==> #[trigger] primes_upto(n) == Seq::<u64>::empty(),
        primes_upto(3) == primes_upto(4),
        primes_upto(5) == primes_upto(6),
{
    let keep = |v: int| is_prime(v);
    assert(is_prime(2));
    assert(is_prime(3)) by {
        assert forall|d: int| 2 <= d < 3 implies !#[trigger] divides(d, 3) by {}
    }
    assert(!is_prime(4)) by {
        assert(divides(2, 4));
    }
    assert(is_prime(5)) by {
        assert forall|d: int| 2 <= d < 5 implies !#[trigger] divides(d, 5) by {
            if d == 2 {
            } else if d == 3 {
            } else {
                assert(d == 4);
            }
        }
    }
    assert(!is_prime(6)) by {
        assert(divides(2, 6));
    }
    assert(select_between(0, 0, keep) == Seq::<u64>::empty());
    assert(select_between(0, 1, keep) == Seq::<u64>::empty());
    assert(select_between(0, 2, keep) =~= seq![2u64]);
    assert(select_between(0, 3, keep) =~= seq![2u64, 3u64]);
    assert(select_between(0, 4, keep) =~= seq![2u64, 3u64]);
    assert(select_between(0, 5, keep) =~= seq![2u64, 3u64, 5u64]);
    assert(select_between(0, 6, keep) =~= seq![2u64, 3u64, 5u64]);
    assert forall|n: int| n <= 1 implies #[trigger] primes_upto(n) == Seq::<u64>::empty() by {
        if n == 1 {
        }
    }
}

/// Once every composite that a bitmap covers is struck out, and nothing
/// else, the bitmap's survivors are the primes of its window.
pub proof fn lemma_survivors_are_primes(bitmap: CompositeBitmap)
    requires
        bitmap.low_bound() >= 5,
        forall|v: int| bitmap.covers(v) ==> (#[trigger] bitmap.marked(v) <==> !is_prime(v)),
    ensures
        bitmap.survivors() == primes_between(bitmap.low_bound(), bitmap.high_bound()),
{
    let kept = |v: int| coprime30(v) && !bitmap.marked(v);
    let prime = |v: int| is_prime(v);
    assert forall|v: int| bitmap.low_bound() < v <= bitmap.high_bound() implies #[trigger] kept(v)
        == prime(v) by {
        if is_prime(v) {
            lemma_prime_is_coprime30(v);
        }
    }
    lemma_select_congruent(bitmap.low_bound(), bitmap.high_bound(), kept, prime);
}

/// A bitmap that has struck out composites only, and all multiples of the
/// primes below a bound from which on the squares of the primes lie above
/// the window, has struck out exactly the composites that it covers.
pub proof fn lemma_sieve_complete(bitmap: CompositeBitmap, bound: int)
    requires
        marks_are_composite(bitmap),
        struck_by_primes_below(bitmap, bound),
        forall|q: int| #[trigger] coprime30(q) && q >= bound ==> q * q > bitmap.high_bound(),
        bitmap.low_bound() >= 1,
    ensures
        forall|v: int| bitmap.covers(v) ==> (#[trigger] bitmap.marked(v) <==> !is_prime(v)),
{
    assert forall|v: int| bitmap.covers(v) implies (#[trigger] bitmap.marked(v) <==> !is_prime(
        v,
    )) by {
        if !is_prime(v) {
            let q = lemma_composite_has_prime_factor(v);
            lemma_prime_factor_of_coprime30(q, v);
            lemma_prime_is_coprime30(q);
            assert(divides(q, v));
        }
    }
}

/// A candidate that still stands is prime as long as it lies below the
/// square of a bound up to which every prime has struck out its multiples.
/// This is what a barrier buys: once the marking of all primes up to a
/// threshold has returned, the standing of every candidate below the
/// threshold's square can be trusted.
pub proof fn lemma_standing_candidate_is_prime(bitmap: CompositeBitmap, bound: int, p: int)
    requires
        struck_by_primes_below(bitmap, bound),
        bound >= 0,
        bitmap.low_bound() >= 1,
        bitmap.covers(p),
        !bitmap.marked(p),
        p < bound * bound,
    ensures
        is_prime(p),
{
    if !is_prime(p) {
        let q = lemma_composite_has_prime_factor(p);
        if q >= bound {
            lemma_mul_inequality(bound, q, bound);
            lemma_mul_inequality(bound, q, q);
        }
        assert(divides(q, p));
    }
}

/// The first threshold of a [`BarrierSchedule`]. Every candidate up to it
/// is prime, since the least composite coprime to 30 is 49.
pub const FIRST_BARRIER: u64 = 36;

/// When a sieve that marks in parallel has to wait for the marking to
/// return before it reads the bitmap: each time a candidate passes the
/// threshold, and the threshold is then squared. The barriers so grow rare
/// as the primes grow sparse, and only a bounded batch of marking runs at a
/// time while the primes are small and their multiples dense.
pub struct BarrierSchedule {
    threshold: u64,
}

impl BarrierSchedule {
    /// The candidate up to which no barrier is due.
    pub closed spec fn threshold_spec(&self) -> int {
        self.threshold as int
    }

    /// A schedule at [`FIRST_BARRIER`].
    pub fn new() -> (schedule: BarrierSchedule)
        ensures
            schedule.threshold_spec() == FIRST_BARRIER,
    {
        BarrierSchedule { threshold: FIRST_BARRIER }
    }

    /// The candidate up to which no barrier is due.
    pub fn threshold(&self) -> (threshold: u64)
        ensures
            threshold == self.threshold_spec(),
    {
        self.threshold
    }

    /// Whether a barrier is due before the candidate `p` is looked at: it is
    /// when `p` lies beyond the threshold.
    pub fn due(&self, p: u64) -> (due: bool)
        ensures
            due == (self.threshold_spec() < p),
    {
        self.threshold < p
    }

    /// Squares the threshold once a barrier has passed; it stays at the
    /// largest 64-bit number where the square would exceed that.
    pub fn raise(&mut self)
        ensures
            final(self).threshold_spec() == raised_threshold(old(self).threshold_spec()),
    {
        self.threshold = match self.threshold.checked_mul(self.threshold) {
            Some(square) => square,
            None => u64::MAX,
        };
    }
}

/// One unit of marking work: a prime whose multiples are to be struck out
/// of a window's bitmap.
pub struct MarkTask {
    /// The prime, or any number from 7 on that is coprime to 30.
    pub prime: u64,
}

impl MarkTask {
    /// Strikes out the multiples of the prime, from its square on, and
    /// returns the stop signal, which marking never raises.
    pub fn run(&self, bitmap: &mut CompositeBitmap) -> (stop: bool)
        requires
            old(bitmap).wf(),
            self.prime >= 7,
            coprime30(self.prime as int),
        ensures
            !stop,
            final(bitmap).is_marking_of(*old(bitmap), self.prime as int),
    {
        bitmap.mark_multiples(self.prime);
        false
    }
}

/// What a [`SievePlan`] asks for next.
pub enum SieveStep {
    /// Wait until the marking handed out so far has returned.
    Barrier,
    /// Look at this candidate: where it still stands, it is prime, and its
    /// multiples are to be struck out.
    Candidate(u64),
    /// No candidate is left whose square fits under the bound.
    Done,
}

/// What squaring makes of a threshold: its square, or the largest 64-bit
/// number where the square exceeds that.
pub open spec fn raised_threshold(threshold: int) -> int {
    if threshold * threshold <= u64::MAX {
        threshold * threshold
    } else {
        u64::MAX as int
    }
}

/// The plan of a sieve over `[0, bound]` that finds the primes it strikes
/// with in its own bitmap: the candidates in ascending order, each number
/// coprime to 30 from 7 on whose square does not exceed the bound, and the
/// barriers of a [`BarrierSchedule`] between them.
pub struct SievePlan {
    cursor: WheelState,
    schedule: BarrierSchedule,
    bound: u64,
    last: u64,
    held: bool,
    done: bool,
}

impl SievePlan {
    /// The bound of the sieve.
    pub closed spec fn bound_spec(&self) -> int {
        self.bound as int
    }

    /// The last candidate that was handed out; 1 before the first.
    pub closed spec fn reached(&self) -> int {
        self.last as int
    }

    /// The candidate up to which no barrier is due.
    pub closed spec fn threshold(&self) -> int {
        self.schedule.threshold_spec()
    }

    /// The barrier for the next candidate has been asked for, so that the
    /// candidate comes next.
    pub closed spec fn barrier_passed(&self) -> bool {
        self.held
    }

    /// The plan has said [`SieveStep::Done`].
    pub closed spec fn is_done(&self) -> bool {
        self.done
    }

    /// A bound on the steps that the plan still takes.
    pub closed spec fn steps_left(&self) -> nat {
        if self.done {
            0
        } else if self.held {
            (2 * (0x1_0000_0008 - self.last)) as nat
        } else {
            (2 * (0x1_0000_0008 - self.last) + 1) as nat
        }
    }

    /// The plan's cursor stands at the last candidate handed out, or one
    /// candidate further while that one is held back behind a barrier.
    pub closed spec fn wf(&self) -> bool {
        &&& self.cursor.wf()
        &&& self.last >= 1
        &&& coprime30(self.last as int)
        &&& (self.last == 1 || self.last * self.last <= self.bound)
        &&& (!self.held && !self.done ==> self.cursor.value_spec() == self.last)
        &&& (self.held ==> {
            &&& !self.done
            &&& self.cursor.value_spec() == next_coprime30(self.last as int)
            &&& self.cursor.value_spec() * self.cursor.value_spec() <= self.bound
        })
    }

    /// The step that the plan takes next: it is done when the square of the
    /// next candidate exceeds the bound; it asks for a barrier when the next
    /// candidate lies beyond the threshold and no barrier has been asked for
    /// yet; it hands out the next candidate otherwise.
    pub open spec fn step_spec(&self) -> SieveStep {
        let p = next_coprime30(self.reached());
        if p * p > self.bound_spec() {
            SieveStep::Done
        } else if !self.barrier_passed() && self.threshold() < p {
            SieveStep::Barrier
        } else {
            SieveStep::Candidate(p as u64)
        }
    }

    /// A plan for the bound `n`, before its first candidate.
    pub fn new(n: u64) -> (plan: SievePlan)
        ensures
            plan.wf(),
            plan.bound_spec() == n,
            plan.reached() == 1,
            plan.threshold() == FIRST_BARRIER,
            !plan.barrier_passed(),
            !plan.is_done(),
    {
        SievePlan {
            cursor: WheelState::new(),
            schedule: BarrierSchedule::new(),
            bound: n,
            last: 1,
            held: false,
            done: false,
        }
    }

    /// Takes the next step of the plan. Candidates come in ascending order
    /// and leave out no number coprime to 30.
    pub fn next_step(&mut self) -> (step: SieveStep)
        requires
            old(self).wf(),
            !old(self).is_done(),
        ensures
            final(self).wf(),
            final(self).bound_spec() == old(self).bound_spec(),
            final(self).steps_left() < old(self).steps_left(),
            step == old(self).step_spec(),
            match step {
                SieveStep::Barrier => {
                    &&& !final(self).is_done()
                    &&& final(self).reached() == old(self).reached()
                    &&& final(self).barrier_passed()
                    &&& final(self).threshold() == raised_threshold(old(self).threshold())
                },
                SieveStep::Candidate(p) => {
                    &&& !final(self).is_done()
                    &&& final(self).reached() == p
                    &&& !final(self).barrier_passed()
                    &&& final(self).threshold() == old(self).threshold()
                    &&& p >= 7
                    &&& coprime30(p as int)
                    &&& p * p <= old(self).bound_spec()
                },
                SieveStep::Done => {
                    &&& final(self).is_done()
                    &&& final(self).reached() == old(self).reached()
                },
            },
    {
        proof {
            lemma_next_coprime30(self.last as int, 0);
        }
        if self.held {
            let p = self.cursor.value();
            assert(p <= u32::MAX) by (nonlinear_arith)
                requires
                    p * p <= u64::MAX,
            ;
            self.held = false;
            self.last = p;
            return SieveStep::Candidate(p);
        }
        assert(self.last <= u32::MAX) by (nonlinear_arith)
            requires
                self.last == 1 || self.last * self.last <= u64::MAX,
        ;
        self.cursor.next_admissible();
        let p = self.cursor.value();
        let square = p.checked_mul(p);
        if square.is_none() || square.unwrap() > self.bound {
            self.done = true;
            return SieveStep::Done;
        }
        assert(p <= u32::MAX) by (nonlinear_arith)
            requires
                p * p <= u64::MAX,
        ;
        if self.schedule.due(p) {
            self.schedule.raise();
            self.held = true;
            return SieveStep::Barrier;
        }
        self.last = p;
        SieveStep::Candidate(p)
    }
}

/// The primes up to `n`, in ascending order, by a sieve over one bitmap for
/// all of `[0, n]`.
///
/// The candidates are the numbers coprime to 30, which a rolling wheel
/// cursor enumerates. Each candidate up to the square root of `n` that is
/// still standing strikes out its multiples; what stands at the end is
/// harvested.
pub fn sieve_of_eratosthenes(n: u64) -> (primes: Vec<u64>)
    requires
        n <= usize::MAX,
    ensures
        primes@ == primes_upto(n as int),
{
    let mut known_primes: Vec<u64> = Vec::new();
    proof {
        lemma_small_primes();
    }
    if n < 2 {
        return known_primes;
    }
    known_primes.push(2);
    if n < 3 {
        assert(known_primes@ =~= seq![2u64]);
        return known_primes;
    }
    known_primes.push(3);
    if n < 5 {
        assert(known_primes@ =~= seq![2u64, 3u64]);
        return known_primes;
    }
    known_primes.push(5);
    assert(known_primes@ =~= seq![2u64, 3u64, 5u64]);
    if n < 7 {
        return known_primes;
    }
    proof {
        lemma_floor_index(n as int);
    }
    let mut bitmap = CompositeBitmap::new(6, n);
    let mut plan = SievePlan::new(n);
    loop
        invariant_except_break
            !plan.is_done(),
        invariant
            n >= 7,
            plan.wf(),
            plan.bound_spec() == n,
            plan.reached() >= 1,
            coprime30(plan.reached()),
            bitmap.wf(),
            bitmap.low_bound() == 6,
            bitmap.high_bound() == n,
            marks_are_composite(bitmap),
            struck_by_primes_below(bitmap, plan.reached() + 1),
        ensures
            next_coprime30(plan.reached()) * next_coprime30(plan.reached()) > n,
        decreases plan.steps_left(),
    {
        let ghost before = bitmap;
        let ghost reached = plan.reached();
        match plan.next_step() {
            SieveStep::Barrier => {},
            SieveStep::Done => {
                break ;
            },
            SieveStep::Candidate(p) => {
                assert(p <= n) by (nonlinear_arith)
                    requires
                        p * p <= n,
                        p >= 1,
                ;
                if !bitmap.is_marked(p) {
                    let task = MarkTask { prime: p };
                    task.run(&mut bitmap);
                    proof {
                        assert forall|v: int| bitmap.covers(v) && #[trigger] bitmap.marked(
                            v,
                        ) implies !is_prime(v) by {
                            if !before.marked(v) {
                                lemma_multiple_is_composite(p as int, v);
                            }
                        }
                    }
                }
                proof {
                    assert forall|v: int, q: int|
                        #![trigger bitmap.marked(v), divides(q, v)]
                        bitmap.covers(v) && is_prime(q) && q < p + 1 && divides(q, v) && q * q
                            <= v implies bitmap.marked(v) by {
                        assert(before.covers(v));
                        lemma_prime_factor_of_coprime30(q, v);
                        lemma_prime_is_coprime30(q);
                        lemma_next_coprime30(reached, q);
                        if q < p {
                            assert(q <= reached);
                            assert(before.marked(v));
                        }
                    }
                }
            },
        }
    }
    proof {
        let next = next_coprime30(plan.reached());
        assert forall|q: int| #[trigger] coprime30(q) && q >= plan.reached() + 1 implies q * q
            > bitmap.high_bound() by {
            lemma_next_coprime30(plan.reached(), q);
            lemma_mul_inequality(next, q, next);
            lemma_mul_inequality(next, q, q);
        }
        lemma_sieve_complete(bitmap, plan.reached() + 1);
        lemma_survivors_are_primes(bitmap);
        lemma_primes_split(0, 6, n as int);
    }
    bitmap.harvest(&mut known_primes);
    known_primes
}

/// `tasks` holds a task for the number `q`.
pub open spec fn has_task(tasks: Seq<MarkTask>, q: int) -> bool {
    exists|i: int| 0 <= i < tasks.len() && #[trigger] tasks[i].prime == q
}

/// The marking that a window up to `high` needs: one task for each prime of
/// `base` from 7 on whose square does not exceed `high`, and no other.
pub fn marking_tasks(base: &Vec<u64>, high: u64) -> (tasks: Vec<MarkTask>)
    requires
        is_base_for(base@, high as int),
    ensures
        forall|i: int|
            0 <= i < tasks.len() ==> {
                let p = #[trigger] tasks[i].prime;
                p >= 7 && is_prime(p as int) && p * p <= high
            },
        forall|q: int| #[trigger] is_prime(q) && q >= 7 && q * q <= high ==> has_task(tasks@, q),
        forall|i: int, j: int| 0 <= i < j < tasks.len() ==> tasks[i].prime < tasks[j].prime,
{
    let mut tasks: Vec<MarkTask> = Vec::new();
    let mut t: usize = 0;
    while t < base.len()
        invariant_except_break
            t <= base.len(),
        invariant
            is_base_for(base@, high as int),
            forall|i: int|
                0 <= i < tasks.len() ==> {
                    let p = #[trigger] tasks[i].prime;
                    p >= 7 && is_prime(p as int) && p * p <= high
                },
            forall|s: int| 0 <= s < t && #[trigger] base[s] >= 7 ==> has_task(tasks@, base[s] as int),
            forall|i: int, j: int| 0 <= i < j < tasks.len() ==> tasks[i].prime < tasks[j].prime,
            forall|i: int| 0 <= i < tasks.len() && t < base.len() ==> #[trigger] tasks[i].prime < base[t as int],
        ensures
            t <= base.len(),
            t < base.len() ==> base[t as int] * base[t as int] > high,
        decreases base.len() - t,
    {
        let p = base[t];
        let square = p.checked_mul(p);
        if square.is_none() || square.unwrap() > high {
            break ;
        }
        if p >= 7 {
            let ghost before = tasks@;
            tasks.push(MarkTask { prime: p });
            proof {
                assert(tasks[tasks.len() - 1].prime == p);
                assert forall|s: int| 0 <= s < t && #[trigger] base[s] >= 7 implies has_task(
                    tasks@,
                    base[s] as int,
                ) by {
                    let i = choose|i: int|
                        0 <= i < before.len() && #[trigger] before[i].prime == base[s];
                    assert(tasks[i].prime == base[s]);
                }
            }
        }
        t += 1;
        proof {
            if t < base.len() {
                assert(base[t - 1] < base[t as int]);
            }
        }
    }
    proof {
        assert forall|q: int| #[trigger] is_prime(q) && q >= 7 && q * q <= high implies has_task(
            tasks@,
            q,
        ) by {
            lemma_mul_strict_inequality(1, q, q);
            assert(base@.contains(q as u64));
            let s = choose|s: int| 0 <= s < base.len() && base[s] == q as u64;
            if s >= t {
                if s > t {
                    assert(base[t as int] < base[s]);
                }
                lemma_mul_inequality(base[t as int] as int, q, base[t as int] as int);
                lemma_mul_inequality(base[t as int] as int, q, q);
            }
        }
    }
    tasks
}

/// The primes `p` with `low < p <= high`, in ascending order, by a sieve
/// over a bitmap for that window alone. The multiples struck out are those
/// of the primes in `base`.
pub fn sieve_window(base: &Vec<u64>, low: u64, high: u64) -> (primes: Vec<u64>)
    requires
        5 <= low <= high,
        is_base_for(base@, high as int),
        cell_count(low as int, high as int) <= usize::MAX,
    ensures
        primes@ == primes_between(low as int, high as int),
{
    let mut bitmap = CompositeBitmap::new(low, high);
    let tasks = marking_tasks(base, high);
    let mut t: usize = 0;
    while t < tasks.len()
        invariant
            t <= tasks.len(),
            5 <= low <= high,
            bitmap.wf(),
            bitmap.low_bound() == low,
            bitmap.high_bound() == high,
            marks_are_composite(bitmap),
            forall|i: int|
                0 <= i < tasks.len() ==> {
                    let p = #[trigger] tasks[i].prime;
                    p >= 7 && is_prime(p as int) && p * p <= high
                },
            forall|v: int, s: int|
                #![trigger bitmap.marked(v), tasks[s]]
                bitmap.covers(v) && 0 <= s < t && divides(tasks[s].prime as int, v)
                    && tasks[s].prime * tasks[s].prime <= v ==> bitmap.marked(v),
        decreases tasks.len() - t,
    {
        let ghost before = bitmap;
        let ghost p = tasks[t as int].prime;
        proof {
            lemma_prime_is_coprime30(p as int);
        }
        tasks[t].run(&mut bitmap);
        proof {
            assert forall|v: int| bitmap.covers(v) && #[trigger] bitmap.marked(v) implies !is_prime(
                v,
            ) by {
                if !before.marked(v) {
                    lemma_multiple_is_composite(p as int, v);
                }
            }
            assert forall|v: int, s: int|
                #![trigger bitmap.marked(v), tasks[s]]
                bitmap.covers(v) && 0 <= s < t + 1 && divides(tasks[s].prime as int, v)
                    && tasks[s].prime * tasks[s].prime <= v implies bitmap.marked(v) by {
                assert(before.covers(v));
                if s < t {
                    assert(before.marked(v));
                }
            }
        }
        t += 1;
    }
    proof {
        assert forall|v: int, q: int|
            #![trigger bitmap.marked(v), divides(q, v)]
            bitmap.covers(v) && is_prime(q) && q < high + 1 && divides(q, v) && q * q
                <= v implies bitmap.marked(v) by {
            lemma_prime_factor_of_coprime30(q, v);
            let s = choose|s: int| 0 <= s < tasks.len() && #[trigger] tasks[s].prime == q;
            assert(bitmap.marked(v));
        }
        assert forall|q: int| #[trigger] coprime30(q) && q >= high + 1 implies q * q > high by {
            lemma_mul_strict_inequality(1, q, q);
        }
        lemma_sieve_complete(bitmap, high + 1);
        lemma_survivors_are_primes(bitmap);
    }
    let mut primes: Vec<u64> = Vec::new();
    bitmap.harvest(&mut primes);
    assert(primes@ =~= bitmap.survivors());
    primes
}

} // verus!
