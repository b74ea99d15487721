//! The composite bitmap of one sieve window.
//!
//! A window `(low, high]` has one cell for each number in it that is coprime
//! to 30, found by the number's compressed index. A cell that is set says
//! that its number was struck out as a multiple; the cells that stay clear
//! are the window's survivors.

use vstd::prelude::*;
use vstd::arithmetic::div_mod::{
    lemma_div_is_ordered_by_denominator,
    lemma_fundamental_div_mod,
    lemma_fundamental_div_mod_converse,
};
use vstd::arithmetic::mul::{
    lemma_mul_inequality,
    lemma_mul_is_commutative,
    lemma_mul_is_distributive_add,
    lemma_mul_strict_inequality,
    lemma_mul_strict_inequality_converse,
};
use crate::primes::{
    divides,
    lemma_coprime30_product,
    lemma_divides_multiple,
    lemma_divides_quotient,
    lemma_select_congruent,
    lemma_select_skip,
    select_between,
};
use crate::wheel::{
    backward5_spec,
    coprime30,
    forward5_spec,
    lemma_backward5_monotonic,
    lemma_backward5_of_turn,
    lemma_forward5_of_turn,
    lemma_turn_is_coprime30,
    lemma_wheel30_increasing,
    lemma_wheel30_index_round_trip,
    lemma_wheel30_no_gap,
    lemma_wheel30_value_round_trip,
    position30,
    residue30,
    wheel30_index,
    wheel30_residue,
    wheel30_value,
};

verus! {

/// The compressed index of the largest number up to `n` that is coprime to
/// 30, or 0 where there is none: how many such numbers there are up to `n`.
pub open spec fn floor_index_spec(n: int) -> int {
    let c = backward5_spec(n);
    if forward5_spec(c) <= n {
        c
    } else {
        c - 1
    }
}

/// The number of cells that the bitmap of the window `(low, high]` holds.
/// Cells come in whole turns of the wheel, so the count starts at the last
/// multiple of 30 up to `low`, and one cell more stands in front.
pub open spec fn cell_count(low: int, high: int) -> int {
    floor_index_spec(high) - 8 * (low / 30) + 1
}

/// The distance from the `k`-th residue coprime to 30 to the one after it.
pub open spec fn gap30(k: int) -> int {
    if k == 0 || k == 6 {
        6
    } else if k == 1 || k == 3 || k == 5 {
        4
    } else {
        2
    }
}

/// The index that [`floor_index_spec`] names does hold the largest
/// admissible value up to `n`. The index function itself gives that index
/// or the next, so that the turn of its index starts at or below `n`.
pub proof fn lemma_floor_index(n: int)
    requires
        n >= 0,
    ensures
        floor_index_spec(n) >= 0,
        forward5_spec(floor_index_spec(n)) <= n < forward5_spec(floor_index_spec(n) + 1),
        30 * ((backward5_spec(n) - 1) / 8) <= n || backward5_spec(n) == 0,
        backward5_spec(n) >= 0,
{
    let t = n / 30;
    let r = n % 30;
    let k = position30(r);
    let above = 8 * t + k + 1;
    let c = backward5_spec(n);
    lemma_fundamental_div_mod(n, 30);
    lemma_forward5_of_turn(t, k);
    lemma_backward5_of_turn(t, k);
    lemma_backward5_monotonic(n, 30 * t + residue30(k));
    if k == 0 {
        lemma_forward5_of_turn(t - 1, 7);
        lemma_backward5_of_turn(t - 1, 7);
    } else {
        lemma_forward5_of_turn(t, k - 1);
        lemma_backward5_of_turn(t, k - 1);
    }
    let below_value = forward5_spec(above - 1);
    assert(below_value <= n <= forward5_spec(above));
    if below_value >= 0 {
        lemma_backward5_monotonic(below_value, n);
    } else {
        lemma_backward5_monotonic(0, n);
        assert(backward5_spec(0) == 0);
    }
    assert(above - 1 <= c <= above);
    assert(forward5_spec(above) == n ==> c == above);
    lemma_fundamental_div_mod(c - 1, 8);
}

/// From one index to the next the wheel over 2, 3 and 5 moves by the gap of
/// its position in the turn.
pub proof fn lemma_wheel30_gap(idx: int)
    ensures
        forward5_spec(idx + 1) == forward5_spec(idx) + gap30((idx - 1) % 8),
{
    let q = (idx - 1) / 8;
    let k = (idx - 1) % 8;
    lemma_fundamental_div_mod(idx - 1, 8);
    lemma_forward5_of_turn(q, k);
    if k == 7 {
        lemma_forward5_of_turn(q + 1, 0);
    } else {
        lemma_forward5_of_turn(q, k + 1);
    }
}

fn floor_index(n: u64) -> (c: u64)
    ensures
        c == floor_index_spec(n as int),
{
    proof {
        lemma_floor_index(n as int);
    }
    let c = wheel30_index(n);
    if c == 0 {
        return 0;
    }
    let turns: u64 = (c - 1) / 8;
    let k: u64 = (c - 1) % 8;
    if wheel30_residue(k) <= n - 30 * turns {
        c
    } else {
        c - 1
    }
}

/// The least number from `x` on that is coprime to 30, and its position in
/// the turn of the wheel.
fn wheel30_ceil(x: u64) -> (r: (u64, usize))
    requires
        x <= u64::MAX - 30,
    ensures
        r.0 >= x,
        coprime30(r.0 as int),
        forall|y: int| x <= y < r.0 ==> !coprime30(y),
        r.1 < 8,
        r.1 == (backward5_spec(r.0 as int) - 1) % 8,
{
    let turns: u64 = x / 30;
    let rest: u64 = x % 30;
    let k: usize = if rest <= 1 {
        0
    } else if rest <= 7 {
        1
    } else if rest <= 11 {
        2
    } else if rest <= 13 {
        3
    } else if rest <= 17 {
        4
    } else if rest <= 19 {
        5
    } else if rest <= 23 {
        6
    } else {
        7
    };
    proof {
        let t = turns as int;
        let idx = 8 * t + k + 1;
        let m = 30 * t + residue30(k as int);
        assert(k == position30(rest as int));
        lemma_forward5_of_turn(t, k as int);
        lemma_backward5_of_turn(t, k as int);
        lemma_turn_is_coprime30(t, k as int);
        lemma_fundamental_div_mod_converse(8 * t + k, 8, t, k as int);
        if k == 0 {
            lemma_forward5_of_turn(t - 1, 7);
        } else {
            lemma_forward5_of_turn(t, k - 1);
        }
        assert(forward5_spec(idx - 1) < x);
        assert forall|y: int| x <= y < m implies !coprime30(y) by {
            lemma_wheel30_no_gap(idx - 1, y);
        }
    }
    (30 * turns + wheel30_residue(k as u64), k)
}

/// The additive steps that carry a multiple of `p` to the next multiple whose
/// other factor is coprime to 30, one step for each position in the turn.
fn wheel30_steps(p: u64) -> (steps: [u64; 8])
    requires
        p <= u32::MAX,
    ensures
        forall|k: int| 0 <= k < 8 ==> #[trigger] steps[k] == p * gap30(k),
{
    let double: u64 = 2 * p;
    let fourfold: u64 = 4 * p;
    let sixfold: u64 = 6 * p;
    [sixfold, fourfold, double, fourfold, double, fourfold, sixfold, double]
}

/// A multiple of `p` that is coprime to 30 and lies from `p` times one wheel
/// value up to, but not at, `p` times the next wheel value is `p` times the
/// first.
proof fn lemma_multiple_in_step(p: int, j: int, v: int)
    requires
        p > 0,
        j >= 1,
        coprime30(v),
        divides(p, v),
        p * forward5_spec(j) <= v < p * forward5_spec(j + 1),
    ensures
        v == p * forward5_spec(j),
{
    let m = forward5_spec(j);
    let next = forward5_spec(j + 1);
    let mv = v / p;
    lemma_divides_quotient(p, v);
    lemma_coprime30_product(p, mv);
    lemma_mul_is_commutative(p, mv);
    lemma_mul_is_commutative(p, m);
    lemma_mul_is_commutative(p, next);
    lemma_mul_strict_inequality_converse(mv, next, p);
    if mv < m {
        lemma_mul_strict_inequality(mv, m, p);
    }
    if m < mv {
        lemma_wheel30_no_gap(j, mv);
    }
}

/// A multiple `v` of `p` that lies above `low` and is at least `p * p` is `p`
/// times a number that is at least `p` and above `low / p`.
proof fn lemma_multiplier_floor(p: int, low: int, v: int)
    requires
        p > 0,
        low >= 0,
        divides(p, v),
        v > low,
        p * p <= v,
    ensures
        v == p * (v / p),
        v / p >= p,
        v / p >= low / p + 1,
{
    let mv = v / p;
    lemma_divides_quotient(p, v);
    lemma_mul_is_commutative(p, mv);
    if mv < p {
        lemma_mul_strict_inequality(mv, p, p);
    }
    if mv <= low / p {
        lemma_mul_inequality(mv, low / p, p);
        lemma_mul_is_commutative(p, low / p);
        lemma_fundamental_div_mod(low, p);
    }
}

/// `m` is coprime to 30 and stands at position `k` of its turn of the wheel.
#[verifier::opaque]
spec fn at_position(m: int, k: int) -> bool {
    coprime30(m) && m >= 1 && 0 <= k < 8 && k == (backward5_spec(m) - 1) % 8
}

/// The bitmap of one window: which numbers of the window were struck out.
pub struct CompositeBitmap {
    low: u64,
    high: u64,
    offset: u64,
    cells: Vec<bool>,
}

impl CompositeBitmap {
    /// The window's lower end, which it leaves out.
    pub closed spec fn low_bound(&self) -> int {
        self.low as int
    }

    /// The window's upper end, which it takes in.
    pub closed spec fn high_bound(&self) -> int {
        self.high as int
    }

    /// The bitmap is laid out for its window: the cells start with the turn
    /// of the wheel that `low` lies in and end with the last number coprime
    /// to 30 up to `high`.
    pub closed spec fn wf(&self) -> bool {
        &&& self.low <= self.high
        &&& self.offset == 8 * (self.low / 30)
        &&& self.cells.len() == cell_count(self.low as int, self.high as int)
    }

    /// `v` has a cell: it lies in the window and is coprime to 30.
    pub open spec fn covers(&self, v: int) -> bool {
        self.low_bound() < v <= self.high_bound() && coprime30(v)
    }

    /// The cell of `v` is set.
    pub closed spec fn marked(&self, v: int) -> bool {
        self.cells@[backward5_spec(v) - self.offset]
    }

    /// `self` is what striking out the multiples of `p` makes of `before`:
    /// the window is the same, and a number is struck out exactly when it
    /// was before or is a multiple of `p` from `p * p` on.
    pub open spec fn is_marking_of(&self, before: Self, p: int) -> bool {
        &&& self.wf()
        &&& self.low_bound() == before.low_bound()
        &&& self.high_bound() == before.high_bound()
        &&& forall|v: int|
            before.covers(v) ==> (#[trigger] self.marked(v) <==> before.marked(v) || (divides(
                p,
                v,
            ) && p * p <= v))
    }

    /// The numbers of the window whose cell is still clear, in ascending
    /// order.
    pub open spec fn survivors(&self) -> Seq<u64> {
        select_between(
            self.low_bound(),
            self.high_bound(),
            |v: int| coprime30(v) && !self.marked(v),
        )
    }

    /// A number that the bitmap covers has its cell behind the first and
    /// inside the bitmap, and the cell is its own.
    proof fn lemma_cell_of(&self, v: int)
        requires
            self.wf(),
            self.covers(v),
        ensures
            1 <= backward5_spec(v) - self.offset < self.cells.len(),
            forward5_spec(backward5_spec(v)) == v,
    {
        lemma_wheel30_value_round_trip(v);
        lemma_floor_index(self.high as int);
        let idx = backward5_spec(v);
        let last = floor_index_spec(self.high as int);
        if idx > last {
            lemma_wheel30_increasing(last, idx - 1);
            if last + 1 < idx {
                lemma_wheel30_increasing(last + 1, idx);
            }
        }
        if idx <= self.offset {
            if idx < self.offset {
                lemma_wheel30_increasing(idx, self.offset as int);
            }
        }
    }

    /// The window's lower end.
    pub fn low(&self) -> (low: u64)
        ensures
            low == self.low_bound(),
    {
        self.low
    }

    /// The window's upper end.
    pub fn high(&self) -> (high: u64)
        ensures
            high == self.high_bound(),
    {
        self.high
    }

    /// A bitmap for the window `(low, high]` with every cell clear.
    pub fn new(low: u64, high: u64) -> (bitmap: CompositeBitmap)
        requires
            low <= high,
            cell_count(low as int, high as int) <= usize::MAX,
        ensures
            bitmap.wf(),
            bitmap.low_bound() == low,
            bitmap.high_bound() == high,
            forall|v: int| bitmap.covers(v) ==> !#[trigger] bitmap.marked(v),
    {
        let offset: u64 = 8 * (low / 30);
        let top = floor_index(high);
        proof {
            lemma_floor_index(high as int);
            lemma_floor_index(low as int);
            if floor_index_spec(high as int) < floor_index_spec(low as int) {
                lemma_wheel30_increasing(
                    floor_index_spec(high as int) + 1,
                    floor_index_spec(low as int) + 1,
                );
            }
        }
        let len: usize = (top - offset + 1) as usize;
        let cells: Vec<bool> = vec![false; len];
        let bitmap = CompositeBitmap { low, high, offset, cells };
        proof {
            assert forall|v: int| bitmap.covers(v) implies !#[trigger] bitmap.marked(v) by {
                bitmap.lemma_cell_of(v);
            }
        }
        bitmap
    }

    /// Whether `v` was struck out.
    pub fn is_marked(&self, v: u64) -> (marked: bool)
        requires
            self.wf(),
            self.covers(v as int),
        ensures
            marked == self.marked(v as int),
    {
        proof {
            self.lemma_cell_of(v as int);
        }
        let idx = wheel30_index(v);
        self.cells[(idx - self.offset) as usize]
    }

    /// Of the numbers that `start` covers, `self` has exactly those struck
    /// out that `start` has struck out or that are multiples of `p` from
    /// `p * p` on and below `bound`.
    #[verifier::opaque]
    spec fn struck_below(self, start: Self, p: int, bound: int) -> bool {
        forall|v: int|
            start.covers(v) ==> (#[trigger] self.marked(v) <==> start.marked(v) || (divides(p, v)
                && p * p <= v && v < bound))
    }

    /// Where the walk over the multiples of `p` stands: its multiple is
    /// coprime to 30, its cell lies behind the first, and the cell lies
    /// inside the bitmap exactly when the multiple lies inside the window.
    proof fn lemma_walk_position(&self, p: int, m: int, k: int)
        requires
            self.wf(),
            coprime30(p),
            at_position(m, k),
            p * m > self.low,
        ensures
            backward5_spec(p * m) - self.offset >= 1,
            backward5_spec(p * m) - self.offset < self.cells.len() <==> p * m <= self.high,
    {
        reveal(at_position);
        let i = p * m;
        let idx = backward5_spec(i);
        let last = floor_index_spec(self.high as int);
        lemma_coprime30_product(p, m);
        lemma_wheel30_value_round_trip(i);
        lemma_backward5_monotonic(30 * (self.low as int / 30) + 1, i);
        lemma_floor_index(self.high as int);
        if last + 1 < idx {
            lemma_wheel30_increasing(last + 1, idx);
        }
        if idx < last {
            lemma_wheel30_increasing(idx, last);
        }
    }

    /// One step of the walk over the multiples of `p`: with the cell of the
    /// multiple `p * m` set, every multiple below the one of the next wheel
    /// value is struck out, and nothing else is newly.
    proof fn lemma_walk_step(self, before: Self, start: Self, p: int, m: int, k: int)
        requires
            before.wf(),
            start.wf(),
            self.low == before.low == start.low,
            self.high == before.high == start.high,
            self.offset == before.offset == start.offset,
            p >= 7,
            coprime30(p),
            m >= p,
            at_position(m, k),
            before.low < p * m <= before.high,
            self.cells@ == before.cells@.update(backward5_spec(p * m) - before.offset, true),
            before.struck_below(start, p, p * m),
        ensures
            self.wf(),
            0 <= k < 8,
            at_position(
                m + gap30(k),
                if k == 7 {
                    0
                } else {
                    k + 1
                },
            ),
            p * (m + gap30(k)) == p * m + p * gap30(k),
            p * gap30(k) > 0,
            self.struck_below(start, p, p * (m + gap30(k))),
    {
        reveal(at_position);
        reveal(CompositeBitmap::struck_below);
        let i = p * m;
        let j = backward5_spec(m);
        lemma_wheel30_value_round_trip(m);
        lemma_wheel30_gap(j);
        lemma_wheel30_index_round_trip(j + 1);
        lemma_mul_is_distributive_add(p, m, gap30(k));
        lemma_divides_multiple(p, m);
        lemma_mul_inequality(p, m, p);
        lemma_mul_is_commutative(p, m);
        lemma_mul_strict_inequality(0, gap30(k), p);
        lemma_mul_is_commutative(p, gap30(k));
        before.lemma_walk_position(p, m, k);
        lemma_coprime30_product(p, m);
        before.lemma_cell_of(i);
        assert forall|v: int| start.covers(v) implies (#[trigger] self.marked(v) <==> start.marked(
            v,
        ) || (divides(p, v) && p * p <= v && v < p * (m + gap30(k)))) by {
            before.lemma_cell_of(v);
            assert(before.marked(v) <==> start.marked(v) || (divides(p, v) && p * p <= v && v
                < i));
            if v != i {
                assert(self.marked(v) == before.marked(v));
                if divides(p, v) && i <= v < p * forward5_spec(j + 1) {
                    lemma_multiple_in_step(p, j, v);
                }
            }
        }
    }

    /// Before the walk over the multiples of `p` sets a cell: the multiples
    /// that it will not meet, below `p` times the first wheel value from
    /// both `p` and the window's lower end on, are not covered.
    proof fn lemma_walk_start(&self, p: int, multiplier: int, position: int)
        requires
            self.wf(),
            p >= 7,
            coprime30(p),
            multiplier >= p,
            multiplier >= self.low as int / p + 1,
            coprime30(multiplier),
            position == (backward5_spec(multiplier) - 1) % 8,
            forall|y: int|
                (if self.low as int / p + 1 < p {
                    p
                } else {
                    self.low as int / p + 1
                }) <= y < multiplier ==> !coprime30(y),
        ensures
            p * multiplier > self.low,
            at_position(multiplier, position),
            self.struck_below(*self, p, p * multiplier),
    {
        reveal(at_position);
        reveal(CompositeBitmap::struck_below);
        let quotient = self.low as int / p;
        let rest = self.low as int % p;
        lemma_fundamental_div_mod(self.low as int, p);
        assert(p * multiplier > p * quotient + rest) by (nonlinear_arith)
            requires
                multiplier >= quotient + 1,
                0 <= rest < p,
        ;
        assert forall|v: int|
            #![trigger divides(p, v)]
            self.covers(v) && divides(p, v) && p * p <= v implies v >= p * multiplier by {
            lemma_multiplier_floor(p, self.low as int, v);
            lemma_coprime30_product(p, v / p);
            lemma_mul_inequality(multiplier, v / p, p);
            lemma_mul_is_commutative(p, multiplier);
            lemma_mul_is_commutative(p, v / p);
        }
    }

    /// Once the walk has passed the window's upper end, every multiple in
    /// the window is struck out.
    proof fn lemma_walk_done(self, start: Self, p: int, bound: int)
        requires
            self.struck_below(start, p, bound),
            start.high < bound,
        ensures
            forall|v: int|
                start.covers(v) ==> (#[trigger] self.marked(v) <==> start.marked(v) || (divides(
                    p,
                    v,
                ) && p * p <= v)),
    {
        reveal(CompositeBitmap::struck_below);
    }

    /// Strikes out the multiples of `p` in the window, from `p * p` on.
    ///
    /// The walk goes from one multiple to the next by adding a step of a
    /// fixed table of eight, so that it only meets multiples coprime to 30,
    /// and ends when the compressed index leaves the bitmap.
    pub fn mark_multiples(&mut self, p: u64)
        requires
            old(self).wf(),
            p >= 7,
            coprime30(p as int),
        ensures
            final(self).is_marking_of(*old(self), p as int),
    {
        let square = p.checked_mul(p);
        if square.is_none() || square.unwrap() > self.high {
            return ;
        }
        assert(p <= u32::MAX) by (nonlinear_arith)
            requires
                p * p <= u64::MAX,
        ;
        proof {
            lemma_div_is_ordered_by_denominator(self.low as int, 7, p as int);
        }
        let first: u64 = self.low / p + 1;
        let from: u64 = if first < p {
            p
        } else {
            first
        };
        let (multiplier, position) = wheel30_ceil(from);
        proof {
            self.lemma_walk_start(p as int, multiplier as int, position as int);
        }
        let start = p.checked_mul(multiplier);
        if start.is_none() {
            proof {
                self.lemma_walk_done(*self, p as int, p * multiplier);
            }
            return ;
        }
        let steps = wheel30_steps(p);
        let len = self.cells.len();
        let high = self.high;
        let mut i: u64 = start.unwrap();
        let mut k: usize = position;
        let ghost mut m: int = multiplier as int;
        let ghost mut bound: int = i as int;
        loop
            invariant_except_break
                k < 8,
                at_position(m, k as int),
                m >= p,
                i == p * m,
                i > self.low,
                self.struck_below(*old(self), p as int, i as int),
            invariant
                self.wf(),
                old(self).wf(),
                self.low == old(self).low,
                self.high == old(self).high == high,
                self.offset == old(self).offset,
                self.cells.len() == len,
                p >= 7,
                coprime30(p as int),
                forall|s: int| 0 <= s < 8 ==> #[trigger] steps[s] == p * gap30(s),
            ensures
                self.struck_below(*old(self), p as int, bound),
                self.high < bound,
            decreases
                    (if i <= high {
                        high + 1 - i
                    } else {
                        0
                    }),
        {
            proof {
                self.lemma_walk_position(p as int, m, k as int);
            }
            let idx = wheel30_index(i);
            if idx - self.offset >= len as u64 {
                proof {
                    bound = i as int;
                }
                break ;
            }
            let cell: usize = (idx - self.offset) as usize;
            let ghost before = *self;
            self.cells[cell] = true;
            proof {
                self.lemma_walk_step(before, *old(self), p as int, m, k as int);
                assert(steps[k as int] == p * gap30(k as int));
                assert(i <= self.high);
            }
            let next = i.checked_add(steps[k]);
            proof {
                m = m + gap30(k as int);
            }
            if next.is_none() {
                proof {
                    bound = p * m;
                }
                break ;
            }
            i = next.unwrap();
            k = if k == 7 {
                0
            } else {
                k + 1
            };
        }
        proof {
            self.lemma_walk_done(*old(self), p as int, bound);
        }
    }

    /// Appends the window's survivors to `primes`, in ascending order.
    pub fn harvest(&self, primes: &mut Vec<u64>)
        requires
            self.wf(),
        ensures
            final(primes)@ == old(primes)@ + self.survivors(),
    {
        let ghost keep = |v: int| coprime30(v) && !self.marked(v);
        let len = self.cells.len();
        let mut cell: usize = 1;
        assert(old(primes)@ + select_between(self.low as int, self.low as int, keep) =~= old(
            primes,
        )@);
        while cell < len
            invariant
                self.wf(),
                len == self.cells.len(),
                1 <= cell <= len,
                keep == (|v: int| coprime30(v) && !self.marked(v)),
                primes@ == old(primes)@ + select_between(
                    self.low as int,
                    if forward5_spec(self.offset + cell - 1) < self.low {
                        self.low as int
                    } else {
                        forward5_spec(self.offset + cell - 1)
                    },
                    keep,
                ),
            decreases len - cell,
        {
            let ghost reached: int = if forward5_spec(self.offset + cell - 1) < self.low {
                self.low as int
            } else {
                forward5_spec(self.offset + cell - 1)
            };
            proof {
                lemma_floor_index(self.high as int);
                lemma_wheel30_index_round_trip(self.offset + cell);
                if self.offset + cell < floor_index_spec(self.high as int) {
                    lemma_wheel30_increasing(
                        self.offset + cell,
                        floor_index_spec(self.high as int),
                    );
                }
                lemma_wheel30_increasing(self.offset + cell - 1, self.offset + cell);
            }
            let v = wheel30_value(self.offset + cell as u64);
            if v > self.low {
                proof {
                    assert forall|x: int| reached < x <= v - 1 implies !#[trigger] keep(x) by {
                        lemma_wheel30_no_gap(self.offset + cell - 1, x);
                    }
                    lemma_select_skip(self.low as int, reached, v - 1, keep);
                    assert(keep(v as int) == !self.cells[cell as int]);
                }
                if !self.cells[cell] {
                    primes.push(v);
                    assert(primes@ =~= old(primes)@ + select_between(
                        self.low as int,
                        v as int,
                        keep,
                    ));
                }
            }
            cell += 1;
        }
        proof {
            let reached: int = if forward5_spec(self.offset + len - 1) < self.low {
                self.low as int
            } else {
                forward5_spec(self.offset + len - 1)
            };
            lemma_floor_index(self.high as int);
            assert forall|x: int| reached < x <= self.high implies !#[trigger] keep(x) by {
                lemma_wheel30_no_gap(self.offset + len - 1, x);
            }
            lemma_select_skip(self.low as int, reached, self.high as int, keep);
        }
    }
}

/// Striking out the multiples of a number twice is striking them out once.
pub proof fn lemma_marking_is_idempotent(
    start: CompositeBitmap,
    once: CompositeBitmap,
    twice: CompositeBitmap,
    p: int,
)
    requires
        once.is_marking_of(start, p),
        twice.is_marking_of(once, p),
    ensures
        forall|v: int| start.covers(v) ==> #[trigger] twice.marked(v) == once.marked(v),
        twice.survivors() == once.survivors(),
{
    assert forall|v: int| start.covers(v) implies #[trigger] twice.marked(v) == once.marked(
        v,
    ) by {
        assert(once.covers(v));
    }
    lemma_select_congruent(
        start.low_bound(),
        start.high_bound(),
        |v: int| coprime30(v) && !twice.marked(v),
        |v: int| coprime30(v) && !once.marked(v),
    );
}

/// The order in which the multiples of two numbers are struck out makes no
/// difference to what is struck out in the end.
pub proof fn lemma_marking_order_is_immaterial(
    start: CompositeBitmap,
    after_p: CompositeBitmap,
    after_p_q: CompositeBitmap,
    after_q: CompositeBitmap,
    after_q_p: CompositeBitmap,
    p: int,
    q: int,
)
    requires
        after_p.is_marking_of(start, p),
        after_p_q.is_marking_of(after_p, q),
        after_q.is_marking_of(start, q),
        after_q_p.is_marking_of(after_q, p),
    ensures
        forall|v: int| start.covers(v) ==> #[trigger] after_p_q.marked(v) == after_q_p.marked(v),
        after_p_q.survivors() == after_q_p.survivors(),
{
    assert forall|v: int| start.covers(v) implies #[trigger] after_p_q.marked(v)
        == after_q_p.marked(v) by {
        assert(after_p.covers(v));
        assert(after_q.covers(v));
        assert(after_p.marked(v) <==> start.marked(v) || (divides(p, v) && p * p <= v));
        assert(after_q.marked(v) <==> start.marked(v) || (divides(q, v) && q * q <= v));
    }
    lemma_select_congruent(
        start.low_bound(),
        start.high_bound(),
        |v: int| coprime30(v) && !after_p_q.marked(v),
        |v: int| coprime30(v) && !after_q_p.marked(v),
    );
}

} // verus!
