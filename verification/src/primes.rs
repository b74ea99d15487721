//! What a prime is, and the sequences of primes that the sieve is held to.
//!
//! Primality is defined by trial division, with no reference to any sieve.
//! The sequence of the primes of a range is defined by walking the range
//! upwards and keeping what is prime; the lemmas of this module derive from
//! that definition everything the sieve's proofs need.

use vstd::prelude::*;
use vstd::arithmetic::div_mod::{
    lemma_fundamental_div_mod,
    lemma_mod_multiples_basic,
    lemma_mod_self_0,
    lemma_mul_mod_noop_general,
};
use vstd::arithmetic::mul::{
    lemma_mul_inequality,
    lemma_mul_is_associative,
    lemma_mul_is_commutative,
    lemma_mul_strict_inequality,
};
use crate::wheel::coprime30;

verus! {

/// `d` divides `n`.
pub open spec fn divides(d: int, n: int) -> bool {
    n % d == 0
}

/// `n` is prime: at least 2, and no smaller number from 2 on divides it.
pub open spec fn is_prime(n: int) -> bool {
    n >= 2 && forall|d: int| 2 <= d < n ==> !#[trigger] divides(d, n)
}

/// The numbers `v` with `low < v <= high` that `keep` holds of, in ascending
/// order.
pub open spec fn select_between(low: int, high: int, keep: spec_fn(int) -> bool) -> Seq<u64>
    decreases high - low,
{
    if high <= low {
        Seq::empty()
    } else if keep(high) {
        select_between(low, high - 1, keep).push(high as u64)
    } else {
        select_between(low, high - 1, keep)
    }
}

/// The primes `p` with `low < p <= high`, in ascending order.
pub open spec fn primes_between(low: int, high: int) -> Seq<u64> {
    select_between(low, high, |v: int| is_prime(v))
}

/// The primes up to and including `n`, in ascending order.
pub open spec fn primes_upto(n: int) -> Seq<u64> {
    primes_between(0, n)
}

/// Two predicates that agree on a range select the same numbers from it.
pub proof fn lemma_select_congruent(
    low: int,
    high: int,
    f: spec_fn(int) -> bool,
    g: spec_fn(int) -> bool,
)
    requires
        forall|v: int| low < v <= high ==> #[trigger] f(v) == g(v),
    ensures
        select_between(low, high, f) == select_between(low, high, g),
    decreases high - low,
{
    if high > low {
        lemma_select_congruent(low, high - 1, f, g);
        assert(f(high) == g(high));
    }
}

/// Raising the upper end of a range over numbers that the predicate rejects
/// selects nothing new.
pub proof fn lemma_select_skip(low: int, from: int, to: int, keep: spec_fn(int) -> bool)
    requires
        low <= from <= to,
        forall|v: int| from < v <= to ==> !#[trigger] keep(v),
    ensures
        select_between(low, to, keep) == select_between(low, from, keep),
    decreases to - from,
{
    if to > from {
        lemma_select_skip(low, from, to - 1, keep);
        assert(!keep(to));
    }
}

/// A range selects what its lower part selects, followed by what its upper
/// part selects.
pub proof fn lemma_select_split(low: int, mid: int, high: int, keep: spec_fn(int) -> bool)
    requires
        low <= mid <= high,
    ensures
        select_between(low, high, keep) == select_between(low, mid, keep) + select_between(
            mid,
            high,
            keep,
        ),
    decreases high - mid,
{
    if high > mid {
        lemma_select_split(low, mid, high - 1, keep);
        let lower = select_between(low, mid, keep);
        let upper = select_between(mid, high - 1, keep);
        if keep(high) {
            assert((lower + upper).push(high as u64) =~= lower + upper.push(high as u64));
        }
    } else {
        assert(select_between(low, mid, keep) + Seq::<u64>::empty() =~= select_between(
            low,
            mid,
            keep,
        ));
    }
}

/// A range selects at most as many numbers as it holds.
pub proof fn lemma_select_len(low: int, high: int, keep: spec_fn(int) -> bool)
    requires
        low <= high,
    ensures
        select_between(low, high, keep).len() <= high - low,
    decreases high - low,
{
    if high > low {
        lemma_select_len(low, high - 1, keep);
    }
}

/// What a selection holds: numbers of the range that the predicate accepts,
/// in strictly ascending order, and every such number.
pub proof fn lemma_select_contents(low: int, high: int, keep: spec_fn(int) -> bool)
    requires
        0 <= low,
        high <= u64::MAX,
    ensures
        forall|i: int|
            0 <= i < select_between(low, high, keep).len() ==> {
                let v = #[trigger] select_between(low, high, keep)[i];
                low < v <= high && keep(v as int)
            },
        forall|i: int, j: int|
            0 <= i < j < select_between(low, high, keep).len() ==> select_between(
                low,
                high,
                keep,
            )[i] < select_between(low, high, keep)[j],
        forall|v: int|
            low < v <= high && #[trigger] keep(v) ==> select_between(low, high, keep).contains(
                v as u64,
            ),
    decreases high - low,
{
    let s = select_between(low, high, keep);
    if high > low {
        let rest = select_between(low, high - 1, keep);
        lemma_select_contents(low, high - 1, keep);
        assert forall|v: int| low < v <= high && #[trigger] keep(v) implies s.contains(
            v as u64,
        ) by {
            if v < high {
                let i = choose|i: int| 0 <= i < rest.len() && rest[i] == v as u64;
                assert(s[i] == v as u64);
            } else {
                assert(s[s.len() - 1] == v as u64);
            }
        }
    }
}

/// The primes up to `n` are exactly the primes up to `n`: every member of
/// the sequence is a prime no larger than `n`, every prime no larger than `n`
/// is a member, and the members stand in strictly ascending order.
pub proof fn lemma_primes_upto_contents(n: int)
    requires
        n <= u64::MAX,
    ensures
        forall|i: int|
            0 <= i < primes_upto(n).len() ==> {
                let p = #[trigger] primes_upto(n)[i];
                p <= n && is_prime(p as int)
            },
        forall|i: int, j: int|
            0 <= i < j < primes_upto(n).len() ==> primes_upto(n)[i] < primes_upto(n)[j],
        forall|p: int| p <= n && #[trigger] is_prime(p) ==> primes_upto(n).contains(p as u64),
{
    let keep = |v: int| is_prime(v);
    lemma_select_contents(0, n, keep);
    assert forall|p: int| p <= n && #[trigger] is_prime(p) implies primes_upto(n).contains(
        p as u64,
    ) by {
        assert(keep(p));
    }
}

/// The primes of a range are those of its lower part followed by those of
/// its upper part.
pub proof fn lemma_primes_split(low: int, mid: int, high: int)
    requires
        low <= mid <= high,
    ensures
        primes_between(low, high) == primes_between(low, mid) + primes_between(mid, high),
{
    lemma_select_split(low, mid, high, |v: int| is_prime(v));
}

/// A range holds at most as many primes as numbers.
pub proof fn lemma_primes_len(low: int, high: int)
    requires
        low <= high,
    ensures
        primes_between(low, high).len() <= high - low,
{
    lemma_select_len(low, high, |v: int| is_prime(v));
}

/// A positive number divides its multiples.
pub proof fn lemma_divides_multiple(d: int, m: int)
    requires
        d > 0,
    ensures
        divides(d, d * m),
{
    lemma_mod_multiples_basic(m, d);
    lemma_mul_is_commutative(d, m);
}

/// A number is its divisor times the quotient.
pub proof fn lemma_divides_quotient(d: int, v: int)
    requires
        d > 0,
        divides(d, v),
    ensures
        v == d * (v / d),
{
    lemma_fundamental_div_mod(v, d);
}

/// A divisor of a divisor is a divisor.
pub proof fn lemma_divides_transitive(a: int, b: int, c: int)
    requires
        a > 0,
        b > 0,
        divides(a, b),
        divides(b, c),
    ensures
        divides(a, c),
{
    lemma_divides_quotient(a, b);
    lemma_divides_quotient(b, c);
    lemma_mul_is_associative(a, b / a, c / b);
    lemma_divides_multiple(a, (b / a) * (c / b));
}

/// The least divisor of `v` that is at least `d`.
pub open spec fn least_divisor_from(v: int, d: int) -> int
    decreases v - d,
{
    if d >= v {
        v
    } else if divides(d, v) {
        d
    } else {
        least_divisor_from(v, d + 1)
    }
}

proof fn lemma_least_divisor_from(v: int, d: int)
    requires
        2 <= d <= v,
    ensures
        d <= least_divisor_from(v, d) <= v,
        divides(least_divisor_from(v, d), v),
        forall|e: int| d <= e < least_divisor_from(v, d) ==> !#[trigger] divides(e, v),
    decreases v - d,
{
    if d >= v {
        lemma_mod_self_0(v);
    } else if !divides(d, v) {
        lemma_least_divisor_from(v, d + 1);
    }
}

/// A number from 2 on that is not prime has a prime divisor whose square
/// does not exceed it.
pub proof fn lemma_composite_has_prime_factor(v: int) -> (q: int)
    requires
        v >= 2,
        !is_prime(v),
    ensures
        is_prime(q),
        divides(q, v),
        q * q <= v,
{
    let q = least_divisor_from(v, 2);
    lemma_least_divisor_from(v, 2);
    assert(q < v) by {
        if q == v {
            assert(is_prime(v));
        }
    }
    assert(is_prime(q)) by {
        assert forall|e: int| 2 <= e < q implies !#[trigger] divides(e, q) by {
            if divides(e, q) {
                lemma_divides_transitive(e, q, v);
            }
        }
    }
    let m = v / q;
    lemma_divides_quotient(q, v);
    assert(m >= q) by {
        if m < q {
            assert(m >= 2) by (nonlinear_arith)
                requires
                    v == q * m,
                    2 <= q < v,
            ;
            lemma_divides_multiple(m, q);
            lemma_mul_is_commutative(m, q);
            assert(divides(m, v));
        }
    }
    lemma_mul_inequality(q, m, q);
    lemma_mul_is_commutative(q, m);
    q
}

/// A multiple of `p` from `p * p` on is not prime.
pub proof fn lemma_multiple_is_composite(p: int, v: int)
    requires
        p >= 2,
        divides(p, v),
        p * p <= v,
    ensures
        !is_prime(v),
{
    lemma_mul_strict_inequality(1, p, p);
    assert(2 <= p < v);
}

/// A prime above 5 is coprime to 30.
pub proof fn lemma_prime_is_coprime30(p: int)
    requires
        is_prime(p),
        p > 5,
    ensures
        coprime30(p),
{
    assert(!divides(2, p));
    assert(!divides(3, p));
    assert(!divides(5, p));
}

/// A prime that divides a number coprime to 30 is at least 7.
pub proof fn lemma_prime_factor_of_coprime30(q: int, v: int)
    requires
        is_prime(q),
        divides(q, v),
        coprime30(v),
    ensures
        q >= 7,
{
    if q == 4 {
        assert(divides(2, 4));
    }
    if q == 6 {
        assert(divides(2, 6));
    }
}

/// A product is a multiple of 2, 3 or 5 exactly when a factor is.
pub proof fn lemma_coprime30_product(a: int, b: int)
    ensures
        coprime30(a * b) <==> coprime30(a) && coprime30(b),
{
    lemma_mul_mod_noop_general(a, b, 2);
    lemma_mul_mod_noop_general(a, b, 3);
    lemma_mul_mod_noop_general(a, b, 5);
    lemma_small_products(a % 2, b % 2, 2);
    lemma_small_products(a % 3, b % 3, 3);
    lemma_small_products(a % 5, b % 5, 5);
}

proof fn lemma_small_products(x: int, y: int, m: int)
    requires
        m == 2 || m == 3 || m == 5,
        0 <= x < m,
        0 <= y < m,
    ensures
        (x * y) % m == 0 <==> x == 0 || y == 0,
{
    if x == 0 {
        assert(x * y == 0) by (nonlinear_arith)
            requires
                x == 0,
        ;
    } else if x == 1 {
        assert(x * y == y) by (nonlinear_arith)
            requires
                x == 1,
        ;
    } else if x == 2 {
        assert(x * y == 2 * y) by (nonlinear_arith)
            requires
                x == 2,
        ;
    } else if x == 3 {
        assert(x * y == 3 * y) by (nonlinear_arith)
            requires
                x == 3,
        ;
    } else {
        assert(x * y == 4 * y) by (nonlinear_arith)
            requires
                x == 4,
        ;
    }
}

} // verus!
