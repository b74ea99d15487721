//! The segmented sieve: all primes up to a bound with a working set that the
//! window width bounds, not the bound itself.
//!
//! A first window `[0, width]` is sieved on its own and yields the base
//! primes. Windows of the same width then slide over the rest, each with a
//! fresh bitmap struck with the base primes, the last one clipped to the
//! bound. [`generate_primes`] and [`count_primes`] pick the width themselves.

use vstd::prelude::*;
use crate::bitmap::{cell_count, lemma_floor_index};
use crate::primes::{
    is_prime,
    lemma_primes_len,
    lemma_primes_split,
    lemma_primes_upto_contents,
    primes_upto,
};
use crate::sieve::{is_base_for, sieve_of_eratosthenes, sieve_window};

verus! {

/// The narrowest window that [`window_width_for`] picks: the bound up to
/// which one bitmap is held to fit the memory budget.
pub const DEFAULT_WINDOW: u64 = 0xFFFF;

/// The primes up to `width` are the base for every window that ends at or
/// below a bound whose integer square root `width` reaches.
pub proof fn lemma_base_primes_suffice(width: int, low: int, high: int)
    requires
        0 <= width <= low <= high <= u64::MAX,
        high < (width + 1) * (width + 1),
    ensures
        is_base_for(primes_upto(low), high),
        is_base_for(primes_upto(width), high),
{
    lemma_primes_upto_contents(low);
    lemma_primes_upto_contents(width);
    assert forall|q: int| #[trigger] is_prime(q) && q * q <= high implies q <= width by {
        if q > width {
            assert((width + 1) * (width + 1) <= q * q) by (nonlinear_arith)
                requires
                    0 <= width + 1 <= q,
            ;
        }
    }
}

/// A window no wider than `width` needs no more cells than `width` allows
/// for, and those fit the machine's index type when `width` does.
pub proof fn lemma_window_fits(width: int, low: int, high: int)
    requires
        0 <= low <= high,
        high - low <= width <= usize::MAX,
    ensures
        cell_count(low, high) <= usize::MAX,
{
    lemma_floor_index(high);
}

/// The width that widening arrives at from `width` for the bound `n`: the
/// width is kept once its successor's square exceeds `n`, and is doubled,
/// plus one, otherwise, but not beyond 32 bits. From [`DEFAULT_WINDOW`] on
/// the widths are the powers of two less one.
pub open spec fn widened(n: int, width: int) -> int
    decreases 0xFFFF_FFFF - width,
{
    if width < 1 || width >= 0xFFFF_FFFF || (width + 1) * (width + 1) > n {
        width
    } else if width > 0x7FFF_FFFF {
        0xFFFF_FFFF
    } else {
        widened(n, 2 * width + 1)
    }
}

/// A window width for the bound `n`: [`DEFAULT_WINDOW`], widened until the
/// base primes of the first window reach the square root of `n`. It fits 32
/// bits whatever `n` is.
pub fn window_width_for(n: u64) -> (width: u64)
    ensures
        width == widened(n as int, DEFAULT_WINDOW as int),
        DEFAULT_WINDOW <= width <= u32::MAX,
        n < (width + 1) * (width + 1),
{
    let mut width: u64 = DEFAULT_WINDOW;
    loop
        invariant
            DEFAULT_WINDOW <= width <= u32::MAX,
            widened(n as int, width as int) == widened(n as int, DEFAULT_WINDOW as int),
        ensures
            n < (width + 1) * (width + 1),
            width == widened(n as int, DEFAULT_WINDOW as int),
        decreases u32::MAX - width,
    {
        if width >= 0xFFFF_FFFF {
            assert((width + 1) * (width + 1) == 0x1_0000_0000_0000_0000) by (nonlinear_arith)
                requires
                    width == 0xFFFF_FFFF,
            ;
            break ;
        }
        let next: u64 = width + 1;
        assert(next * next <= u64::MAX) by (nonlinear_arith)
            requires
                0 <= next <= 0xFFFF_FFFF,
        ;
        if next * next > n {
            break ;
        }
        width = if width > 0x7FFF_FFFF {
            0xFFFF_FFFF
        } else {
            2 * width + 1
        };
    }
    width
}

/// The upper end of the window that follows `low`: `width` further, or the
/// bound `n` where that comes first.
pub fn window_end(low: u64, width: u64, n: u64) -> (high: u64)
    requires
        low < n,
        width >= 1,
    ensures
        low < high <= n,
        high - low <= width,
        high == n || high == low + width,
{
    if n - low > width {
        low + width
    } else {
        n
    }
}

/// The primes up to `n`, in ascending order, by a sieve in windows of
/// `window_width`. Where `n` does not exceed the width, one window does it
/// all.
///
/// The width has to reach the integer square root of `n`: only then do the
/// primes of the first window strike out every composite further up.
pub fn generate_segmented(n: u64, window_width: u64) -> (primes: Vec<u64>)
    requires
        window_width <= usize::MAX,
        n < (window_width + 1) * (window_width + 1),
    ensures
        primes@ == primes_upto(n as int),
{
    if n <= window_width || window_width < 6 {
        assert(n <= usize::MAX) by (nonlinear_arith)
            requires
                n <= window_width || window_width < 6,
                window_width <= usize::MAX,
                n < (window_width + 1) * (window_width + 1),
                usize::MAX >= 0xFFFF_FFFF,
        ;
        return sieve_of_eratosthenes(n);
    }
    let mut primes = sieve_of_eratosthenes(window_width);
    let mut low: u64 = window_width;
    while low < n
        invariant
            6 <= window_width <= low <= n,
            window_width <= usize::MAX,
            n < (window_width + 1) * (window_width + 1),
            primes@ == primes_upto(low as int),
        decreases n - low,
    {
        let high = window_end(low, window_width, n);
        proof {
            assert(high < (window_width + 1) * (window_width + 1));
            lemma_base_primes_suffice(window_width as int, low as int, high as int);
            lemma_window_fits(window_width as int, low as int, high as int);
            lemma_primes_split(0, low as int, high as int);
        }
        let mut found = sieve_window(&primes, low, high);
        primes.append(&mut found);
        low = high;
    }
    primes
}

/// The number of primes up to `n`, by a sieve in windows of `window_width`
/// that keeps the primes of the first window only.
pub fn count_segmented(n: u64, window_width: u64) -> (count: u64)
    requires
        window_width <= usize::MAX,
        n < (window_width + 1) * (window_width + 1),
    ensures
        count == primes_upto(n as int).len(),
{
    if n <= window_width || window_width < 6 {
        assert(n <= usize::MAX) by (nonlinear_arith)
            requires
                n <= window_width || window_width < 6,
                window_width <= usize::MAX,
                n < (window_width + 1) * (window_width + 1),
                usize::MAX >= 0xFFFF_FFFF,
        ;
        let primes = sieve_of_eratosthenes(n);
        return primes.len() as u64;
    }
    let base = sieve_of_eratosthenes(window_width);
    let mut count: u64 = base.len() as u64;
    let mut low: u64 = window_width;
    while low < n
        invariant
            6 <= window_width <= low <= n,
            window_width <= usize::MAX,
            n < (window_width + 1) * (window_width + 1),
            base@ == primes_upto(window_width as int),
            count == primes_upto(low as int).len(),
        decreases n - low,
    {
        let high = window_end(low, window_width, n);
        proof {
            assert(high < (window_width + 1) * (window_width + 1));
            lemma_base_primes_suffice(window_width as int, low as int, high as int);
            lemma_window_fits(window_width as int, low as int, high as int);
            lemma_primes_split(0, low as int, high as int);
            lemma_primes_len(0, high as int);
        }
        let found = sieve_window(&base, low, high);
        count = count + found.len() as u64;
        low = high;
    }
    count
}

/// All primes `p` with `2 <= p <= n`, in ascending order; none where
/// `n < 2`.
pub fn generate_primes(n: u64) -> (primes: Vec<u64>)
    ensures
        primes@ == primes_upto(n as int),
{
    let width = window_width_for(n);
    generate_segmented(n, width)
}

/// The number of primes up to `n`. The primes are counted window by window
/// and not kept.
pub fn count_primes(n: u64) -> (count: u64)
    ensures
        count == primes_upto(n as int).len(),
{
    let width = window_width_for(n);
    count_segmented(n, width)
}

/// The generated sequence is exactly the primes by trial division: all of
/// its members are prime and at most `n`, every prime up to `n` is among
/// them, and they ascend strictly.
pub proof fn lemma_generate_matches_trial_division(n: u64, primes: Seq<u64>)
    requires
        primes == primes_upto(n as int),
    ensures
        forall|i: int| 0 <= i < primes.len() ==> is_prime(#[trigger] primes[i] as int) && primes[i] <= n,
        forall|p: int| #[trigger] is_prime(p) && p <= n ==> primes.contains(p as u64),
        forall|i: int, j: int| 0 <= i < j < primes.len() ==> primes[i] < primes[j],
{
    lemma_primes_upto_contents(n as int);
}

/// The count of primes up to `n` is the length of the generated sequence.
pub proof fn lemma_count_is_generated_length(n: u64, primes: Seq<u64>, count: u64)
    requires
        primes == primes_upto(n as int),
        count == primes_upto(n as int).len(),
    ensures
        count == primes.len(),
{
}

/// Two runs on the same bound give the same sequence: the result is a
/// function of the bound alone.
pub proof fn lemma_result_depends_on_bound_only(n: u64, first: Seq<u64>, second: Seq<u64>)
    requires
        first == primes_upto(n as int),
        second == primes_upto(n as int),
    ensures
        first == second,
{
}

/// A sieve in narrow windows and a sieve in one window that holds the whole
/// bound give the same sequence.
pub proof fn lemma_window_width_is_immaterial(
    n: u64,
    narrow: u64,
    wide: u64,
    in_windows: Seq<u64>,
    in_one: Seq<u64>,
)
    requires
        n < (narrow + 1) * (narrow + 1),
        n <= wide,
        in_windows == primes_upto(n as int),
        in_one == primes_upto(n as int),
    ensures
        in_windows == in_one,
{
}

} // verus!
