//! Wheel index arithmetic.
//!
//! A wheel skips the multiples of a few small primes. The numbers it keeps are
//! its *admissible* values; their *compressed index* is their 1-based rank
//! among the admissible values, so that a bitmap over indices wastes no cell
//! on a number that is trivially composite. Index 0 stands for no value.
//!
//! Two wheels are used: the wheel over 2 and 3 (period 6, two values per
//! period) through [`forward`] and [`backward`], and the wheel over 2, 3 and 5
//! (period 30, eight values per period) through [`forward5`] and
//! [`backward5`]. [`get_wheel5_increment`] steps through the indices of the
//! first wheel while skipping the multiples of 5, which enumerates the values
//! of the second.

use vstd::prelude::*;
use vstd::arithmetic::div_mod::{
    lemma_div_is_ordered,
    lemma_div_multiples_vanish_fancy,
    lemma_fundamental_div_mod,
    lemma_fundamental_div_mod_converse,
    lemma_mod_multiples_vanish,
};
use crate::primes::{lemma_select_skip, select_between};

verus! {

/// `v` is divisible by neither 2 nor 3.
pub open spec fn coprime6(v: int) -> bool {
    v % 2 != 0 && v % 3 != 0
}

/// `v` is divisible by none of 2, 3 and 5.
pub open spec fn coprime30(v: int) -> bool {
    v % 2 != 0 && v % 3 != 0 && v % 5 != 0
}

/// The value at index `p` of the wheel over 2 and 3:
/// 1, 5, 7, 11, 13, ... for `p` = 1, 2, 3, 4, 5, ...
pub open spec fn forward_spec(p: int) -> int {
    3 * p - 1 - p % 2
}

/// The index of `n` in the wheel over 2 and 3.
pub open spec fn backward_spec(n: int) -> int {
    (n - n % 2) / 3 + 1
}

/// The `k`-th residue modulo 30 that is coprime to 30, for `k` in `0..8`.
pub open spec fn residue30(k: int) -> int {
    if k == 0 {
        1
    } else if k == 1 {
        7
    } else if k == 2 {
        11
    } else if k == 3 {
        13
    } else if k == 4 {
        17
    } else if k == 5 {
        19
    } else if k == 6 {
        23
    } else {
        29
    }
}

/// The value at index `idx` of the wheel over 2, 3 and 5:
/// 1, 7, 11, 13, 17, 19, 23, 29, 31, ... for `idx` = 1, 2, 3, ...
pub open spec fn forward5_spec(idx: int) -> int {
    30 * ((idx - 1) / 8) + residue30((idx - 1) % 8)
}

/// The index of `n` in the wheel over 2, 3 and 5.
pub open spec fn backward5_spec(n: int) -> int {
    (((4 * (n + 1)) / 5 + 1) * 2 / 3 + 1) / 2
}

/// The rolling mask of [`get_wheel5_increment`] when the cursor stands at
/// index `o` of the wheel over 2 and 3. Bit `k` of the mask is set when the
/// value at index `o + 1 + k` is a multiple of 5; the pattern repeats every
/// ten indices.
#[verifier::opaque]
pub open spec fn wheel5_mask(o: int) -> u32 {
    let r = o % 10;
    if r == 0 {
        0b01_0000_0010
    } else if r == 1 {
        0b00_1000_0001
    } else if r == 2 {
        0b10_0100_0000
    } else if r == 3 {
        0b01_0010_0000
    } else if r == 4 {
        0b00_1001_0000
    } else if r == 5 {
        0b00_0100_1000
    } else if r == 6 {
        0b00_0010_0100
    } else if r == 7 {
        0b00_0001_0010
    } else if r == 8 {
        0b00_0000_1001
    } else {
        0b10_0000_0100
    }
}

/// The mask with which a cursor starts at index 1 (the value 1).
pub const WHEEL5_START: u32 = 0b00_1000_0001;

/// The first index after `o` of the wheel over 2 and 3 whose value is not a
/// multiple of 5.
pub open spec fn next_wheel5_index(o: int) -> int {
    if forward_spec(o + 1) % 5 == 0 {
        o + 2
    } else {
        o + 1
    }
}

/// Compressed index of `n` in the wheel over 2 and 3.
///
/// For an `n` that is coprime to 6 this is its rank among such numbers; for
/// any other `n` it is the index of a neighbouring admissible value.
pub fn backward(n: u64) -> (r: u64)
    ensures
        r == backward_spec(n as int),
{
    assert(!(!n | 1) == n - n % 2) by (bit_vector);
    ((!(!n | 1)) / 3) + 1
}

/// The value at index `p` of the wheel over 2 and 3; the inverse of
/// [`backward`] on admissible values.
pub fn forward(p: usize) -> (r: u64)
    requires
        p >= 1,
        forward_spec(p as int) <= u64::MAX,
    ensures
        r == forward_spec(p as int),
{
    wheel6_value(p as u64)
}

/// [`forward`] on a 64-bit index.
pub(crate) fn wheel6_value(p: u64) -> (r: u64)
    requires
        p >= 1,
        forward_spec(p as int) <= u64::MAX,
    ensures
        r == forward_spec(p as int),
{
    assert(p < 0x8000_0000_0000_0000);
    assert((p << 1) == 2 * p) by (bit_vector)
        requires
            p < 0x8000_0000_0000_0000,
    ;
    assert(!(!p | 1) == p - p % 2) by (bit_vector);
    (p << 1) + (!(!p | 1)) - 1
}

/// Compressed index of `n` in the wheel over 2, 3 and 5.
///
/// For an `n` that is coprime to 30 this is its rank among such numbers; for
/// any other `n` it is the index of a neighbouring admissible value.
pub fn backward5(n: u64) -> (r: usize)
    requires
        backward5_spec(n as int) <= usize::MAX,
    ensures
        r == backward5_spec(n as int),
{
    wheel30_index(n) as usize
}

/// [`backward5`] with a 64-bit result, which every `n` has.
pub(crate) fn wheel30_index(n: u64) -> (r: u64)
    ensures
        r == backward5_spec(n as int),
{
    let wide: u128 = n as u128 + 1;
    assert((wide << 2) == 4 * wide) by (bit_vector)
        requires
            wide <= 0x1_0000_0000_0000_0000,
    ;
    let fifths: u128 = (wide << 2) / 5 + 1;
    assert((fifths << 1) == 2 * fifths) by (bit_vector)
        requires
            fifths <= 0x1_0000_0000_0000_0000,
    ;
    let thirds: u128 = (fifths << 1) / 3 + 1;
    assert((thirds >> 1) == thirds / 2) by (bit_vector);
    (thirds >> 1) as u64
}

/// The `k`-th residue modulo 30 that is coprime to 30.
pub(crate) fn wheel30_residue(k: u64) -> (r: u64)
    requires
        k < 8,
    ensures
        r == residue30(k as int),
{
    if k == 0 {
        1
    } else if k == 1 {
        7
    } else if k == 2 {
        11
    } else if k == 3 {
        13
    } else if k == 4 {
        17
    } else if k == 5 {
        19
    } else if k == 6 {
        23
    } else {
        29
    }
}

/// The value at index `idx` of the wheel over 2, 3 and 5; the inverse of
/// [`backward5`] on admissible values.
pub fn forward5(idx: usize) -> (r: u64)
    requires
        idx >= 1,
        forward5_spec(idx as int) <= u64::MAX,
    ensures
        r == forward5_spec(idx as int),
{
    wheel30_value(idx as u64)
}

/// [`forward5`] on a 64-bit index.
pub(crate) fn wheel30_value(idx: u64) -> (r: u64)
    requires
        idx >= 1,
        forward5_spec(idx as int) <= u64::MAX,
    ensures
        r == forward5_spec(idx as int),
{
    let turns: u64 = (idx - 1) / 8;
    let k: u64 = (idx - 1) % 8;
    30 * turns + wheel30_residue(k)
}

/// The mask one index further along, as the rolling cursor computes it: the
/// low bit leaves, and re-enters at bit 9 when it was set.
pub open spec fn wheel5_rotate(w: u32) -> u32 {
    if w & 1 == 1 {
        (w >> 1) | (1u32 << 9)
    } else {
        w >> 1
    }
}

proof fn lemma_wheel5_rotate_masks()
    by (bit_vector)
    ensures
        0b01_0000_0010u32 & 1 != 1 && wheel5_rotate(0b01_0000_0010) == 0b00_1000_0001,
        0b00_1000_0001u32 & 1 == 1 && wheel5_rotate(0b00_1000_0001) == 0b10_0100_0000,
        0b10_0100_0000u32 & 1 != 1 && wheel5_rotate(0b10_0100_0000) == 0b01_0010_0000,
        0b01_0010_0000u32 & 1 != 1 && wheel5_rotate(0b01_0010_0000) == 0b00_1001_0000,
        0b00_1001_0000u32 & 1 != 1 && wheel5_rotate(0b00_1001_0000) == 0b00_0100_1000,
        0b00_0100_1000u32 & 1 != 1 && wheel5_rotate(0b00_0100_1000) == 0b00_0010_0100,
        0b00_0010_0100u32 & 1 != 1 && wheel5_rotate(0b00_0010_0100) == 0b00_0001_0010,
        0b00_0001_0010u32 & 1 != 1 && wheel5_rotate(0b00_0001_0010) == 0b00_0000_1001,
        0b00_0000_1001u32 & 1 == 1 && wheel5_rotate(0b00_0000_1001) == 0b10_0000_0100,
        0b10_0000_0100u32 & 1 != 1 && wheel5_rotate(0b10_0000_0100) == 0b01_0000_0010,
{
}

/// A cursor at index 1 carries the starting mask.
pub proof fn lemma_wheel5_start()
    ensures
        wheel5_mask(1) == WHEEL5_START,
{
    reveal(wheel5_mask);
}

/// One index further, the mask is the rotated mask, and its low bit tells
/// whether the value at the next index is a multiple of 5.
pub proof fn lemma_wheel5_mask_step(o: int)
    ensures
        wheel5_mask(o + 1) == wheel5_rotate(wheel5_mask(o)),
        (wheel5_mask(o) & 1 == 1) <==> forward_spec(o + 1) % 5 == 0,
{
    reveal(wheel5_mask);
    lemma_wheel5_rotate_masks();
}

/// The place in the pattern, from 0 to 9, at which a mask stands.
spec fn wheel5_phase(w: u32) -> int {
    if w == 0b01_0000_0010 {
        0
    } else if w == 0b00_1000_0001 {
        1
    } else if w == 0b10_0100_0000 {
        2
    } else if w == 0b01_0010_0000 {
        3
    } else if w == 0b00_1001_0000 {
        4
    } else if w == 0b00_0100_1000 {
        5
    } else if w == 0b00_0010_0100 {
        6
    } else if w == 0b00_0001_0010 {
        7
    } else if w == 0b00_0000_1001 {
        8
    } else {
        9
    }
}

proof fn lemma_wheel5_phase(o: int)
    ensures
        wheel5_phase(wheel5_mask(o)) == o % 10,
{
    reveal(wheel5_mask);
}

proof fn lemma_wheel5_mask_periodic(a: int, b: int)
    requires
        a % 10 == b % 10,
    ensures
        wheel5_mask(a) == wheel5_mask(b),
{
    reveal(wheel5_mask);
}

proof fn lemma_wheel5_multiple_places(o: int)
    ensures
        forward_spec(o + 1) % 5 == 0 <==> o % 10 == 1 || o % 10 == 8,
{
    let q = o / 10;
    let r = o % 10;
    lemma_fundamental_div_mod(o, 10);
    lemma_mod_multiples_vanish(5 * q, r + 1, 2);
    let rest = 3 * r + 2 - (r + 1) % 2;
    lemma_mod_multiples_vanish(6 * q, rest, 5);
    assert(forward_spec(o + 1) == 5 * (6 * q) + rest);
    if r == 0 {
    } else if r == 1 {
    } else if r == 2 {
    } else if r == 3 {
    } else if r == 4 {
    } else if r == 5 {
    } else if r == 6 {
    } else if r == 7 {
    } else if r == 8 {
    } else {
    }
}

proof fn lemma_wheel5_next_periodic(a: int, b: int)
    requires
        a % 10 == b % 10,
    ensures
        next_wheel5_index(a) - a == next_wheel5_index(b) - b,
        next_wheel5_index(a) % 10 == next_wheel5_index(b) % 10,
{
    let r = a % 10;
    lemma_wheel5_multiple_places(a);
    lemma_wheel5_multiple_places(b);
    lemma_fundamental_div_mod(a, 10);
    lemma_fundamental_div_mod(b, 10);
    let step: int = if r == 1 || r == 8 {
        2
    } else {
        1
    };
    assert(next_wheel5_index(a) == a + step);
    assert(next_wheel5_index(b) == b + step);
    lemma_mod_multiples_vanish(a / 10, r + step, 10);
    lemma_mod_multiples_vanish(b / 10, r + step, 10);
    assert(a + step == 10 * (a / 10) + (r + step));
    assert(b + step == 10 * (b / 10) + (r + step));
}

/// Two indices with the same mask stand at the same place of the pattern:
/// from both, the cursor moves equally far and to equal masks.
pub proof fn lemma_wheel5_mask_same(a: int, b: int)
    requires
        wheel5_mask(a) == wheel5_mask(b),
    ensures
        a % 10 == b % 10,
        next_wheel5_index(a) - a == next_wheel5_index(b) - b,
        wheel5_mask(next_wheel5_index(a)) == wheel5_mask(next_wheel5_index(b)),
{
    lemma_wheel5_phase(a);
    lemma_wheel5_phase(b);
    lemma_wheel5_next_periodic(a, b);
    lemma_wheel5_mask_periodic(next_wheel5_index(a), next_wheel5_index(b));
}

/// Advances a rolling cursor over the wheel over 2 and 3 to the next index
/// whose value is coprime to 5, and returns how many indices it moved.
///
/// The cursor is the mask alone; a caller keeps the index beside it. Started
/// from [`WHEEL5_START`] at index 1, repeated calls visit the indices of
/// exactly the numbers coprime to 30, in increasing order.
pub fn get_wheel5_increment(wheel5: &mut u32) -> (inc: usize)
    requires
        exists|o: int| *old(wheel5) == wheel5_mask(o),
    ensures
        forall|o: int|
            *old(wheel5) == #[trigger] wheel5_mask(o) ==> {
                &&& o + inc == next_wheel5_index(o)
                &&& *final(wheel5) == wheel5_mask(next_wheel5_index(o))
            },
{
    let ghost start: int = choose|o: int| *old(wheel5) == wheel5_mask(o);
    let mut wheel_increment: usize = 0;
    let mut is_wheel_multiple: bool;
    loop
        invariant_except_break
            wheel_increment <= 1,
            *wheel5 == wheel5_mask(start + wheel_increment),
            wheel_increment == 1 ==> forward_spec(start + 1) % 5 == 0,
        ensures
            start + wheel_increment == next_wheel5_index(start),
            *wheel5 == wheel5_mask(next_wheel5_index(start)),
        decreases 2 - wheel_increment,
    {
        proof {
            lemma_wheel5_mask_step(start + wheel_increment);
        }
        is_wheel_multiple = *wheel5 & 1 == 1;
        *wheel5 >>= 1;
        if is_wheel_multiple {
            *wheel5 |= 1 << 9;
        }
        wheel_increment += 1;
        if !is_wheel_multiple {
            break ;
        }
    }
    proof {
        assert forall|o: int| *old(wheel5) == #[trigger] wheel5_mask(o) implies o
            + wheel_increment == next_wheel5_index(o) && *wheel5 == wheel5_mask(
            next_wheel5_index(o),
        ) by {
            lemma_wheel5_mask_same(o, start);
        }
    }
    wheel_increment
}

/// Index round trip of the wheel over 2 and 3, from a value: an admissible
/// value has a positive index, and that index holds the value again.
pub proof fn lemma_wheel6_value_round_trip(v: int)
    requires
        v >= 1,
        coprime6(v),
    ensures
        backward_spec(v) >= 1,
        forward_spec(backward_spec(v)) == v,
{
}

/// Index round trip of the wheel over 2 and 3, from an index: every positive
/// index holds an admissible value, whose index it is.
pub proof fn lemma_wheel6_index_round_trip(p: int)
    requires
        p >= 1,
    ensures
        forward_spec(p) >= 1,
        coprime6(forward_spec(p)),
        backward_spec(forward_spec(p)) == p,
{
}

/// The values of the wheel over 2 and 3 increase with their index.
pub proof fn lemma_wheel6_increasing(p: int, q: int)
    requires
        p < q,
    ensures
        forward_spec(p) < forward_spec(q),
{
}

/// The place, from 0 to 7, of the least residue coprime to 30 from `r` on,
/// for a residue `r` modulo 30.
pub open spec fn position30(r: int) -> int {
    if r <= 1 {
        0
    } else if r <= 7 {
        1
    } else if r <= 11 {
        2
    } else if r <= 13 {
        3
    } else if r <= 17 {
        4
    } else if r <= 19 {
        5
    } else if r <= 23 {
        6
    } else {
        7
    }
}

/// The index function on the values of one turn: the `k`-th value of turn
/// `q` has the index `8 * q + k + 1`.
pub proof fn lemma_backward5_of_turn(q: int, k: int)
    requires
        0 <= k < 8,
    ensures
        backward5_spec(30 * q + residue30(k)) == 8 * q + k + 1,
{
    let r = residue30(k);
    let v = 30 * q + r;
    let c = 4 * (r + 1);
    lemma_fundamental_div_mod(c, 5);
    lemma_div_multiples_vanish_fancy(24 * q + c / 5, c % 5, 5);
    assert(4 * (v + 1) == 5 * (24 * q + c / 5) + c % 5);
    let fifths = (4 * (v + 1)) / 5;
    assert(fifths == 24 * q + c / 5);
    let d = (c / 5 + 1) * 2;
    lemma_fundamental_div_mod(d, 3);
    lemma_div_multiples_vanish_fancy(16 * q + d / 3, d % 3, 3);
    assert((fifths + 1) * 2 == 3 * (16 * q + d / 3) + d % 3);
    let thirds = ((fifths + 1) * 2) / 3;
    assert(thirds == 16 * q + d / 3);
    let e = d / 3 + 1;
    lemma_fundamental_div_mod(e, 2);
    lemma_div_multiples_vanish_fancy(8 * q + e / 2, e % 2, 2);
    assert(thirds + 1 == 2 * (8 * q + e / 2) + e % 2);
    assert((thirds + 1) / 2 == 8 * q + e / 2);
    assert(e / 2 == k + 1) by {
        if k == 0 {
        } else if k == 1 {
        } else if k == 2 {
        } else if k == 3 {
        } else if k == 4 {
        } else if k == 5 {
        } else if k == 6 {
        } else {
        }
    }
}

/// The value function on the indices of one turn: the index
/// `8 * q + k + 1` holds the `k`-th value of turn `q`.
pub proof fn lemma_forward5_of_turn(q: int, k: int)
    requires
        0 <= k < 8,
    ensures
        forward5_spec(8 * q + k + 1) == 30 * q + residue30(k),
{
    lemma_fundamental_div_mod_converse(8 * q + k, 8, q, k);
}

/// A number coprime to 30 is the value of its turn at the place of its
/// residue.
pub proof fn lemma_coprime30_residue(v: int)
    requires
        coprime30(v),
    ensures
        v == 30 * (v / 30) + residue30(position30(v % 30)),
        0 <= position30(v % 30) < 8,
{
    let q = v / 30;
    let r = v % 30;
    lemma_fundamental_div_mod(v, 30);
    lemma_mod_multiples_vanish(15 * q, r, 2);
    lemma_mod_multiples_vanish(10 * q, r, 3);
    lemma_mod_multiples_vanish(6 * q, r, 5);
    assert(v == 2 * (15 * q) + r);
    assert(v == 3 * (10 * q) + r);
    assert(v == 5 * (6 * q) + r);
    assert(r % 2 != 0 && r % 3 != 0 && r % 5 != 0);
}

/// Index round trip of the wheel over 2, 3 and 5, from a value: an admissible
/// value has a positive index, and that index holds the value again.
pub proof fn lemma_wheel30_value_round_trip(v: int)
    requires
        v >= 1,
        coprime30(v),
    ensures
        backward5_spec(v) >= 1,
        forward5_spec(backward5_spec(v)) == v,
{
    let q = v / 30;
    let k = position30(v % 30);
    lemma_coprime30_residue(v);
    lemma_backward5_of_turn(q, k);
    lemma_forward5_of_turn(q, k);
}

/// The values of every turn are coprime to 30.
pub proof fn lemma_turn_is_coprime30(q: int, k: int)
    requires
        0 <= k < 8,
    ensures
        coprime30(30 * q + residue30(k)),
{
    let r = residue30(k);
    assert(r % 2 != 0 && r % 3 != 0 && r % 5 != 0);
    lemma_mod_multiples_vanish(15 * q, r, 2);
    lemma_mod_multiples_vanish(10 * q, r, 3);
    lemma_mod_multiples_vanish(6 * q, r, 5);
    assert(30 * q + r == 2 * (15 * q) + r);
    assert(30 * q + r == 3 * (10 * q) + r);
    assert(30 * q + r == 5 * (6 * q) + r);
}

/// Index round trip of the wheel over 2, 3 and 5, from an index: every
/// positive index holds an admissible value, whose index it is.
pub proof fn lemma_wheel30_index_round_trip(idx: int)
    requires
        idx >= 1,
    ensures
        forward5_spec(idx) >= 1,
        coprime30(forward5_spec(idx)),
        backward5_spec(forward5_spec(idx)) == idx,
{
    let q = (idx - 1) / 8;
    let k = (idx - 1) % 8;
    lemma_fundamental_div_mod(idx - 1, 8);
    lemma_backward5_of_turn(q, k);
    lemma_turn_is_coprime30(q, k);
}

/// The values of the wheel over 2, 3 and 5 increase with their index.
pub proof fn lemma_wheel30_increasing(i: int, j: int)
    requires
        i < j,
    ensures
        forward5_spec(i) < forward5_spec(j),
    decreases j - i,
{
    if i + 1 < j {
        lemma_wheel30_increasing(i, j - 1);
    }
}

/// Between the values at two neighbouring indices of the wheel over 2, 3 and
/// 5 lies no number coprime to 30: the indices leave no admissible value out.
pub proof fn lemma_wheel30_no_gap(idx: int, x: int)
    requires
        idx >= 0,
        forward5_spec(idx) < x < forward5_spec(idx + 1),
    ensures
        !coprime30(x),
{
    if coprime30(x) {
        lemma_wheel30_value_round_trip(x);
        let j = backward5_spec(x);
        if j <= idx {
            if j < idx {
                lemma_wheel30_increasing(j, idx);
            }
        } else if j > idx + 1 {
            lemma_wheel30_increasing(idx + 1, j);
        }
    }
}

/// The index function of the wheel over 2, 3 and 5 never decreases, also
/// across numbers that are not admissible.
pub proof fn lemma_backward5_monotonic(a: int, b: int)
    requires
        a <= b,
    ensures
        backward5_spec(a) <= backward5_spec(b),
{
    lemma_div_is_ordered(4 * (a + 1), 4 * (b + 1), 5);
    let fifths_a = (4 * (a + 1)) / 5;
    let fifths_b = (4 * (b + 1)) / 5;
    lemma_div_is_ordered((fifths_a + 1) * 2, (fifths_b + 1) * 2, 3);
    let thirds_a = ((fifths_a + 1) * 2) / 3;
    let thirds_b = ((fifths_b + 1) * 2) / 3;
    lemma_div_is_ordered(thirds_a + 1, thirds_b + 1, 2);
}

/// What one step of the rolling cursor reaches: the value at the next index
/// is coprime to 30, and no number coprime to 30 lies between the value left
/// and the value reached.
pub proof fn lemma_wheel5_step_reaches_next(o: int, x: int)
    requires
        o >= 1,
    ensures
        coprime30(forward_spec(next_wheel5_index(o))),
        forward_spec(o) < forward_spec(next_wheel5_index(o)),
        forward_spec(o) < x < forward_spec(next_wheel5_index(o)) ==> !coprime30(x),
{
    let n = next_wheel5_index(o);
    lemma_wheel6_index_round_trip(n);
    if forward_spec(o) < x < forward_spec(n) && coprime30(x) {
        lemma_wheel6_value_round_trip(x);
        let j = backward_spec(x);
        assert(o < j < n);
    }
}

/// Between the values at two neighbouring indices of the wheel over 2 and 3
/// lies no number coprime to 6.
pub proof fn lemma_wheel6_no_gap(p: int, x: int)
    requires
        p >= 0,
        forward_spec(p) < x < forward_spec(p + 1),
    ensures
        !coprime6(x),
{
    if coprime6(x) {
        lemma_wheel6_value_round_trip(x);
        let j = backward_spec(x);
        if j < p {
            lemma_wheel6_increasing(j, p);
        } else if j > p + 1 {
            lemma_wheel6_increasing(p + 1, j);
        }
    }
}

proof fn lemma_wheel6_count(p: int)
    requires
        p >= 1,
    ensures
        select_between(0, forward_spec(p), |x: int| coprime6(x)).len() == p,
    decreases p,
{
    let keep = |x: int| coprime6(x);
    let v = forward_spec(p);
    lemma_wheel6_index_round_trip(p);
    if p == 1 {
        assert(keep(1));
        assert(select_between(0, 0, keep).len() == 0);
    } else {
        let u = forward_spec(p - 1);
        lemma_wheel6_count(p - 1);
        lemma_wheel6_index_round_trip(p - 1);
        lemma_wheel6_increasing(p - 1, p);
        assert forall|x: int| u < x <= v - 1 implies !#[trigger] keep(x) by {
            lemma_wheel6_no_gap(p - 1, x);
        }
        lemma_select_skip(0, u, v - 1, keep);
        assert(keep(v));
    }
}

proof fn lemma_wheel30_count(idx: int)
    requires
        idx >= 1,
    ensures
        select_between(0, forward5_spec(idx), |x: int| coprime30(x)).len() == idx,
    decreases idx,
{
    let keep = |x: int| coprime30(x);
    let v = forward5_spec(idx);
    lemma_wheel30_index_round_trip(idx);
    if idx == 1 {
        assert(keep(1));
        assert(select_between(0, 0, keep).len() == 0);
    } else {
        let u = forward5_spec(idx - 1);
        lemma_wheel30_count(idx - 1);
        lemma_wheel30_index_round_trip(idx - 1);
        lemma_wheel30_increasing(idx - 1, idx);
        assert forall|x: int| u < x <= v - 1 implies !#[trigger] keep(x) by {
            lemma_wheel30_no_gap(idx - 1, x);
        }
        lemma_select_skip(0, u, v - 1, keep);
        assert(keep(v));
    }
}

/// The index of a number coprime to 6 is its rank: so many numbers coprime
/// to 6 there are from 1 up to and including it.
pub proof fn lemma_backward_is_rank(v: int)
    requires
        v >= 1,
        coprime6(v),
    ensures
        select_between(0, v, |x: int| coprime6(x)).len() == backward_spec(v),
{
    lemma_wheel6_value_round_trip(v);
    lemma_wheel6_count(backward_spec(v));
}

/// The index of a number coprime to 30 is its rank: so many numbers coprime
/// to 30 there are from 1 up to and including it.
pub proof fn lemma_backward5_is_rank(v: int)
    requires
        v >= 1,
        coprime30(v),
    ensures
        select_between(0, v, |x: int| coprime30(x)).len() == backward5_spec(v),
{
    lemma_wheel30_value_round_trip(v);
    lemma_wheel30_count(backward5_spec(v));
}

/// The least number coprime to 30 above `v`, for a `v` that is itself
/// coprime to 30: the value at the index after the index of `v`.
pub open spec fn next_coprime30(v: int) -> int {
    forward5_spec(backward5_spec(v) + 1)
}

/// [`next_coprime30`] does name the least number coprime to 30 above `v`.
pub proof fn lemma_next_coprime30(v: int, x: int)
    requires
        v >= 1,
        coprime30(v),
    ensures
        coprime30(next_coprime30(v)),
        v < next_coprime30(v) <= v + 6,
        v < x < next_coprime30(v) ==> !coprime30(x),
{
    let idx = backward5_spec(v);
    lemma_wheel30_value_round_trip(v);
    lemma_wheel30_index_round_trip(idx + 1);
    lemma_wheel30_increasing(idx, idx + 1);
    lemma_wheel30_step(idx);
    if v < x < next_coprime30(v) {
        lemma_wheel30_no_gap(idx, x);
    }
}

/// From one index to the next the wheel over 2, 3 and 5 moves by at most 6.
proof fn lemma_wheel30_step(idx: int)
    ensures
        forward5_spec(idx + 1) <= forward5_spec(idx) + 6,
{
    let q = (idx - 1) / 8;
    let k = (idx - 1) % 8;
    lemma_fundamental_div_mod(idx - 1, 8);
    lemma_forward5_of_turn(q, k);
    if k == 7 {
        lemma_forward5_of_turn(q + 1, 0);
    } else {
        lemma_forward5_of_turn(q, k + 1);
    }
}

/// A number coprime to 30 that follows another with none between them is
/// the one that [`next_coprime30`] names.
pub proof fn lemma_next_coprime30_is(v: int, p: int)
    requires
        v >= 1,
        coprime30(v),
        coprime30(p),
        v < p,
        forall|x: int| v < x < p ==> !coprime30(x),
    ensures
        p == next_coprime30(v),
{
    lemma_next_coprime30(v, p);
}

/// A cursor over the numbers coprime to 30: the index of the value it stands
/// at in the wheel over 2 and 3, and the rolling mask for that index.
pub struct WheelState {
    index: u64,
    mask: u32,
}

impl WheelState {
    /// The value that the cursor stands at.
    pub closed spec fn value_spec(&self) -> int {
        forward_spec(self.index as int)
    }

    /// The cursor stands at a number coprime to 30, with the mask that
    /// belongs to its place.
    pub closed spec fn wf(&self) -> bool {
        &&& self.index >= 1
        &&& self.mask == wheel5_mask(self.index as int)
        &&& forward_spec(self.index as int) <= u64::MAX
        &&& coprime30(forward_spec(self.index as int))
    }

    /// A cursor at 1, the first number coprime to 30.
    pub fn new() -> (state: WheelState)
        ensures
            state.wf(),
            state.value_spec() == 1,
    {
        proof {
            lemma_wheel5_start();
        }
        WheelState { index: 1, mask: WHEEL5_START }
    }

    /// The value that the cursor stands at.
    pub fn value(&self) -> (v: u64)
        requires
            self.wf(),
        ensures
            v == self.value_spec(),
            v >= 1,
            coprime30(v as int),
    {
        proof {
            lemma_wheel6_index_round_trip(self.index as int);
        }
        wheel6_value(self.index)
    }

    /// Moves the cursor to the next number coprime to 30 and returns the gap
    /// it moved by. Applied again and again from a new cursor, this visits
    /// every number coprime to 30 once, in ascending order.
    pub fn next_admissible(&mut self) -> (gap: u64)
        requires
            old(self).wf(),
            old(self).value_spec() + 6 <= u64::MAX,
        ensures
            final(self).wf(),
            final(self).value_spec() == next_coprime30(old(self).value_spec()),
            final(self).value_spec() == old(self).value_spec() + gap,
            0 < gap <= 6,
            coprime30(final(self).value_spec()),
            forall|x: int|
                old(self).value_spec() < x < final(self).value_spec() ==> !coprime30(x),
    {
        let ghost left = self.index as int;
        let from = wheel6_value(self.index);
        let inc = get_wheel5_increment(&mut self.mask);
        proof {
            lemma_wheel5_step_reaches_next(left, 0);
            assert forall|x: int|
                forward_spec(left) < x < forward_spec(next_wheel5_index(left)) implies !coprime30(
                x,
            ) by {
                lemma_wheel5_step_reaches_next(left, x);
            }
        }
        self.index = self.index + inc as u64;
        proof {
            lemma_wheel6_index_round_trip(left);
            lemma_next_coprime30_is(forward_spec(left), forward_spec(self.index as int));
        }
        wheel6_value(self.index) - from
    }
}

} // verus!
