//! Mixed-radix indexing and the odometer.
//!
//! A point of a finite Cartesian space is a digit vector; each digit ranges
//! below its bound.  The little-endian linear index (digit 0 least
//! significant) is a bijection between the digit vectors and the interval
//! `[0, product of the bounds)`.  The odometer walks the digit vectors in
//! linear-index order.

use vstd::prelude::*;
use vstd::arithmetic::mul::{
    lemma_mul_basics, lemma_mul_inequality, lemma_mul_is_distributive_add,
    lemma_mul_is_distributive_sub, lemma_mul_is_associative, lemma_mul_nonnegative,
    lemma_mul_strictly_positive,
};
use vstd::arithmetic::div_mod::{
    lemma_fundamental_div_mod, lemma_fundamental_div_mod_converse, lemma_mod_bound,
    lemma_div_pos_is_pos, lemma_multiply_divide_lt,
};
use vstd::arithmetic::power::pow;

verus! {

/// Number of digit vectors below a bound vector: the product of the bounds.
pub open spec fn space_size(bounds: Seq<usize>) -> int
    decreases bounds.len(),
{
    if bounds.len() == 0 {
        1
    } else {
        bounds[0] * space_size(bounds.drop_first())
    }
}

/// Little-endian linear index of a digit vector:
/// `digits[0] + bounds[0] * (digits[1] + bounds[1] * (...))`.
pub open spec fn linear_index(digits: Seq<usize>, bounds: Seq<usize>) -> int
    decreases digits.len(),
{
    if digits.len() == 0 {
        0
    } else {
        digits[0] + bounds[0] * linear_index(digits.drop_first(), bounds.drop_first())
    }
}

/// The digit vector has one digit per bound and each digit is below its bound.
pub open spec fn in_bounds(digits: Seq<usize>, bounds: Seq<usize>) -> bool {
    &&& digits.len() == bounds.len()
    &&& forall|i: int| 0 <= i < digits.len() ==> digits[i] < bounds[i]
}

/// The digit vector of a linear index: the inverse of `linear_index`.
pub open spec fn index_digits(index: int, bounds: Seq<usize>) -> Seq<usize>
    decreases bounds.len(),
{
    if bounds.len() == 0 {
        Seq::empty()
    } else {
        seq![(index % (bounds[0] as int)) as usize] + index_digits(
            index / (bounds[0] as int),
            bounds.drop_first(),
        )
    }
}

/// A bound vector whose entries all equal `bound`: the shape of a function
/// table from a `len`-element domain to a `bound`-element codomain.
pub open spec fn uniform_bounds(bound: usize, len: nat) -> Seq<usize> {
    Seq::new(len, |i: int| bound)
}

/// The size of a space is never negative.
pub proof fn lemma_space_size_nonneg(bounds: Seq<usize>)
    ensures
        space_size(bounds) >= 0,
    decreases bounds.len(),
{
    if bounds.len() > 0 {
        lemma_space_size_nonneg(bounds.drop_first());
        lemma_mul_nonnegative(bounds[0] as int, space_size(bounds.drop_first()));
    }
}

/// If every bound is positive, the space is non-empty.
pub proof fn lemma_space_size_positive(bounds: Seq<usize>)
    requires
        forall|i: int| 0 <= i < bounds.len() ==> bounds[i] > 0,
    ensures
        space_size(bounds) > 0,
    decreases bounds.len(),
{
    if bounds.len() > 0 {
        let tail = bounds.drop_first();
        assert forall|i: int| 0 <= i < tail.len() implies #[trigger] tail[i] > 0 by {
            assert(tail[i] == bounds[i + 1]);
        }
        lemma_space_size_positive(tail);
        lemma_mul_strictly_positive(bounds[0] as int, space_size(tail));
    }
}

/// If the space is non-empty, every bound is positive.
pub proof fn lemma_positive_space_bounds(bounds: Seq<usize>)
    requires
        space_size(bounds) > 0,
    ensures
        forall|i: int| 0 <= i < bounds.len() ==> bounds[i] > 0,
    decreases bounds.len(),
{
    if bounds.len() > 0 {
        let tail = bounds.drop_first();
        lemma_mul_basics(bounds[0] as int);
        lemma_mul_basics(space_size(tail));
        if bounds[0] == 0 {
            assert(space_size(bounds) == 0);
        }
        if space_size(tail) == 0 {
            assert(space_size(bounds) == 0);
        }
        lemma_space_size_nonneg(tail);
        lemma_positive_space_bounds(tail);
        assert forall|i: int| 0 <= i < bounds.len() implies #[trigger] bounds[i] > 0 by {
            if i > 0 {
                assert(tail[i - 1] == bounds[i]);
            }
        }
    }
}

/// An in-bounds digit vector indexes into `[0, space_size(bounds))`.
pub proof fn lemma_linear_index_bounds(digits: Seq<usize>, bounds: Seq<usize>)
    requires
        in_bounds(digits, bounds),
    ensures
        0 <= linear_index(digits, bounds) < space_size(bounds),
    decreases digits.len(),
{
    if digits.len() > 0 {
        let dt = digits.drop_first();
        let bt = bounds.drop_first();
        assert(in_bounds(dt, bt));
        lemma_linear_index_bounds(dt, bt);
        let b0 = bounds[0] as int;
        let rest = linear_index(dt, bt);
        let p = space_size(bt);
        lemma_mul_nonnegative(b0, rest);
        lemma_mul_inequality(rest, p - 1, b0);
        lemma_mul_is_distributive_sub(b0, p, 1);
        assert(b0 * rest <= b0 * p - b0);
    }
}

/// A digit vector of all zeros has linear index 0.
pub proof fn lemma_linear_index_zero(digits: Seq<usize>, bounds: Seq<usize>)
    requires
        digits.len() == bounds.len(),
        forall|i: int| 0 <= i < digits.len() ==> digits[i] == 0,
    ensures
        linear_index(digits, bounds) == 0,
    decreases digits.len(),
{
    if digits.len() > 0 {
        lemma_linear_index_zero(digits.drop_first(), bounds.drop_first());
        assert(bounds[0] * 0 == 0);
    }
}

/// A digit vector with every digit at its maximum has the last linear index.
pub proof fn lemma_linear_index_max(digits: Seq<usize>, bounds: Seq<usize>)
    requires
        in_bounds(digits, bounds),
        forall|i: int| 0 <= i < digits.len() ==> digits[i] == bounds[i] - 1,
    ensures
        linear_index(digits, bounds) == space_size(bounds) - 1,
    decreases digits.len(),
{
    if digits.len() > 0 {
        let dt = digits.drop_first();
        let bt = bounds.drop_first();
        assert(in_bounds(dt, bt));
        lemma_linear_index_max(dt, bt);
        let b0 = bounds[0] as int;
        lemma_mul_is_distributive_sub(b0, space_size(bt), 1);
        assert(b0 * (space_size(bt) - 1) == b0 * space_size(bt) - b0);
    }
}

/// The digit vector of an index within the space is in bounds.
pub proof fn lemma_index_digits_in_bounds(index: int, bounds: Seq<usize>)
    requires
        0 <= index < space_size(bounds),
    ensures
        in_bounds(index_digits(index, bounds), bounds),
    decreases bounds.len(),
{
    if bounds.len() > 0 {
        let b0 = bounds[0] as int;
        let bt = bounds.drop_first();
        lemma_positive_space_bounds(bounds);
        assert(bounds[0] > 0);
        lemma_mod_bound(index, b0);
        lemma_div_pos_is_pos(index, b0);
        lemma_multiply_divide_lt(index, b0, space_size(bt));
        lemma_index_digits_in_bounds(index / b0, bt);
        let d = index_digits(index, bounds);
        let dt = index_digits(index / b0, bt);
        assert forall|i: int| 0 <= i < d.len() implies #[trigger] d[i] < bounds[i] by {
            if i > 0 {
                assert(d[i] == dt[i - 1]);
                assert(bounds[i] == bt[i - 1]);
            }
        }
    }
}

/// Round trip index -> digits -> index: `linear_index` inverts `index_digits`.
pub proof fn lemma_linear_index_of_digits(index: int, bounds: Seq<usize>)
    requires
        0 <= index < space_size(bounds),
    ensures
        linear_index(index_digits(index, bounds), bounds) == index,
    decreases bounds.len(),
{
    if bounds.len() == 0 {
        assert(index == 0);
    } else {
        let b0 = bounds[0] as int;
        let bt = bounds.drop_first();
        lemma_positive_space_bounds(bounds);
        assert(bounds[0] > 0);
        lemma_mod_bound(index, b0);
        lemma_div_pos_is_pos(index, b0);
        lemma_multiply_divide_lt(index, b0, space_size(bt));
        lemma_linear_index_of_digits(index / b0, bt);
        let d = index_digits(index, bounds);
        let dt = index_digits(index / b0, bt);
        assert(d.drop_first() =~= dt);
        lemma_fundamental_div_mod(index, b0);
    }
}

/// Round trip digits -> index -> digits: `index_digits` inverts `linear_index`.
pub proof fn lemma_index_digits_of_linear(digits: Seq<usize>, bounds: Seq<usize>)
    requires
        in_bounds(digits, bounds),
    ensures
        index_digits(linear_index(digits, bounds), bounds) == digits,
    decreases digits.len(),
{
    if digits.len() > 0 {
        let dt = digits.drop_first();
        let bt = bounds.drop_first();
        assert(in_bounds(dt, bt));
        lemma_index_digits_of_linear(dt, bt);
        let b0 = bounds[0] as int;
        let d0 = digits[0] as int;
        let rest = linear_index(dt, bt);
        let idx = linear_index(digits, bounds);
        lemma_linear_index_bounds(dt, bt);
        assert(idx == rest * b0 + d0) by {
            vstd::arithmetic::mul::lemma_mul_is_commutative(b0, rest);
        }
        lemma_fundamental_div_mod_converse(idx, b0, rest, d0);
        assert(index_digits(idx, bounds) =~= digits);
    }
}

/// Distinct in-bounds digit vectors have distinct linear indices: together
/// with `lemma_linear_index_bounds` and the two round-trip lemmas this makes
/// the linear index a bijection onto `[0, space_size(bounds))`, so a full
/// odometer sweep visits every point exactly once.
pub proof fn lemma_linear_index_injective(d1: Seq<usize>, d2: Seq<usize>, bounds: Seq<usize>)
    requires
        in_bounds(d1, bounds),
        in_bounds(d2, bounds),
        linear_index(d1, bounds) == linear_index(d2, bounds),
    ensures
        d1 == d2,
{
    lemma_index_digits_of_linear(d1, bounds);
    lemma_index_digits_of_linear(d2, bounds);
}

/// LAW: a full odometer sweep is exhaustive.  The sweep starts at the
/// all-zero vector (linear index 0) and each `advance` moves to the vector
/// of the next index, so the walk yields `index_digits(0), index_digits(1),
/// ...`: those vectors are all in bounds, pairwise distinct, and every
/// in-bounds vector is among them — each point of the space is visited
/// exactly once before exhaustion is signalled.
pub proof fn lemma_sweep_exhaustive(bounds: Seq<usize>)
    ensures
        forall|k: int|
            0 <= k < space_size(bounds) ==> in_bounds(#[trigger] index_digits(k, bounds), bounds),
        forall|k1: int, k2: int|
            #![trigger index_digits(k1, bounds), index_digits(k2, bounds)]
            0 <= k1 < space_size(bounds) && 0 <= k2 < space_size(bounds) && k1 != k2
                ==> index_digits(k1, bounds) != index_digits(k2, bounds),
        forall|d: Seq<usize>|
            #[trigger] in_bounds(d, bounds) ==> 0 <= linear_index(d, bounds) < space_size(bounds)
                && index_digits(linear_index(d, bounds), bounds) == d,
{
    assert forall|k: int| 0 <= k < space_size(bounds) implies in_bounds(
        #[trigger] index_digits(k, bounds),
        bounds,
    ) by {
        lemma_index_digits_in_bounds(k, bounds);
    }
    assert forall|k1: int, k2: int|
        #![trigger index_digits(k1, bounds), index_digits(k2, bounds)]
        0 <= k1 < space_size(bounds) && 0 <= k2 < space_size(bounds) && k1 != k2 implies index_digits(
        k1,
        bounds,
    ) != index_digits(k2, bounds) by {
        lemma_linear_index_of_digits(k1, bounds);
        lemma_linear_index_of_digits(k2, bounds);
    }
    assert forall|d: Seq<usize>| #[trigger] in_bounds(d, bounds) implies 0 <= linear_index(
        d,
        bounds,
    ) < space_size(bounds) && index_digits(linear_index(d, bounds), bounds) == d by {
        lemma_linear_index_bounds(d, bounds);
        lemma_index_digits_of_linear(d, bounds);
    }
}

/// Splitting a digit vector at position `k` splits its linear index into a
/// low part and a high part scaled by the size of the low sub-space.
pub proof fn lemma_linear_index_split(digits: Seq<usize>, bounds: Seq<usize>, k: int)
    requires
        digits.len() == bounds.len(),
        0 <= k <= digits.len(),
    ensures
        linear_index(digits, bounds) == linear_index(digits.take(k), bounds.take(k))
            + space_size(bounds.take(k)) * linear_index(digits.skip(k), bounds.skip(k)),
    decreases k,
{
    if k == 0 {
        assert(digits.take(0) =~= Seq::<usize>::empty());
        assert(bounds.take(0) =~= Seq::<usize>::empty());
        assert(digits.skip(0) =~= digits);
        assert(bounds.skip(0) =~= bounds);
        assert(1 * linear_index(digits, bounds) == linear_index(digits, bounds));
    } else {
        let dt = digits.drop_first();
        let bt = bounds.drop_first();
        lemma_linear_index_split(dt, bt, k - 1);
        assert(digits.take(k).drop_first() =~= dt.take(k - 1));
        assert(bounds.take(k).drop_first() =~= bt.take(k - 1));
        assert(digits.skip(k) =~= dt.skip(k - 1));
        assert(bounds.skip(k) =~= bt.skip(k - 1));
        let b0 = bounds[0] as int;
        let lo = linear_index(dt.take(k - 1), bt.take(k - 1));
        let p = space_size(bt.take(k - 1));
        let hi = linear_index(dt.skip(k - 1), bt.skip(k - 1));
        assert(linear_index(digits, bounds) == digits[0] + b0 * (lo + p * hi));
        lemma_mul_is_distributive_add(b0, lo, p * hi);
        lemma_mul_is_associative(b0, p, hi);
        assert(linear_index(digits.take(k), bounds.take(k)) == digits[0] + b0 * lo);
        assert(space_size(bounds.take(k)) == b0 * p);
    }
}

/// The size of a uniform space is a power: `bound ^ len` function tables.
pub proof fn lemma_uniform_space_size(bound: usize, len: nat)
    ensures
        space_size(uniform_bounds(bound, len)) == pow(bound as int, len),
    decreases len,
{
    reveal(pow);
    let ub = uniform_bounds(bound, len);
    if len == 0 {
        assert(ub.len() == 0);
        assert(pow(bound as int, 0) == 1) by {
            vstd::arithmetic::power::lemma_pow0(bound as int);
        }
    } else {
        lemma_uniform_space_size(bound, (len - 1) as nat);
        assert(ub.drop_first() =~= uniform_bounds(bound, (len - 1) as nat));
        assert(ub[0] == bound);
        assert(space_size(ub) == bound as int * space_size(ub.drop_first()));
        assert(pow(bound as int, len) == bound as int * pow(bound as int, (len - 1) as nat));
    }
}

/// The size of a space splits at any position into the product of the sizes
/// of the low and high sub-spaces.
pub proof fn lemma_space_size_split(bounds: Seq<usize>, k: int)
    requires
        0 <= k <= bounds.len(),
    ensures
        space_size(bounds) == space_size(bounds.take(k)) * space_size(bounds.skip(k)),
    decreases k,
{
    if k == 0 {
        assert(bounds.take(0) =~= Seq::<usize>::empty());
        assert(bounds.skip(0) =~= bounds);
        lemma_mul_basics(space_size(bounds));
    } else {
        let bt = bounds.drop_first();
        lemma_space_size_split(bt, k - 1);
        assert(bounds.take(k).drop_first() =~= bt.take(k - 1));
        assert(bounds.skip(k) =~= bt.skip(k - 1));
        let b0 = bounds[0] as int;
        lemma_mul_is_associative(b0, space_size(bt.take(k - 1)), space_size(bt.skip(k - 1)));
    }
}

/// Extending the low part of a digit vector by one digit adds that digit,
/// scaled by the size of the low sub-space, to the low linear index.
pub proof fn lemma_linear_index_snoc(digits: Seq<usize>, bounds: Seq<usize>, i: int)
    requires
        digits.len() == bounds.len(),
        0 <= i < digits.len(),
    ensures
        linear_index(digits.take(i + 1), bounds.take(i + 1)) == linear_index(
            digits.take(i),
            bounds.take(i),
        ) + digits[i] * space_size(bounds.take(i)),
        space_size(bounds.take(i + 1)) == space_size(bounds.take(i)) * bounds[i],
{
    let d1 = digits.take(i + 1);
    let b1 = bounds.take(i + 1);
    lemma_linear_index_split(d1, b1, i);
    assert(d1.take(i) =~= digits.take(i));
    assert(b1.take(i) =~= bounds.take(i));
    assert(d1.skip(i) =~= seq![digits[i]]);
    assert(b1.skip(i) =~= seq![bounds[i]]);
    assert(seq![digits[i]].drop_first() =~= Seq::<usize>::empty());
    assert(seq![bounds[i]].drop_first() =~= Seq::<usize>::empty());
    lemma_mul_basics(bounds[i] as int);
    assert(linear_index(Seq::<usize>::empty(), Seq::<usize>::empty()) == 0);
    assert(space_size(Seq::<usize>::empty()) == 1);
    assert(linear_index(seq![digits[i]], seq![bounds[i]]) == digits[i]);
    assert(space_size(seq![bounds[i]]) == bounds[i] * 1);
    let p = space_size(bounds.take(i));
    assert(p * (digits[i] as int) == digits[i] * p) by {
        vstd::arithmetic::mul::lemma_mul_is_commutative(p, digits[i] as int);
    }
    lemma_space_size_split(b1, i);
    assert(space_size(b1) == p * (bounds[i] as int));
    assert(p * (bounds[i] as int) == bounds[i] * p) by {
        vstd::arithmetic::mul::lemma_mul_is_commutative(p, bounds[i] as int);
    }
    vstd::arithmetic::mul::lemma_mul_is_commutative(space_size(bounds.take(i)), bounds[i] as int);
}

/// One step of a running product of the bounds: extending the prefix by
/// bound `i` multiplies the partial size, which stays within the whole
/// space while every bound is positive.
pub proof fn lemma_prefix_size_step(bounds: Seq<usize>, i: int)
    requires
        0 <= i < bounds.len(),
        forall|j: int| 0 <= j < bounds.len() ==> bounds[j] > 0,
    ensures
        space_size(bounds.take(i + 1)) == space_size(bounds.take(i)) * bounds[i],
        space_size(bounds.take(i + 1)) <= space_size(bounds),
{
    lemma_linear_index_snoc(bounds, bounds, i);
    lemma_space_size_split(bounds, i + 1);
    lemma_space_size_nonneg(bounds.skip(i + 1));
    assert forall|j: int| 0 <= j < bounds.skip(i + 1).len() implies #[trigger] bounds.skip(
        i + 1,
    )[j] > 0 by {
        assert(bounds.skip(i + 1)[j] == bounds[i + 1 + j]);
    }
    lemma_space_size_positive(bounds.skip(i + 1));
    lemma_space_size_nonneg(bounds.take(i + 1));
    lemma_mul_inequality(1, space_size(bounds.skip(i + 1)), space_size(bounds.take(i + 1)));
    lemma_mul_basics(space_size(bounds.take(i + 1)));
    vstd::arithmetic::mul::lemma_mul_is_commutative(
        space_size(bounds.take(i + 1)),
        space_size(bounds.skip(i + 1)),
    );
}

/// One step of a running linear-index computation: extending the prefix by
/// digit `i` adds the digit scaled by the partial size, and both the
/// partial index and the partial size stay within the whole space.
pub proof fn lemma_prefix_index_step(digits: Seq<usize>, bounds: Seq<usize>, i: int)
    requires
        in_bounds(digits, bounds),
        0 <= i < digits.len(),
    ensures
        linear_index(digits.take(i + 1), bounds.take(i + 1)) == linear_index(
            digits.take(i),
            bounds.take(i),
        ) + digits[i] * space_size(bounds.take(i)),
        space_size(bounds.take(i + 1)) == space_size(bounds.take(i)) * bounds[i],
        space_size(bounds.take(i + 1)) <= space_size(bounds),
        0 <= linear_index(digits.take(i + 1), bounds.take(i + 1)) < space_size(bounds.take(i + 1)),
{
    assert forall|j: int| 0 <= j < bounds.len() implies #[trigger] bounds[j] > 0 by {
        assert(digits[j] < bounds[j]);
    }
    lemma_prefix_size_step(bounds, i);
    lemma_linear_index_snoc(digits, bounds, i);
    assert(in_bounds(digits.take(i + 1), bounds.take(i + 1)));
    lemma_linear_index_bounds(digits.take(i + 1), bounds.take(i + 1));
}

/// One zero bound empties the whole space.
pub proof fn lemma_space_size_zero(bounds: Seq<usize>, i: int)
    requires
        0 <= i < bounds.len(),
        bounds[i] == 0,
    ensures
        space_size(bounds) == 0,
{
    lemma_space_size_split(bounds, i);
    let hi = bounds.skip(i);
    assert(hi[0] == 0);
    lemma_mul_basics(space_size(hi.drop_first()));
    assert(space_size(hi) == 0);
    lemma_mul_basics(space_size(bounds.take(i)));
}

/// Two-coordinate table addressing: a cell `(a, b)` of a `p` by `q` table
/// stored row-major as `a + b * p` lies within the table.
pub proof fn lemma_table_index_bounds(a: int, p: int, b: int, q: int)
    requires
        0 <= a < p,
        0 <= b < q,
    ensures
        0 <= a + b * p < p * q,
        p * q == q * p,
{
    lemma_mul_nonnegative(b, p);
    lemma_mul_inequality(b, q - 1, p);
    vstd::arithmetic::mul::lemma_mul_is_distributive_sub_other_way(p, q, 1);
    lemma_mul_basics(p);
    vstd::arithmetic::mul::lemma_mul_is_commutative(p, q);
}

/// A copy of a digit vector.
pub(crate) fn copy_digits(v: &Vec<usize>) -> (out: Vec<usize>)
    ensures
        out@ == v@,
{
    let mut out: Vec<usize> = Vec::new();
    let n = v.len();
    for k in 0..n
        invariant
            n == v@.len(),
            out@ == v@.take(k as int),
    {
        out.push(v[k]);
        proof {
            assert(out@ =~= v@.take(k + 1));
        }
    }
    proof {
        assert(v@.take(n as int) =~= v@);
    }
    out
}

/// A fresh vector of `len` zeroed digits.
pub(crate) fn zero_vec(len: usize) -> (v: Vec<usize>)
    ensures
        v@.len() == len,
        forall|i: int| 0 <= i < len ==> v@[i] == 0,
{
    let mut v: Vec<usize> = Vec::new();
    for k in 0..len
        invariant
            v@.len() == k,
            forall|i: int| 0 <= i < k ==> v@[i] == 0,
    {
        v.push(0);
    }
    v
}

/// Reset every digit to zero, in place.
pub(crate) fn zero_fill(digits: &mut Vec<usize>)
    ensures
        final(digits)@.len() == old(digits)@.len(),
        forall|i: int| 0 <= i < final(digits)@.len() ==> final(digits)@[i] == 0,
{
    let n = digits.len();
    for k in 0..n
        invariant
            n == digits@.len(),
            forall|i: int| 0 <= i < k ==> digits@[i] == 0,
    {
        digits.set(k, 0);
    }
}

/// Mixed-radix increment: add one to the least-significant digit, carrying
/// into the higher digits.  Returns `true` exactly when the counter was at
/// its last point; the digits then wrap to all-zero, so a fresh sweep can
/// start without reinitialisation.
pub fn advance(digits: &mut Vec<usize>, bounds: &Vec<usize>) -> (exhausted: bool)
    requires
        in_bounds(old(digits)@, bounds@),
    ensures
        in_bounds(final(digits)@, bounds@),
        exhausted <==> linear_index(old(digits)@, bounds@) == space_size(bounds@) - 1,
        exhausted ==> forall|i: int| 0 <= i < final(digits)@.len() ==> final(digits)@[i] == 0,
        !exhausted ==> linear_index(final(digits)@, bounds@) == linear_index(
            old(digits)@,
            bounds@,
        ) + 1,
{
    let ghost d0 = digits@;
    let n = digits.len();
    for i in 0..n
        invariant
            n == digits@.len(),
            old(digits)@ == d0,
            in_bounds(d0, bounds@),
            digits@.len() == d0.len(),
            forall|j: int| 0 <= j < i ==> #[trigger] d0[j] == bounds@[j] - 1,
            forall|j: int| 0 <= j < i ==> #[trigger] digits@[j] == 0,
            forall|j: int| i <= j < n ==> #[trigger] digits@[j] == d0[j],
    {
        proof {
            assert(digits@[i as int] == d0[i as int]);
            assert(d0[i as int] < bounds@[i as int]);
        }
        let d = digits[i] + 1;
        if d < bounds[i] {
            digits.set(i, d);
            proof {
                let dn = digits@;
                assert(in_bounds(dn, bounds@));
                lemma_linear_index_split(d0, bounds@, i as int);
                lemma_linear_index_split(dn, bounds@, i as int);
                assert(in_bounds(d0.take(i as int), bounds@.take(i as int)));
                lemma_linear_index_max(d0.take(i as int), bounds@.take(i as int));
                lemma_linear_index_zero(dn.take(i as int), bounds@.take(i as int));
                let p = space_size(bounds@.take(i as int));
                let lo = linear_index(d0.skip(i as int), bounds@.skip(i as int));
                let ln = linear_index(dn.skip(i as int), bounds@.skip(i as int));
                assert(dn.skip(i as int).drop_first() =~= d0.skip(i as int).drop_first());
                assert(ln == lo + 1);
                lemma_mul_is_distributive_add(p, lo, 1);
                assert(p * (lo + 1) == p * lo + p * 1);
                assert(linear_index(dn, bounds@) == linear_index(d0, bounds@) + 1);
                lemma_linear_index_bounds(dn, bounds@);
            }
            return false;
        }
        digits.set(i, 0);
    }
    proof {
        lemma_linear_index_max(d0, bounds@);
        lemma_linear_index_zero(digits@, bounds@);
        assert forall|j: int| 0 <= j < digits@.len() implies #[trigger] digits@[j]
            < bounds@[j] by {
            assert(d0[j] < bounds@[j]);
        }
    }
    true
}

/// The number of digit vectors below `sizes`, computed as the running
/// product of the bounds.
pub(crate) fn space_size_exec(sizes: &Vec<usize>) -> (r: usize)
    requires
        space_size(sizes@) <= usize::MAX,
    ensures
        r == space_size(sizes@),
{
    let n = sizes.len();
    for i in 0..n
        invariant
            n == sizes@.len(),
            forall|j: int| 0 <= j < i ==> #[trigger] sizes@[j] > 0,
    {
        if sizes[i] == 0 {
            proof {
                lemma_space_size_zero(sizes@, i as int);
            }
            return 0;
        }
    }
    let mut acc: usize = 1;
    proof {
        assert(sizes@.take(0) =~= Seq::<usize>::empty());
    }
    for i in 0..n
        invariant
            n == sizes@.len(),
            space_size(sizes@) <= usize::MAX,
            forall|j: int| 0 <= j < n ==> #[trigger] sizes@[j] > 0,
            acc == space_size(sizes@.take(i as int)),
    {
        proof {
            lemma_prefix_size_step(sizes@, i as int);
        }
        acc = acc * sizes[i];
    }
    proof {
        assert(sizes@.take(n as int) =~= sizes@);
    }
    acc
}

/// Phase of a streaming walk: before the first element, on an element, or
/// past the last.
pub(crate) enum IteratorState {
    Start,
    Running,
    End,
}

/// Streaming walk over the flat set `{0, ..., size - 1}`.
pub struct USizeStreamingIterator {
    state: IteratorState,
    element: usize,
    size: usize,
}

impl USizeStreamingIterator {
    /// Number of elements of the underlying flat set.
    pub closed spec fn spec_size(&self) -> int {
        self.size as int
    }

    /// Walk position: one before the first element at the start, the current
    /// element while running, the set size once finished.
    pub closed spec fn pos(&self) -> int {
        match self.state {
            IteratorState::Start => -1,
            IteratorState::Running => self.element as int,
            IteratorState::End => self.size as int,
        }
    }

    /// The stored element is consistent with the walk phase.
    pub closed spec fn wf(&self) -> bool {
        match self.state {
            IteratorState::Start => self.element == 0,
            IteratorState::Running => self.element < self.size,
            IteratorState::End => self.element == 0,
        }
    }

    pub fn new(size: usize) -> (out: Self)
        ensures
            out.wf(),
            out.spec_size() == size,
            out.pos() == -1,
    {
        Self { state: IteratorState::Start, element: 0, size }
    }

    /// Step the walk: the position advances by one through every element and
    /// then stays at the size.
    pub fn advance(&mut self)
        requires
            old(self).wf(),
        ensures
            final(self).wf(),
            final(self).spec_size() == old(self).spec_size(),
            final(self).pos() == if old(self).pos() + 1 <= old(self).spec_size() {
                old(self).pos() + 1
            } else {
                old(self).spec_size()
            },
    {
        match self.state {
            IteratorState::Start => {
                if self.size == 0 {
                    self.state = IteratorState::End;
                } else {
                    self.state = IteratorState::Running;
                }
            },
            IteratorState::Running => {
                self.element += 1;
                if self.element == self.size {
                    // Reset the counter, consistent with the vector walk.
                    self.element = 0;
                    self.state = IteratorState::End;
                }
            },
            IteratorState::End => {},
        }
    }

    /// The current element, or `None` before the first step and once the
    /// walk has finished.
    pub fn get(&self) -> (r: Option<&usize>)
        requires
            self.wf(),
        ensures
            r.is_some() <==> 0 <= self.pos() < self.spec_size(),
            r.is_some() ==> *r.unwrap() == self.pos(),
    {
        match self.state {
            IteratorState::Running => Some(&self.element),
            _ => None,
        }
    }
}

/// Streaming odometer walk over the digit vectors below a borrowed bound
/// vector.
pub struct VecStreamingIterator<'set> {
    state: IteratorState,
    entries: Vec<usize>,
    sizes: &'set Vec<usize>,
}

impl<'set> VecStreamingIterator<'set> {
    /// The bound vector of the walk.
    pub closed spec fn bounds_view(&self) -> Seq<usize> {
        self.sizes@
    }

    /// The current digit vector.
    pub closed spec fn current_view(&self) -> Seq<usize> {
        self.entries@
    }

    /// The walk has yielded every digit vector.
    pub closed spec fn finished(&self) -> bool {
        match self.state {
            IteratorState::End => true,
            _ => false,
        }
    }

    /// Walk position: one before the first vector at the start, the linear
    /// index of the current vector while running, the space size once
    /// finished.
    pub closed spec fn pos(&self) -> int {
        match self.state {
            IteratorState::Start => -1,
            IteratorState::Running => linear_index(self.entries@, self.sizes@),
            IteratorState::End => space_size(self.sizes@),
        }
    }

    /// The stored digits are consistent with the walk phase.
    pub closed spec fn wf(&self) -> bool {
        &&& self.entries@.len() == self.sizes@.len()
        &&& match self.state {
            IteratorState::Start => forall|i: int|
                0 <= i < self.entries@.len() ==> #[trigger] self.entries@[i] == 0,
            IteratorState::Running => in_bounds(self.entries@, self.sizes@),
            IteratorState::End => forall|i: int|
                0 <= i < self.entries@.len() ==> #[trigger] self.entries@[i] == 0,
        }
    }

    pub fn new(sizes: &'set Vec<usize>) -> (out: Self)
        ensures
            out.wf(),
            out.bounds_view() == sizes@,
            out.pos() == -1,
            !out.finished(),
    {
        let entries = zero_vec(sizes.len());
        Self { state: IteratorState::Start, entries, sizes }
    }

    /// Step the walk: the position advances by one through every digit
    /// vector, in linear-index order, and then stays at the space size.
    /// The first step keeps the all-zero digits; while the walk is on an
    /// element the digits are the in-bounds vector of the position; once
    /// finished the digits have wrapped to all-zero and stay there.
    pub fn advance(&mut self)
        requires
            old(self).wf(),
        ensures
            final(self).wf(),
            final(self).bounds_view() == old(self).bounds_view(),
            final(self).current_view().len() == old(self).current_view().len(),
            final(self).pos() == if old(self).pos() + 1 <= space_size(old(self).bounds_view()) {
                old(self).pos() + 1
            } else {
                space_size(old(self).bounds_view())
            },
            old(self).pos() == -1 ==> final(self).current_view() == old(self).current_view(),
            final(self).finished() ==> (forall|i: int|
                0 <= i < final(self).current_view().len()
                    ==> #[trigger] final(self).current_view()[i] == 0),
            !final(self).finished() && final(self).pos() >= 0 ==> in_bounds(
                final(self).current_view(),
                final(self).bounds_view(),
            ) && linear_index(final(self).current_view(), final(self).bounds_view())
                == final(self).pos(),
            final(self).finished() <==> final(self).pos() == space_size(
                final(self).bounds_view(),
            ),
    {
        match self.state {
            IteratorState::Start => {
                let n = self.sizes.len();
                for i in 0..n
                    invariant
                        *self == *old(self),
                        old(self).pos() == -1,
                        n == self.sizes@.len(),
                        forall|j: int| 0 <= j < i ==> #[trigger] self.sizes@[j] > 0,
                        self.entries@.len() == self.sizes@.len(),
                        forall|j: int|
                            0 <= j < self.entries@.len() ==> #[trigger] self.entries@[j] == 0,
                {
                    if self.sizes[i] == 0 {
                        proof {
                            lemma_space_size_zero(self.sizes@, i as int);
                        }
                        self.state = IteratorState::End;
                        return ;
                    }
                }
                proof {
                    lemma_space_size_positive(self.sizes@);
                    lemma_linear_index_zero(self.entries@, self.sizes@);
                }
                self.state = IteratorState::Running;
            },
            IteratorState::Running => {
                proof {
                    lemma_linear_index_bounds(self.entries@, self.sizes@);
                }
                let exhausted = advance(&mut self.entries, self.sizes);
                proof {
                    lemma_linear_index_bounds(self.entries@, self.sizes@);
                }
                if exhausted {
                    self.state = IteratorState::End;
                }
            },
            IteratorState::End => {},
        }
    }

    /// The current digit vector; `None` only once the walk has finished.
    /// While the walk is on an element, the vector yielded is the one whose
    /// linear index is the walk position.
    pub fn get(&self) -> (r: Option<&Vec<usize>>)
        requires
            self.wf(),
        ensures
            r.is_some() <==> !self.finished(),
            r.is_some() <==> self.pos() < space_size(self.bounds_view()),
            r.is_some() ==> r.unwrap()@ == self.current_view(),
            r.is_some() && self.pos() >= 0 ==> in_bounds(r.unwrap()@, self.bounds_view())
                && linear_index(r.unwrap()@, self.bounds_view()) == self.pos(),
            r.is_some() && self.pos() < 0 ==> (forall|i: int|
                0 <= i < r.unwrap()@.len() ==> #[trigger] r.unwrap()@[i] == 0),
    {
        proof {
            lemma_space_size_nonneg(self.sizes@);
            if in_bounds(self.entries@, self.sizes@) {
                lemma_linear_index_bounds(self.entries@, self.sizes@);
            }
        }
        match self.state {
            IteratorState::End => None,
            _ => Some(&self.entries),
        }
    }
}

} // verus!
