//! Distances as ordered integer keys.
//!
//! A distance is a non-negative finite IEEE-754 double precision number. It is
//! handed over as its bit pattern, as `f64::to_bits` gives it. Among such
//! numbers the greater number has the greater pattern, so the pattern itself
//! serves as the key by which candidates are ordered. Negative zero is zero and
//! gets the key of zero. Patterns of negative numbers, of the infinities and of
//! NaN are no distances.
use vstd::arithmetic::power2::{
    lemma_pow2_pos, lemma_pow2_strictly_increases, lemma_pow2_unfold, pow2,
};
use vstd::prelude::*;

verus! {

/// Pattern of positive infinity. Every key is smaller, so as a bound it
/// excludes no candidate.
pub const UNBOUNDED: u64 = 0x7ff0_0000_0000_0000;

/// Pattern of negative zero.
pub const NEGATIVE_ZERO: u64 = 0x8000_0000_0000_0000;

/// Whether `bits` is the pattern of a non-negative finite number.
pub open spec fn is_distance(bits: u64) -> bool {
    bits < UNBOUNDED || bits == NEGATIVE_ZERO
}

/// The key under which the distance with pattern `bits` is ordered.
pub open spec fn key_of(bits: u64) -> u64 {
    if bits == NEGATIVE_ZERO {
        0
    } else {
        bits
    }
}

/// Checks a pattern and gives its key: `None` for what is no distance.
pub fn distance_key(bits: u64) -> (key: Option<u64>)
    ensures
        is_distance(bits) ==> key == Some(key_of(bits)),
        !is_distance(bits) ==> key.is_none(),
        key matches Some(k) ==> k < UNBOUNDED,
{
    if bits < UNBOUNDED {
        Some(bits)
    } else if bits == NEGATIVE_ZERO {
        Some(0)
    } else {
        None
    }
}

/// How many patterns share one exponent: two to the power of 52, the width of
/// the fraction field.
pub const FRACTION_SPAN: u64 = 0x10_0000_0000_0000;

/// The exponent field of a key.
pub open spec fn exponent_of(key: u64) -> nat {
    (key / FRACTION_SPAN) as nat
}

/// The fraction field of a key.
pub open spec fn fraction_of(key: u64) -> nat {
    (key % FRACTION_SPAN) as nat
}

/// The number that a key stands for, counted in steps of the smallest
/// positive double precision number, two to the power of -1074.
///
/// With exponent field zero the number is subnormal and the fraction counts
/// the steps. Otherwise the fraction has its leading one before it, and each
/// further exponent doubles the number.
pub open spec fn magnitude(key: u64) -> nat {
    if exponent_of(key) == 0 {
        fraction_of(key)
    } else {
        ((FRACTION_SPAN + fraction_of(key)) * pow2((exponent_of(key) - 1) as nat)) as nat
    }
}

/// With one more in the exponent field a number is beyond every number of
/// the exponent before.
proof fn lemma_next_exponent_is_beyond(low: u64, high: u64)
    requires
        exponent_of(low) < exponent_of(high),
    ensures
        magnitude(low) < magnitude(high),
{
    let span = FRACTION_SPAN as int;
    let above = pow2((exponent_of(high) - 1) as nat) as int;
    lemma_pow2_pos((exponent_of(high) - 1) as nat);
    assert(magnitude(high) >= span * above) by (nonlinear_arith)
        requires
            magnitude(high) == (span + fraction_of(high)) * above,
            above > 0,
            span > 0,
    ;
    if exponent_of(low) == 0 {
        assert(span * above >= span) by (nonlinear_arith)
            requires
                above >= 1,
                span > 0,
        ;
    } else {
        let below = pow2((exponent_of(low) - 1) as nat) as int;
        lemma_pow2_pos((exponent_of(low) - 1) as nat);
        lemma_pow2_unfold(exponent_of(low));
        if exponent_of(low) < exponent_of(high) - 1 {
            lemma_pow2_strictly_increases(exponent_of(low), (exponent_of(high) - 1) as nat);
        }
        assert(2 * below <= above);
        assert(magnitude(low) < span * above) by (nonlinear_arith)
            requires
                magnitude(low) == (span + fraction_of(low)) * below,
                fraction_of(low) < span,
                below > 0,
                2 * below <= above,
                span > 0,
        ;
    }
}

/// The greater key stands for the greater number.
proof fn lemma_greater_key_is_farther(low: u64, high: u64)
    requires
        low < high,
    ensures
        magnitude(low) < magnitude(high),
{
    let span = FRACTION_SPAN as int;
    assert(low == span * (low / FRACTION_SPAN) + low % FRACTION_SPAN);
    assert(high == span * (high / FRACTION_SPAN) + high % FRACTION_SPAN);
    if exponent_of(low) < exponent_of(high) {
        lemma_next_exponent_is_beyond(low, high);
    } else {
        assert(exponent_of(low) == exponent_of(high) && fraction_of(low) < fraction_of(high))
            by (nonlinear_arith)
            requires
                low < high,
                low == span * exponent_of(low) + fraction_of(low),
                high == span * exponent_of(high) + fraction_of(high),
                exponent_of(low) >= exponent_of(high),
                fraction_of(low) < span,
                fraction_of(high) < span,
                span > 0,
        ;
        if exponent_of(low) > 0 {
            let scale = pow2((exponent_of(low) - 1) as nat) as int;
            lemma_pow2_pos((exponent_of(low) - 1) as nat);
            assert((span + fraction_of(low)) * scale < (span + fraction_of(high)) * scale)
                by (nonlinear_arith)
                requires
                    fraction_of(low) < fraction_of(high),
                    scale > 0,
            ;
        }
    }
}

/// Keys stand in the order of the numbers they stand for: to compare two
/// keys is to compare the two distances.
pub proof fn lemma_keys_order_as_distances(first: u64, second: u64)
    ensures
        first < second <==> magnitude(first) < magnitude(second),
        first == second <==> magnitude(first) == magnitude(second),
{
    if first < second {
        lemma_greater_key_is_farther(first, second);
    }
    if second < first {
        lemma_greater_key_is_farther(second, first);
    }
}

} // verus!
