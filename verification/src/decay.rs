//! The linear decay function.
//!
//! A locked value decays linearly from its full amount at the lock's start
//! down to zero once the lock window has fully elapsed:
//! `decay(v, start, lock, now) = v * (lock - (now - start)) / lock`,
//! clamped to zero from `start + lock` onward.  Integer division rounds
//! toward zero.  The same function is applied to individual positions and to
//! each duration bucket's aggregate.

use vstd::prelude::*;
use vstd::arithmetic::div_mod::{
    lemma_div_is_ordered, lemma_div_multiples_vanish, lemma_div_multiples_vanish_fancy,
    lemma_fundamental_div_mod, lemma_mod_bound,
};

verus! {

/// Mathematical form of the decay function, over unbounded integers.
///
/// Meaningful for `lock > 0` and `start <= now`; total for all arguments.
pub open spec fn spec_decay(value: int, start: int, lock: int, now: int) -> int {
    if now - start >= lock {
        0
    } else {
        value * (lock - (now - start)) / lock
    }
}

/// The decayed value never exceeds the original value.
pub proof fn lemma_decay_le_value(value: int, start: int, lock: int, now: int)
    requires
        0 <= value,
        0 < lock,
        start <= now,
    ensures
        0 <= spec_decay(value, start, lock, now) <= value,
{
    if now - start < lock {
        let rem = lock - (now - start);
        assert(0 <= value * rem && value * rem <= value * lock && value * lock == lock * value)
            by (nonlinear_arith)
            requires
                0 <= value,
                0 < rem <= lock,
        ;
        lemma_div_is_ordered(0, value * rem, lock);
        lemma_div_is_ordered(value * rem, value * lock, lock);
        lemma_div_multiples_vanish(value, lock);
    }
}

/// Decay is non-increasing in the current time.
pub proof fn lemma_decay_non_increasing(value: int, start: int, lock: int, t1: int, t2: int)
    requires
        0 <= value,
        0 < lock,
        start <= t1 <= t2,
    ensures
        spec_decay(value, start, lock, t2) <= spec_decay(value, start, lock, t1),
{
    lemma_decay_le_value(value, start, lock, t1);
    if t2 - start < lock {
        let rem1 = lock - (t1 - start);
        let rem2 = lock - (t2 - start);
        assert(value * rem2 <= value * rem1) by (nonlinear_arith)
            requires
                0 <= value,
                rem2 <= rem1,
        ;
        lemma_div_is_ordered(value * rem2, value * rem1, lock);
    }
}

/// From maturity onward the decayed value is exactly zero.
pub proof fn lemma_decay_zero_after_maturity(value: int, start: int, lock: int, now: int)
    requires
        now - start >= lock,
    ensures
        spec_decay(value, start, lock, now) == 0,
{
}

/// Floor division distributes over a sum up to one lost unit:
/// `x/d + y/d <= (x+y)/d <= x/d + y/d + 1`.
pub proof fn lemma_div_sum_bounds(x: int, y: int, d: int)
    requires
        0 <= x,
        0 <= y,
        0 < d,
    ensures
        x / d + y / d <= (x + y) / d <= x / d + y / d + 1,
{
    let qx = x / d;
    let qy = y / d;
    lemma_fundamental_div_mod(x, d);
    lemma_fundamental_div_mod(y, d);
    lemma_mod_bound(x, d);
    lemma_mod_bound(y, d);
    let r = x % d + y % d;
    assert(x + y == d * (qx + qy) + r) by (nonlinear_arith)
        requires
            x == d * qx + x % d,
            y == d * qy + y % d,
            r == x % d + y % d,
    ;
    if r < d {
        lemma_div_multiples_vanish_fancy(qx + qy, r, d);
    } else {
        assert(x + y == d * (qx + qy + 1) + (r - d)) by (nonlinear_arith)
            requires
                x + y == d * (qx + qy) + r,
        ;
        lemma_div_multiples_vanish_fancy(qx + qy + 1, r - d, d);
    }
}

/// Merging two values that share a lock start loses at most one unit to
/// rounding: the decayed whole is at least the sum of the decayed parts and
/// at most that sum plus one.
pub proof fn lemma_decay_superadditive(a: int, b: int, start: int, lock: int, now: int)
    requires
        0 <= a,
        0 <= b,
        0 < lock,
        start <= now,
    ensures
        spec_decay(a, start, lock, now) + spec_decay(b, start, lock, now)
            <= spec_decay(a + b, start, lock, now),
        spec_decay(a + b, start, lock, now)
            <= spec_decay(a, start, lock, now) + spec_decay(b, start, lock, now) + 1,
{
    if now - start < lock {
        let rem = lock - (now - start);
        assert((a + b) * rem == a * rem + b * rem && 0 <= a * rem && 0 <= b * rem)
            by (nonlinear_arith)
            requires
                0 <= a,
                0 <= b,
                0 < rem,
        ;
        lemma_div_sum_bounds(a * rem, b * rem, lock);
    }
}

/// Executable decay over machine integers; the intermediate product is taken
/// in 128 bits, so no overflow is possible for any arguments.
pub fn decay(value: u64, start: u64, lock: u64, now: u64) -> (r: u64)
    requires
        0 < lock,
        start <= now,
    ensures
        r == spec_decay(value as int, start as int, lock as int, now as int),
        r <= value,
{
    proof {
        lemma_decay_le_value(value as int, start as int, lock as int, now as int);
    }
    if now - start >= lock {
        0
    } else {
        let rem = lock - (now - start);
        proof {
            assert((value as int) * (rem as int) <= u128::MAX) by (nonlinear_arith)
                requires
                    value <= u64::MAX,
                    rem <= u64::MAX,
            ;
            assert((value as int) * (rem as int) <= (value as int) * (lock as int)
                && (value as int) * (lock as int) == (lock as int) * (value as int))
                by (nonlinear_arith)
                requires
                    0 < rem <= lock,
            ;
            lemma_div_is_ordered(
                (value as int) * (rem as int),
                (value as int) * (lock as int),
                lock as int,
            );
            lemma_div_multiples_vanish(value as int, lock as int);
        }
        let wide = (value as u128) * (rem as u128) / (lock as u128);
        wide as u64
    }
}

} // verus!
