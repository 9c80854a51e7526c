//! Algorithms written once for every float format.

use vstd::prelude::*;

pub mod ceil;
pub mod copysign;
pub mod fabs;
pub mod floor;
pub mod rint;
pub mod round;
pub mod trunc;

verus! {

use vstd::arithmetic::div_mod::{
    lemma_fundamental_div_mod, lemma_fundamental_div_mod_converse, lemma_mod_multiples_basic,
    lemma_div_is_ordered,
};
use crate::support::float_traits::{Float, is_finite, units, is_neg};
use crate::support::int_traits::abs_int;
use crate::generic::ceil::ceil_to_multiple;
use crate::generic::floor::floor_to_multiple;
use crate::generic::trunc::trunc_to_multiple;
use crate::generic::round::round_to_multiple;
use crate::generic::rint::rint_to_multiple;

/// `r` is what rounding `x` to an integer gives when rounding the value of a finite `x` gives
/// `target` (in units): a number that is not finite is returned as it is, and a zero result
/// keeps the sign of `x`.
pub open spec fn rounds_to<F: Float>(x: F, r: F, target: int) -> bool {
    &&& !is_finite(x) ==> r == x
    &&& is_finite(x) ==> {
        &&& is_finite(r)
        &&& units(r) == target
        &&& units(r) == 0 ==> is_neg(r) == is_neg(x)
    }
}

/// The quotient and remainder of `v` by `u`, and the two multiples of `u` around `v`.
proof fn lemma_neighbours(v: int, u: int)
    requires
        u > 0,
    ensures
        v == (v / u) * u + v % u,
        0 <= v % u < u,
        floor_to_multiple(v, u) == (v / u) * u,
        ceil_to_multiple(v, u) == (if v % u == 0 {
            (v / u) * u
        } else {
            (v / u + 1) * u
        }),
        abs_int(v) / u == (if v >= 0 {
            v / u
        } else if v % u == 0 {
            -(v / u)
        } else {
            -(v / u) - 1
        }),
        abs_int(v) % u == (if v >= 0 || v % u == 0 {
            v % u
        } else {
            u - v % u
        }),
{
    let q = v / u;
    let r = v % u;
    lemma_fundamental_div_mod(v, u);
    assert(v == q * u + r) by (nonlinear_arith)
        requires
            v == u * q + r,
    ;
    if r == 0 {
        assert(-v == (-q) * u + 0) by (nonlinear_arith)
            requires
                v == q * u,
        ;
        lemma_fundamental_div_mod_converse(-v, u, -q, 0);
    } else {
        assert(-v == (-q - 1) * u + (u - r)) by (nonlinear_arith)
            requires
                v == q * u + r,
        ;
        lemma_fundamental_div_mod_converse(-v, u, -q - 1, u - r);
    }
    assert(ceil_to_multiple(v, u) == -((-v) / u) * u);
    if r == 0 {
        assert(-(-q) * u == q * u) by (nonlinear_arith);
    } else {
        assert(-(-q - 1) * u == (q + 1) * u) by (nonlinear_arith);
    }
}

/// Rounding a number that is already a multiple of `u` gives it back, in every direction.
pub proof fn lemma_integral_fixed_point(v: int, u: int)
    requires
        u > 0,
        v % u == 0,
    ensures
        ceil_to_multiple(v, u) == v,
        floor_to_multiple(v, u) == v,
        trunc_to_multiple(v, u) == v,
        round_to_multiple(v, u) == v,
        rint_to_multiple(v, u) == v,
{
    lemma_neighbours(v, u);
    let m = abs_int(v);
    assert(m % u == 0);
    assert(m == (m / u) * u) by {
        lemma_neighbours(m, u);
    }
}

/// Each rounding gives a multiple of `u` between the multiples just below and just above
/// `v`, which are `u` apart unless `v` is a multiple itself; rounding to nearest is off by at
/// most half of `u`.
pub proof fn lemma_rounding_brackets(v: int, u: int)
    requires
        u > 0,
    ensures
        floor_to_multiple(v, u) <= v <= ceil_to_multiple(v, u),
        ceil_to_multiple(v, u) - floor_to_multiple(v, u) == (if v % u == 0 {
            0
        } else {
            u
        }),
        floor_to_multiple(v, u) % u == 0,
        ceil_to_multiple(v, u) % u == 0,
        trunc_to_multiple(v, u) == floor_to_multiple(v, u) || trunc_to_multiple(v, u)
            == ceil_to_multiple(v, u),
        round_to_multiple(v, u) == floor_to_multiple(v, u) || round_to_multiple(v, u)
            == ceil_to_multiple(v, u),
        rint_to_multiple(v, u) == floor_to_multiple(v, u) || rint_to_multiple(v, u)
            == ceil_to_multiple(v, u),
        2 * abs_int(round_to_multiple(v, u) - v) <= u,
        2 * abs_int(rint_to_multiple(v, u) - v) <= u,
        abs_int(trunc_to_multiple(v, u)) <= abs_int(v),
{
    lemma_neighbours(v, u);
    let q = v / u;
    let r = v % u;
    lemma_mod_multiples_basic(q, u);
    lemma_mod_multiples_basic(q + 1, u);
    assert((q + 1) * u == q * u + u) by (nonlinear_arith);
    let m = abs_int(v);
    let qm = m / u;
    let rm = m % u;
    if v >= 0 {
        assert(round_to_multiple(v, u) == (if 2 * r >= u {
            (q + 1) * u
        } else {
            q * u
        }));
    } else if r == 0 {
        assert(-((-q) * u) == q * u) by (nonlinear_arith);
        assert(-((-q + 1) * u) == q * u - u) by (nonlinear_arith);
        assert(round_to_multiple(v, u) == q * u);
        assert(rint_to_multiple(v, u) == q * u);
    } else {
        assert(-((-q - 1) * u) == (q + 1) * u) by (nonlinear_arith);
        assert(-((-q - 1 + 1) * u) == q * u) by (nonlinear_arith);
    }
}

/// What each rounding gives, stated by the conditions on its result alone: a multiple of `u`
/// that is the greatest not above `v` (down), the least not below `v` (up), the one of greatest
/// magnitude not above `|v|` with the sign of `v` (toward zero), and the nearest, of two
/// equally near the one that is an even multiple (to nearest) or the one farther from zero
/// (halfway cases away from zero).
pub proof fn lemma_rounding_characterized(v: int, u: int)
    requires
        u > 0,
    ensures
        floor_to_multiple(v, u) % u == 0,
        floor_to_multiple(v, u) <= v < floor_to_multiple(v, u) + u,
        ceil_to_multiple(v, u) % u == 0,
        ceil_to_multiple(v, u) - u < v <= ceil_to_multiple(v, u),
        trunc_to_multiple(v, u) % u == 0,
        abs_int(trunc_to_multiple(v, u)) <= abs_int(v) < abs_int(trunc_to_multiple(v, u)) + u,
        v < 0 ==> trunc_to_multiple(v, u) <= 0,
        v >= 0 ==> trunc_to_multiple(v, u) >= 0,
        rint_to_multiple(v, u) % u == 0,
        2 * abs_int(rint_to_multiple(v, u) - v) <= u,
        2 * abs_int(rint_to_multiple(v, u) - v) == u ==> (rint_to_multiple(v, u) / u) % 2 == 0,
        round_to_multiple(v, u) % u == 0,
        2 * abs_int(round_to_multiple(v, u) - v) <= u,
        2 * abs_int(round_to_multiple(v, u) - v) == u ==> abs_int(round_to_multiple(v, u))
            > abs_int(v),
{
    lemma_neighbours(v, u);
    lemma_rounding_brackets(v, u);
    lemma_rounding_monotonic_zero_side(v, u);
    let m = abs_int(v);
    let q = m / u;
    let r = m % u;
    lemma_fundamental_div_mod(m, u);
    let qq = if 2 * r > u || (2 * r == u && q % 2 == 1) {
        q + 1
    } else {
        q
    };
    let t = rint_to_multiple(v, u);
    assert(t == (if v < 0 {
        -(qq * u)
    } else {
        qq * u
    }));
    assert(m == q * u + r) by (nonlinear_arith)
        requires
            m == u * q + r,
    ;
    assert((q + 1) * u == q * u + u) by (nonlinear_arith);
    // The distance from the magnitude to the chosen multiple.
    let d = qq * u - m;
    assert(d == (if qq == q {
        -r
    } else {
        u - r
    }));
    assert(abs_int(t - v) == abs_int(d));
    if 2 * abs_int(d) == u {
        assert(2 * r == u);
        assert(qq % 2 == 0) by {
            if q % 2 == 1 {
                lemma_fundamental_div_mod(q, 2);
                lemma_fundamental_div_mod_converse(q + 1, 2, q / 2 + 1, 0);
            }
        }
        lemma_fundamental_div_mod(qq, 2);
        let h = qq / 2;
        if v < 0 {
            assert(t == (-qq) * u) by (nonlinear_arith)
                requires
                    t == -(qq * u),
            ;
            lemma_fundamental_div_mod_converse(t, u, -qq, 0);
            assert(-qq == (-h) * 2 + 0) by (nonlinear_arith)
                requires
                    qq == 2 * h + 0,
            ;
            lemma_fundamental_div_mod_converse(-qq, 2, -h, 0);
        } else {
            lemma_fundamental_div_mod_converse(t, u, qq, 0);
        }
    }
}

/// On each side of zero, rounding toward zero stays on that side.
proof fn lemma_rounding_monotonic_zero_side(v: int, u: int)
    requires
        u > 0,
    ensures
        v < 0 ==> trunc_to_multiple(v, u) <= 0,
        v >= 0 ==> trunc_to_multiple(v, u) >= 0,
{
    if v < 0 {
        lemma_rounding_monotonic_zero(v, 0, u);
    } else {
        lemma_rounding_monotonic_zero(-1, v, u);
    }
}

/// Rounding is idempotent: rounding a rounded number again, in any direction, gives it back.
pub proof fn lemma_rounding_idempotent(v: int, u: int)
    requires
        u > 0,
    ensures
        ceil_to_multiple(ceil_to_multiple(v, u), u) == ceil_to_multiple(v, u),
        floor_to_multiple(floor_to_multiple(v, u), u) == floor_to_multiple(v, u),
        trunc_to_multiple(trunc_to_multiple(v, u), u) == trunc_to_multiple(v, u),
        round_to_multiple(round_to_multiple(v, u), u) == round_to_multiple(v, u),
        rint_to_multiple(rint_to_multiple(v, u), u) == rint_to_multiple(v, u),
{
    lemma_rounding_brackets(v, u);
    lemma_integral_fixed_point(ceil_to_multiple(v, u), u);
    lemma_integral_fixed_point(floor_to_multiple(v, u), u);
}

/// Rounding down, up and toward zero keep the order of numbers.
pub proof fn lemma_rounding_monotonic(v: int, w: int, u: int)
    requires
        u > 0,
        v <= w,
    ensures
        floor_to_multiple(v, u) <= floor_to_multiple(w, u),
        ceil_to_multiple(v, u) <= ceil_to_multiple(w, u),
        trunc_to_multiple(v, u) <= trunc_to_multiple(w, u),
{
    lemma_div_is_ordered(v, w, u);
    lemma_div_is_ordered(-w, -v, u);
    assert((v / u) * u <= (w / u) * u) by (nonlinear_arith)
        requires
            v / u <= w / u,
            u > 0,
    ;
    assert(-((-v) / u) * u <= -((-w) / u) * u) by (nonlinear_arith)
        requires
            (-w) / u <= (-v) / u,
            u > 0,
    ;
    lemma_rounding_brackets(v, u);
    lemma_rounding_brackets(w, u);
    lemma_rounding_brackets(0, u);
    if v < 0 && w >= 0 {
        // Rounding toward zero takes a negative number to at most zero and a positive one
        // to at least zero.
        lemma_neighbours(0, u);
        lemma_rounding_monotonic_zero(v, w, u);
    }
}

/// Across zero, rounding toward zero gives at most zero below it and at least zero above.
proof fn lemma_rounding_monotonic_zero(v: int, w: int, u: int)
    requires
        u > 0,
        v < 0 <= w,
    ensures
        ceil_to_multiple(v, u) <= 0 <= floor_to_multiple(w, u),
{
    lemma_neighbours(v, u);
    lemma_neighbours(w, u);
    lemma_div_is_ordered(0, w, u);
    lemma_neighbours(0, u);
    assert(0 <= (w / u) * u) by (nonlinear_arith)
        requires
            0 <= w / u,
            u > 0,
    ;
    assert(v / u <= -1) by {
        lemma_div_is_ordered(v, -1, u);
        lemma_fundamental_div_mod_converse(-1, u, -1, u - 1);
    }
    assert((v / u + 1) * u <= 0) by (nonlinear_arith)
        requires
            v / u <= -1,
            u > 0,
    ;
    assert((v / u) * u <= 0) by (nonlinear_arith)
        requires
            v / u <= -1,
            u > 0,
    ;
}

} // verus!
