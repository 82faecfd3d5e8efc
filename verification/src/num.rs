//! Small exact-arithmetic helpers shared by the matching, merging and
//! summary rules: rounding to the nearest integer with ties away from zero,
//! and floor division for apportioning a total over parts.

use vstd::prelude::*;

verus! {

/// `n / d` rounded to the nearest integer, ties away from zero, for even
/// `d > 0`. This is the rounding the domain rules use when a price
/// difference is turned into whole pips or an averaged rate is cut to three
/// decimals.
pub open spec fn spec_round_half_away(n: int, d: int) -> int {
    if n >= 0 {
        (n + d / 2) / d
    } else {
        -(((-n) + d / 2) / d)
    }
}

/// Magnitude of `n` as an unsigned value.
pub fn abs_u64(n: i64) -> (r: u64)
    requires
        n != i64::MIN,
    ensures
        r == if n >= 0 { n as int } else { -n as int },
{
    if n >= 0 {
        n as u64
    } else {
        (-n) as u64
    }
}

/// Rounds `n / d` to the nearest integer with ties away from zero.
pub fn round_half_away_div(n: i64, d: u64) -> (r: i64)
    requires
        0 < d <= 0x2000_0000_0000_0000,
        d % 2 == 0,
        -0x2000_0000_0000_0000 <= n <= 0x2000_0000_0000_0000,
    ensures
        r == spec_round_half_away(n as int, d as int),
{
    let m: u64 = abs_u64(n);
    let q: u64 = (m + d / 2) / d;
    assert(q <= m + d / 2) by {
        vstd::arithmetic::div_mod::lemma_div_nonincreasing((m + d / 2) as int, d as int);
        vstd::arithmetic::div_mod::lemma_div_pos_is_pos((m + d / 2) as int, d as int);
    };
    if n >= 0 {
        q as i64
    } else {
        -(q as i64)
    }
}

/// Floor of `n / d` for `d > 0` (the Euclidean quotient of the
/// specification language).
pub fn floor_div(n: i64, d: u64) -> (r: i64)
    requires
        0 < d <= 0x2000_0000_0000_0000,
        -0x2000_0000_0000_0000 <= n <= 0x2000_0000_0000_0000,
    ensures
        r == n as int / d as int,
{
    if n >= 0 {
        let q: u64 = (n as u64) / d;
        assert(q <= n) by {
            vstd::arithmetic::div_mod::lemma_div_nonincreasing(n as int, d as int);
            vstd::arithmetic::div_mod::lemma_div_pos_is_pos(n as int, d as int);
        };
        q as i64
    } else {
        let m: u64 = (-n) as u64;
        let q: u64 = (m + (d - 1)) / d;
        assert(q <= m + (d - 1)) by {
            vstd::arithmetic::div_mod::lemma_div_nonincreasing((m + (d - 1)) as int, d as int);
            vstd::arithmetic::div_mod::lemma_div_pos_is_pos((m + (d - 1)) as int, d as int);
        };
        proof {
            lemma_neg_ceil_is_floor(m as int, d as int);
        }
        -(q as i64)
    }
}

/// For `m >= 0` and `d > 0`: `-((m + d - 1) / d) == (-m) / d` under
/// Euclidean division.
proof fn lemma_neg_ceil_is_floor(m: int, d: int)
    requires
        m >= 0,
        d > 0,
    ensures
        -((m + d - 1) / d) == (-m) / d,
{
    let q = m / d;
    let r = m % d;
    vstd::arithmetic::div_mod::lemma_fundamental_div_mod(m, d);
    vstd::arithmetic::div_mod::lemma_mod_bound(m, d);
    vstd::arithmetic::mul::lemma_mul_is_distributive_add_other_way(d, q, 1);
    vstd::arithmetic::mul::lemma_mul_is_distributive_add_other_way(d, -q, -1);
    if r == 0 {
        assert(m + d - 1 == q * d + (d - 1)) by {
            vstd::arithmetic::mul::lemma_mul_is_commutative(d, q);
        };
        vstd::arithmetic::div_mod::lemma_fundamental_div_mod_converse_div(m + d - 1, d, q, d - 1);
        assert(-m == (-q) * d + 0) by {
            vstd::arithmetic::mul::lemma_mul_is_commutative(d, q);
            vstd::arithmetic::mul::lemma_mul_unary_negation(q, d);
        };
        vstd::arithmetic::div_mod::lemma_fundamental_div_mod_converse_div(-m, d, -q, 0);
    } else {
        assert(m + d - 1 == (q + 1) * d + (r - 1)) by {
            vstd::arithmetic::mul::lemma_mul_is_commutative(d, q);
            vstd::arithmetic::mul::lemma_mul_is_distributive_add_other_way(d, q, 1);
        };
        vstd::arithmetic::div_mod::lemma_fundamental_div_mod_converse_div(m + d - 1, d, q + 1, r - 1);
        assert(-m == (-(q + 1)) * d + (d - r)) by {
            vstd::arithmetic::mul::lemma_mul_is_commutative(d, q);
            vstd::arithmetic::mul::lemma_mul_unary_negation(q + 1, d);
            vstd::arithmetic::mul::lemma_mul_is_distributive_add_other_way(d, q, 1);
        };
        vstd::arithmetic::div_mod::lemma_fundamental_div_mod_converse_div(-m, d, -(q + 1), d - r);
    }
}

} // verus!
