//! A fixed-point base-2 logarithm on integers, used by the entropy scoring
//! rule. `log2_fixed(n)` approximates `log2(n)` in units of `1/65536`:
//! the integer part is exact, and the fractional part interpolates linearly
//! between neighbouring powers of two. The function is monotone, which is
//! what the entropy score's non-negativity rests on.

use vstd::prelude::*;
use vstd::arithmetic::power2::*;
use vstd::arithmetic::div_mod::*;
use vstd::arithmetic::mul::*;

verus! {

/// The exact integer part of `log2(n)` (0 for `n < 2`).
pub open spec fn floor_log2(n: nat) -> nat
    decreases n,
{
    if n < 2 {
        0
    } else {
        1 + floor_log2(n / 2)
    }
}

/// `log2(n)` in units of `1/65536`: the exact integer part, plus a linear
/// interpolation between `pow2(b)` and `pow2(b + 1)`.
pub open spec fn log2_fixed_spec(n: nat) -> int {
    let b = floor_log2(n);
    b * 65536 + ((n - pow2(b)) * 65536) / (pow2(b) as int)
}

/// `floor_log2` brackets its argument between consecutive powers of two.
pub proof fn lemma_floor_log2_bounds(n: nat)
    requires
        n >= 1,
    ensures
        pow2(floor_log2(n)) <= n < pow2(floor_log2(n) + 1),
    decreases n,
{
    if n < 2 {
        lemma2_to64();
    } else {
        lemma_floor_log2_bounds(n / 2);
        let b = floor_log2(n / 2);
        lemma_pow2_unfold(b + 1);
        lemma_pow2_unfold(b + 2);
        lemma_fundamental_div_mod(n as int, 2);
        lemma_mod_bound(n as int, 2);
    }
}

/// Any bracketing between consecutive powers of two pins `floor_log2` down.
pub proof fn lemma_floor_log2_unique(n: nat, b: nat)
    requires
        pow2(b) <= n < pow2(b + 1),
    ensures
        floor_log2(n) == b,
    decreases b,
{
    lemma_pow2_pos(b);
    if b == 0 {
        lemma2_to64();
    } else {
        lemma_pow2_unfold(b);
        lemma_pow2_unfold(b + 1);
        lemma_pow2_pos((b - 1) as nat);
        // pow2(b - 1) <= n / 2 < pow2(b), so recursion applies to n / 2.
        lemma_fundamental_div_mod(n as int, 2);
        lemma_mod_bound(n as int, 2);
        assert(n >= 2);
        assert(n / 2 >= pow2((b - 1) as nat)) by {
            lemma_div_is_ordered(pow2(b) as int, n as int, 2);
            lemma_div_multiples_vanish(pow2((b - 1) as nat) as int, 2);
        }
        assert(n / 2 < pow2(b)) by {
            lemma_div_is_ordered(n as int, 2 * pow2(b) - 1, 2);
            assert((2 * pow2(b) - 1) / 2 == pow2(b) - 1) by {
                lemma_fundamental_div_mod(2 * pow2(b) - 1, 2);
            }
        }
        lemma_floor_log2_unique(n / 2, (b - 1) as nat);
    }
}

/// `floor_log2` is monotone.
pub proof fn lemma_floor_log2_mono(m: nat, n: nat)
    requires
        1 <= m <= n,
    ensures
        floor_log2(m) <= floor_log2(n),
{
    lemma_floor_log2_bounds(m);
    lemma_floor_log2_bounds(n);
    if floor_log2(m) > floor_log2(n) {
        lemma_pow2_strictly_increases(floor_log2(n) + 1, floor_log2(m) + 1);
        assert(pow2(floor_log2(n) + 1) <= pow2(floor_log2(m))) by {
            if floor_log2(n) + 1 < floor_log2(m) {
                lemma_pow2_strictly_increases(floor_log2(n) + 1, floor_log2(m));
            }
        }
    }
}

/// The fixed-point logarithm lies within the scaled unit interval above its
/// exact integer part.
pub proof fn lemma_log2_fixed_range(n: nat)
    requires
        n >= 1,
    ensures
        floor_log2(n) * 65536 <= log2_fixed_spec(n) < (floor_log2(n) + 1) * 65536,
{
    let b = floor_log2(n);
    let p = pow2(b) as int;
    lemma_floor_log2_bounds(n);
    lemma_pow2_pos(b);
    let frac = ((n - p) * 65536) / p;
    assert(frac >= 0) by {
        lemma_mul_nonnegative(n - p, 65536);
        lemma_div_pos_is_pos((n - p) * 65536, p);
    }
    assert(frac < 65536) by {
        lemma_pow2_unfold(b + 1);
        assert(n - p < p);
        assert((n - p) * 65536 < p * 65536) by {
            lemma_mul_strict_inequality(n - p, p, 65536);
        }
        lemma_multiply_divide_lt((n - p) * 65536, p, 65536);
    }
    assert(b * 65536 + frac < (b + 1) * 65536) by {
        lemma_mul_is_distributive_add_other_way(65536, b as int, 1);
    }
}

/// The fixed-point logarithm is monotone.
pub proof fn lemma_log2_fixed_mono(m: nat, n: nat)
    requires
        1 <= m <= n,
    ensures
        log2_fixed_spec(m) <= log2_fixed_spec(n),
{
    let bm = floor_log2(m);
    let bn = floor_log2(n);
    lemma_floor_log2_mono(m, n);
    lemma_log2_fixed_range(m);
    lemma_log2_fixed_range(n);
    if bm == bn {
        let p = pow2(bm) as int;
        lemma_floor_log2_bounds(m);
        lemma_pow2_pos(bm);
        assert((m - p) * 65536 <= (n - p) * 65536) by {
            lemma_mul_inequality(m - p, n - p, 65536);
        }
        lemma_div_is_ordered((m - p) * 65536, (n - p) * 65536, p);
    } else {
        // bm < bn: everything below (bm + 1) * 65536 is at most bn * 65536.
        assert((bm + 1) * 65536 <= bn * 65536) by {
            lemma_mul_inequality(bm as int + 1, bn as int, 65536);
        }
    }
}

/// For arguments below 2^32 the integer part stays below 32, so the
/// fixed-point logarithm stays below `33 * 65536`.
pub proof fn lemma_log2_fixed_upper(n: nat)
    requires
        1 <= n < 0x1_0000_0000,
    ensures
        floor_log2(n) < 32,
        0 <= log2_fixed_spec(n) < 33 * 65536,
{
    lemma_floor_log2_bounds(n);
    lemma2_to64();
    if floor_log2(n) >= 32 {
        if floor_log2(n) > 32 {
            lemma_pow2_strictly_increases(32, floor_log2(n));
        }
        assert(pow2(floor_log2(n)) >= 0x1_0000_0000);
    }
    lemma_log2_fixed_range(n);
    assert((floor_log2(n) + 1) * 65536 <= 33 * 65536) by {
        lemma_mul_inequality(floor_log2(n) as int + 1, 33, 65536);
    }
    assert(floor_log2(n) * 65536 >= 0) by {
        lemma_mul_nonnegative(floor_log2(n) as int, 65536);
    }
}

/// Compute the fixed-point base-2 logarithm of `n`.
pub fn log2_fixed(n: u64) -> (r: u64)
    requires
        1 <= n < 0x1_0000_0000,
    ensures
        r as int == log2_fixed_spec(n as nat),
        r < 33 * 65536,
{
    let mut b: u64 = 0;
    let mut p: u64 = 1;
    proof {
        lemma2_to64();
    }
    while p * 2 <= n
        invariant
            1 <= n < 0x1_0000_0000,
            p == pow2(b as nat),
            p <= n,
            b < 32,
        decreases n - p,
    {
        proof {
            lemma_pow2_unfold(b as nat + 1);
            lemma2_to64();
            if b + 1 >= 32 {
                if b + 1 > 32 {
                    lemma_pow2_strictly_increases(32, b as nat + 1);
                }
                assert(pow2(b as nat + 1) >= 0x1_0000_0000);
            }
        }
        b = b + 1;
        p = p * 2;
    }
    proof {
        lemma_pow2_unfold(b as nat + 1);
        lemma_floor_log2_unique(n as nat, b as nat);
        lemma_log2_fixed_range(n as nat);
        lemma_pow2_pos(b as nat);
        assert((n - p) * 65536 <= (p - 1) * 65536) by {
            lemma_mul_inequality(n as int - p, p as int - 1, 65536);
        }
        assert((p - 1) * 65536 < 0x1_0000_0000 * 65536) by {
            lemma_mul_strict_inequality(p as int - 1, 0x1_0000_0000, 65536);
        }
        assert(((n - p) * 65536) / (p as int) >= 0) by {
            lemma_mul_nonnegative(n as int - p, 65536);
            lemma_div_pos_is_pos((n as int - p) * 65536, p as int);
        }
    }
    let frac = ((n - p) * 65536) / p;
    b * 65536 + frac
}

} // verus!
