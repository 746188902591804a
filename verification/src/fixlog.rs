//! Base-10 logarithm of an integer count in Q20 fixed point.
//!
//! A score of `v` stands for the real number `v / 2^20`.  The logarithm is
//! computed exactly in integer arithmetic: the integer part of `log2` by
//! repeated halving, twenty fractional bits by the classic squaring method,
//! and a final rescale by `log10(2)` in Q20.

use vstd::prelude::*;
use vstd::arithmetic::power2::{
    pow2, lemma_pow2_adds, lemma_pow2_pos, lemma_pow2_strictly_increases, lemma2_to64,
    lemma2_to64_rest,
};
use vstd::arithmetic::div_mod::{
    lemma_div_denominator, lemma_div_is_ordered, lemma_div_multiples_vanish,
    lemma_fundamental_div_mod, lemma_multiply_divide_lt,
};
use vstd::arithmetic::mul::lemma_mul_inequality;

verus! {

/// `log10(2)` in Q20 fixed point, rounded to nearest.
pub const LOG10_2_Q20: u64 = 315653;

/// The Q20 fixed-point unit: `2^20`.
pub const Q20: u64 = 1048576;

/// Upper bound of [`spec_log10_q20`] on any count below `2^128`:
/// `128 * LOG10_2_Q20`.
pub const LOG_MAX: u64 = 40403584;

/// Integer part of the base-2 logarithm.
pub open spec fn spec_ilog2(x: int) -> int
    recommends
        x >= 1,
    decreases x,
{
    if x < 2 {
        0
    } else {
        1 + spec_ilog2(x / 2)
    }
}

/// One step of the squaring method: square the Q32 mantissa and take the
/// produced integer bit as the next fraction bit.
pub open spec fn lg_step(m: int, f: int) -> (int, int) {
    let m2 = (m * m) / 0x100000000;
    if m2 >= 0x200000000 {
        (m2 / 2, 2 * f + 1)
    } else {
        (m2, 2 * f)
    }
}

/// `n` applications of [`lg_step`].
pub open spec fn lg_iter(m: int, f: int, n: nat) -> (int, int)
    decreases n,
{
    if n == 0 {
        (m, f)
    } else {
        let s = lg_step(m, f);
        lg_iter(s.0, s.1, (n - 1) as nat)
    }
}

/// The mantissa of `x` normalized to Q32, a value in `[2^32, 2^33)`.
pub open spec fn spec_mantissa(x: int) -> int {
    x * 0x100000000 / pow2(spec_ilog2(x) as nat) as int
}

/// `log2(x)` in Q20 fixed point, rounded down.
pub open spec fn spec_log2_q20(x: int) -> int {
    spec_ilog2(x) * Q20 + lg_iter(spec_mantissa(x), 0, 20).1
}

/// `log10(x)` in Q20 fixed point.
pub open spec fn spec_log10_q20(x: int) -> int {
    spec_log2_q20(x) * LOG10_2_Q20 / Q20 as int
}

proof fn lemma_ilog2_bounds(x: int)
    requires
        x >= 1,
    ensures
        spec_ilog2(x) >= 0,
        pow2(spec_ilog2(x) as nat) <= x < pow2((spec_ilog2(x) + 1) as nat),
    decreases x,
{
    if x < 2 {
        lemma2_to64();
    } else {
        lemma_ilog2_bounds(x / 2);
        let e = spec_ilog2(x / 2);
        lemma_fundamental_div_mod(x, 2);
        assert(pow2((e + 1) as nat) == 2 * pow2(e as nat)) by {
            lemma_pow2_adds(1, e as nat);
            lemma2_to64();
        }
        assert(pow2((e + 2) as nat) == 2 * pow2((e + 1) as nat)) by {
            lemma_pow2_adds(1, (e + 1) as nat);
            lemma2_to64();
        }
    }
}

proof fn lemma_ilog2_below(x: int, n: nat)
    requires
        1 <= x < pow2(n),
    ensures
        0 <= spec_ilog2(x) < n,
{
    lemma_ilog2_bounds(x);
    let e = spec_ilog2(x) as nat;
    if e >= n {
        if e > n {
            lemma_pow2_strictly_increases(n, e);
        }
        assert(pow2(e) >= pow2(n));
    }
}

proof fn lemma_mantissa_range(x: int)
    requires
        x >= 1,
    ensures
        0x100000000 <= spec_mantissa(x) < 0x200000000,
{
    lemma_ilog2_bounds(x);
    let e = spec_ilog2(x) as nat;
    let p = pow2(e) as int;
    lemma_pow2_pos(e);
    assert(pow2((e + 1) as nat) == 2 * pow2(e)) by {
        lemma_pow2_adds(1, e);
        lemma2_to64();
    }
    // lower bound: x * 2^32 >= p * 2^32, so the quotient is at least 2^32
    assert(x * 0x100000000 >= p * 0x100000000) by (nonlinear_arith)
        requires
            x >= p,
    ;
    lemma_div_multiples_vanish(0x100000000, p);
    assert(p * 0x100000000 / p == 0x100000000);
    lemma_div_is_ordered(p * 0x100000000, x * 0x100000000, p);
    // upper bound: x * 2^32 < p * 2^33, so the quotient is below 2^33
    assert(x * 0x100000000 < p * 0x200000000) by (nonlinear_arith)
        requires
            x < 2 * p,
            p >= 1,
    ;
    lemma_multiply_divide_lt(x * 0x100000000, p, 0x200000000);
}

proof fn lemma_square_range(m: int)
    requires
        0x100000000 <= m < 0x200000000,
    ensures
        0x100000000 <= (m * m) / 0x100000000 < 0x400000000,
        m * m < 0x40000000000000000,
{
    assert(m * m >= 0x100000000 * 0x100000000) by (nonlinear_arith)
        requires
            m >= 0x100000000,
    ;
    assert(m * m < 0x100000000 * 0x400000000) by (nonlinear_arith)
        requires
            0 <= m < 0x200000000,
    ;
    lemma_div_multiples_vanish(0x100000000, 0x100000000);
    lemma_div_is_ordered((0x100000000 * 0x100000000) as int, m * m, 0x100000000);
    lemma_multiply_divide_lt(m * m, 0x100000000, 0x400000000);
}

proof fn lemma_lg_iter_props(m: int, f: int, n: nat)
    requires
        0x100000000 <= m < 0x200000000,
        f >= 0,
    ensures
        0x100000000 <= lg_iter(m, f, n).0 < 0x200000000,
        lg_iter(m, f, n).1 < (f + 1) * pow2(n),
        lg_iter(m, f, n).1 >= 0,
    decreases n,
{
    if n == 0 {
        assert((f + 1) * pow2(0) == f + 1) by {
            lemma2_to64();
        }
    } else {
        let s = lg_step(m, f);
        lemma_square_range(m);
        assert(0x100000000 <= s.0 < 0x200000000 && 0 <= s.1 <= 2 * f + 1);
        lemma_lg_iter_props(s.0, s.1, (n - 1) as nat);
        assert(lg_iter(m, f, n) == lg_iter(s.0, s.1, (n - 1) as nat));
        assert((s.1 + 1) * pow2((n - 1) as nat) <= (f + 1) * pow2(n)) by {
            lemma_pow2_adds(1, (n - 1) as nat);
            lemma2_to64();
            assert((2 * f + 2) * pow2((n - 1) as nat) == (f + 1) * (2 * pow2((n - 1) as nat)))
                by (nonlinear_arith);
            lemma_mul_inequality(s.1 + 1, 2 * f + 2, pow2((n - 1) as nat) as int);
        }
    }
}

/// Bounds of the full fixed-point logarithm, used to bound every score the
/// model can produce.
pub proof fn lemma_log10_q20_bounds(x: int)
    requires
        1 <= x < pow2(128),
    ensures
        0 <= spec_log10_q20(x) <= LOG_MAX,
{
    lemma_ilog2_below(x, 128);
    lemma_mantissa_range(x);
    let e = spec_ilog2(x);
    let fr = lg_iter(spec_mantissa(x), 0, 20).1;
    lemma_lg_iter_props(spec_mantissa(x), 0, 20);
    assert(pow2(20) == 0x100000) by {
        lemma2_to64();
    }
    assert(fr < 0x100000);
    let lg = spec_log2_q20(x);
    assert(lg == e * (Q20 as int) + fr);
    assert(e * (Q20 as int) <= 127 * (Q20 as int)) by (nonlinear_arith)
        requires
            e <= 127,
    ;
    assert(e * (Q20 as int) >= 0) by (nonlinear_arith)
        requires
            e >= 0,
    ;
    assert(lg < 128 * (Q20 as int));
    assert(lg * LOG10_2_Q20 >= 0) by (nonlinear_arith)
        requires
            lg >= 0,
    ;
    vstd::arithmetic::div_mod::lemma_div_pos_is_pos(lg * LOG10_2_Q20, Q20 as int);
    assert(lg * LOG10_2_Q20 <= (Q20 as int) * (128 * LOG10_2_Q20)) by (nonlinear_arith)
        requires
            0 <= lg < 128 * (Q20 as int),
    ;
    vstd::arithmetic::div_mod::lemma_multiply_divide_le(
        lg * LOG10_2_Q20,
        Q20 as int,
        128 * LOG10_2_Q20,
    );
}

/// `log10(x)` in Q20 fixed point, for a positive count `x`.
pub fn log10_q20(x: u128) -> (r: u64)
    requires
        1 <= x,
    ensures
        r == spec_log10_q20(x as int),
        r <= LOG_MAX,
{
    proof {
        lemma2_to64();
        lemma2_to64_rest();
        lemma_pow2_adds(64, 64);
        assert(pow2(128) == 0x10000000000000000 * 0x10000000000000000);
    }
    // integer part of log2
    let mut y: u128 = x;
    let mut e: u64 = 0;
    while y >= 2
        invariant
            1 <= y,
            x < pow2(128),
            y == x as int / pow2(e as nat) as int,
            spec_ilog2(x as int) == e + spec_ilog2(y as int),
            e <= 127,
        decreases y,
    {
        proof {
            lemma_pow2_pos(e as nat);
            lemma_div_denominator(x as int, pow2(e as nat) as int, 2);
            lemma_pow2_adds(e as nat, 1);
            lemma2_to64();
            assert(spec_ilog2(y as int) == 1 + spec_ilog2(y as int / 2));
            // y >= 2 makes pow2(e + 1) <= x, so e + 1 stays below 128
            lemma_fundamental_div_mod(x as int, pow2(e as nat) as int);
            assert(pow2(e as nat) * y <= x) by (nonlinear_arith)
                requires
                    x as int == pow2(e as nat) * y + (x as int % pow2(e as nat) as int),
                    x as int % pow2(e as nat) as int >= 0,
            ;
            assert(pow2((e + 1) as nat) <= pow2(e as nat) * y) by (nonlinear_arith)
                requires
                    y >= 2,
                    pow2((e + 1) as nat) == pow2(e as nat) * 2,
                    pow2(e as nat) >= 1,
            ;
            if e + 1 >= 128 {
                if e + 1 > 128 {
                    lemma_pow2_strictly_increases(128, (e + 1) as nat);
                }
                assert(pow2((e + 1) as nat) >= pow2(128));
                assert(false);
            }
        }
        y = y / 2;
        e = e + 1;
    }
    proof {
        assert(spec_ilog2(x as int) == e);
        lemma_ilog2_bounds(x as int);
    }
    // mantissa in Q32
    let ghost mant: int = spec_mantissa(x as int);
    let mut m: u128;
    if e >= 32 {
        m = x;
        let mut k: u64 = 0;
        while k < e - 32
            invariant
                32 <= e <= 127,
                k <= e - 32,
                m == x as int / pow2(k as nat) as int,
            decreases e - 32 - k,
        {
            proof {
                lemma_pow2_pos(k as nat);
                lemma_div_denominator(x as int, pow2(k as nat) as int, 2);
                lemma_pow2_adds(k as nat, 1);
                lemma2_to64();
            }
            m = m / 2;
            k = k + 1;
        }
        proof {
            // x * 2^32 / 2^e equals x / 2^(e - 32)
            let p = pow2((e - 32) as nat) as int;
            lemma_pow2_adds((e - 32) as nat, 32);
            lemma_pow2_pos((e - 32) as nat);
            lemma_div_denominator(x as int * 0x100000000, 0x100000000, p);
            assert(x as int * 0x100000000 / 0x100000000 == x as int) by {
                vstd::arithmetic::div_mod::lemma_div_by_multiple(x as int, 0x100000000);
            }
            assert(0x100000000 * p == pow2(e as nat)) by (nonlinear_arith)
                requires
                    pow2(e as nat) == p * 0x100000000,
            ;
            assert(m == mant);
        }
    } else {
        m = x;
        let mut k: u64 = 0;
        while k < 32 - e
            invariant
                e < 32,
                k <= 32 - e,
                m == x as int * pow2(k as nat),
                m < pow2((e + 1 + k) as nat),
            decreases 32 - e - k,
        {
            proof {
                lemma_pow2_adds(k as nat, 1);
                lemma_pow2_adds((e + 1 + k) as nat, 1);
                lemma2_to64();
                lemma2_to64_rest();
                lemma_pow2_strictly_increases((e + 1 + k) as nat, 33);
                assert(x as int * pow2((k + 1) as nat) == (x as int * pow2(k as nat)) * 2)
                    by (nonlinear_arith)
                    requires
                        pow2((k + 1) as nat) == pow2(k as nat) * 2,
                ;
            }
            m = m * 2;
            k = k + 1;
        }
        proof {
            // x * 2^32 / 2^e equals x * 2^(32 - e)
            let p = pow2(e as nat) as int;
            let q = pow2((32 - e) as nat) as int;
            lemma_pow2_adds(e as nat, (32 - e) as nat);
            lemma_pow2_pos(e as nat);
            assert(x as int * 0x100000000 == (x as int * q) * p) by (nonlinear_arith)
                requires
                    0x100000000 == p * q,
            ;
            vstd::arithmetic::div_mod::lemma_div_by_multiple(x as int * q, p);
            assert(m == mant);
        }
    }
    proof {
        lemma_mantissa_range(x as int);
    }
    // twenty fraction bits by squaring
    let ghost m0: int = m as int;
    let mut f: u64 = 0;
    let mut j: u64 = 0;
    while j < 20
        invariant
            j <= 20,
            0x100000000 <= m < 0x200000000,
            0 <= f,
            f + 1 <= pow2(j as nat),
            lg_iter(m as int, f as int, (20 - j) as nat) == lg_iter(m0, 0, 20),
        decreases 20 - j,
    {
        proof {
            lemma2_to64();
            lemma_pow2_adds(j as nat, 1);
            assert(lg_iter(m as int, f as int, (20 - j) as nat) == {
                let s = lg_step(m as int, f as int);
                lg_iter(s.0, s.1, (20 - j - 1) as nat)
            });
            lemma_square_range(m as int);
        }
        let m2: u128 = (m * m) / 0x100000000;
        if m2 >= 0x200000000 {
            m = m2 / 2;
            f = 2 * f + 1;
        } else {
            m = m2;
            f = 2 * f;
        }
        j = j + 1;
    }
    proof {
        assert(lg_iter(m as int, f as int, 0) == (m as int, f as int));
        assert(f == lg_iter(m0, 0, 20).1);
        lemma2_to64();
        assert(f < 1048576);
    }
    // combine and rescale to base 10
    let lg: u64 = e * Q20 + f;
    proof {
        assert(lg == spec_log2_q20(x as int));
        lemma_log10_q20_bounds(x as int);
        assert(lg < 128 * (Q20 as int));
        assert(lg * LOG10_2_Q20 <= 134217728 * 315653) by (nonlinear_arith)
            requires
                0 <= lg <= 134217728,
        ;
    }
    let r: u64 = lg * LOG10_2_Q20 / Q20;
    r
}

} // verus!
