use vstd::prelude::*;

use vstd::arithmetic::power::pow;
use vstd::arithmetic::power2::pow2;

verus! {

/// The Q32 fixed-point scale: a Q32 number stores its value times `2^32` in
/// a `u64`.
pub const Q32_ONE: u64 = 0x1_0000_0000;

/// The natural logarithm of 2 in Q32, rounded down: `floor(ln(2) * 2^32)`.
///
/// The numeral itself cannot be checked mechanically (the logarithm is
/// transcendental); everything computed from it is specified exactly in
/// terms of this constant.
pub const LN2_Q32: u64 = 2977044471;

/// The square root of 2 in Q32, rounded down: `floor(sqrt(2) * 2^32)`.
///
/// This is the theoretical optimum for the UCT exploration factor and the
/// default used when a caller does not supply one.
pub const SQRT2_Q32: u64 = 6074000999;

/// The largest exploration factor the UCT evaluation accepts (256.0 in
/// Q32). The bound exists only so that the fixed-point arithmetic provably
/// fits in 64 bits; practical exploration factors are below 3.
pub const MAX_EXPLORATION_Q32: u64 = 0x100_0000_0000;

/// `2^46`, the scale of the mantissa used while computing base-2 logarithms.
pub const MANT_ONE: u64 = 0x4000_0000_0000;

/// `2^47`, the upper bound of the normalized mantissa range.
pub const MANT_TWO: u64 = 0x8000_0000_0000;

/// The number of fractional base-2 logarithm bits that `log2_q16` produces.
pub const LOG2_FRAC_BITS: u64 = 16;

/// The integer square root, rounded down: the unique `r >= 0` with
/// `r * r <= y < (r + 1) * (r + 1)` (and 0 for `y < 1`).
pub open spec fn sqrt_floor(y: int) -> int
    decreases y,
{
    if y < 1 {
        0
    } else {
        let r = sqrt_floor(y - 1);
        if (r + 1) * (r + 1) <= y {
            r + 1
        } else {
            r
        }
    }
}

/// The base-2 logarithm of `n`, rounded down (0 for `n < 2`).
pub open spec fn floor_log2(n: int) -> int
    decreases n,
{
    if n < 2 {
        0
    } else {
        1 + floor_log2(n / 2)
    }
}

/// One squaring step per fractional bit of the base-2 logarithm.
///
/// `m` is a mantissa in `[2^46, 2^47)` standing for a value in `[1, 2)`;
/// `acc` holds the bits of the logarithm produced so far. Each step squares
/// the mantissa (dropping back to the `2^46` scale), shifts the next bit of
/// the logarithm into `acc`, and renormalizes the mantissa if it reached 2.
pub open spec fn log2_steps(m: int, acc: int, i: nat) -> int
    decreases i,
{
    if i == 0 {
        acc
    } else {
        let sq = (m * m) / (MANT_ONE as int);
        if sq >= MANT_TWO {
            log2_steps(sq / 2, acc * 2 + 1, (i - 1) as nat)
        } else {
            log2_steps(sq, acc * 2, (i - 1) as nat)
        }
    }
}

/// The base-2 logarithm of `n` in Q16 fixed point, as computed by 16
/// truncated mantissa-squaring steps from the exact floor logarithm.
pub open spec fn spec_log2_q16(n: int) -> int {
    log2_steps(
        n * pow2((46 - floor_log2(n)) as nat),
        floor_log2(n),
        LOG2_FRAC_BITS as nat,
    )
}

/// The natural logarithm of `n` in Q32 fixed point: the Q16 base-2
/// logarithm rescaled by `ln(2)`.
pub open spec fn spec_ln_q32(n: int) -> int {
    (spec_log2_q16(n) * LN2_Q32) / 0x10000
}

/// The Q32 quotient `wins / sims`, rounded down.
pub open spec fn spec_ratio_q32(wins: int, sims: int) -> int {
    (wins * (Q32_ONE as int)) / sims
}

/// The UCT value of a node in Q32 fixed point:
/// `wins / sims + c * sqrt(ln(parent_sims) / sims)`, with every division
/// and root rounded down at the scale at which it is computed.
pub open spec fn spec_uct_q32(wins: int, sims: int, parent_sims: int, c: int) -> int {
    spec_ratio_q32(wins, sims) + (c * sqrt_floor(
        (spec_ln_q32(parent_sims) / sims) * (Q32_ONE as int),
    )) / (Q32_ONE as int)
}

/// The defining property of `sqrt_floor`: it is the integer square root.
pub proof fn lemma_sqrt_floor_bounds(y: int)
    requires
        y >= 0,
    ensures
        sqrt_floor(y) * sqrt_floor(y) <= y,
        y < (sqrt_floor(y) + 1) * (sqrt_floor(y) + 1),
        sqrt_floor(y) >= 0,
    decreases y,
{
    if y >= 1 {
        lemma_sqrt_floor_bounds(y - 1);
        let r = sqrt_floor(y - 1);
        if (r + 1) * (r + 1) <= y {
            assert(y < (r + 2) * (r + 2)) by (nonlinear_arith)
                requires
                    y - 1 < (r + 1) * (r + 1),
                    r >= 0,
            ;
        }
    }
}

/// Any `r` within the integer-square-root bracket of `y` is `sqrt_floor(y)`.
pub proof fn lemma_sqrt_floor_unique(y: int, r: int)
    requires
        y >= 0,
        r >= 0,
        r * r <= y,
        y < (r + 1) * (r + 1),
    ensures
        r == sqrt_floor(y),
{
    let s = sqrt_floor(y);
    lemma_sqrt_floor_bounds(y);
    if r < s {
        assert((r + 1) * (r + 1) <= s * s) by (nonlinear_arith)
            requires
                0 <= r,
                r + 1 <= s,
        ;
    }
    if s < r {
        assert((s + 1) * (s + 1) <= r * r) by (nonlinear_arith)
            requires
                0 <= s,
                s + 1 <= r,
        ;
    }
}

/// `floor_log2` is characterized by the power-of-two bracket around `n`.
pub proof fn lemma_floor_log2_char(n: int, e: nat)
    requires
        pow2(e) <= n < pow2(e + 1),
    ensures
        floor_log2(n) == e,
    decreases e,
{
    vstd::arithmetic::power2::lemma_pow2_unfold(e + 1);
    vstd::arithmetic::power2::lemma_pow2_pos(e);
    if e == 0 {
        vstd::arithmetic::power2::lemma2_to64();
        assert(n == 1);
    } else {
        vstd::arithmetic::power2::lemma_pow2_unfold(e);
        let p = pow2((e - 1) as nat) as int;
        vstd::arithmetic::power2::lemma_pow2_pos((e - 1) as nat);
        assert(2 * p <= n < 4 * p);
        assert(p <= n / 2 < 2 * p) by (nonlinear_arith)
            requires
                2 * p <= n < 4 * p,
                p >= 1,
        ;
        lemma_floor_log2_char(n / 2, (e - 1) as nat);
        assert(n >= 2);
    }
}

/// `floor_log2` brackets its argument between two adjacent powers of two.
pub proof fn lemma_floor_log2_bracket(n: int)
    requires
        1 <= n,
    ensures
        0 <= floor_log2(n),
        pow2(floor_log2(n) as nat) <= n,
        n < pow2((floor_log2(n) + 1) as nat),
    decreases n,
{
    vstd::arithmetic::power2::lemma2_to64();
    if n < 2 {
        assert(floor_log2(n) == 0);
    } else {
        lemma_floor_log2_bracket(n / 2);
        let e = floor_log2(n / 2);
        vstd::arithmetic::power2::lemma_pow2_unfold((e + 1) as nat);
        vstd::arithmetic::power2::lemma_pow2_unfold((e + 2) as nat);
        assert(n >= 2 * (n / 2) && n <= 2 * (n / 2) + 1);
    }
}

/// The truncated-squaring recursion brackets the exact logarithm: if the
/// mantissa `m` (scale `2^46`) sits within error `c` of the exact value `v`
/// shifted by `acc` halvings, then after `i` further squaring steps the
/// accumulated bits `r` satisfy `2^r <= v^(2^i) < 2^(r+2)`, provided the
/// error budget `(c+1)*6^i` stays below the mantissa scale.
proof fn lemma_log2_steps_bracket(v: int, m: int, acc: int, c: int, i: nat)
    requires
        1 <= v,
        MANT_ONE <= m < MANT_TWO,
        0 <= acc,
        1 <= c,
        (c + 1) * pow(6, i) <= MANT_ONE + 1,
        m * pow2(acc as nat) <= v * MANT_ONE,
        v * MANT_ONE < (m + c) * pow2(acc as nat),
    ensures
        ({
            let r = log2_steps(m, acc, i);
            &&& acc <= r
            &&& pow2(r as nat) <= pow(v, pow2(i))
            &&& pow(v, pow2(i)) < pow2((r + 2) as nat)
        }),
    decreases i,
{
    let p = pow2(acc as nat) as int;
    vstd::arithmetic::power2::lemma_pow2_pos(acc as nat);
    vstd::arithmetic::power::lemma_pow_positive(6, i);
    if i == 0 {
        // No steps left: the bits are `acc` and the mantissa bracket itself
        // places `v` in `[2^acc, 3 * 2^acc)`, inside `[2^acc, 2^(acc+2))`.
        assert(pow(v, pow2(0)) == v) by {
            vstd::arithmetic::power2::lemma2_to64();
            vstd::arithmetic::power::lemma_pow1(v);
        }
        assert(c <= MANT_ONE) by {
            vstd::arithmetic::power::lemma_pow0(6);
        }
        assert(MANT_ONE * p <= v * MANT_ONE) by (nonlinear_arith)
            requires
                m * p <= v * MANT_ONE,
                MANT_ONE <= m,
                p >= 1,
        ;
        assert(p <= v) by (nonlinear_arith)
            requires
                (MANT_ONE as int) * p <= v * (MANT_ONE as int),
                MANT_ONE >= 1,
        ;
        assert(pow2(acc as nat) <= v);
        assert(v * MANT_ONE < (3 * MANT_ONE) * p) by (nonlinear_arith)
            requires
                v * (MANT_ONE as int) < (m + c) * p,
                m < MANT_TWO,
                c <= MANT_ONE,
                MANT_TWO == 2 * (MANT_ONE as int),
                p >= 0,
        ;
        assert(v < 4 * p) by (nonlinear_arith)
            requires
                v * (MANT_ONE as int) < (3 * (MANT_ONE as int)) * p,
                MANT_ONE >= 1,
                p >= 1,
        ;
        assert(pow2((acc + 2) as nat) == 4 * p) by {
            vstd::arithmetic::power2::lemma_pow2_adds(acc as nat, 2);
            vstd::arithmetic::power2::lemma2_to64();
        }
    } else {
        let sq = (m * m) / (MANT_ONE as int);
        let vv = v * v;
        let pp = p * p;
        // The error stays far below the mantissa scale.
        assert(pow(6, i) == 6 * pow(6, (i - 1) as nat)) by {
            vstd::arithmetic::power::lemma_pow_adds(6, 1, (i - 1) as nat);
            vstd::arithmetic::power::lemma_pow1(6);
        }
        assert(6 * (c + 1) <= MANT_ONE + 1) by {
            vstd::arithmetic::power::lemma_pow_positive(6, (i - 1) as nat);
            assert((c + 1) * (6 * pow(6, (i - 1) as nat)) >= (c + 1) * 6) by (nonlinear_arith)
                requires
                    c + 1 >= 0,
                    pow(6, (i - 1) as nat) >= 1,
            ;
        }
        assert(c <= MANT_ONE);
        // Bounds of the squared, rescaled mantissa.
        assert(m * m >= MANT_ONE * (MANT_ONE as int) && m * m < 4 * (MANT_ONE as int) * MANT_ONE)
            by (nonlinear_arith)
            requires
                MANT_ONE <= m < 2 * (MANT_ONE as int),
        ;
        assert(MANT_ONE <= sq < 4 * (MANT_ONE as int)) by {
            vstd::arithmetic::div_mod::lemma_div_is_ordered(
                (MANT_ONE as int) * (MANT_ONE as int),
                m * m,
                MANT_ONE as int,
            );
            vstd::arithmetic::div_mod::lemma_div_multiples_vanish(MANT_ONE as int, MANT_ONE as int);
            assert(m * m < (MANT_ONE as int) * (4 * (MANT_ONE as int))) by (nonlinear_arith)
                requires
                    m * m < 4 * (MANT_ONE as int) * MANT_ONE,
            ;
            vstd::arithmetic::div_mod::lemma_multiply_divide_lt(
                m * m,
                MANT_ONE as int,
                4 * (MANT_ONE as int),
            );
        }
        // The floor division brackets the true square.
        assert(sq * (MANT_ONE as int) <= m * m && m * m < (sq + 1) * (MANT_ONE as int)) by {
            vstd::arithmetic::div_mod::lemma_fundamental_div_mod(m * m, MANT_ONE as int);
            vstd::arithmetic::div_mod::lemma_mod_bound(m * m, MANT_ONE as int);
        }
        // Square the bracketing inequalities around `v`.
        assert(m * m * pp <= vv * ((MANT_ONE as int) * MANT_ONE)) by (nonlinear_arith)
            requires
                0 <= m * p <= v * (MANT_ONE as int),
                pp == p * p,
                vv == v * v,
        ;
        assert(vv * ((MANT_ONE as int) * MANT_ONE) < ((m + c) * (m + c)) * pp) by (nonlinear_arith)
            requires
                0 <= v * (MANT_ONE as int) < (m + c) * p,
                pp == p * p,
                vv == v * v,
        ;
        // Lower bound for the next level.
        assert(sq * pp * (MANT_ONE as int) <= vv * (MANT_ONE as int) * MANT_ONE)
            by (nonlinear_arith)
            requires
                sq * (MANT_ONE as int) <= m * m,
                m * m * pp <= vv * ((MANT_ONE as int) * MANT_ONE),
                pp >= 0,
        ;
        assert(sq * pp <= vv * (MANT_ONE as int)) by (nonlinear_arith)
            requires
                sq * pp * (MANT_ONE as int) <= vv * (MANT_ONE as int) * MANT_ONE,
                MANT_ONE >= 1,
        ;
        // Upper bound for the next level, absorbing the truncation error.
        assert((m + c) * (m + c) < (sq + 1 + 5 * c) * (MANT_ONE as int)) by (nonlinear_arith)
            requires
                m * m < (sq + 1) * (MANT_ONE as int),
                1 <= c <= MANT_ONE,
                MANT_ONE <= m < 2 * (MANT_ONE as int),
        ;
        assert(vv * (MANT_ONE as int) * MANT_ONE < (sq + 1 + 5 * c) * (MANT_ONE as int) * pp)
            by (nonlinear_arith)
            requires
                vv * ((MANT_ONE as int) * MANT_ONE) < ((m + c) * (m + c)) * pp,
                (m + c) * (m + c) < (sq + 1 + 5 * c) * (MANT_ONE as int),
                pp >= 0,
        ;
        assert(vv * (MANT_ONE as int) < (sq + 1 + 5 * c) * pp) by (nonlinear_arith)
            requires
                vv * (MANT_ONE as int) * MANT_ONE < (sq + 1 + 5 * c) * (MANT_ONE as int) * pp,
                MANT_ONE >= 1,
        ;
        // Tie the doubled exponent to the squared power of two.
        assert(pow2((2 * acc) as nat) == pp) by {
            vstd::arithmetic::power2::lemma_pow2_adds(acc as nat, acc as nat);
        }
        assert(pow(vv, pow2((i - 1) as nat)) == pow(v, pow2(i))) by {
            vstd::arithmetic::power::lemma_square_is_pow2(v);
            vstd::arithmetic::power::lemma_pow_multiplies(v, 2, pow2((i - 1) as nat));
            vstd::arithmetic::power2::lemma_pow2_unfold(i);
        }
        assert(1 <= vv) by (nonlinear_arith)
            requires
                1 <= v,
                vv == v * v,
        ;
        // Budget for the recursive call: one step costs a factor of 6.
        assert(((5 * c + 1) + 1) * pow(6, (i - 1) as nat) <= (c + 1) * pow(6, i))
            by (nonlinear_arith)
            requires
                pow(6, i) == 6 * pow(6, (i - 1) as nat),
                pow(6, (i - 1) as nat) >= 1,
                c >= 1,
        ;
        if sq >= MANT_TWO {
            let half = sq / 2;
            assert(2 * half <= sq <= 2 * half + 1) by {
                vstd::arithmetic::div_mod::lemma_fundamental_div_mod(sq, 2);
                vstd::arithmetic::div_mod::lemma_mod_bound(sq, 2);
            }
            assert(MANT_ONE <= half < MANT_TWO);
            let p2 = pow2((2 * acc + 1) as nat) as int;
            assert(p2 == 2 * pp) by {
                vstd::arithmetic::power2::lemma_pow2_adds((2 * acc) as nat, 1);
                vstd::arithmetic::power2::lemma2_to64();
            }
            assert(half * p2 <= sq * pp) by (nonlinear_arith)
                requires
                    2 * half <= sq,
                    pp >= 0,
                    p2 == 2 * pp,
            ;
            assert(half * p2 <= vv * MANT_ONE);
            assert((sq + 1 + 5 * c) * pp <= (half + (3 * c + 2)) * p2) by (nonlinear_arith)
                requires
                    sq <= 2 * half + 1,
                    c >= 0,
                    pp >= 0,
                    p2 == 2 * pp,
            ;
            assert(vv * (MANT_ONE as int) < (half + (3 * c + 2)) * p2);
            assert(((3 * c + 2) + 1) * pow(6, (i - 1) as nat) <= ((5 * c + 1) + 1) * pow(
                6,
                (i - 1) as nat,
            )) by (nonlinear_arith)
                requires
                    c >= 1,
                    pow(6, (i - 1) as nat) >= 1,
            ;
            lemma_log2_steps_bracket(vv, half, 2 * acc + 1, 3 * c + 2, (i - 1) as nat);
            assert(log2_steps(m, acc, i) == log2_steps(half, 2 * acc + 1, (i - 1) as nat));
        } else {
            lemma_log2_steps_bracket(vv, sq, 2 * acc, 5 * c + 1, (i - 1) as nat);
            assert(log2_steps(m, acc, i) == log2_steps(sq, 2 * acc, (i - 1) as nat));
        }
    }
}

/// Accuracy of the Q16 base-2 logarithm: raising `n` to the `2^16` pins
/// `spec_log2_q16(n)` within two final bits of the exact base-2 logarithm,
/// `2^r <= n^(2^16) < 2^(r+2)`.
pub proof fn lemma_log2_q16_accuracy(n: int)
    requires
        1 <= n < 0x1_0000_0000,
    ensures
        0 <= spec_log2_q16(n),
        pow2(spec_log2_q16(n) as nat) <= pow(n, 0x10000),
        pow(n, 0x10000) < pow2((spec_log2_q16(n) + 2) as nat),
{
    vstd::arithmetic::power2::lemma2_to64();
    vstd::arithmetic::power2::lemma2_to64_rest();
    lemma_floor_log2_bracket(n);
    let e = floor_log2(n);
    if e >= 32 {
        if e > 32 {
            vstd::arithmetic::power2::lemma_pow2_strictly_increases(32, e as nat);
        }
        assert(pow2(e as nat) >= 0x1_0000_0000);
        assert(false);
    }
    let shift = (46 - e) as nat;
    let m0 = n * pow2(shift);
    vstd::arithmetic::power2::lemma_pow2_pos(shift);
    vstd::arithmetic::power2::lemma_pow2_adds(e as nat, shift);
    vstd::arithmetic::power2::lemma_pow2_adds((e + 1) as nat, shift);
    assert(pow2(e as nat) * pow2(shift) <= m0 < pow2((e + 1) as nat) * pow2(shift))
        by (nonlinear_arith)
        requires
            pow2(e as nat) <= n < pow2((e + 1) as nat),
            m0 == n * pow2(shift),
            pow2(shift) >= 1,
    ;
    assert(pow2((e + shift) as nat) == 0x4000_0000_0000int && pow2((e + 1 + shift) as nat)
        == 0x8000_0000_0000int);
    assert(m0 * pow2(e as nat) == n * (MANT_ONE as int)) by (nonlinear_arith)
        requires
            m0 == n * pow2(shift),
            pow2(shift) * pow2(e as nat) == MANT_ONE as int,
    ;
    // The error budget for 16 steps: 2 * 6^16 is far below the scale 2^46.
    assert(pow(6, 4) == 1296) by {
        vstd::arithmetic::power::lemma_pow1(6);
        vstd::arithmetic::power::lemma_pow_adds(6, 1, 1);
        vstd::arithmetic::power::lemma_pow_adds(6, 2, 2);
        assert(pow(6, 2) == 36);
        assert(pow(6, 4) == 36 * 36);
    }
    assert(pow(1296, 4) == 2821109907456) by {
        vstd::arithmetic::power::lemma_pow1(1296);
        vstd::arithmetic::power::lemma_pow_adds(1296, 1, 1);
        vstd::arithmetic::power::lemma_pow_adds(1296, 2, 2);
        assert(pow(1296, 2) == 1679616);
        assert(pow(1296, 4) == 1679616int * 1679616);
    }
    assert(pow(6, 16) == 2821109907456) by {
        vstd::arithmetic::power::lemma_pow_multiplies(6, 4, 4);
    }
    assert((1 + 1) * pow(6, 16) <= MANT_ONE + 1);
    assert(pow2(e as nat) >= 1) by {
        vstd::arithmetic::power2::lemma_pow2_pos(e as nat);
    }
    assert(n * (MANT_ONE as int) < (m0 + 1) * pow2(e as nat)) by (nonlinear_arith)
        requires
            m0 * pow2(e as nat) == n * (MANT_ONE as int),
            pow2(e as nat) >= 1,
    ;
    lemma_log2_steps_bracket(n, m0, e, 1, 16);
    assert(pow2(16) == 0x10000);
}

/// Computes the integer square root of `y`, rounded down.
pub fn isqrt(y: u128) -> (r: u64)
    requires
        y < 0x1_0000_0000_0000_0000_0000_0000u128,
    ensures
        r as int == sqrt_floor(y as int),
{
    let mut lo: u64 = 0;
    let mut hi: u64 = 0x1_0000_0000_0000;
    while hi - lo > 1
        invariant
            lo < hi <= 0x1_0000_0000_0000u64,
            (lo as int) * (lo as int) <= y as int,
            (y as int) < (hi as int) * (hi as int),
        decreases hi - lo,
    {
        let mid: u64 = lo + (hi - lo) / 2;
        proof {
            assert((mid as int) * (mid as int) <= 0x1_0000_0000_0000int * 0x1_0000_0000_0000)
                by (nonlinear_arith)
                requires
                    0 <= (mid as int) <= 0x1_0000_0000_0000,
            ;
        }
        let sq: u128 = (mid as u128) * (mid as u128);
        if sq <= y {
            lo = mid;
        } else {
            hi = mid;
        }
    }
    proof {
        lemma_sqrt_floor_unique(y as int, lo as int);
    }
    lo
}

/// Computes the Q32 quotient `wins / sims`, rounded down.
pub fn ratio_q32(wins: u32, sims: u32) -> (r: u64)
    requires
        1 <= sims,
    ensures
        r as int == spec_ratio_q32(wins as int, sims as int),
{
    let num: u128 = (wins as u128) * (Q32_ONE as u128);
    let q: u128 = num / (sims as u128);
    proof {
        vstd::arithmetic::div_mod::lemma_div_is_ordered_by_denominator(
            num as int,
            1,
            sims as int,
        );
    }
    q as u64
}

/// Computes the base-2 logarithm of `n` in Q16 fixed point, by normalizing
/// `n` to a mantissa in `[1, 2)` at scale `2^46` and extracting 16
/// fractional bits through repeated squaring.
pub fn log2_q16(n: u32) -> (r: u64)
    requires
        1 <= n,
    ensures
        r as int == spec_log2_q16(n as int),
        r < 0x220000,
{
    let ghost n_int = n as int;
    let mut m: u64 = n as u64;
    let mut e: u64 = 46;
    proof {
        vstd::arithmetic::power2::lemma2_to64();
        assert(m as int == n_int * pow2(0));
    }
    while m < MANT_ONE
        invariant
            e <= 46,
            m as int == n_int * pow2((46 - e) as nat),
            1 <= n_int < 0x1_0000_0000,
            1 <= m < MANT_TWO,
        decreases e,
    {
        proof {
            vstd::arithmetic::power2::lemma_pow2_pos((46 - e) as nat);
            if e == 0 {
                vstd::arithmetic::power2::lemma2_to64_rest();
                assert(n_int * pow2(46) >= pow2(46)) by (nonlinear_arith)
                    requires
                        n_int >= 1,
                        pow2(46) >= 0,
                ;
            }
            vstd::arithmetic::power2::lemma_pow2_unfold((46 - (e - 1)) as nat);
            let p = pow2((46 - e) as nat) as int;
            assert(2 * (n_int * p) == n_int * (2 * p)) by (nonlinear_arith);
        }
        m = m * 2;
        e = e - 1;
    }
    let ghost exp = e as nat;
    proof {
        vstd::arithmetic::power2::lemma2_to64();
        vstd::arithmetic::power2::lemma2_to64_rest();
        vstd::arithmetic::power2::lemma_pow2_pos((46 - e) as nat);
        vstd::arithmetic::power2::lemma_pow2_adds(exp, (46 - e) as nat);
        vstd::arithmetic::power2::lemma_pow2_adds(exp + 1, (46 - e) as nat);
        vstd::arithmetic::power2::lemma_pow2_unfold(exp + 1);
        let p = pow2((46 - e) as nat) as int;
        assert(pow2(exp) <= n_int < pow2(exp + 1)) by (nonlinear_arith)
            requires
                p >= 1,
                (pow2(exp) * p) as int <= n_int * p < (pow2(exp + 1) * p) as int,
        ;
        lemma_floor_log2_char(n_int, exp);
        if e >= 32 {
            vstd::arithmetic::power2::lemma_pow2_strictly_increases(32, exp + 1);
            assert(false);
        }
    }
    let mut acc: u64 = e;
    let mut j: u64 = 0;
    while j < 16
        invariant
            j <= 16,
            spec_log2_q16(n_int) == log2_steps(m as int, acc as int, (16 - j) as nat),
            MANT_ONE <= m < MANT_TWO,
            acc as int <= (e as int + 2) * pow2(j as nat) - 1,
            e < 32,
        decreases 16 - j,
    {
        proof {
            assert((m as int) * (m as int) < 0x4000_0000_0000_0000_0000_0000) by (nonlinear_arith)
                requires
                    0 <= (m as int) < 0x8000_0000_0000,
            ;
            assert((m as int) * (m as int) >= 0x1000_0000_0000_0000_0000_0000) by (nonlinear_arith)
                requires
                    (m as int) >= 0x4000_0000_0000,
            ;
        }
        let sq: u128 = ((m as u128) * (m as u128)) / (MANT_ONE as u128);
        proof {
            vstd::arithmetic::div_mod::lemma_div_is_ordered(
                0x1000_0000_0000_0000_0000_0000,
                (m as int) * (m as int),
                MANT_ONE as int,
            );
            vstd::arithmetic::div_mod::lemma_div_is_ordered(
                (m as int) * (m as int),
                0x4000_0000_0000_0000_0000_0000 - 1,
                MANT_ONE as int,
            );
            vstd::arithmetic::power2::lemma_pow2_unfold((j + 1) as nat);
            vstd::arithmetic::power2::lemma_pow2_strictly_increases(j as nat, 16);
            vstd::arithmetic::power2::lemma2_to64();
            assert((acc as int) * 2 + 1 < 0x1_0000_0000) by (nonlinear_arith)
                requires
                    acc as int <= (e as int + 2) * pow2(j as nat) - 1,
                    e < 32,
                    0 <= acc,
                    pow2(j as nat) < 0x10000,
            ;
            let p = pow2(j as nat) as int;
            assert(2 * ((e as int + 2) * p) == (e as int + 2) * (2 * p)) by (nonlinear_arith);
        }
        if sq >= MANT_TWO as u128 {
            m = (sq / 2) as u64;
            acc = acc * 2 + 1;
        } else {
            m = sq as u64;
            acc = acc * 2;
        }
        j = j + 1;
    }
    proof {
        vstd::arithmetic::power2::lemma2_to64();
        assert(acc < 0x220000) by (nonlinear_arith)
            requires
                acc as int <= (e as int + 2) * pow2(16) - 1,
                e < 32,
                pow2(16) == 0x10000,
        ;
    }
    acc
}

/// Computes the natural logarithm of `n` in Q32 fixed point.
pub fn ln_q32(n: u32) -> (r: u64)
    requires
        1 <= n,
    ensures
        r as int == spec_ln_q32(n as int),
        r < 0x20_0000_0000,
{
    let l2: u64 = log2_q16(n);
    let r: u64 = ((l2 as u128 * LN2_Q32 as u128) / 0x10000) as u64;
    proof {
        assert((l2 as int) * (LN2_Q32 as int) < 0x220000 * (LN2_Q32 as int)) by (nonlinear_arith)
            requires
                0 <= (l2 as int) < 0x220000,
        ;
        vstd::arithmetic::div_mod::lemma_div_is_ordered(
            (l2 as int) * (LN2_Q32 as int),
            0x220000 * (LN2_Q32 as int),
            0x10000,
        );
    }
    r
}

/// Computes the UCT value `wins / sims + c * sqrt(ln(parent_sims) / sims)`
/// in Q32 fixed point, rounding down at each stage exactly as
/// `spec_uct_q32` states.
pub fn uct_q32(wins: u32, sims: u32, parent_sims: u32, c: u64) -> (r: u64)
    requires
        1 <= sims,
        1 <= parent_sims,
        wins <= sims,
        c <= MAX_EXPLORATION_Q32,
    ensures
        r as int == spec_uct_q32(wins as int, sims as int, parent_sims as int, c as int),
{
    let exploit: u64 = ratio_q32(wins, sims);
    proof {
        vstd::arithmetic::div_mod::lemma_div_is_ordered(
            (wins as int) * (Q32_ONE as int),
            (sims as int) * (Q32_ONE as int),
            sims as int,
        );
        assert((wins as int) * (Q32_ONE as int) <= (sims as int) * (Q32_ONE as int))
            by (nonlinear_arith)
            requires
                wins <= sims,
                Q32_ONE >= 0,
        ;
        vstd::arithmetic::div_mod::lemma_div_multiples_vanish(
            Q32_ONE as int,
            sims as int,
        );
    }
    let ln_val: u64 = ln_q32(parent_sims);
    let ratio: u64 = ln_val / (sims as u64);
    proof {
        vstd::arithmetic::div_mod::lemma_div_is_ordered_by_denominator(
            ln_val as int,
            1,
            sims as int,
        );
    }
    proof {
        assert((ratio as int) * (Q32_ONE as int) < 0x1_0000_0000_0000_0000_0000_0000)
            by (nonlinear_arith)
            requires
                0 <= (ratio as int) < 0x20_0000_0000,
                Q32_ONE == 0x1_0000_0000,
        ;
    }
    let root: u64 = isqrt((ratio as u128) * (Q32_ONE as u128));
    proof {
        lemma_sqrt_floor_bounds(((ratio as int) * (Q32_ONE as int)) as int);
        if root >= 0x10_0000_0000 {
            assert((root as int) * (root as int) >= 0x100_0000_0000_0000_0000)
                by (nonlinear_arith)
                requires
                    (root as int) >= 0x10_0000_0000,
            ;
            assert((ratio as int) * (Q32_ONE as int) < 0x100_0000_0000_0000_0000)
                by (nonlinear_arith)
                requires
                    0 <= (ratio as int) < 0x20_0000_0000,
                    Q32_ONE == 0x1_0000_0000,
            ;
            assert(false);
        }
    }
    proof {
        assert((c as int) * (root as int) <= 0x100_0000_0000 * 0x10_0000_0000)
            by (nonlinear_arith)
            requires
                0 <= (c as int) <= 0x100_0000_0000,
                0 <= (root as int) <= 0x10_0000_0000,
        ;
    }
    let scaled: u128 = (c as u128) * (root as u128);
    let explore: u64 = (scaled / (Q32_ONE as u128)) as u64;
    proof {
        vstd::arithmetic::div_mod::lemma_div_is_ordered(
            scaled as int,
            0x100_0000_0000int * 0x10_0000_0000,
            Q32_ONE as int,
        );
    }
    exploit + explore
}

} // verus!
