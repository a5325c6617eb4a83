//! Overflow-free integer helpers for reward accrual.
use vstd::prelude::*;
use vstd::arithmetic::div_mod::lemma_fundamental_div_mod_converse;

verus! {

/// Nanoseconds in one day of logical time.
pub const NANOS_PER_DAY: u64 = 86_400_000_000_000;

/// Number of decimal digits kept below the unit by the per-share accumulator.
pub const SCALE_DIGITS: u32 = 24;

/// `10^SCALE_DIGITS`: one unit of reward per share, in accumulator units.
pub const SCALE: u128 = 1_000_000_000_000_000_000_000_000;

pub open spec fn pow10(n: nat) -> int
    decreases n,
{
    if n == 0 {
        1
    } else {
        10 * pow10((n - 1) as nat)
    }
}

pub proof fn lemma_scale_is_pow10()
    ensures
        pow10(SCALE_DIGITS as nat) == SCALE as int,
{
    reveal_with_fuel(pow10, 25);
}

/// `a * b / c` truncated, capped at `cap`.
pub open spec fn capped_ratio(a: int, b: int, c: int, cap: int) -> int {
    if (a * b) / c < cap {
        (a * b) / c
    } else {
        cap
    }
}

/// Computes `min(cap, a * b / c)` (truncating division) without any
/// intermediate overflow: the full product may exceed 128 bits.
pub fn u128_ratio_capped(a: u128, b: u64, c: u64, cap: u128) -> (r: u128)
    requires
        c > 0,
    ensures
        r as int == capped_ratio(a as int, b as int, c as int, cap as int),
{
    let b128 = b as u128;
    let c128 = c as u128;
    let q = a / c128;
    let rem = a % c128;
    assert(rem * b128 < 0x1_0000_0000_0000_0000_0000_0000_0000_0000) by (nonlinear_arith)
        requires
            rem < c128,
            c128 <= 0xffff_ffff_ffff_ffff,
            b128 <= 0xffff_ffff_ffff_ffff,
    ;
    let low = (rem * b128) / c128;
    proof {
        let qq: int = q * b128 + low;
        let rr: int = (rem * b128) as int % (c128 as int);
        assert(a * b128 == qq * c128 + rr) by (nonlinear_arith)
            requires
                a == q * c128 + rem,
                rem * b128 == low * c128 + rr,
                qq == q * b128 + low,
        ;
        assert(0 <= rr < c128);
        lemma_fundamental_div_mod_converse(a * b128, c128 as int, qq, rr);
    }
    if q != 0 && b128 > cap / q {
        proof {
            assert(q * b128 > cap) by (nonlinear_arith)
                requires
                    q > 0,
                    b128 > cap / q,
                    cap >= 0,
            ;
        }
        return cap;
    }
    assert(q * b128 <= cap) by (nonlinear_arith)
        requires
            q == 0 || b128 <= cap / q,
            cap >= 0,
            q >= 0,
            b128 >= 0,
    ;
    let qb = q * b128;
    if low >= cap - qb {
        cap
    } else {
        qb + low
    }
}

/// `r * SCALE / d`, truncated: the fractional digits of `r / d` when `r < d`.
pub open spec fn scaled_fraction_spec(r: int, d: int) -> int {
    (r * SCALE) / d
}

/// Computes the first `SCALE_DIGITS` decimal digits of `r / d` for `r < d`,
/// one digit at a time, so that no product exceeds `2 * d`.
pub fn scaled_fraction(r: u128, d: u128) -> (f: u128)
    requires
        r < d,
    ensures
        f as int == scaled_fraction_spec(r as int, d as int),
        f < SCALE,
{
    let mut acc: u128 = 0;
    let mut rem: u128 = r;
    let mut k: u32 = 0;
    proof {
        lemma_scale_is_pow10();
    }
    while k < SCALE_DIGITS
        invariant
            k <= SCALE_DIGITS,
            rem < d,
            acc < pow10(k as nat),
            pow10(SCALE_DIGITS as nat) == SCALE as int,
            r * pow10(k as nat) == acc * d + rem,
        decreases SCALE_DIGITS - k,
    {
        let mut x: u128 = 0;
        let mut digit: u128 = 0;
        let mut j: u32 = 0;
        while j < 10
            invariant
                j <= 10,
                rem < d,
                x < d,
                digit <= j,
                rem * j == digit * d + x,
            decreases 10 - j,
        {
            let ghost prev = rem * j;
            assert(rem * (j + 1) == prev + rem) by (nonlinear_arith)
                requires
                    prev == rem * j,
            ;
            if x >= d - rem {
                assert((digit + 1) * d == digit * d + d) by (nonlinear_arith);
                x = x - (d - rem);
                digit = digit + 1;
            } else {
                x = x + rem;
            }
            j = j + 1;
        }
        proof {
            let p = pow10(k as nat);
            assert(pow10((k + 1) as nat) == 10 * p);
            assert(digit < 10) by (nonlinear_arith)
                requires
                    rem < d,
                    rem * 10 == digit * d + x,
                    x >= 0,
            ;
            assert(acc * 10 + digit < 10 * p) by (nonlinear_arith)
                requires
                    acc < p,
                    digit < 10,
            ;
            assert(r * (10 * p) == (acc * 10 + digit) * d + x) by (nonlinear_arith)
                requires
                    r * p == acc * d + rem,
                    rem * 10 == digit * d + x,
            ;
            assert(10 * p <= SCALE) by {
                if k + 1 < SCALE_DIGITS {
                    lemma_pow10_mono((k + 1) as nat, SCALE_DIGITS as nat);
                }
            }
        }
        acc = acc * 10 + digit;
        rem = x;
        k = k + 1;
    }
    proof {
        lemma_fundamental_div_mod_converse(r * SCALE, d as int, acc as int, rem as int);
    }
    acc
}

proof fn lemma_pow10_mono(a: nat, b: nat)
    requires
        a <= b,
    ensures
        pow10(a) <= pow10(b),
        pow10(a) >= 1,
    decreases b,
{
    if b > a {
        lemma_pow10_mono(a, (b - 1) as nat);
    } else if a > 0 {
        lemma_pow10_mono((a - 1) as nat, (a - 1) as nat);
    }
}

} // verus!
