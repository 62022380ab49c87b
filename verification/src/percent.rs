//! A success rate in whole percent, as double-precision arithmetic gives it.
//!
//! The rate is the quotient of two counts, rounded to 53 significant bits, times one hundred,
//! rounded again, without its fraction. It can be one less than the exact percentage: 29 of 100
//! are 28 percent.

use vstd::arithmetic::power2::{lemma2_to64, lemma2_to64_rest, lemma_pow2_adds, lemma_pow2_pos, pow2};
use vstd::prelude::*;

verus! {

/// `n / d` rounded to the nearest integer, halves to the even one.
pub open spec fn round_half_even(n: nat, d: nat) -> nat {
    let q = n / d;
    let r = n % d;
    if 2 * r < d || (2 * r == d && q % 2 == 0) {
        q
    } else {
        q + 1
    }
}

/// Whether `e` is the binary scale of `n / d`: `n / d * 2^e` has 53 bits before the point.
pub open spec fn is_scale(n: nat, d: nat, e: nat) -> bool {
    d * pow2(52) <= n * pow2(e) < d * pow2(53)
}

/// The 53 significant bits of `n / d` under the scale `e`.
pub open spec fn significand(n: nat, d: nat, e: nat) -> nat {
    round_half_even(n * pow2(e), d)
}

/// The spacing of 53-bit numbers around the hundredfold of a significand.
pub open spec fn product_step(m: nat) -> nat {
    if m * 100 < pow2(59) {
        pow2(6)
    } else {
        pow2(7)
    }
}

/// The hundredfold of a significand, rounded to 53 bits.
pub open spec fn hundredfold(m: nat) -> nat {
    round_half_even(m * 100, product_step(m)) * product_step(m)
}

/// What the percentage of `successes` among `attempts` comes to.
pub open spec fn is_percent(successes: nat, attempts: nat, r: nat) -> bool {
    if successes == 0 {
        r == 0
    } else {
        exists|e: nat| #[trigger]
            is_scale(successes, attempts, e) && r == saturated(
                hundredfold(significand(successes, attempts, e)) / pow2(e),
            )
    }
}

/// The largest 32-bit number in place of any larger one.
pub open spec fn saturated(n: nat) -> nat {
    if n <= u32::MAX {
        n
    } else {
        u32::MAX as nat
    }
}

/// The percentage of `successes` among `attempts`.
pub open spec fn percent_of(successes: nat, attempts: nat) -> nat {
    choose|r: nat| is_percent(successes, attempts, r)
}

proof fn lemma_scale_unique(n: nat, d: nat, e: nat, f: nat)
    requires
        n > 0,
        d > 0,
        is_scale(n, d, e),
        is_scale(n, d, f),
    ensures
        e == f,
{
    if e < f {
        lemma_scale_step(n, d, e, f);
    } else if f < e {
        lemma_scale_step(n, d, f, e);
    }
}

proof fn lemma_scale_step(n: nat, d: nat, e: nat, f: nat)
    requires
        n > 0,
        d > 0,
        is_scale(n, d, e),
        e < f,
    ensures
        !is_scale(n, d, f),
{
    lemma_pow2_adds(e, (f - e) as nat);
    lemma_pow2_adds(1, (f - e - 1) as nat);
    lemma_pow2_pos((f - e - 1) as nat);
    lemma_pow2_adds(1, 52);
    lemma2_to64();
        lemma2_to64_rest();
    assert(pow2(f) >= 2 * pow2(e)) by (nonlinear_arith)
        requires
            pow2(f) == pow2(e) * pow2((f - e) as nat),
            pow2((f - e) as nat) == 2 * pow2((f - e - 1) as nat),
            pow2((f - e - 1) as nat) >= 1,
    ;
    assert(n * pow2(f) >= 2 * (n * pow2(e))) by (nonlinear_arith)
        requires
            pow2(f) >= 2 * pow2(e),
    ;
    assert(d * pow2(53) == 2 * (d * pow2(52))) by (nonlinear_arith)
        requires
            pow2(53) == 2 * pow2(52),
    ;
}

/// A number that is at most `b * d` rounds to at most `b` when divided by `d`.
proof fn lemma_round_bound(n: nat, d: nat, b: nat)
    requires
        d > 0,
        n <= b * d,
    ensures
        round_half_even(n, d) <= b,
{
    let q = n / d;
    let r = n % d;
    assert(n == d * q + r) by {
        vstd::arithmetic::div_mod::lemma_fundamental_div_mod(n as int, d as int);
    }
    assert(q < b || (q == b && r == 0)) by (nonlinear_arith)
        requires
            n == d * q + r,
            n <= b * d,
            d > 0,
            r >= 0,
    ;
}

fn rounded(n: u128, d: u128) -> (r: u128)
    requires
        0 < d < 0x8000_0000_0000_0000_0000_0000_0000_0000,
        n < 0x8000_0000_0000_0000_0000_0000_0000_0000,
    ensures
        r == round_half_even(n as nat, d as nat),
        r <= n / d + 1,
{
    let q: u128 = n / d;
    let r: u128 = n % d;
    assert(r < d) by {
        vstd::arithmetic::div_mod::lemma_mod_bound(n as int, d as int);
    }
    assert(q <= n) by {
        vstd::arithmetic::div_mod::lemma_div_is_ordered_by_denominator(n as int, 1, d as int);
    }
    if 2 * r < d || (2 * r == d && q % 2 == 0) {
        q
    } else {
        q + 1
    }
}

/// The percentage of `successes` among `attempts`. With no more successes than attempts it is at
/// most one hundred.
pub fn success_percent(successes: u32, attempts: u32) -> (r: u32)
    requires
        attempts > 0,
    ensures
        r == percent_of(successes as nat, attempts as nat),
        is_percent(successes as nat, attempts as nat, r as nat),
        successes <= attempts ==> r <= 100,
{
    if successes == 0 {
        assert(is_percent(0, attempts as nat, 0));
        return 0;
    }
    let ghost n = successes as nat;
    let ghost d = attempts as nat;
    let d128: u128 = attempts as u128;
    let low: u128 = d128 * 0x10_0000_0000_0000;
    let mut x: u128 = successes as u128;
    let mut scale: u128 = 1;
    let ghost mut e: nat = 0;
    proof {
        lemma2_to64();
        lemma2_to64_rest();
        assert(pow2(52) == 0x10_0000_0000_0000);
        assert(pow2(53) == 0x20_0000_0000_0000);
        assert(low == d * pow2(52));
        assert(d * pow2(53) == 2 * (d * pow2(52))) by (nonlinear_arith)
            requires
                pow2(53) == 2 * pow2(52),
        ;
        assert(n * pow2(0) == n) by (nonlinear_arith)
            requires
                pow2(0) == 1,
        ;
        assert(low >= 0x10_0000_0000_0000) by (nonlinear_arith)
            requires
                low == d128 * 0x10_0000_0000_0000,
                d128 >= 1,
        ;
    }
    while x < low
        invariant
            n == successes,
            d == attempts,
            n > 0,
            d > 0,
            low == d * pow2(52),
            low < 0x10_0000_0000_0000_0000_0000,
            scale == pow2(e),
            x == n * pow2(e),
            0 < scale <= x,
            x < 2 * low,
        decreases 2 * low - x,
    {
        proof {
            lemma_pow2_adds(1, e);
            lemma2_to64();
        lemma2_to64_rest();
            assert(n * pow2(e + 1) == 2 * (n * pow2(e))) by (nonlinear_arith)
                requires
                    pow2(e + 1) == 2 * pow2(e),
            ;
            e = e + 1;
        }
        x = x * 2;
        scale = scale * 2;
    }
    assert(is_scale(n, d, e));
    let m: u128 = rounded(x, d128);
    proof {
        lemma2_to64();
        lemma2_to64_rest();
        assert(m == significand(n, d, e));
        assert(x / d128 <= 0x20_0000_0000_0000) by (nonlinear_arith)
            requires
                x < 2 * low,
                low == d128 * 0x10_0000_0000_0000,
                d128 > 0,
        ;
    }
    let product: u128 = m * 100;
    let step: u128 = if product < 0x800_0000_0000_0000 {
        64
    } else {
        128
    };
    assert(step == product_step(m as nat));
    let units: u128 = rounded(product, step);
    assert(units <= 0x1000_0000_0000_0000);
    let whole: u128 = (units * step) / scale;
    assert(whole == hundredfold(m as nat) / pow2(e));
    let r: u32 = if whole <= 0xFFFF_FFFF {
        whole as u32
    } else {
        0xFFFF_FFFF
    };
    proof {
        assert(r == saturated(hundredfold(significand(n, d, e)) / pow2(e)));
        assert(is_percent(n, d, r as nat));
        let other = percent_of(n, d);
        assert(is_percent(n, d, other));
        let f = choose|f: nat| #[trigger]
            is_scale(n, d, f) && other == saturated(hundredfold(significand(n, d, f)) / pow2(f));
        lemma_scale_unique(n, d, e, f);
        if successes <= attempts {
            lemma_percent_bound(successes, attempts);
        }
    }
    r
}

/// Every percentage can be computed: there is a scale for each quotient of 32-bit counts.
proof fn lemma_scale_exists(n: nat, d: nat, e: nat)
    requires
        n > 0,
        d > 0,
        n * pow2(e) < d * pow2(53),
    ensures
        exists|f: nat| is_scale(n, d, f),
    decreases d * pow2(53) - n * pow2(e),
{
    lemma2_to64();
    lemma2_to64_rest();
    if d * pow2(52) <= n * pow2(e) {
        assert(is_scale(n, d, e));
    } else {
        lemma_pow2_adds(1, e);
        lemma_pow2_pos(e);
        assert(n * pow2(e + 1) == 2 * (n * pow2(e))) by (nonlinear_arith)
            requires
                pow2(e + 1) == 2 * pow2(e),
        ;
        assert(d * pow2(53) == 2 * (d * pow2(52))) by (nonlinear_arith)
            requires
                pow2(53) == 2 * pow2(52),
        ;
        assert(n * pow2(e) > 0) by (nonlinear_arith)
            requires
                n > 0,
                pow2(e) > 0,
        ;
        lemma_scale_exists(n, d, e + 1);
    }
}

/// With no more successes than attempts the percentage is at most one hundred.
pub proof fn lemma_percent_bound(successes: u32, attempts: u32)
    requires
        0 < attempts,
        successes <= attempts,
    ensures
        percent_of(successes as nat, attempts as nat) <= 100,
{
    let n = successes as nat;
    let d = attempts as nat;
    if n == 0 {
        assert(is_percent(n, d, 0));
        assert(is_percent(n, d, percent_of(n, d)));
    } else {
        lemma2_to64();
        lemma2_to64_rest();
        assert(n * pow2(0) < d * pow2(53)) by (nonlinear_arith)
            requires
                pow2(0) == 1,
                pow2(53) == 0x20_0000_0000_0000,
                n <= d,
                d > 0,
        ;
        lemma_scale_exists(n, d, 0);
        let e = choose|e: nat| is_scale(n, d, e);
        let r = saturated(hundredfold(significand(n, d, e)) / pow2(e));
        lemma_pow2_pos(e);
        assert(r >= 0);
        assert(is_percent(n, d, r));
        let other = percent_of(n, d);
        assert(is_percent(n, d, other));
        let f = choose|f: nat| #[trigger]
            is_scale(n, d, f) && other == saturated(hundredfold(significand(n, d, f)) / pow2(f));
        lemma_hundred_bound(n, d, f);
    }
}

proof fn lemma_hundred_bound(n: nat, d: nat, e: nat)
    requires
        0 < n <= d,
        is_scale(n, d, e),
    ensures
        hundredfold(significand(n, d, e)) / pow2(e) <= 100,
{
    lemma2_to64();
    lemma2_to64_rest();
    let scale = pow2(e);
    let x = n * scale;
    let m = significand(n, d, e);
    lemma_pow2_pos(e);
    assert(x <= scale * d) by (nonlinear_arith)
        requires
            x == n * scale,
            n <= d,
    ;
    lemma_round_bound(x, d, scale);
    assert(scale >= 0x10_0000_0000_0000) by (nonlinear_arith)
        requires
            x == n * scale,
            n <= d,
            x >= d * 0x10_0000_0000_0000,
            d > 0,
    ;
    assert(e >= 7) by {
        if e < 7 {
            vstd::arithmetic::power2::lemma_pow2_strictly_increases(e, 7);
        }
    }
    lemma_pow2_adds(7, (e - 7) as nat);
    let rest = pow2((e - 7) as nat);
    let step = product_step(m);
    let bound = if step == 64 {
        200 * rest
    } else {
        100 * rest
    };
    assert(bound * step == 100 * scale) by (nonlinear_arith)
        requires
            scale == 128 * rest,
            bound == (if step == 64 {
                200 * rest
            } else {
                100 * rest
            }),
            step == 64 || step == 128,
    ;
    let units = round_half_even(m * 100, step);
    lemma_round_bound(m * 100, step, bound);
    assert(units * step <= 100 * scale) by (nonlinear_arith)
        requires
            units <= bound,
            bound * step == 100 * scale,
            step > 0,
    ;
    let whole = hundredfold(m) / scale;
    assert(whole <= 100) by (nonlinear_arith)
        requires
            units * step <= 100 * scale,
            whole == (units * step) / scale,
            scale > 0,
    ;
}

/// A rounded quotient is no further from the quotient than a half.
proof fn lemma_round_near(n: nat, d: nat)
    requires
        d > 0,
    ensures
        2 * (round_half_even(n, d) * d) <= 2 * n + d,
        2 * n <= 2 * (round_half_even(n, d) * d) + d,
{
    let q = n / d;
    let r = n % d;
    vstd::arithmetic::div_mod::lemma_fundamental_div_mod(n as int, d as int);
    assert((q + 1) * d == d * q + d) by (nonlinear_arith);
    assert(q * d == d * q) by (nonlinear_arith);
}

/// The percentage is that of the successes among the attempts: less than two points below it and no more
/// than one above, and within a hundred.
pub proof fn law_percentage_of_successes(successes: u32, attempts: u32)
    requires
        0 < attempts,
        successes <= attempts,
    ensures
        ({
            let r = percent_of(successes as nat, attempts as nat);
            &&& r <= 100
            &&& r * attempts <= 100 * successes + attempts
            &&& 100 * successes < (r + 2) * attempts
            &&& successes == 0 ==> r == 0
        }),
{
    let n = successes as nat;
    let d = attempts as nat;
    lemma_percent_bound(successes, attempts);
    if n == 0 {
        assert(is_percent(n, d, 0));
        assert(is_percent(n, d, percent_of(n, d)));
        assert((0nat + 2) * d > 0) by (nonlinear_arith)
            requires
                d > 0,
        ;
    } else {
        lemma2_to64();
        lemma2_to64_rest();
        assert(n * pow2(0) < d * pow2(53)) by (nonlinear_arith)
            requires
                pow2(0) == 1,
                pow2(53) == 0x20_0000_0000_0000,
                n <= d,
                d > 0,
        ;
        lemma_scale_exists(n, d, 0);
        let e = choose|e: nat| is_scale(n, d, e);
        let some = saturated(hundredfold(significand(n, d, e)) / pow2(e));
        lemma_pow2_pos(e);
        assert(some >= 0);
        assert(is_percent(n, d, some));
        let r = percent_of(n, d);
        assert(is_percent(n, d, r));
        let f = choose|f: nat| #[trigger]
            is_scale(n, d, f) && r == saturated(hundredfold(significand(n, d, f)) / pow2(f));
        lemma_hundred_bound(n, d, f);
        lemma_hundred_near(n, d, f);
    }
}

proof fn lemma_hundred_near(n: nat, d: nat, e: nat)
    requires
        0 < n <= d,
        is_scale(n, d, e),
    ensures
        (hundredfold(significand(n, d, e)) / pow2(e)) * d <= 100 * n + d,
        100 * n < (hundredfold(significand(n, d, e)) / pow2(e) + 2) * d,
{
    lemma2_to64();
    lemma2_to64_rest();
    let scale = pow2(e);
    let x = n * scale;
    let m = significand(n, d, e);
    lemma_pow2_pos(e);
    assert(scale >= 0x10_0000_0000_0000) by (nonlinear_arith)
        requires
            x == n * scale,
            n <= d,
            x >= d * 0x10_0000_0000_0000,
            d > 0,
    ;
    lemma_round_near(x, d);
    let step = product_step(m);
    let h = hundredfold(m);
    lemma_round_near(m * 100, step);
    assert(step <= 128);
    assert(h <= 100 * m + 64 && 100 * m <= h + 64);
    let r = h / scale;
    vstd::arithmetic::div_mod::lemma_fundamental_div_mod(h as int, scale as int);
    assert(r * scale <= h < (r + 1) * scale) by (nonlinear_arith)
        requires
            h == scale * r + h % scale,
            0 <= h % scale < scale,
    ;
    let md = m * d;
    assert(2 * md <= 2 * x + d && 2 * x <= 2 * md + d);
    assert((r * d) * scale <= 100 * x + d * scale) by (nonlinear_arith)
        requires
            r * scale <= h,
            h <= 100 * m + 64,
            md == m * d,
            2 * md <= 2 * x + d,
            scale >= 0x10_0000_0000_0000,
            d > 0,
    ;
    assert(100 * x < ((r + 2) * d) * scale) by (nonlinear_arith)
        requires
            h < (r + 1) * scale,
            100 * m <= h + 64,
            md == m * d,
            2 * x <= 2 * md + d,
            scale >= 0x10_0000_0000_0000,
            d > 0,
    ;
    assert(r * d <= 100 * n + d) by (nonlinear_arith)
        requires
            (r * d) * scale <= 100 * x + d * scale,
            x == n * scale,
            scale > 0,
    ;
    assert(100 * n < (r + 2) * d) by (nonlinear_arith)
        requires
            100 * x < ((r + 2) * d) * scale,
            x == n * scale,
            scale > 0,
    ;
}

} // verus!
