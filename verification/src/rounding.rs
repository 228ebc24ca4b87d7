//! Binary floating-point rounding on integers: nearest, ties to even.
use vstd::arithmetic::power2::{
    lemma_pow2_adds, lemma_pow2_pos, lemma_pow2_strictly_increases, lemma_pow2_unfold, pow2,
};
use vstd::prelude::*;

verus! {

/// A number `mant * 2^exp` that is not negative.
#[derive(Debug, Clone, Copy, PartialEq, Eq, Structural)]
pub struct Binary {
    pub mant: u64,
    pub exp: i32,
}

/// The integer nearest to `n / d`, the even one of two that are equally near.
pub open spec fn nearest_even(n: nat, d: nat) -> nat {
    let q = n / d;
    let r = n % d;
    if 2 * r > d || (2 * r == d && q % 2 == 1) {
        q + 1
    } else {
        q
    }
}

/// `n` with `e` powers of two taken out of the quotient with `d`: the numerator.
pub open spec fn scaled_num(n: nat, e: int) -> nat {
    if e >= 0 {
        n
    } else {
        n * pow2((-e) as nat)
    }
}

/// `d` with `e` powers of two taken into it: the denominator.
pub open spec fn scaled_den(d: nat, e: int) -> nat {
    if e >= 0 {
        d * pow2(e as nat)
    } else {
        d
    }
}

/// Whether `n / d` has `p` binary digits before the point once `2^e` is taken out.
pub open spec fn has_scale(n: nat, d: nat, p: nat, e: int) -> bool {
    pow2((p - 1) as nat) * scaled_den(d, e) <= scaled_num(n, e) < pow2(p) * scaled_den(d, e)
}

/// The exponent at which `n / d` has `p` binary digits before the point.
pub open spec fn scale_of(n: nat, d: nat, p: nat) -> int {
    choose|e: int| has_scale(n, d, p, e)
}

/// `n / d` rounded to `p` binary digits, nearest and ties to even; `n` and `d` are
/// positive.
pub open spec fn rounded(n: nat, d: nat, p: nat) -> (nat, int) {
    let e = scale_of(n, d, p);
    let m = nearest_even(scaled_num(n, e), scaled_den(d, e));
    if m == pow2(p) {
        (pow2((p - 1) as nat), e + 1)
    } else {
        (m, e)
    }
}

/// `(n / d) * 2^k` rounded to `p` binary digits; zero stays zero.
pub open spec fn rounded_ratio(n: nat, d: nat, k: int, p: nat) -> (nat, int) {
    if n == 0 {
        (0, 0)
    } else {
        (rounded(n, d, p).0, rounded(n, d, p).1 + k)
    }
}

/// The value of a binary number as a pair.
pub open spec fn parts(x: Binary) -> (nat, int) {
    (x.mant as nat, x.exp as int)
}

/// A whole number rounded to `p` binary digits.
pub open spec fn whole(n: nat, p: nat) -> (nat, int) {
    rounded_ratio(n, 1, 0, p)
}

/// A product rounded to `p` binary digits.
pub open spec fn product(x: (nat, int), y: (nat, int), p: nat) -> (nat, int) {
    rounded_ratio(x.0 * y.0, 1, x.1 + y.1, p)
}

/// A quotient by a positive whole number, rounded to `p` binary digits.
pub open spec fn quotient(x: (nat, int), d: nat, p: nat) -> (nat, int) {
    rounded_ratio(x.0, d, x.1, p)
}

/// `x` rounded down to a whole number.
pub open spec fn floor_of(x: (nat, int)) -> nat {
    if x.1 >= 0 {
        x.0 * pow2(x.1 as nat)
    } else {
        x.0 / pow2((-x.1) as nat)
    }
}

/// `x` rounded to the nearest whole number, halves upwards.
pub open spec fn round_half_up(x: (nat, int)) -> nat {
    if x.1 >= 0 {
        x.0 * pow2(x.1 as nat)
    } else {
        (x.0 + pow2((-x.1 - 1) as nat)) / pow2((-x.1) as nat)
    }
}

/// `x * k` rounded to the nearest whole number, ties to even.
pub open spec fn scaled_round_even(x: (nat, int), k: nat) -> nat {
    if x.1 >= 0 {
        x.0 * pow2(x.1 as nat) * k
    } else {
        nearest_even(x.0 * k, pow2((-x.1) as nat))
    }
}

/// `n`, or `u64::MAX` where it is greater.
pub open spec fn saturated(n: nat) -> u64 {
    if n > u64::MAX {
        u64::MAX
    } else {
        n as u64
    }
}

proof fn lemma_scale_order(n: nat, d: nat, p: nat, e1: int, e2: int)
    requires
        n > 0,
        d > 0,
        p > 0,
        e1 < e2,
        has_scale(n, d, p, e1),
    ensures
        !has_scale(n, d, p, e2),
{
    // With k = e2 - e1: scaled_num(n, e1) * scaled_den(d, e2)
    //   == scaled_num(n, e2) * scaled_den(d, e1) * 2^k.
    let k = (e2 - e1) as nat;
    let a1 = scaled_num(n, e1);
    let b1 = scaled_den(d, e1);
    let a2 = scaled_num(n, e2);
    let b2 = scaled_den(d, e2);
    let g = pow2(k);
    lemma_pow2_pos(k);
    lemma_scale_step(n, d, e1, e2);
    assert(a1 * b2 == a2 * b1 * g);
    let h = pow2((p - 1) as nat);
    let t = pow2(p);
    lemma_pow2_unfold(p);
    lemma_pow2_unfold(k);
    lemma_pow2_pos((k - 1) as nat);
    lemma_pow2_pos((p - 1) as nat);
    assert(g >= 2);
    lemma_den_pos(d, e1);
    lemma_den_pos(d, e2);
    if has_scale(n, d, p, e2) {
        assert(a1 * b2 < t * b1 * b2) by (nonlinear_arith)
            requires
                a1 < t * b1,
                b2 > 0,
        ;
        assert(a2 * b1 * g >= h * b2 * b1 * 2) by (nonlinear_arith)
            requires
                a2 >= h * b2,
                b1 > 0,
                g >= 2,
                b2 > 0,
                h > 0,
        ;
        assert(t * b1 * b2 == h * b2 * b1 * 2) by (nonlinear_arith)
            requires
                t == 2 * h,
        ;
    }
}

proof fn lemma_den_pos(d: nat, e: int)
    requires
        d > 0,
    ensures
        scaled_den(d, e) > 0,
{
    if e >= 0 {
        lemma_pow2_pos(e as nat);
        assert(d * pow2(e as nat) > 0) by (nonlinear_arith)
            requires
                d > 0,
                pow2(e as nat) > 0,
        ;
    }
}

proof fn lemma_scale_step(n: nat, d: nat, e1: int, e2: int)
    requires
        e1 <= e2,
    ensures
        scaled_num(n, e1) * scaled_den(d, e2) == scaled_num(n, e2) * scaled_den(d, e1) * pow2(
            (e2 - e1) as nat,
        ),
{
    let k = (e2 - e1) as nat;
    if e1 >= 0 {
        lemma_pow2_adds(e1 as nat, k);
        let x = pow2(e1 as nat);
        let y = pow2(k);
        assert(n * (d * (x * y)) == n * (d * x) * y) by (nonlinear_arith);
    } else if e2 <= 0 {
        lemma_pow2_adds((-e2) as nat, k);
        let x = pow2((-e2) as nat);
        let y = pow2(k);
        assert(pow2((-e1) as nat) == x * y);
        if e2 < 0 {
            assert((n * (x * y)) * d == (n * x) * d * y) by (nonlinear_arith);
        } else {
            assert(pow2(0) == 1) by {
                vstd::arithmetic::power2::lemma2_to64();
            }
            assert((n * (1 * y)) * (d * 1) == n * d * y) by (nonlinear_arith);
            assert(d * 1 == d);
        }
    } else {
        lemma_pow2_adds((-e1) as nat, e2 as nat);
        let x = pow2((-e1) as nat);
        let y = pow2(e2 as nat);
        assert((n * x) * (d * y) == n * d * (x * y)) by (nonlinear_arith);
    }
}

/// A positive quotient has its binary digits before the point at one exponent alone, so
/// that whoever finds one has found the exponent by which it is rounded.
pub proof fn scale_is_unique(n: nat, d: nat, p: nat, e: int)
    requires
        n > 0,
        d > 0,
        p > 0,
        has_scale(n, d, p, e),
    ensures
        scale_of(n, d, p) == e,
{
    let s = scale_of(n, d, p);
    assert(has_scale(n, d, p, s));
    if s < e {
        lemma_scale_order(n, d, p, s, e);
    } else if e < s {
        lemma_scale_order(n, d, p, e, s);
    }
}

proof fn lemma_below_its_power(n: nat)
    ensures
        n < pow2(n),
    decreases n,
{
    if n == 0 {
        vstd::arithmetic::power2::lemma2_to64();
    } else {
        lemma_below_its_power((n - 1) as nat);
        lemma_pow2_unfold(n);
    }
}

/// Whether `n / d` has at least `p` binary digits before the point once `2^e` is taken
/// out.
spec fn reaches_scale(n: nat, d: nat, p: nat, e: int) -> bool {
    pow2((p - 1) as nat) * scaled_den(d, e) <= scaled_num(n, e)
}

proof fn lemma_scale_between(n: nat, d: nat, p: nat, e: int, k: nat) -> (r: int)
    requires
        d > 0,
        p > 0,
        reaches_scale(n, d, p, e),
        !reaches_scale(n, d, p, e + k),
    ensures
        has_scale(n, d, p, r),
    decreases k,
{
    if reaches_scale(n, d, p, e + 1) {
        lemma_scale_between(n, d, p, e + 1, (k - 1) as nat)
    } else {
        lemma_scale_step(n, d, e, e + 1);
        lemma_den_pos(d, e);
        lemma_den_pos(d, e + 1);
        lemma_pow2_unfold(p);
        vstd::arithmetic::power2::lemma2_to64();
        let h = pow2((p - 1) as nat);
        let (a, b) = (scaled_num(n, e), scaled_den(d, e));
        let (a1, b1) = (scaled_num(n, e + 1), scaled_den(d, e + 1));
        assert(pow2(1) == 2);
        assert(a * b1 == a1 * b * 2);
        assert(a < (2 * h) * b) by (nonlinear_arith)
            requires
                a * b1 == a1 * b * 2,
                a1 < h * b1,
                b > 0,
                b1 > 0,
        ;
        e
    }
}

/// A positive quotient has its binary digits before the point at some exponent.
pub proof fn scale_exists(n: nat, d: nat, p: nat)
    requires
        n > 0,
        d > 0,
        p > 0,
    ensures
        has_scale(n, d, p, scale_of(n, d, p)),
{
    let k = (p - 1 + d) as nat;
    let h = pow2((p - 1) as nat);
    lemma_pow2_adds((p - 1) as nat, d);
    lemma_below_its_power(d);
    lemma_below_its_power(n);
    lemma_pow2_pos((p - 1) as nat);
    let g = pow2(d);
    let w = pow2(n);
    assert(h * d <= n * (h * g)) by (nonlinear_arith)
        requires
            d < g,
            n > 0,
            h > 0,
    ;
    assert(reaches_scale(n, d, p, -(k as int)));
    assert(n < h * (d * w)) by (nonlinear_arith)
        requires
            n < w,
            d > 0,
            h > 0,
    ;
    assert(!reaches_scale(n, d, p, n as int));
    let e = lemma_scale_between(n, d, p, -(k as int), k + n);
    assert(has_scale(n, d, p, e));
}

proof fn lemma_nearest(a: nat, b: nat)
    requires
        b > 0,
    ensures
        2 * (nearest_even(a, b) * b) <= 2 * a + b,
        2 * a <= 2 * (nearest_even(a, b) * b) + b,
        forall|k: nat| #[trigger] (k * b) <= a ==> k <= nearest_even(a, b),
{
    let q = a / b;
    let r = a % b;
    vstd::arithmetic::div_mod::lemma_fundamental_div_mod(a as int, b as int);
    assert((q + 1) * b == q * b + b) by (nonlinear_arith);
    assert(b * q == q * b) by (nonlinear_arith);
    assert forall|k: nat| #[trigger] (k * b) <= a implies k <= nearest_even(a, b) by {
        assert(k <= q) by (nonlinear_arith)
            requires
                k * b <= a,
                a == q * b + r,
                r < b,
                b > 0,
        ;
    }
}

/// Rounding a quotient below 256 to 24 binary digits moves it by no more than 2^-16.
pub proof fn rounding_is_near(n: nat, d: nat)
    requires
        n > 0,
        d > 0,
        n < 256 * d,
    ensures
        ({
            let (m, e) = rounded(n, d, 24);
            let f = pow2((-e) as nat);
            &&& e <= -15
            &&& 0x1_0000 * (m * d) <= 0x1_0000 * (n * f) + d * f
            &&& 0x1_0000 * (n * f) <= 0x1_0000 * (m * d) + d * f
        }),
{
    vstd::arithmetic::power2::lemma2_to64();
    scale_exists(n, d, 24);
    let e = scale_of(n, d, 24);
    if e >= 0 {
        lemma_pow2_pos(e as nat);
        let x = pow2(e as nat);
        assert(0x80_0000 * (d * x) > n) by (nonlinear_arith)
            requires
                n < 256 * d,
                x > 0,
        ;
    } else if e >= -15 {
        lemma_power_at_most((-e) as nat, 15);
        let x = pow2((-e) as nat);
        assert(n * x < 0x80_0000 * d) by (nonlinear_arith)
            requires
                n < 256 * d,
                0 < x <= 0x8000,
                d > 0,
        ;
    }
    assert(e <= -16);
    let f0 = pow2((-e) as nat);
    lemma_power_at_least((-e) as nat, 16);
    lemma_nearest(n * f0, d);
    let m0 = nearest_even(n * f0, d);
    assert(d * f0 >= d * 0x1_0000) by (nonlinear_arith)
        requires
            f0 >= 0x1_0000,
    ;
    if m0 == pow2(24) {
        lemma_pow2_unfold((-e) as nat);
        let f = pow2((-e - 1) as nat);
        assert(n * f0 == 2 * (n * f) && d * f0 == 2 * (d * f)) by (nonlinear_arith)
            requires
                f0 == 2 * f,
        ;
        assert(m0 * d == 2 * (0x80_0000 * d)) by (nonlinear_arith)
            requires
                m0 == 0x100_0000,
        ;
    }
}

proof fn lemma_power_at_most(e: nat, k: nat)
    requires
        e <= k,
    ensures
        0 < pow2(e) <= pow2(k),
{
    lemma_pow2_pos(e);
    if e < k {
        lemma_pow2_strictly_increases(e, k);
    }
}

proof fn lemma_power_at_least(e: nat, k: nat)
    requires
        e >= k,
    ensures
        pow2(e) >= pow2(k),
{
    if k < e {
        lemma_pow2_strictly_increases(k, e);
    }
}

/// `n / 2^f`, which is below 256, rounded to 24 binary digits and then down to a whole
/// number: it is no less than any whole number that `n / 2^f` reaches, and less than any
/// that it misses by 2^-10.
pub proof fn rounded_floor_is_near(n: nat, f: nat, k: nat)
    requires
        n < 256 * pow2(f),
    ensures
        k * pow2(f) <= n ==> k <= floor_of(rounded_ratio(n, 1, -(f as int), 24)),
        0 < k && 0x400 * n + pow2(f) <= 0x400 * (k * pow2(f)) ==> floor_of(
            rounded_ratio(n, 1, -(f as int), 24),
        ) < k,
{
    vstd::arithmetic::power2::lemma2_to64();
    lemma_pow2_pos(f);
    let ff = pow2(f);
    if n == 0 {
        assert(rounded_ratio(n, 1, -(f as int), 24) == (0nat, 0int));
        assert(floor_of((0nat, 0int)) == 0) by {
            assert(0 * pow2(0) == 0);
        }
        assert(k * ff <= 0 ==> k == 0) by (nonlinear_arith)
            requires
                ff > 0,
        ;
    } else {
        scale_exists(n, 1, 24);
        let e = scale_of(n, 1, 24);
        if e <= 0 {
            lemma_exact_floor(n, f, e, k);
        } else {
            lemma_coarse_floor(n, f, e, k);
        }
    }
}

proof fn lemma_floor_bound(m: nat, h: nat, k: nat)
    requires
        h > 0,
    ensures
        k * h <= m <==> k <= m / h,
{
    vstd::arithmetic::div_mod::lemma_fundamental_div_mod(m as int, h as int);
    let (q, r) = (m / h, m % h);
    assert(k * h <= m <==> k <= q) by (nonlinear_arith)
        requires
            m == h * q + r,
            0 <= r < h,
    ;
}

proof fn lemma_exact_floor(n: nat, f: nat, e: int, k: nat)
    requires
        n > 0,
        e <= 0,
        e == scale_of(n, 1, 24),
        has_scale(n, 1, 24, e),
    ensures
        k * pow2(f) <= n <==> k <= floor_of(rounded_ratio(n, 1, -(f as int), 24)),
{
    vstd::arithmetic::power2::lemma2_to64();
    let g = pow2((-e) as nat);
    let m = scaled_num(n, e);
    lemma_pow2_pos((-e) as nat);
    assert(m == n * g && scaled_den(1, e) == 1) by {
        assert(n * 1 == n);
    }
    assert(nearest_even(m, 1) == m);
    assert(m < pow2(24));
    assert(rounded(n, 1, 24) == (m, e));
    let x = rounded_ratio(n, 1, -(f as int), 24);
    assert(x == (m, e - f));
    let h = pow2((f - e) as nat);
    lemma_pow2_adds(f, (-e) as nat);
    lemma_pow2_pos((f - e) as nat);
    assert(floor_of(x) == m / h) by {
        if e - f >= 0 {
            assert(m * 1 == m && m / 1 == m);
        }
    }
    lemma_floor_bound(m, h, k);
    let ff = pow2(f);
    assert(k * (ff * g) <= n * g <==> k * ff <= n) by (nonlinear_arith)
        requires
            g > 0,
    ;
}

proof fn lemma_coarse_floor(n: nat, f: nat, e: int, k: nat)
    requires
        n > 0,
        n < 256 * pow2(f),
        e > 0,
        e == scale_of(n, 1, 24),
        has_scale(n, 1, 24, e),
    ensures
        k * pow2(f) <= n ==> k <= floor_of(rounded_ratio(n, 1, -(f as int), 24)),
        0x400 * n + pow2(f) <= 0x400 * (k * pow2(f)) ==> floor_of(
            rounded_ratio(n, 1, -(f as int), 24),
        ) < k,
{
    vstd::arithmetic::power2::lemma2_to64();
    let g = pow2(e as nat);
    let ff = pow2(f);
    lemma_pow2_pos(e as nat);
    assert(scaled_den(1, e) == g) by {
        assert(1 * g == g);
    }
    assert(0x80_0000 * g <= n) by {
        assert(pow2(23) == 0x80_0000);
        assert(has_scale(n, 1, 24, e));
    }
    assert(f - e >= 16) by {
        if f - e < 16 {
            lemma_power_at_least((e + 15) as nat, f);
            lemma_pow2_adds(e as nat, 15);
            assert(pow2((e + 15) as nat) == g * 0x8000) by {
                assert(pow2(15) == 0x8000);
            }
            assert(ff <= g * 0x8000);
            assert(256 * ff <= 0x80_0000 * g);
        }
    }
    let h = pow2((f - e) as nat);
    lemma_pow2_adds((f - e) as nat, e as nat);
    lemma_power_at_least((f - e) as nat, 16);
    lemma_nearest(n, g);
    let m0 = nearest_even(n, g);
    assert(ff == h * g);
    // The rounded number is m0 / h.
    let x = rounded_ratio(n, 1, -(f as int), 24);
    assert(k <= floor_of(x) <==> k * h <= m0) by {
        if m0 == pow2(24) {
            lemma_pow2_unfold((f - e) as nat);
            let half = pow2((f - e - 1) as nat);
            lemma_pow2_pos((f - e - 1) as nat);
            lemma_floor_bound(0x80_0000, half, k);
            assert(k * h == 2 * (k * half)) by (nonlinear_arith)
                requires
                    h == 2 * half,
            ;
        } else {
            lemma_floor_bound(m0, h, k);
        }
    }
    assert((k * h) * g == k * ff) by (nonlinear_arith)
        requires
            ff == h * g,
    ;
    if 0x400 * n + ff <= 0x400 * (k * ff) {
        assert(m0 < k * h) by (nonlinear_arith)
            requires
                2 * (m0 * g) <= 2 * n + g,
                0x400 * n + ff <= 0x400 * ((k * h) * g),
                ff == h * g,
                h >= 0x1_0000,
                g > 0,
        ;
    }
}

/// Computes the nearest integer to `n / d`, ties to even.
fn nearest(n: u128, d: u128) -> (r: u128)
    requires
        0 < d <= 0x4000_0000_0000_0000_0000_0000_0000_0000,
        n < 0x8000_0000_0000_0000_0000_0000_0000_0000,
    ensures
        r as nat == nearest_even(n as nat, d as nat),
{
    let q: u128 = n / d;
    let r: u128 = n % d;
    assert(q <= n) by (nonlinear_arith)
        requires
            q == n / d,
            d > 0,
    ;
    if 2 * r > d || (2 * r == d && q % 2 == 1) {
        q + 1
    } else {
        q
    }
}

proof fn lemma_exponent_below(e: nat, x: nat)
    requires
        pow2(e) <= x < 0x40_0000_0000_0000_0000_0000_0000,
    ensures
        e < 102,
{
    if e >= 102 {
        vstd::arithmetic::power2::lemma2_to64();
        vstd::arithmetic::power2::lemma2_to64_rest();
        lemma_pow2_adds(51, 51);
        assert(pow2(102) == 0x8_0000_0000_0000 * 0x8_0000_0000_0000);
        if e > 102 {
            lemma_pow2_strictly_increases(102, e);
        }
    }
}

proof fn lemma_doubled(d: nat, e: nat)
    ensures
        d * pow2(e + 1) == 2 * (d * pow2(e)),
{
    lemma_pow2_unfold(e + 1);
    let x = pow2(e);
    assert(d * (2 * x) == 2 * (d * x)) by (nonlinear_arith);
}

proof fn lemma_times_one(d: nat)
    ensures
        d * pow2(0) == d,
{
    vstd::arithmetic::power2::lemma2_to64();
}

proof fn lemma_at_least(d: nat, e: nat)
    requires
        d > 0,
    ensures
        pow2(e) <= d * pow2(e),
{
    let x = pow2(e);
    assert(x <= d * x) by (nonlinear_arith)
        requires
            d > 0,
    ;
}

proof fn lemma_quotient_bounds(a: nat, b: nat, low: nat, high: nat)
    requires
        b > 0,
        low * b <= a < high * b,
    ensures
        low <= nearest_even(a, b) <= high,
{
    let q = a / b;
    let r = a % b;
    vstd::arithmetic::div_mod::lemma_fundamental_div_mod(a as int, b as int);
    assert(low <= q < high) by (nonlinear_arith)
        requires
            a == b * q + r,
            0 <= r < b,
            low * b <= a < high * b,
            b > 0,
    ;
}

/// Rounds `(n / d) * 2^k` to `p` binary digits.
pub fn round_ratio(n: u128, d: u64, k: i32, p: u32) -> (r: Binary)
    requires
        n < 0x400_0000_0000_0000_0000_0000_0000,
        0 < d < 0x1_0000_0000,
        p == 24 || p == 53,
        -100000 <= k <= 100000,
    ensures
        parts(r) == rounded_ratio(n as nat, d as nat, k as int, p as nat),
        r.mant < 0x20_0000_0000_0000,
        k - 200 <= r.exp <= k + 200 || n == 0 && r.exp == 0,
        p == 24 ==> r.mant < 0x100_0000,
        p == 24 && 0 < n < 0x1000 && d < 0x100 ==> k - 33 <= r.exp <= k + 1,
        n > 0 && p == 53 ==> r.mant >= 0x10_0000_0000_0000,
{
    if n == 0 {
        return Binary { mant: 0, exp: 0 };
    }
    let ghost nn = n as nat;
    let ghost dd = d as nat;
    let ghost pp = p as nat;
    proof {
        vstd::arithmetic::power2::lemma2_to64();
        vstd::arithmetic::power2::lemma2_to64_rest();
        lemma_times_one(dd);
        lemma_times_one(nn);
    }
    let high: u128 = if p == 24 {
        0x100_0000
    } else {
        0x20_0000_0000_0000
    };
    let low: u128 = high / 2;
    assert(high == pow2(pp) && low == pow2((pp - 1) as nat));
    let mut a: u128 = n;
    let mut b: u128 = d as u128;
    let mut up: u32 = 0;
    assert(high * b <= 0x20_0000_0000_0000 * 0x1_0000_0000) by (nonlinear_arith)
        requires
            high <= 0x20_0000_0000_0000,
            b < 0x1_0000_0000,
    ;
    while a >= high * b
        invariant
            dd == d,
            d > 0,
            a == n,
            n < 0x400_0000_0000_0000_0000_0000_0000,
            high == 0x100_0000 || high == 0x20_0000_0000_0000,
            low == high / 2,
            b as nat == dd * pow2(up as nat),
            0 < b < 0x8000_0000_0000_0000_0000_0000,
            high * b <= 0x800_0000_0000_0000_0000_0000_0000,
            up < 102,
            up > 0 ==> low * b <= a,
            up == 0 ==> high * b <= 0x20_0000_0000_0000 * 0x1_0000_0000,
            up > 0 ==> n >= high,
            up == 0 ==> b == d,
        decreases a - b,
    {
        assert(b < 0x400_0000_0000_0000_0000_0000 && low * (b * 2) == high * b && b < a && high * (
        b * 2) == 2 * (high * b) && a >= high) by (nonlinear_arith)
            requires
                high * b <= a,
                high == 0x100_0000 || high == 0x20_0000_0000_0000,
                low == high / 2,
                a < 0x400_0000_0000_0000_0000_0000_0000,
                b > 0,
        ;
        proof {
            lemma_doubled(dd, up as nat);
            lemma_at_least(dd, up as nat + 1);
            lemma_exponent_below(up as nat + 1, dd * pow2(up as nat + 1));
        }
        b = b * 2;
        up = up + 1;
    }
    let ghost b1 = b as nat;
    let mut down: u32 = 0;
    assert(low * b <= high * b) by (nonlinear_arith)
        requires
            low == high / 2,
    ;
    while a < low * b
        invariant
            nn == n,
            n > 0,
            low == high / 2,
            high == 0x100_0000 || high == 0x20_0000_0000_0000,
            a as nat == nn * pow2(down as nat),
            b == b1,
            b < 0x8000_0000_0000_0000_0000_0000,
            a < high * b,
            up == 0 ==> b == d,
            low * b <= high * b <= 0x800_0000_0000_0000_0000_0000_0000,
            up == 0 ==> high * b <= 0x20_0000_0000_0000 * 0x1_0000_0000,
            up > 0 ==> low * b <= a && down == 0,
            down < 102,
            a > 0,
        decreases high * b - a,
    {
        assert(2 * (low * b) == high * b) by (nonlinear_arith)
            requires
                low == high / 2,
                high == 0x100_0000 || high == 0x20_0000_0000_0000,
        ;
        proof {
            lemma_doubled(nn, down as nat);
            lemma_at_least(nn, down as nat + 1);
            lemma_exponent_below(down as nat + 1, nn * pow2(down as nat + 1));
        }
        a = a * 2;
        down = down + 1;
    }
    let ghost e = up - down;
    proof {
        if down > 0 {
            assert(scaled_num(nn, e) == a && scaled_den(dd, e) == b);
        } else {
            assert(scaled_num(nn, e) == a && scaled_den(dd, e) == b);
        }
        assert(has_scale(nn, dd, pp, e));
        scale_is_unique(nn, dd, pp, e);
        lemma_quotient_bounds(a as nat, b as nat, low as nat, high as nat);
        if p == 24 && n < 0x1000 && d < 0x100 {
            assert(high * b >= 0x100_0000) by (nonlinear_arith)
                requires
                    high == 0x100_0000,
                    b >= 1,
            ;
            if down > 33 {
                lemma_at_least(nn, down as nat);
                lemma_power_below(34, down as nat);
            }
        }
    }
    let m: u128 = nearest(a, b);
    if m == high {
        Binary { mant: low as u64, exp: up as i32 - down as i32 + 1 + k }
    } else {
        Binary { mant: m as u64, exp: up as i32 - down as i32 + k }
    }
}

/// The absolute difference of two numbers, over their lesser power of two.
pub open spec fn difference(x: (nat, int), y: (nat, int)) -> (nat, int) {
    let e = if x.1 < y.1 {
        x.1
    } else {
        y.1
    };
    let a = x.0 * pow2((x.1 - e) as nat);
    let b = y.0 * pow2((y.1 - e) as nat);
    (if a < b {
        (b - a) as nat
    } else {
        (a - b) as nat
    }, e)
}

/// The absolute difference of two numbers, rounded to 24 binary digits.
pub fn distance24(x: Binary, y: Binary) -> (r: Binary)
    requires
        x.mant < 0x100_0000,
        y.mant < 0x100_0000,
        -40 <= x.exp <= 10,
        -40 <= y.exp <= 10,
    ensures
        parts(r) == rounded_ratio(
            difference(parts(x), parts(y)).0,
            1,
            difference(parts(x), parts(y)).1,
            24,
        ),
        r.mant < 0x20_0000_0000_0000,
        -1000 <= r.exp <= 1000,
{
    let e: i32 = if x.exp < y.exp {
        x.exp
    } else {
        y.exp
    };
    let f: u128 = power((x.exp - e) as u32);
    let g: u128 = power((y.exp - e) as u32);
    proof {
        vstd::arithmetic::power2::lemma2_to64();
        vstd::arithmetic::power2::lemma2_to64_rest();
        lemma_power_below((x.exp - e) as nat, 50);
        lemma_power_below((y.exp - e) as nat, 50);
    }
    assert(x.mant * f <= 0x100_0000 * 0x4_0000_0000_0000) by (nonlinear_arith)
        requires
            x.mant < 0x100_0000,
            f <= 0x4_0000_0000_0000,
    ;
    assert(y.mant * g <= 0x100_0000 * 0x4_0000_0000_0000) by (nonlinear_arith)
        requires
            y.mant < 0x100_0000,
            g <= 0x4_0000_0000_0000,
    ;
    let a: u128 = x.mant as u128 * f;
    let b: u128 = y.mant as u128 * g;
    let d: u128 = if a < b {
        b - a
    } else {
        a - b
    };
    round_ratio(d, 1, e, 24)
}

/// Computes a power of two.
fn power(e: u32) -> (r: u128)
    requires
        e <= 100,
    ensures
        r as nat == pow2(e as nat),
        r <= 0x10_0000_0000_0000_0000_0000_0000,
{
    let mut r: u128 = 1;
    proof {
        vstd::arithmetic::power2::lemma2_to64();
        vstd::arithmetic::power2::lemma2_to64_rest();
        lemma_pow2_adds(50, 50);
        assert(pow2(100) == 0x4_0000_0000_0000 * 0x4_0000_0000_0000);
    }
    for i in 0..e
        invariant
            e <= 100,
            r as nat == pow2(i as nat),
            pow2(100) == 0x10_0000_0000_0000_0000_0000_0000,
            r <= 0x10_0000_0000_0000_0000_0000_0000,
    {
        proof {
            lemma_pow2_unfold(i as nat + 1);
            if i + 1 < 100 {
                lemma_pow2_strictly_increases(i as nat + 1, 100);
            }
        }
        r = r * 2;
    }
    r
}

proof fn lemma_power_over(x: nat, e: nat, k: nat)
    requires
        x < pow2(k),
        k <= e,
    ensures
        x < pow2(e),
        pow2(e) > 0,
{
    lemma_pow2_pos(e);
    if k < e {
        lemma_pow2_strictly_increases(k, e);
    }
}

proof fn lemma_too_large(m: nat, e: nat)
    requires
        m > 0,
        e >= 64,
    ensures
        m * pow2(e) > u64::MAX,
{
    vstd::arithmetic::power2::lemma2_to64();
    vstd::arithmetic::power2::lemma2_to64_rest();
    lemma_power_over(u64::MAX as nat, e, 64);
    let x = pow2(e);
    assert(m * x >= x) by (nonlinear_arith)
        requires
            m > 0,
    ;
}

/// The whole number in a 64-bit word, or the greatest such word.
fn saturate(n: u128) -> (r: u64)
    ensures
        r == saturated(n as nat),
{
    if n > u64::MAX as u128 {
        u64::MAX
    } else {
        n as u64
    }
}

/// Rounds down to a whole number.
pub fn floor(x: Binary) -> (r: u64)
    requires
        x.mant < 0x20_0000_0000_0000,
        -1000000 <= x.exp <= 1000000,
    ensures
        r == saturated(floor_of(parts(x))),
{
    proof {
        vstd::arithmetic::power2::lemma2_to64();
        vstd::arithmetic::power2::lemma2_to64_rest();
    }
    if x.mant == 0 {
        proof {
            if x.exp < 0 {
                lemma_pow2_pos((-x.exp) as nat);
                vstd::arithmetic::div_mod::lemma_div_of0(pow2((-x.exp) as nat) as int);
            } else {
                assert(0 * pow2(x.exp as nat) == 0) by (nonlinear_arith);
            }
        }
        return 0;
    }
    if x.exp >= 64 {
        proof {
            lemma_too_large(x.mant as nat, x.exp as nat);
        }
        return u64::MAX;
    }
    if x.exp >= 0 {
        let f: u128 = power(x.exp as u32);
        proof {
            lemma_power_below(x.exp as nat, 64);
            assert(x.mant * f <= 0x20_0000_0000_0000 * 0x1_0000_0000_0000_0000) by (nonlinear_arith)
                requires
                    x.mant < 0x20_0000_0000_0000,
                    f <= 0x1_0000_0000_0000_0000,
            ;
        }
        saturate(x.mant as u128 * f)
    } else if x.exp <= -64 {
        proof {
            lemma_power_over(x.mant as nat, (-x.exp) as nat, 64);
            vstd::arithmetic::div_mod::lemma_basic_div(
                x.mant as int,
                pow2((-x.exp) as nat) as int,
            );
        }
        0
    } else {
        let f: u128 = power((-x.exp) as u32);
        proof {
            lemma_pow2_pos((-x.exp) as nat);
        }
        saturate(x.mant as u128 / f)
    }
}

proof fn lemma_power_below(e: nat, k: nat)
    requires
        e <= k,
    ensures
        pow2(e) <= pow2(k),
{
    if e < k {
        lemma_pow2_strictly_increases(e, k);
    }
}

/// Rounds to the nearest whole number, halves upwards.
pub fn round(x: Binary) -> (r: u64)
    requires
        x.mant < 0x20_0000_0000_0000,
        -1000000 <= x.exp <= 1000000,
    ensures
        r == saturated(round_half_up(parts(x))),
{
    if x.exp >= 0 {
        return floor(x);
    }
    let s: u32 = (-x.exp) as u32;
    proof {
        vstd::arithmetic::power2::lemma2_to64();
        vstd::arithmetic::power2::lemma2_to64_rest();
        lemma_pow2_unfold(s as nat);
        lemma_pow2_pos((s - 1) as nat);
    }
    if s >= 64 {
        proof {
            lemma_power_over(x.mant as nat, (s - 1) as nat, 63);
            vstd::arithmetic::div_mod::lemma_basic_div(
                x.mant as int + pow2((s - 1) as nat) as int,
                pow2(s as nat) as int,
            );
        }
        0
    } else {
        let f: u128 = power(s);
        let h: u128 = power(s - 1);
        saturate((x.mant as u128 + h) / f)
    }
}

/// Multiplies by `k` and rounds to the nearest whole number, ties to even.
pub fn scaled_round(x: Binary, k: u32) -> (r: u64)
    requires
        x.mant < 0x20_0000_0000_0000,
        -1000000 <= x.exp <= 1000000,
        k > 0,
    ensures
        r == saturated(scaled_round_even(parts(x), k as nat)),
{
    proof {
        vstd::arithmetic::power2::lemma2_to64();
        vstd::arithmetic::power2::lemma2_to64_rest();
        assert(x.mant * k < 0x20_0000_0000_0000 * 0x1_0000_0000) by (nonlinear_arith)
            requires
                x.mant < 0x20_0000_0000_0000,
                k < 0x1_0000_0000,
        ;
        assert(x.mant as nat * k as nat == x.mant * k);
    }
    if x.exp >= 0 {
        if x.mant == 0 {
            assert(0 * pow2(x.exp as nat) * k == 0) by (nonlinear_arith);
            return 0;
        }
        if x.exp >= 64 {
            proof {
                lemma_too_large(x.mant as nat, x.exp as nat);
                let v = x.mant as nat * pow2(x.exp as nat);
                assert(v * k >= v) by (nonlinear_arith)
                    requires
                        k > 0,
                ;
            }
            return u64::MAX;
        }
        let whole: u64 = floor(x);
        let ghost v = floor_of(parts(x));
        if whole == u64::MAX {
            assert(v * k >= v) by (nonlinear_arith)
                requires
                    k > 0,
            ;
            return u64::MAX;
        }
        assert(whole * k < 0x1_0000_0000_0000_0000 * 0x1_0000_0000) by (nonlinear_arith)
            requires
                whole < 0x1_0000_0000_0000_0000,
                k < 0x1_0000_0000,
        ;
        saturate(whole as u128 * k as u128)
    } else {
        let s: u32 = (-x.exp) as u32;
        let v: u128 = x.mant as u128 * k as u128;
        if s > 100 {
            proof {
                lemma_pow2_adds(50, 51);
                assert(pow2(101) == 0x4_0000_0000_0000 * 0x8_0000_0000_0000);
                lemma_power_over(2 * (v as nat), s as nat, 101);
                vstd::arithmetic::div_mod::lemma_basic_div(v as int, pow2(s as nat) as int);
                vstd::arithmetic::div_mod::lemma_small_mod(v as nat, pow2(s as nat));
            }
            return 0;
        }
        let f: u128 = power(s);
        proof {
            lemma_pow2_pos(s as nat);
        }
        saturate(nearest(v, f))
    }
}

/// `x` in units of `2^-k`.
pub open spec fn in_units(x: (nat, int), k: nat) -> nat {
    x.0 * pow2((x.1 + k) as nat)
}

/// Whether `a` differs from `b` by no more than the `2^p`th part of `b`.
pub open spec fn is_close(a: nat, b: nat, p: nat) -> bool {
    &&& pow2(p) * a <= pow2(p) * b + b
    &&& pow2(p) * b <= pow2(p) * a + b
}

proof fn lemma_close_scaled(a: nat, b: nat, f: nat, p: nat)
    requires
        is_close(a, b, p),
    ensures
        is_close(a * f, b * f, p),
{
    let g = pow2(p);
    assert(g * (a * f) <= g * (b * f) + b * f && g * (b * f) <= g * (a * f) + b * f)
        by (nonlinear_arith)
        requires
            g * a <= g * b + b,
            g * b <= g * a + b,
    ;
}

/// Rounding `(n / d) * 2^k` to `p` binary digits moves it by no more than its `2^p`th
/// part. Both sides are in units of `2^-u`, which are fine enough for the result.
pub proof fn rounding_is_close(n: nat, d: nat, k: int, p: nat, u: nat)
    requires
        d > 0,
        p > 0,
        k + u >= 0,
        rounded_ratio(n, d, k, p).1 + u > 0,
    ensures
        is_close(
            in_units(rounded_ratio(n, d, k, p), u) * d,
            n * pow2((k + u) as nat),
            p,
        ),
{
    if n == 0 {
        let (y, z, g) = (pow2(u), pow2((k + u) as nat), pow2(p));
        assert((0 * y) * d == 0 && 0 * z == 0 && g * 0 == 0) by (nonlinear_arith);
    } else {
        scale_exists(n, d, p);
        let e = scale_of(n, d, p);
        let (a, b) = (scaled_num(n, e), scaled_den(d, e));
        lemma_den_pos(d, e);
        lemma_nearest(a, b);
        let m = nearest_even(a, b);
        let h = pow2((p - 1) as nat);
        lemma_pow2_unfold(p);
        lemma_pow2_pos((p - 1) as nat);
        let g = pow2(p);
        assert(g * (m * b) <= g * a + a && g * a <= g * (m * b) + a) by (nonlinear_arith)
            requires
                g == 2 * h,
                2 * (m * b) <= 2 * a + b,
                2 * a <= 2 * (m * b) + b,
                h * b <= a,
                h > 0,
        ;
        let j = (k + u) as nat;
        let x = rounded_ratio(n, d, k, p);
        assert(in_units(x, u) == m * pow2((e + j) as nat)) by {
            if m == pow2(p) {
                lemma_pow2_unfold((e + 1 + j) as nat);
                let y = pow2((e + j) as nat);
                assert(h * (2 * y) == (2 * h) * y) by (nonlinear_arith);
            }
        }
        if e >= 0 {
            lemma_pow2_adds(e as nat, j);
            let (y, z) = (pow2(e as nat), pow2(j));
            assert((m * (y * z)) * d == (m * (d * y)) * z) by (nonlinear_arith);
            lemma_close_scaled(m * b, a, z, p);
        } else {
            lemma_pow2_adds((-e) as nat, (e + j) as nat);
            let (y, z) = (pow2((-e) as nat), pow2((e + j) as nat));
            assert((m * z) * d == (m * d) * z) by (nonlinear_arith);
            assert(n * (y * z) == (n * y) * z) by (nonlinear_arith);
            lemma_close_scaled(m * b, a, z, p);
        }
    }
}

/// A whole number of no more than `p` binary digits is not changed by rounding.
pub proof fn small_whole_is_exact(n: nat, p: nat, u: nat)
    requires
        p > 0,
        n < pow2(p),
        whole(n, p).1 + u >= 0,
    ensures
        whole(n, p).1 <= 0,
        in_units(whole(n, p), u) == n * pow2(u),
{
    if n == 0 {
        assert(0 * pow2(u) == 0);
    } else {
        scale_exists(n, 1, p);
        let e = scale_of(n, 1, p);
        lemma_pow2_unfold(p);
        let h = pow2((p - 1) as nat);
        lemma_pow2_pos((p - 1) as nat);
        if e > 0 {
            lemma_pow2_unfold(e as nat);
            lemma_pow2_pos((e - 1) as nat);
            let y = pow2(e as nat);
            assert(h * (1 * y) >= 2 * h) by (nonlinear_arith)
                requires
                    y >= 2,
                    h > 0,
            ;
        }
        vstd::arithmetic::power2::lemma2_to64();
        assert(scaled_den(1, e) == 1);
        let a = scaled_num(n, e);
        assert(a == n * pow2((-e) as nat)) by {
            assert(n * 1 == n);
        }
        assert(nearest_even(a, 1) == a);
        assert(pow2(p) * 1 == pow2(p));
        assert(whole(n, p) == (a, e));
        lemma_pow2_adds((-e) as nat, (e + u) as nat);
        let (y, z) = (pow2((-e) as nat), pow2((e + u) as nat));
        assert((n * y) * z == n * (y * z)) by (nonlinear_arith);
    }
}

/// Rounding to the nearest whole number moves a number by no more than one half, and a
/// half upwards.
pub proof fn whole_is_within_a_half(x: (nat, int), u: nat)
    requires
        x.1 + u >= 0,
    ensures
        2 * (round_half_up(x) * pow2(u)) <= 2 * in_units(x, u) + pow2(u),
        2 * in_units(x, u) < 2 * (round_half_up(x) * pow2(u)) + pow2(u),
{
    lemma_pow2_pos(u);
    if x.1 >= 0 {
        lemma_pow2_adds(x.1 as nat, u);
        let (m, y, z) = (x.0, pow2(x.1 as nat), pow2(u));
        assert((m * y) * z == m * (y * z)) by (nonlinear_arith);
    } else {
        let e = (-x.1) as nat;
        lemma_pow2_unfold(e);
        lemma_pow2_pos((e - 1) as nat);
        let (h, f) = (pow2((e - 1) as nat), pow2(e));
        let w = x.0 + h;
        vstd::arithmetic::div_mod::lemma_fundamental_div_mod(w as int, f as int);
        let (q, r) = (w / f, w % f);
        lemma_pow2_adds(e, (u - e) as nat);
        let z = pow2((u - e) as nat);
        let m = x.0;
        lemma_pow2_pos((u - e) as nat);
        assert(2 * (q * (f * z)) <= 2 * (m * z) + f * z && 2 * (m * z) < 2 * (q * (f * z)) + f * z)
            by (nonlinear_arith)
            requires
                m + h == f * q + r,
                0 <= r < f,
                f == 2 * h,
                z > 0,
        ;
    }
}

/// Rounding a multiple to the nearest whole number moves it by no more than one half.
pub proof fn scaled_whole_is_within_a_half(x: (nat, int), k: nat, u: nat)
    requires
        x.1 + u >= 0,
    ensures
        2 * (scaled_round_even(x, k) * pow2(u)) <= 2 * (in_units(x, u) * k) + pow2(u),
        2 * (in_units(x, u) * k) <= 2 * (scaled_round_even(x, k) * pow2(u)) + pow2(u),
{
    lemma_pow2_pos(u);
    if x.1 >= 0 {
        lemma_pow2_adds(x.1 as nat, u);
        let (m, y, z) = (x.0, pow2(x.1 as nat), pow2(u));
        assert((m * y * k) * z == (m * (y * z)) * k) by (nonlinear_arith);
    } else {
        let e = (-x.1) as nat;
        lemma_pow2_pos(e);
        let f = pow2(e);
        let a = x.0 * k;
        lemma_nearest(a, f);
        let q = nearest_even(a, f);
        lemma_pow2_adds(e, (u - e) as nat);
        let z = pow2((u - e) as nat);
        let m = x.0;
        assert(2 * (q * (f * z)) <= 2 * ((m * z) * k) + f * z && 2 * ((m * z) * k) <= 2 * (q * (f
            * z)) + f * z) by (nonlinear_arith)
            requires
                2 * (q * f) <= 2 * a + f,
                2 * a <= 2 * (q * f) + f,
                a == m * k,
        ;
    }
}

/// The nearest whole number is no further than one half away; where two are, it is the
/// even one.
pub proof fn ties_go_to_the_even_one(n: nat, d: nat)
    requires
        d > 0,
    ensures
        ({
            let q = nearest_even(n, d) as int;
            &&& -d <= 2 * (q * d - n) <= d
            &&& 2 * (q * d - n) == d || 2 * (n - q * d) == d ==> q % 2 == 0
        }),
{
    lemma_nearest(n, d);
    vstd::arithmetic::div_mod::lemma_fundamental_div_mod(n as int, d as int);
    let q = n / d;
    assert((q + 1) * d == q * d + d) by (nonlinear_arith);
    assert(d * q == q * d) by (nonlinear_arith);
}

/// A number rounded down is the greatest whole number that is not greater.
pub proof fn floor_is_below(x: (nat, int), u: nat)
    requires
        x.1 + u >= 0,
    ensures
        floor_of(x) * pow2(u) <= in_units(x, u) < (floor_of(x) + 1) * pow2(u),
{
    lemma_pow2_pos(u);
    if x.1 >= 0 {
        lemma_pow2_adds(x.1 as nat, u);
        let (m, y, z) = (x.0, pow2(x.1 as nat), pow2(u));
        assert((m * y) * z == m * (y * z)) by (nonlinear_arith);
        assert((m * y + 1) * z == (m * y) * z + z) by (nonlinear_arith);
    } else {
        let e = (-x.1) as nat;
        lemma_pow2_pos(e);
        let f = pow2(e);
        vstd::arithmetic::div_mod::lemma_fundamental_div_mod(x.0 as int, f as int);
        let (q, r) = (x.0 / f, x.0 % f);
        lemma_pow2_adds(e, (u - e) as nat);
        lemma_pow2_pos((u - e) as nat);
        let z = pow2((u - e) as nat);
        let m = x.0;
        assert(q * (f * z) <= m * z < (q + 1) * (f * z)) by (nonlinear_arith)
            requires
                m == f * q + r,
                0 <= r < f,
                z > 0,
        ;
    }
}

/// What is too great is held at the greatest number, and nothing else is.
pub proof fn only_the_too_great_is_held(n: nat)
    ensures
        n <= u64::MAX ==> saturated(n) == n,
        n > u64::MAX ==> saturated(n) == u64::MAX,
{
}

} // verus!
