//! Numbers from zero to one in double precision, held in integers.
//!
//! A number is held as the integer that is `ONE` times as large. Double precision
//! keeps the 53 leading binary digits of a number and rounds to the nearest such
//! number, to the even one where two are equally near. From the smallest fraction
//! of two machine integers up to one, every double is a whole number here.
use vstd::prelude::*;
use vstd::arithmetic::div_mod::{lemma_fundamental_div_mod, lemma_fundamental_div_mod_converse};
use vstd::arithmetic::power2::{
    lemma2_to64, lemma_pow2_adds, lemma_pow2_pos, lemma_pow2_strictly_increases, lemma_pow2_unfold,
    pow2,
};

verus! {

/// One.
pub const ONE: u128 = 0x1000_0000_0000_0000_0000_0000_0000_0000;

/// The double that is nearest to nine tenths.
pub const NINE_TENTHS: u128 = 0xe66_6666_6666_6680_0000_0000_0000_0000;

/// The double that is nearest to a tenth.
pub const TENTH: u128 = 0x199_9999_9999_99a0_0000_0000_0000_0000;

/// The first number with more than 53 binary digits.
pub const DIGITS: u128 = 0x20_0000_0000_0000;

/// How far the doubles around `x` lie apart.
pub open spec fn spacing(x: nat) -> nat
    decreases x,
{
    if x < DIGITS {
        1
    } else {
        2 * spacing(x / 2)
    }
}

/// The number is rounded up: it is more than halfway to the next double, or
/// halfway, and the next one is even. `exact` says that the number is `x` itself,
/// and not a little more.
pub open spec fn goes_up(x: nat, exact: bool) -> bool {
    let rest = x % spacing(x);
    ||| 2 * rest > spacing(x)
    ||| 2 * rest == spacing(x) && (!exact || (x / spacing(x)) % 2 == 1)
}

/// The double that is nearest to `x`, or to what is a little more than `x`.
pub open spec fn rounded(x: nat, exact: bool) -> nat {
    if goes_up(x, exact) {
        (x / spacing(x) + 1) * spacing(x)
    } else {
        x / spacing(x) * spacing(x)
    }
}

/// The quotient of two doubles.
pub open spec fn quotient(a: nat, b: nat) -> nat
    recommends
        b > 0,
{
    rounded(a * (ONE as nat) / b, a * (ONE as nat) % b == 0)
}

/// The product of two doubles.
pub open spec fn product(a: nat, b: nat) -> nat {
    rounded(a * b / (ONE as nat), a * b % (ONE as nat) == 0)
}

/// The quotient of two counts, each as a double.
pub open spec fn ratio(a: nat, b: nat) -> nat {
    quotient(rounded(a, true), rounded(b, true))
}

/// A number lies between 52 and 53 binary digits of its spacing.
proof fn lemma_spacing(x: nat)
    ensures
        spacing(x) > 0,
        x < DIGITS * spacing(x),
        spacing(x) > 1 ==> DIGITS * spacing(x) <= 2 * x,
        x < DIGITS ==> spacing(x) == 1,
    decreases x,
{
    if x >= DIGITS {
        lemma_spacing(x / 2);
    }
}

/// A larger number has the same spacing, or one at least twice as large.
proof fn lemma_spacing_grows(x: nat, y: nat)
    requires
        x <= y,
    ensures
        spacing(x) == spacing(y) || 2 * spacing(x) <= spacing(y),
    decreases y,
{
    lemma_spacing(y / 2);
    if x >= DIGITS {
        lemma_spacing_grows(x / 2, y / 2);
    }
}

/// The spacing by the number of binary digits.
proof fn lemma_spacing_at(x: nat, k: nat)
    requires
        pow2(k) * DIGITS <= 2 * x,
        x < pow2(k) * DIGITS,
        k > 0,
    ensures
        spacing(x) == pow2(k),
    decreases k,
{
    lemma_pow2_unfold(k);
    lemma_pow2_pos((k - 1) as nat);
    let half = pow2((k - 1) as nat);
    assert(pow2(k) == 2 * half);
    if k == 1 {
        lemma2_to64();
        assert(spacing(x / 2) == 1);
    } else {
        lemma_spacing_at(x / 2, (k - 1) as nat);
    }
}

/// The whole and the rest of a number by its spacing.
proof fn lemma_parts(x: nat)
    ensures
        x == x / spacing(x) * spacing(x) + x % spacing(x),
        x % spacing(x) < spacing(x),
        x / spacing(x) < DIGITS,
{
    lemma_spacing(x);
    let u = spacing(x) as int;
    let q = x as int / u;
    lemma_fundamental_div_mod(x as int, u);
    assert(u * q == q * u) by (nonlinear_arith);
    assert(q < DIGITS) by (nonlinear_arith)
        requires
            q * u <= x,
            x < DIGITS * u,
            u > 0,
    ;
}

/// Rounding keeps the order of numbers.
pub proof fn lemma_rounded_grows(x: nat, x_exact: bool, y: nat, y_exact: bool)
    requires
        x < y || (x == y && (x_exact || !y_exact)),
    ensures
        rounded(x, x_exact) <= rounded(y, y_exact),
{
    lemma_spacing(x);
    lemma_spacing(y);
    lemma_spacing_grows(x, y);
    lemma_parts(x);
    lemma_parts(y);
    let u = spacing(x) as int;
    let v = spacing(y) as int;
    let p = x as int / u;
    let q = y as int / v;
    if u == v {
        assert(p <= q) by (nonlinear_arith)
            requires
                p * u <= x <= y,
                y < q * u + u,
                u > 0,
        ;
        if p < q {
            assert((p + 1) * u <= q * u) by (nonlinear_arith)
                requires
                    p + 1 <= q,
                    u > 0,
            ;
            assert(p * u <= (p + 1) * u) by (nonlinear_arith)
                requires
                    u > 0,
            ;
            assert(q * u <= (q + 1) * u) by (nonlinear_arith)
                requires
                    u > 0,
            ;
        } else {
            assert(p * u <= (p + 1) * u) by (nonlinear_arith)
                requires
                    u > 0,
            ;
        }
    } else {
        assert((p + 1) * u <= DIGITS * u) by (nonlinear_arith)
            requires
                p + 1 <= DIGITS,
                u > 0,
        ;
        assert(p * u <= (p + 1) * u) by (nonlinear_arith)
            requires
                u > 0,
        ;
        assert(q * v <= (q + 1) * v) by (nonlinear_arith)
            requires
                v > 0,
        ;
        let half = DIGITS as int / 2;
        assert(q >= half) by (nonlinear_arith)
            requires
                2 * half * v <= 2 * y,
                y < q * v + v,
                v > 0,
        ;
        assert(half * v <= q * v) by (nonlinear_arith)
            requires
                half <= q,
                v > 0,
        ;
        assert(DIGITS * u <= half * v) by (nonlinear_arith)
            requires
                2 * u <= v,
                DIGITS == 2 * half,
                half >= 0,
        ;
    }
}

/// What is a multiple of its spacing is a double already.
pub proof fn lemma_rounded_double(k: nat, x: nat)
    requires
        spacing(x) > 0,
        x == k * spacing(x),
    ensures
        rounded(x, true) == x,
{
    let u = spacing(x) as int;
    lemma_fundamental_div_mod_converse(x as int, u, k as int, 0);
}

/// One is a double, and so are nine tenths as they are held here.
pub proof fn lemma_constants()
    ensures
        pow2(124) == ONE,
        spacing(ONE as nat) == 0x100_0000_0000_0000_0000nat,
        rounded(ONE as nat, true) == ONE,
        spacing(NINE_TENTHS as nat) == 0x80_0000_0000_0000_0000nat,
        rounded(NINE_TENTHS as nat, true) == NINE_TENTHS,
        NINE_TENTHS + TENTH == ONE + 0x20_0000_0000_0000_0000nat,
        rounded((NINE_TENTHS + TENTH) as nat, true) == ONE,
        rounded(TENTH as nat, true) == TENTH,
{
    lemma2_to64();
    lemma_pow2_adds(32, 28);
    lemma_pow2_adds(64, 60);
    lemma_pow2_adds(64, 8);
    lemma_pow2_adds(64, 7);
    lemma_pow2_adds(64, 4);
    lemma_spacing_at(ONE as nat, 72);
    lemma_rounded_double(0x10_0000_0000_0000, ONE as nat);
    lemma_spacing_at(NINE_TENTHS as nat, 71);
    lemma_rounded_double(8106479329266893, NINE_TENTHS as nat);
    lemma_spacing_at(TENTH as nat, 68);
    lemma_rounded_double(7205759403792794, TENTH as nat);
    let sum = (NINE_TENTHS + TENTH) as nat;
    lemma_spacing_at(sum, 72);
    lemma_fundamental_div_mod_converse(
        sum as int,
        0x100_0000_0000_0000_0000,
        0x10_0000_0000_0000,
        0x20_0000_0000_0000_0000,
    );
}

/// The quotient of a number and one that is no less is at most one.
pub proof fn lemma_quotient_range(a: nat, b: nat)
    requires
        a <= b,
        0 < b,
    ensures
        a * (ONE as nat) / b <= ONE,
        quotient(a, b) <= ONE,
{
    lemma_constants();
    let top = a * (ONE as nat);
    lemma_fundamental_div_mod(top as int, b as int);
    let whole = (top / b) as int;
    let rest = (top % b) as int;
    assert(top <= b * (ONE as nat)) by (nonlinear_arith)
        requires
            a <= b,
            top == a * (ONE as nat),
    ;
    assert(whole <= ONE) by (nonlinear_arith)
        requires
            b * whole <= b * (ONE as nat),
            b > 0,
    ;
    assert(whole == ONE ==> rest == 0) by (nonlinear_arith)
        requires
            b * whole + rest <= b * (ONE as nat),
            rest >= 0,
    ;
    lemma_rounded_grows(whole as nat, rest == 0, ONE as nat, true);
}

/// The quotient of two counts is at most one where the first is no larger.
pub proof fn lemma_ratio_range(a: nat, b: nat)
    requires
        a <= b,
        0 < b,
    ensures
        0 < rounded(b, true),
        rounded(a, true) <= rounded(b, true),
        ratio(a, b) <= ONE,
{
    lemma_rounded_grows(a, true, b, true);
    lemma_rounded_grows(1, true, b, true);
    lemma_rounded_double(1, 1);
    lemma_quotient_range(rounded(a, true), rounded(b, true));
}

/// A tenth of a number up to one is at most a tenth.
pub proof fn lemma_tenth_range(x: nat)
    requires
        x <= ONE,
    ensures
        product(x, TENTH as nat) <= TENTH,
{
    lemma_constants();
    let top = x * (TENTH as nat);
    let one = ONE as int;
    let tenth = TENTH as int;
    lemma_fundamental_div_mod(top as int, one);
    let whole = top as int / one;
    let rest = top as int % one;
    assert(top <= one * tenth) by (nonlinear_arith)
        requires
            x <= one,
            top == x * tenth,
            tenth >= 0,
    ;
    assert(whole <= tenth) by (nonlinear_arith)
        requires
            one * whole <= one * tenth,
            one > 0,
    ;
    assert(whole == tenth ==> rest == 0) by (nonlinear_arith)
        requires
            one * whole + rest <= one * tenth,
            rest >= 0,
    ;
    lemma_rounded_grows(whole as nat, rest == 0, TENTH as nat, true);
}

/// What was rounded is a multiple of the spacing of doubles between a half and one,
/// where it lies there.
pub proof fn lemma_rounded_is_double(x: nat, exact: bool)
    requires
        ONE <= 2 * rounded(x, exact),
        rounded(x, exact) < ONE,
    ensures
        rounded(x, exact) % 0x80_0000_0000_0000_0000 == 0,
{
    lemma_constants();
    lemma2_to64();
    lemma_pow2_adds(64, 7);
    lemma_parts(x);
    lemma_spacing(x);
    let u = spacing(x) as int;
    let q = x as int / u;
    let y = rounded(x, exact) as int;
    let half = ONE as int / 2;
    assert((q + 1) * u == q * u + u) by (nonlinear_arith);
    if x < half {
        lemma_spacing_at(half as nat, 71);
        lemma_rounded_double(0x10_0000_0000_0000, half as nat);
        lemma_rounded_grows(x, exact, half as nat, true);
        assert(y == half);
    } else {
        if x >= ONE {
            lemma_rounded_grows(ONE as nat, true, x, exact);
        }
        lemma_spacing_at(x, 71);
        lemma_fundamental_div_mod_converse(
            y,
            u,
            if goes_up(x, exact) { q + 1 } else { q },
            0,
        );
    }
}

/// A quotient is a double: between a half and one it is a multiple of the spacing.
pub proof fn lemma_quotient_is_double(a: nat, b: nat)
    ensures
        ONE <= 2 * quotient(a, b) && quotient(a, b) < ONE ==> quotient(a, b)
            % 0x80_0000_0000_0000_0000 == 0,
{
    if ONE <= 2 * quotient(a, b) && quotient(a, b) < ONE {
        lemma_rounded_is_double(a * (ONE as nat) / b, a * (ONE as nat) % b == 0);
    }
}

/// Nine tenths and a tenth of a double are more than the double, unless it is one.
pub proof fn lemma_above_nine_tenths(x: nat)
    requires
        x <= ONE,
        ONE <= 2 * x && x < ONE ==> x % 0x80_0000_0000_0000_0000 == 0,
    ensures
        ({
            let y = rounded((NINE_TENTHS + product(x, TENTH as nat)) as nat, true);
            &&& y >= NINE_TENTHS
            &&& y >= x
            &&& x < ONE ==> y > x
        }),
{
    lemma_constants();
    let tenth = product(x, TENTH as nat);
    let sum = (NINE_TENTHS + tenth) as nat;
    lemma_rounded_grows(NINE_TENTHS as nat, true, sum, true);
    let top = x * (TENTH as nat);
    let whole = top / (ONE as nat);
    if x == ONE {
        assert(whole == TENTH && top % (ONE as nat) == 0);
    } else if x >= NINE_TENTHS {
        lemma2_to64();
        lemma_pow2_adds(64, 4);
        lemma_pow2_adds(64, 7);
        let step = 0x80_0000_0000_0000_0000nat;
        assert(x <= ONE - step);
        lemma_spacing_at(whole, 68);
        lemma_parts(whole);
        let u = spacing(whole) as int;
        let count = whole as int / u;
        assert((count + 1) * u == count * u + u) by (nonlinear_arith);
        assert(2 * tenth >= 2 * whole - u);
        let middle = (x + step / 2 + 1) as nat;
        assert(sum >= middle);
        lemma_spacing_at(middle, 71);
        lemma_fundamental_div_mod_converse(
            middle as int,
            step as int,
            x as int / step as int,
            (step / 2 + 1) as int,
        );
        lemma_rounded_grows(middle, true, sum, true);
    }
}

/// One half is a double.
pub proof fn lemma_half()
    ensures
        2 * ratio(1, 2) == ONE,
{
    lemma2_to64();
    lemma_pow2_adds(64, 7);
    let half = (ONE / 2) as nat;
    lemma_rounded_double(1, 1);
    lemma_rounded_double(2, 2);
    lemma_spacing_at(half, 71);
    lemma_rounded_double(0x10_0000_0000_0000, half);
}

/// Rounding is off by one part in two to the fifty-third at most. The number that is
/// rounded is `top / den`.
pub proof fn lemma_rounding_error(top: nat, den: nat)
    requires
        den > 0,
        top / den >= DIGITS || top % den == 0,
    ensures
        ({
            let off = rounded(top / den, top % den == 0) * den - top;
            -top <= off * DIGITS <= top
        }),
{
    let x = top / den;
    let exact = top % den == 0;
    lemma_spacing(x);
    lemma_spacing_even(x);
    lemma_parts(x);
    lemma_fundamental_div_mod(top as int, den as int);
    let d = den as int;
    let u = spacing(x) as int;
    let q = x as int / u;
    let rest = x as int % u;
    let more = top as int % d;
    assert(top == d * x + more);
    let y = rounded(x, exact) as int;
    assert((q + 1) * u == q * u + u) by (nonlinear_arith);
    if goes_up(x, exact) {
        assert(y - x == u - rest);
        assert(y * d - top == (u - rest) * d - more) by (nonlinear_arith)
            requires
                top == d * x + more,
                y - x == u - rest,
        ;
        assert(2 * ((u - rest) * d) <= u * d && (u - rest) * d >= d) by (nonlinear_arith)
            requires
                2 * rest >= u,
                u - rest >= 1,
                d > 0,
        ;
    } else {
        assert(x - y == rest);
        assert(y * d - top == -(rest * d) - more) by (nonlinear_arith)
            requires
                top == d * x + more,
                x - y == rest,
        ;
        if 2 * rest == u {
            assert(2 * (rest * d) == u * d) by (nonlinear_arith)
                requires
                    2 * rest == u,
            ;
        } else if u > 1 {
            assert(2 * (rest * d) + 2 * d <= u * d) by (nonlinear_arith)
                requires
                    2 * rest <= u - 2,
                    d > 0,
            ;
        }
    }
    let off = y * d - top;
    if u > 1 {
        assert(-(u * d) <= 2 * off <= u * d);
        assert(DIGITS * (u * d) <= 2 * (x * d)) by (nonlinear_arith)
            requires
                DIGITS * u <= 2 * x,
                d > 0,
        ;
        assert(x * d == d * x) by (nonlinear_arith);
    } else {
        assert(rest == 0);
        assert(rest * d == 0) by (nonlinear_arith)
            requires
                rest == 0,
        ;
        assert(x < DIGITS);
    }
}

/// A spacing of more than one is even.
proof fn lemma_spacing_even(x: nat)
    ensures
        spacing(x) == 1 || spacing(x) % 2 == 0,
{
}

/// The quotient of two counts that doubles can hold is off by one part in two to the
/// fifty-third at most.
pub proof fn lemma_ratio_error(a: nat, b: nat)
    requires
        a <= b,
        0 < b < DIGITS,
    ensures
        -(a * ONE) <= (ratio(a, b) * b - a * ONE) * DIGITS <= a * ONE,
{
    assert(spacing(a) == 1 && spacing(b) == 1);
    assert(a * 1 == a && b * 1 == b);
    lemma_rounded_double(a, a);
    lemma_rounded_double(b, b);
    let top = a * (ONE as nat);
    if a == 0 {
        assert(top == 0) by (nonlinear_arith)
            requires
                a == 0,
                top == a * (ONE as nat),
        ;
        lemma_fundamental_div_mod_converse(0, b as int, 0, 0);
    } else {
        lemma_fundamental_div_mod(top as int, b as int);
        let whole = (top / b) as int;
        assert(whole >= DIGITS) by (nonlinear_arith)
            requires
                top == b * whole + top % b,
                top % b < b,
                top >= ONE,
                0 < b < DIGITS,
                ONE == 0x1000_0000_0000_0000_0000_0000_0000_0000,
                DIGITS == 0x20_0000_0000_0000,
        ;
    }
    lemma_rounding_error(top, b);
}

/// How far the doubles around `x` lie apart.
fn spacing_of(x: u128) -> (u: u128)
    ensures
        u == spacing(x as nat),
{
    let mut u: u128 = 1;
    let mut y: u128 = x;
    while y >= DIGITS
        invariant
            spacing(x as nat) == u * spacing(y as nat),
            u * y <= x,
        decreases y,
    {
        let ghost rest = spacing((y / 2) as nat);
        assert(2 * u <= x) by (nonlinear_arith)
            requires
                u * y <= x,
                y >= 2,
        ;
        assert(u * (2 * rest) == (2 * u) * rest) by (nonlinear_arith);
        assert((2 * u) * (y / 2) <= u * y) by (nonlinear_arith)
            requires
                2 * (y / 2) <= y,
                u >= 0,
        ;
        u = 2 * u;
        y = y / 2;
    }
    assert(u * spacing(y as nat) == u) by (nonlinear_arith)
        requires
            spacing(y as nat) == 1,
    ;
    u
}

/// The double that is nearest to `x`, or to what is a little more than `x`.
fn round(x: u128, exact: bool) -> (y: u128)
    requires
        x <= 0x4000_0000_0000_0000_0000_0000_0000_0000,
    ensures
        y == rounded(x as nat, exact),
{
    let u: u128 = spacing_of(x);
    proof {
        lemma_spacing(x as nat);
        lemma_parts(x as nat);
    }
    let whole: u128 = x / u;
    let rest: u128 = x % u;
    proof {
        let top = (whole + 1) * u;
        assert(top == whole * u + u) by (nonlinear_arith)
            requires
                top == (whole + 1) * u,
        ;
        assert(0 <= whole * u) by (nonlinear_arith)
            requires
                whole >= 0,
                u >= 0,
        ;
    }
    if 2 * rest > u || (2 * rest == u && (!exact || whole % 2 == 1)) {
        (whole + 1) * u
    } else {
        whole * u
    }
}

/// The quotient of two doubles, the first no larger than the second.
fn divide(a: u128, b: u128) -> (q: u128)
    requires
        a <= b,
        0 < b <= 0x1_0000_0000_0000_0000,
    ensures
        q == quotient(a as nat, b as nat),
        q <= ONE,
{
    let mut whole: u128 = a / b;
    let mut rest: u128 = a % b;
    let mut i: u32 = 0;
    proof {
        lemma2_to64();
        lemma_fundamental_div_mod(a as int, b as int);
        assert(whole <= 1) by (nonlinear_arith)
            requires
                b * whole <= b,
                b > 0,
        ;
        assert(b * whole == whole * b) by (nonlinear_arith);
    }
    while i < 124
        invariant
            i <= 124,
            0 < b <= 0x1_0000_0000_0000_0000,
            rest < b,
            a * pow2(i as nat) == whole * b + rest,
            whole <= pow2(i as nat),
            whole <= ONE,
            a <= b,
        decreases 124 - i,
    {
        let ghost power = pow2(i as nat);
        let ghost before = whole;
        proof {
            lemma_pow2_unfold((i + 1) as nat);
            assert(pow2((i + 1) as nat) == 2 * power);
            assert(a * (2 * power) == 2 * (a * power)) by (nonlinear_arith);
            assert((2 * before) * b == 2 * (before * b)) by (nonlinear_arith);
            assert((2 * before + 1) * b == 2 * (before * b) + b) by (nonlinear_arith);
        }
        whole = 2 * whole;
        rest = 2 * rest;
        if rest >= b {
            whole = whole + 1;
            rest = rest - b;
        }
        proof {
            let next = pow2((i + 1) as nat);
            assert(whole <= next) by (nonlinear_arith)
                requires
                    whole * b + rest == a * next,
                    a <= b,
                    0 <= rest,
                    0 < b,
                    0 <= next,
            ;
            lemma_constants();
            if i + 1 < 124 {
                lemma_pow2_strictly_increases((i + 1) as nat, 124);
            }
        }
        i = i + 1;
    }
    proof {
        lemma_constants();
        lemma_fundamental_div_mod_converse(a * ONE, b as int, whole as int, rest as int);
        lemma_quotient_range(a as nat, b as nat);
    }
    round(whole, rest == 0)
}

/// The product of a double and a tenth.
pub fn tenth_of(x: u128) -> (y: u128)
    requires
        x <= ONE,
    ensures
        y == product(x as nat, TENTH as nat),
        y <= TENTH,
{
    let high: u128 = x / 0x100_0000_0000_0000;
    let low: u128 = x % 0x100_0000_0000_0000;
    let part: u128 = low * 7205759403792794;
    let whole: u128 = high * 7205759403792794 + part / 0x100_0000_0000_0000;
    let rest: u128 = part % 0x100_0000_0000_0000;
    proof {
        lemma_constants();
        assert(x * TENTH == whole * ONE + rest * 0x10_0000_0000_0000_0000);
        lemma_fundamental_div_mod_converse(
            x * TENTH,
            ONE as int,
            whole as int,
            rest * 0x10_0000_0000_0000_0000,
        );
        assert(whole <= TENTH && (whole == TENTH ==> rest == 0));
        lemma_rounded_grows(whole as nat, rest == 0, TENTH as nat, true);
    }
    round(whole, rest == 0)
}

/// The sum of nine tenths and a tenth at most, rounded.
pub fn above_nine_tenths(x: u128) -> (y: u128)
    requires
        x <= TENTH,
    ensures
        y == rounded((NINE_TENTHS + x) as nat, true),
        NINE_TENTHS <= y <= ONE,
{
    proof {
        lemma_constants();
        lemma_rounded_grows((NINE_TENTHS + x) as nat, true, (NINE_TENTHS + TENTH) as nat, true);
        lemma_rounded_grows(NINE_TENTHS as nat, true, (NINE_TENTHS + x) as nat, true);
    }
    round(NINE_TENTHS + x, true)
}

/// What is left of one, rounded.
pub fn rest_of_one(x: u128) -> (y: u128)
    requires
        x <= ONE,
    ensures
        y == rounded((ONE - x) as nat, true),
        y <= ONE,
{
    proof {
        lemma_constants();
        lemma_rounded_grows((ONE - x) as nat, true, ONE as nat, true);
    }
    round(ONE - x, true)
}

/// The quotient of two counts, each as a double.
pub fn ratio_of(a: usize, b: usize) -> (q: u128)
    requires
        a <= b,
        0 < b,
    ensures
        q == ratio(a as nat, b as nat),
        q <= ONE,
{
    proof {
        lemma_ratio_range(a as nat, b as nat);
        lemma2_to64();
        let top = 0x1_0000_0000_0000_0000nat;
        lemma_spacing_at(top, 12);
        lemma_rounded_double(0x10_0000_0000_0000, top);
        lemma_rounded_grows(b as nat, true, top, true);
    }
    let top: u128 = round(a as u128, true);
    let bottom: u128 = round(b as u128, true);
    divide(top, bottom)
}

} // verus!
