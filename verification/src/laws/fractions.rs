//! When fractions are defined, and how close their square roots are.
use vstd::prelude::*;

use crate::ratio;
use crate::ratio::Ratio;
use crate::scalar::{ExactScalar, Scalar};

verus! {

/// The greatest common divisor is a combination of the two numbers.
proof fn lemma_combination(a: nat, b: nat) -> (r: (int, int))
    ensures
        r.0 * a + r.1 * b == ratio::gcd(a, b),
    decreases b,
{
    if b == 0 {
        assert(1 * a + 0 * b == a) by (nonlinear_arith);
        (1, 0)
    } else {
        let (s, t) = lemma_combination(b, a % b);
        let k = (a / b) as int;
        let m = (a % b) as int;
        assert(a == b * k + m) by (nonlinear_arith)
            requires
                b > 0,
                k == a / b,
                m == a % b,
        ;
        assert(t * a + (s - t * k) * b == s * b + t * m) by (nonlinear_arith)
            requires
                a == b * k + m,
        ;
        (t, s - t * k)
    }
}

/// The lowest terms of a fraction are no larger than any terms of it.
proof fn lemma_lowest_terms(n: int, d: int, m: int, e: int)
    requires
        d > 0,
        e > 0,
        m * d == n * e,
    ensures
        ({
            let g = ratio::gcd(ratio::abs(n) as nat, d as nat) as int;
            &&& g > 0
            &&& 0 <= ratio::abs(n) / g <= ratio::abs(m)
            &&& 0 < d / g <= e
        }),
{
    let x = ratio::abs(n);
    let y = ratio::abs(m);
    let g = ratio::gcd(x as nat, d as nat) as int;
    let (p, q) = ratio::lemma_gcd(x as nat, d as nat);
    let (s, t) = lemma_combination(x as nat, d as nat);
    assert(x / g == p && d / g == q && q > 0) by (nonlinear_arith)
        requires
            g > 0,
            d > 0,
            x == g * p,
            d == g * q,
    ;
    assert(y * d == x * e) by (nonlinear_arith)
        requires
            m * d == n * e,
            d > 0,
            e > 0,
            x == (if n < 0 {
                -n
            } else {
                n
            }),
            y == (if m < 0 {
                -m
            } else {
                m
            }),
    ;
    assert(y * q == p * e) by (nonlinear_arith)
        requires
            y * d == x * e,
            x == g * p,
            d == g * q,
            g > 0,
    ;
    assert(s * p + t * q == 1) by (nonlinear_arith)
        requires
            s * x + t * d == g,
            x == g * p,
            d == g * q,
            g > 0,
    ;
    let k = s * y + t * e;
    assert(e == q * k) by (nonlinear_arith)
        requires
            s * p + t * q == 1,
            y * q == p * e,
            k == s * y + t * e,
    ;
    assert(k > 0) by (nonlinear_arith)
        requires
            e == q * k,
            e > 0,
            q > 0,
    ;
    assert(y == p * k) by (nonlinear_arith)
        requires
            y * q == p * e,
            e == q * k,
            q > 0,
    ;
    assert(q <= e && p <= y) by (nonlinear_arith)
        requires
            e == q * k,
            y == p * k,
            k >= 1,
            q > 0,
            p >= 0,
    ;
}

proof fn lemma_defined(n: int, d: int, c: Ratio)
    requires
        d > 0,
        c.is_defined(),
        Ratio::value(c) == (n as real) / (d as real),
    ensures
        Ratio::reduced(n, d).is_defined(),
{
    let m = c.num as int;
    let e = c.den as int;
    let mr = m as real;
    let er = e as real;
    let nr = n as real;
    let dr = d as real;
    assert(mr * dr == nr * er) by (nonlinear_arith)
        requires
            mr / er == nr / dr,
            er > 0real,
            dr > 0real,
    ;
    ratio::lemma_real_mul(m, d);
    ratio::lemma_real_mul(n, e);
    assert(m * d == n * e);
    lemma_lowest_terms(n, d, m, e);
}

/// A sum, difference, product or quotient is defined wherever some fraction has its value.
pub proof fn law_results_that_fit_are_defined(a: Ratio, b: Ratio, c: Ratio)
    requires
        a.is_defined(),
        b.is_defined(),
        c.is_defined(),
    ensures
        Ratio::value(c) == Ratio::value(a) + Ratio::value(b) ==> Ratio::is_finite_spec(
            Ratio::plus_spec(a, b),
        ),
        Ratio::value(c) == Ratio::value(a) - Ratio::value(b) ==> Ratio::is_finite_spec(
            Ratio::minus_spec(a, b),
        ),
        Ratio::value(c) == Ratio::value(a) * Ratio::value(b) ==> Ratio::is_finite_spec(
            Ratio::times_spec(a, b),
        ),
        b.num != 0 && Ratio::value(c) == Ratio::value(a) / Ratio::value(b)
            ==> Ratio::is_finite_spec(Ratio::over_spec(a, b)),
{
    let an = a.num as int;
    let ad = a.den as int;
    let bn = b.num as int;
    let bd = b.den as int;
    ratio::lemma_product_fits(ad, bd);
    ratio::lemma_real_mul(an, bd);
    ratio::lemma_real_mul(bn, ad);
    ratio::lemma_real_mul(ad, bd);
    ratio::lemma_real_mul(an, bn);
    ratio::lemma_sum(an as real, ad as real, bn as real, bd as real);
    if Ratio::value(c) == Ratio::value(a) + Ratio::value(b) {
        lemma_defined(an * bd + bn * ad, ad * bd, c);
    }
    if Ratio::value(c) == Ratio::value(a) - Ratio::value(b) {
        lemma_defined(an * bd - bn * ad, ad * bd, c);
    }
    if Ratio::value(c) == Ratio::value(a) * Ratio::value(b) {
        lemma_defined(an * bn, ad * bd, c);
    }
    if bn != 0 && Ratio::value(c) == Ratio::value(a) / Ratio::value(b) {
        ratio::lemma_quotient(an as real, ad as real, bn as real, bd as real);
        if bn < 0 {
            ratio::lemma_product_fits(ad, -bn);
            ratio::lemma_real_mul(-an, bd);
            ratio::lemma_real_mul(ad, -bn);
            lemma_defined((-an) * bd, ad * (-bn), c);
        } else {
            ratio::lemma_product_fits(ad, bn);
            ratio::lemma_real_mul(ad, bn);
            lemma_defined(an * bd, ad * bn, c);
        }
    }
}

/// A fraction that is made from terms has their value where it is defined, and it is defined
/// wherever some fraction has that value.
pub proof fn law_fraction_has_the_value_of_its_terms(n: int, d: int, c: Ratio)
    requires
        d > 0,
        c.is_defined(),
    ensures
        Ratio::reduced(n, d).is_defined() ==> Ratio::value(Ratio::reduced(n, d)) == (n as real) / (
        d as real),
        Ratio::value(c) == (n as real) / (d as real) ==> Ratio::reduced(n, d).is_defined(),
{
    if Ratio::reduced(n, d).is_defined() {
        ratio::lemma_reduced(n, d);
    }
    if Ratio::value(c) == (n as real) / (d as real) {
        lemma_defined(n, d, c);
    }
}

/// A fraction is defined where its denominator is positive and its numerator can change its sign.
/// One that is not is neither zero nor finite nor comparable, is passed over where the larger of
/// two is taken, and makes every result undefined. So do a division by zero and the root of a
/// negative fraction.
pub proof fn law_undefined_fractions_stand_apart(a: Ratio, b: Ratio)
    ensures
        Ratio::is_finite_spec(a) <==> a.den > 0 && a.num > i64::MIN,
        !Ratio::is_finite_spec(a) ==> {
            &&& !Ratio::is_zero_spec(a)
            &&& !Ratio::less_spec(a, b)
            &&& !Ratio::less_spec(b, a)
            &&& Ratio::larger_spec(a, b) == b
            &&& Ratio::larger_spec(b, a) == if Ratio::is_finite_spec(b) {
                b
            } else {
                a
            }
            &&& !Ratio::is_finite_spec(Ratio::magnitude_spec(a))
            &&& !Ratio::is_finite_spec(Ratio::root_spec(a))
            &&& !Ratio::is_finite_spec(Ratio::plus_spec(a, b))
            &&& !Ratio::is_finite_spec(Ratio::plus_spec(b, a))
            &&& !Ratio::is_finite_spec(Ratio::minus_spec(a, b))
            &&& !Ratio::is_finite_spec(Ratio::minus_spec(b, a))
            &&& !Ratio::is_finite_spec(Ratio::times_spec(a, b))
            &&& !Ratio::is_finite_spec(Ratio::times_spec(b, a))
            &&& !Ratio::is_finite_spec(Ratio::over_spec(a, b))
            &&& !Ratio::is_finite_spec(Ratio::over_spec(b, a))
        },
        b.num == 0 ==> !Ratio::is_finite_spec(Ratio::over_spec(a, b)),
        a.num < 0 ==> !Ratio::is_finite_spec(Ratio::root_spec(a)),
{
}

/// A whole number is defined wherever it fits.
pub proof fn law_whole_numbers_that_fit_are_defined(n: u64)
    ensures
        Ratio::is_finite_spec(Ratio::of_u64_spec(n)) <==> n <= i64::MAX,
{
}

/// The square root of a fraction that is not negative is defined, is not above the true root, and
/// is less than one unit of the fraction's denominator below it.
pub proof fn law_square_root_is_close(a: Ratio)
    requires
        a.is_defined(),
        a.num >= 0,
    ensures
        Ratio::is_finite_spec(Ratio::root_spec(a)),
        ({
            let r = Ratio::value(Ratio::root_spec(a));
            let unit = 1real / (a.den as real);
            &&& r >= 0real
            &&& r * r <= Ratio::value(a)
            &&& Ratio::value(a) < (r + unit) * (r + unit)
        }),
{
    let n = a.num as int;
    let d = a.den as int;
    let m = n * d;
    ratio::lemma_product_fits(n, d);
    let f = ratio::lemma_floor_root(m);
    lemma_lowest_terms(f, d, f, d);
    ratio::lemma_reduced(f, d);
    ratio::lemma_real_mul(n, d);
    ratio::lemma_real_mul(f, f);
    ratio::lemma_real_mul(f + 1, f + 1);
    let x = f as real;
    let y = d as real;
    let v = n as real;
    let r = x / y;
    let u = 1real / y;
    assert((f + 1) as real == x + 1real);
    assert(r >= 0real && r * y == x && u * y == 1real) by (nonlinear_arith)
        requires
            r == x / y,
            u == 1real / y,
            x >= 0real,
            y > 0real,
    ;
    let w = v / y;
    assert(w * y == v) by (nonlinear_arith)
        requires
            w == v / y,
            y > 0real,
    ;
    let p = y * y;
    assert(p > 0real) by (nonlinear_arith)
        requires
            p == y * y,
            y > 0real,
    ;
    assert((r * r) * p == x * x) by (nonlinear_arith)
        requires
            r * y == x,
            p == y * y,
    ;
    assert(w * p == v * y) by (nonlinear_arith)
        requires
            w * y == v,
            p == y * y,
    ;
    let q = r + u;
    assert(q * y == x + 1real) by (nonlinear_arith)
        requires
            q == r + u,
            r * y == x,
            u * y == 1real,
    ;
    assert((q * q) * p == (x + 1real) * (x + 1real)) by (nonlinear_arith)
        requires
            q * y == x + 1real,
            p == y * y,
    ;
    let rr = r * r;
    let qq = q * q;
    assert(rr <= w) by (nonlinear_arith)
        requires
            rr * p <= w * p,
            p > 0real,
    ;
    assert(w < qq) by (nonlinear_arith)
        requires
            w * p < qq * p,
            p > 0real,
    ;
}

} // verus!
