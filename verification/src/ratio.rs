//! Exact rational arithmetic in machine words.
//!
//! The operations of [`Ratio`] answer in lowest terms. One whose exact result does not fit, or that
//! has none, answers with an undefined fraction, and everything computed from that is undefined
//! too. So a finite result is exact, which is what [`ExactScalar`] asks for.
use vstd::prelude::*;

use crate::scalar::{ExactScalar, Scalar};

verus! {

/// A fraction: `num / den` where `den` is positive, and undefined otherwise.
#[derive(Debug, Clone, Copy, PartialEq, Eq, Structural)]
pub struct Ratio {
    /// The numerator.
    pub num: i64,
    /// The denominator.
    pub den: i64,
}

/// The greatest common divisor.
pub open spec fn gcd(a: nat, b: nat) -> nat
    decreases b,
{
    if b == 0 {
        a
    } else {
        gcd(b, a % b)
    }
}

/// The absolute value.
pub open spec fn abs(n: int) -> int {
    if n < 0 {
        -n
    } else {
        n
    }
}

/// `r` is the largest number whose square is at most `n`.
pub open spec fn is_floor_root(n: int, r: int) -> bool {
    0 <= r && r * r <= n < (r + 1) * (r + 1)
}

/// The largest number whose square is at most `n`.
pub open spec fn floor_root_of(n: int) -> int {
    choose|r: int| is_floor_root(n, r)
}

impl Ratio {
    /// The fraction stands for a number.
    pub open spec fn is_defined(self) -> bool {
        self.den > 0 && self.num > i64::MIN
    }

    /// The undefined fraction.
    pub open spec fn undefined_spec() -> Ratio {
        Ratio { num: 0, den: 0 }
    }

    /// The fraction `n / d` in lowest terms, for a positive `d`; undefined where it does not fit.
    pub open spec fn reduced(n: int, d: int) -> Ratio {
        let g = gcd(abs(n) as nat, d as nat) as int;
        let p = abs(n) / g;
        let q = d / g;
        if p <= i64::MAX && q <= i64::MAX {
            Ratio {
                num: if n < 0 {
                    (-p) as i64
                } else {
                    p as i64
                },
                den: q as i64,
            }
        } else {
            Ratio::undefined_spec()
        }
    }

    fn undefined() -> (r: Ratio)
        ensures
            r == Ratio::undefined_spec(),
            !r.is_defined(),
    {
        Ratio { num: 0, den: 0 }
    }

    fn defined(self) -> (r: bool)
        ensures
            r == self.is_defined(),
    {
        self.den > 0 && self.num > i64::MIN
    }

    fn reduce(n: i128, d: i128) -> (r: Ratio)
        requires
            d > 0,
            n > i128::MIN,
        ensures
            r == Ratio::reduced(n as int, d as int),
    {
        let m: u128 = if n < 0 {
            (-n) as u128
        } else {
            n as u128
        };
        let g: u128 = common_divisor(m, d as u128);
        proof {
            let (p, q) = lemma_gcd(m as nat, d as nat);
            assert(g > 0);
        }
        let p: u128 = m / g;
        let q: u128 = (d as u128) / g;
        if p <= i64::MAX as u128 && q <= i64::MAX as u128 {
            let num: i64 = if n < 0 {
                -(p as i64)
            } else {
                p as i64
            };
            Ratio { num, den: q as i64 }
        } else {
            Ratio::undefined()
        }
    }

    /// The fraction `num / den`; undefined where `den` is zero or the lowest terms do not fit.
    pub fn new(num: i64, den: i64) -> (r: Ratio)
        ensures
            r == (if den == 0 {
                Ratio::undefined_spec()
            } else if den < 0 {
                Ratio::reduced(-num, -den)
            } else {
                Ratio::reduced(num as int, den as int)
            }),
    {
        if den == 0 {
            Ratio::undefined()
        } else if den < 0 {
            Ratio::reduce(-(num as i128), -(den as i128))
        } else {
            Ratio::reduce(num as i128, den as i128)
        }
    }
}

fn common_divisor(a: u128, b: u128) -> (g: u128)
    ensures
        g == gcd(a as nat, b as nat),
{
    let mut x: u128 = a;
    let mut y: u128 = b;
    while y != 0
        invariant
            gcd(x as nat, y as nat) == gcd(a as nat, b as nat),
        decreases y,
    {
        let r: u128 = x % y;
        x = y;
        y = r;
    }
    x
}

/// The greatest common divisor divides both numbers: the quotients.
pub proof fn lemma_gcd(a: nat, b: nat) -> (r: (nat, nat))
    requires
        a > 0 || b > 0,
    ensures
        gcd(a, b) > 0,
        a == gcd(a, b) * r.0,
        b == gcd(a, b) * r.1,
    decreases b,
{
    let g = gcd(a, b);
    if b == 0 {
        assert(g * 1 == g && g * 0 == 0) by (nonlinear_arith);
        (1, 0)
    } else {
        let (p, q) = lemma_gcd(b, a % b);
        let k = a / b;
        assert(a == g * (p * k + q)) by (nonlinear_arith)
            requires
                b > 0,
                k == a / b,
                b == g * p,
                a % b == g * q,
        ;
        (p * k + q, p)
    }
}

/// The largest number whose square is at most `n`.
fn floor_root(n: u128) -> (r: u64)
    requires
        n < 0x4000_0000_0000_0000_0000_0000_0000_0000,
    ensures
        r == floor_root_of(n as int),
        r < 0x8000_0000_0000_0000,
{
    let mut lo: u64 = 0;
    let mut hi: u64 = 0x8000_0000_0000_0000;
    assert(0x8000_0000_0000_0000int * 0x8000_0000_0000_0000int
        == 0x4000_0000_0000_0000_0000_0000_0000_0000int);
    while hi - lo > 1
        invariant
            lo < hi <= 0x8000_0000_0000_0000,
            lo as int * lo as int <= n,
            n < hi as int * hi as int,
        decreases hi - lo,
    {
        let mid: u64 = lo + (hi - lo) / 2;
        assert(mid as int * mid as int <= 0x4000_0000_0000_0000_0000_0000_0000_0000) by (nonlinear_arith)
            requires
                mid <= 0x8000_0000_0000_0000,
        ;
        if (mid as u128) * (mid as u128) <= n {
            lo = mid;
        } else {
            hi = mid;
        }
    }
    proof {
        assert(is_floor_root(n as int, lo as int));
        lemma_floor_root_unique(n as int, lo as int, floor_root_of(n as int));
    }
    lo
}

/// There is a largest number whose square is at most `n`.
pub proof fn lemma_floor_root(n: int) -> (r: int)
    requires
        0 <= n < 0x4000_0000_0000_0000_0000_0000_0000_0000,
    ensures
        is_floor_root(n, r),
        r == floor_root_of(n),
        r < 0x8000_0000_0000_0000,
{
    let r = lemma_some_floor_root(n);
    lemma_floor_root_unique(n, r, floor_root_of(n));
    assert(r < 0x8000_0000_0000_0000) by (nonlinear_arith)
        requires
            0 <= r,
            r * r <= n,
            n < 0x4000_0000_0000_0000_0000_0000_0000_0000,
    ;
    r
}

proof fn lemma_some_floor_root(n: int) -> (r: int)
    requires
        0 <= n,
    ensures
        is_floor_root(n, r),
    decreases n,
{
    if n == 0 {
        assert(is_floor_root(0, 0));
        0
    } else {
        let r = lemma_some_floor_root(n - 1);
        if n < (r + 1) * (r + 1) {
            r
        } else {
            let q = r + 1;
            assert((q + 1) * (q + 1) > q * q) by (nonlinear_arith)
                requires
                    0 <= q,
            ;
            assert(q * q == n);
            q
        }
    }
}

proof fn lemma_floor_root_unique(n: int, r: int, s: int)
    requires
        is_floor_root(n, r),
        is_floor_root(n, s),
    ensures
        r == s,
{
    if r < s {
        assert((r + 1) * (r + 1) <= s * s) by (nonlinear_arith)
            requires
                0 <= r < s,
        ;
    }
    if s < r {
        assert((s + 1) * (s + 1) <= r * r) by (nonlinear_arith)
            requires
                0 <= s < r,
        ;
    }
}

/// The product of two machine words fits into a double word.
pub proof fn lemma_product_fits(a: int, b: int)
    requires
        -i64::MAX <= a <= i64::MAX,
        -i64::MAX <= b <= i64::MAX,
    ensures
        -0x3fff_ffff_ffff_ffff_ffff_ffff_ffff_ffff <= a * b
            <= 0x3fff_ffff_ffff_ffff_ffff_ffff_ffff_ffff,
        0 <= a && 0 <= b ==> 0 <= a * b,
        0 < a && 0 < b ==> 0 < a * b,
{
    assert(-0x3fff_ffff_ffff_ffff_ffff_ffff_ffff_ffff <= a * b
        <= 0x3fff_ffff_ffff_ffff_ffff_ffff_ffff_ffff) by (nonlinear_arith)
        requires
            -0x7fff_ffff_ffff_ffff <= a <= 0x7fff_ffff_ffff_ffff,
            -0x7fff_ffff_ffff_ffff <= b <= 0x7fff_ffff_ffff_ffff,
    ;
    assert(0 <= a && 0 <= b ==> 0 <= a * b) by (nonlinear_arith);
    assert(0 < a && 0 < b ==> 0 < a * b) by (nonlinear_arith);
}

impl Scalar for Ratio {
    open spec fn of_u64_spec(n: u64) -> Ratio {
        if n <= i64::MAX {
            Ratio { num: n as i64, den: 1 }
        } else {
            Ratio::undefined_spec()
        }
    }

    open spec fn plus_spec(a: Ratio, b: Ratio) -> Ratio {
        if a.is_defined() && b.is_defined() {
            Ratio::reduced(a.num * b.den + b.num * a.den, a.den * b.den)
        } else {
            Ratio::undefined_spec()
        }
    }

    open spec fn minus_spec(a: Ratio, b: Ratio) -> Ratio {
        if a.is_defined() && b.is_defined() {
            Ratio::reduced(a.num * b.den - b.num * a.den, a.den * b.den)
        } else {
            Ratio::undefined_spec()
        }
    }

    open spec fn times_spec(a: Ratio, b: Ratio) -> Ratio {
        if a.is_defined() && b.is_defined() {
            Ratio::reduced(a.num * b.num, a.den * b.den)
        } else {
            Ratio::undefined_spec()
        }
    }

    open spec fn over_spec(a: Ratio, b: Ratio) -> Ratio {
        if !a.is_defined() || !b.is_defined() || b.num == 0 {
            Ratio::undefined_spec()
        } else if b.num < 0 {
            Ratio::reduced((-a.num) * b.den, a.den * (-b.num))
        } else {
            Ratio::reduced(a.num * b.den, a.den * b.num)
        }
    }

    open spec fn magnitude_spec(a: Ratio) -> Ratio {
        if a.is_defined() && a.num < 0 {
            Ratio { num: (-a.num) as i64, den: a.den }
        } else {
            a
        }
    }

    open spec fn larger_spec(a: Ratio, b: Ratio) -> Ratio {
        if !a.is_defined() || Ratio::less_spec(a, b) {
            b
        } else {
            a
        }
    }

    open spec fn root_spec(a: Ratio) -> Ratio {
        if a.is_defined() && a.num >= 0 {
            Ratio::reduced(floor_root_of(a.num * a.den), a.den as int)
        } else {
            Ratio::undefined_spec()
        }
    }

    open spec fn less_spec(a: Ratio, b: Ratio) -> bool {
        a.is_defined() && b.is_defined() && a.num * b.den < b.num * a.den
    }

    open spec fn is_zero_spec(a: Ratio) -> bool {
        a.is_defined() && a.num == 0
    }

    open spec fn is_finite_spec(a: Ratio) -> bool {
        a.is_defined()
    }

    fn of_u64(n: u64) -> Ratio {
        if n <= i64::MAX as u64 {
            Ratio { num: n as i64, den: 1 }
        } else {
            Ratio::undefined()
        }
    }

    fn plus(a: Ratio, b: Ratio) -> Ratio {
        if !a.defined() || !b.defined() {
            return Ratio::undefined();
        }
        proof {
            lemma_product_fits(a.num as int, b.den as int);
            lemma_product_fits(b.num as int, a.den as int);
            lemma_product_fits(a.den as int, b.den as int);
        }
        let n: i128 = (a.num as i128) * (b.den as i128) + (b.num as i128) * (a.den as i128);
        Ratio::reduce(n, (a.den as i128) * (b.den as i128))
    }

    fn minus(a: Ratio, b: Ratio) -> Ratio {
        if !a.defined() || !b.defined() {
            return Ratio::undefined();
        }
        proof {
            lemma_product_fits(a.num as int, b.den as int);
            lemma_product_fits(b.num as int, a.den as int);
            lemma_product_fits(a.den as int, b.den as int);
        }
        let n: i128 = (a.num as i128) * (b.den as i128) - (b.num as i128) * (a.den as i128);
        Ratio::reduce(n, (a.den as i128) * (b.den as i128))
    }

    fn times(a: Ratio, b: Ratio) -> Ratio {
        if !a.defined() || !b.defined() {
            return Ratio::undefined();
        }
        proof {
            lemma_product_fits(a.num as int, b.num as int);
            lemma_product_fits(a.den as int, b.den as int);
        }
        Ratio::reduce((a.num as i128) * (b.num as i128), (a.den as i128) * (b.den as i128))
    }

    fn over(a: Ratio, b: Ratio) -> Ratio {
        if !a.defined() || !b.defined() || b.num == 0 {
            return Ratio::undefined();
        }
        let n: i64 = if b.num < 0 {
            -a.num
        } else {
            a.num
        };
        let d: i64 = if b.num < 0 {
            -b.num
        } else {
            b.num
        };
        proof {
            lemma_product_fits(n as int, b.den as int);
            lemma_product_fits(a.den as int, d as int);
        }
        Ratio::reduce((n as i128) * (b.den as i128), (a.den as i128) * (d as i128))
    }

    fn magnitude(a: Ratio) -> Ratio {
        if a.defined() && a.num < 0 {
            Ratio { num: -a.num, den: a.den }
        } else {
            a
        }
    }

    fn larger(a: Ratio, b: Ratio) -> Ratio {
        if !a.defined() || Ratio::less(a, b) {
            b
        } else {
            a
        }
    }

    fn root(a: Ratio) -> Ratio {
        if !a.defined() || a.num < 0 {
            return Ratio::undefined();
        }
        proof {
            lemma_product_fits(a.num as int, a.den as int);
        }
        let r: u64 = floor_root((a.num as u128) * (a.den as u128));
        Ratio::reduce(r as i128, a.den as i128)
    }

    fn less(a: Ratio, b: Ratio) -> bool {
        if !a.defined() || !b.defined() {
            return false;
        }
        proof {
            lemma_product_fits(a.num as int, b.den as int);
            lemma_product_fits(b.num as int, a.den as int);
        }
        (a.num as i128) * (b.den as i128) < (b.num as i128) * (a.den as i128)
    }

    fn is_zero(a: Ratio) -> bool {
        a.defined() && a.num == 0
    }

    fn is_finite(a: Ratio) -> bool {
        a.defined()
    }
}

/// A fraction that fits has the value of its terms.
pub proof fn lemma_reduced(n: int, d: int)
    requires
        d > 0,
        Ratio::reduced(n, d).is_defined(),
    ensures
        Ratio::value(Ratio::reduced(n, d)) == (n as real) / (d as real),
{
    let g = gcd(abs(n) as nat, d as nat) as int;
    let (p, q) = lemma_gcd(abs(n) as nat, d as nat);
    assert(abs(n) / g == p && d / g == q && q > 0) by (nonlinear_arith)
        requires
            g > 0,
            d > 0,
            abs(n) == g * p,
            d == g * q,
    ;
    let r = Ratio::reduced(n, d);
    let m = r.num as int;
    assert(r.den == q);
    assert(n == g * m) by (nonlinear_arith)
        requires
            abs(n) == g * p,
            m == (if n < 0 {
                -p
            } else {
                p as int
            }),
    ;
    lemma_real_mul(g, m);
    lemma_real_mul(g, q as int);
    lemma_cancel(g as real, m as real, q as real);
}

pub proof fn lemma_real_mul(a: int, b: int)
    ensures
        (a * b) as real == (a as real) * (b as real),
{
    assert((a * b) as real == (a as real) * (b as real)) by (nonlinear_arith);
}

proof fn lemma_cancel(g: real, p: real, q: real)
    requires
        g != 0real,
        q != 0real,
    ensures
        (g * p) / (g * q) == p / q,
{
    assert((g * p) / (g * q) == p / q) by (nonlinear_arith)
        requires
            g != 0real,
            q != 0real,
    ;
}

pub proof fn lemma_sum(a: real, b: real, c: real, d: real)
    requires
        b != 0real,
        d != 0real,
    ensures
        (a * d + c * b) / (b * d) == a / b + c / d,
        (a * d - c * b) / (b * d) == a / b - c / d,
        (a * c) / (b * d) == (a / b) * (c / d),
{
    assert((a * d + c * b) / (b * d) == a / b + c / d) by (nonlinear_arith)
        requires
            b != 0real,
            d != 0real,
    ;
    assert((a * d - c * b) / (b * d) == a / b - c / d) by (nonlinear_arith)
        requires
            b != 0real,
            d != 0real,
    ;
    assert((a * c) / (b * d) == (a / b) * (c / d)) by (nonlinear_arith)
        requires
            b != 0real,
            d != 0real,
    ;
}

pub proof fn lemma_quotient(a: real, b: real, c: real, d: real)
    requires
        b != 0real,
        c != 0real,
        d != 0real,
    ensures
        (a * d) / (b * c) == (a / b) / (c / d),
        (-a * d) / (b * -c) == (a / b) / (c / d),
        c / d != 0real,
{
    assert((a * d) / (b * c) == (a / b) / (c / d)) by (nonlinear_arith)
        requires
            b != 0real,
            c != 0real,
            d != 0real,
    ;
    assert((-a * d) / (b * -c) == (a / b) / (c / d)) by (nonlinear_arith)
        requires
            b != 0real,
            c != 0real,
            d != 0real,
    ;
    assert(c / d != 0real) by (nonlinear_arith)
        requires
            c != 0real,
            d != 0real,
    ;
}

proof fn lemma_compare(a: real, b: real, c: real, d: real)
    requires
        b > 0real,
        d > 0real,
    ensures
        a * d < c * b <==> a / b < c / d,
        a == 0real <==> a / b == 0real,
{
    assert(a * d < c * b <==> a / b < c / d) by (nonlinear_arith)
        requires
            b > 0real,
            d > 0real,
    ;
    assert(a == 0real <==> a / b == 0real) by (nonlinear_arith)
        requires
            b > 0real,
    ;
}

impl ExactScalar for Ratio {
    open spec fn value(a: Ratio) -> real {
        (a.num as real) / (a.den as real)
    }

    proof fn zero_is_exact() {
        lemma_compare(0real, 1real, 0real, 1real);
    }

    proof fn of_u64_is_exact(n: u64) {
        let v = n as real;
        assert(v / 1real == v) by (nonlinear_arith);
    }

    proof fn plus_is_exact(a: Ratio, b: Ratio) {
        lemma_product_fits(a.den as int, b.den as int);
        lemma_reduced(a.num * b.den + b.num * a.den, a.den * b.den);
        lemma_real_mul(a.num as int, b.den as int);
        lemma_real_mul(b.num as int, a.den as int);
        lemma_real_mul(a.den as int, b.den as int);
        lemma_sum(a.num as real, a.den as real, b.num as real, b.den as real);
    }

    proof fn minus_is_exact(a: Ratio, b: Ratio) {
        lemma_product_fits(a.den as int, b.den as int);
        lemma_reduced(a.num * b.den - b.num * a.den, a.den * b.den);
        lemma_real_mul(a.num as int, b.den as int);
        lemma_real_mul(b.num as int, a.den as int);
        lemma_real_mul(a.den as int, b.den as int);
        lemma_sum(a.num as real, a.den as real, b.num as real, b.den as real);
    }

    proof fn times_is_exact(a: Ratio, b: Ratio) {
        lemma_product_fits(a.den as int, b.den as int);
        lemma_reduced(a.num * b.num, a.den * b.den);
        lemma_real_mul(a.num as int, b.num as int);
        lemma_real_mul(a.den as int, b.den as int);
        lemma_sum(a.num as real, a.den as real, b.num as real, b.den as real);
    }

    proof fn over_is_exact(a: Ratio, b: Ratio) {
        lemma_quotient(a.num as real, a.den as real, b.num as real, b.den as real);
        if b.num < 0 {
            lemma_product_fits(a.den as int, -b.num);
            lemma_reduced((-a.num) * b.den, a.den * (-b.num));
            lemma_real_mul(-a.num, b.den as int);
            lemma_real_mul(a.den as int, -b.num);
        } else {
            lemma_product_fits(a.den as int, b.num as int);
            lemma_reduced(a.num * b.den, a.den * b.num);
            lemma_real_mul(a.num as int, b.den as int);
            lemma_real_mul(a.den as int, b.num as int);
        }
    }

    proof fn magnitude_is_exact(a: Ratio) {
        let n = a.num as real;
        let d = a.den as real;
        assert((-n) / d == -(n / d)) by (nonlinear_arith)
            requires
                d > 0real,
        ;
        lemma_compare(n, d, 0real, 1real);
    }

    proof fn larger_is_exact(a: Ratio, b: Ratio) {
        Self::less_is_exact(a, b);
    }

    proof fn is_zero_is_exact(a: Ratio) {
        lemma_compare(a.num as real, a.den as real, 0real, 1real);
    }

    proof fn less_is_exact(a: Ratio, b: Ratio) {
        lemma_real_mul(a.num as int, b.den as int);
        lemma_real_mul(b.num as int, a.den as int);
        lemma_compare(a.num as real, a.den as real, b.num as real, b.den as real);
    }
}

} // verus!
