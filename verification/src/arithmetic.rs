//! Operations on floating point numbers.
use vstd::prelude::*;
use crate::float;
use crate::rounding;
use crate::float::{Float, Format};

verus! {

/// A number of the format is its own rounding.
pub proof fn lemma_representable(f: Format, x: Float)
    requires
        f.valid(),
        x.valid(f),
        x is Finite,
    ensures
        ({
            let u = x->mantissa as nat * rounding::pow2((x->exponent - f.min_exponent) as nat);
            &&& rounding::nearest(u, 1, f.digits()) == u
            &&& u < rounding::pow2(f.top as nat)
        }),
{
    let m = x->mantissa as nat;
    let k = (x->exponent - f.min_exponent) as nat;
    let p = f.digits();
    rounding::lemma_pow2_pos(p);
    assert(1 * rounding::pow2(p) == rounding::pow2(p));
    if k > 0 {
        assert(1 * rounding::pow2((p - 1) as nat) == rounding::pow2((p - 1) as nat));
    }
    rounding::lemma_nearest_in_binade(m, 1, p, k);
    assert(m == m * 1 + 0);
    rounding::lemma_half_even_from(m, 1, m, 0);
    rounding::lemma_pow2_adds(p, k);
    rounding::lemma_pow2_monotone(p + k, f.top as nat);
    rounding::lemma_pow2_pos(k);
    assert(m * rounding::pow2(k) < rounding::pow2(p) * rounding::pow2(k)) by (nonlinear_arith)
        requires
            m < rounding::pow2(p),
            rounding::pow2(k) >= 1,
    ;
}

/// An integer of no more digits than `p`, times a power of two, is its own
/// rounding.
pub proof fn lemma_exact(v: nat, k: nat, p: nat)
    requires
        p > 0,
        v <= rounding::pow2(p),
    ensures
        rounding::nearest(v * rounding::pow2(k), 1, p) == v * rounding::pow2(k),
    decreases k,
{
    let low = (p - 1) as nat;
    rounding::lemma_pow2_pos(low);
    assert(rounding::pow2(p) == 2 * rounding::pow2(low));
    assert(1 * rounding::pow2(p) == rounding::pow2(p));
    assert(1 * rounding::pow2(low) == rounding::pow2(low));
    if v == rounding::pow2(p) {
        let h = rounding::pow2(low);
        assert(h * rounding::pow2(k + 1) == v * rounding::pow2(k)) by (nonlinear_arith)
            requires
                v == 2 * h,
                rounding::pow2(k + 1) == 2 * rounding::pow2(k),
        ;
        rounding::lemma_nearest_in_binade(h, 1, p, k + 1);
        assert(h == h * 1 + 0);
        rounding::lemma_half_even_from(h, 1, h, 0);
    } else if k == 0 || v >= rounding::pow2(low) {
        rounding::lemma_nearest_in_binade(v, 1, p, k);
        assert(v == v * 1 + 0);
        rounding::lemma_half_even_from(v, 1, v, 0);
    } else {
        let k1 = (k - 1) as nat;
        assert((2 * v) * rounding::pow2(k1) == v * rounding::pow2(k)) by (nonlinear_arith)
            requires
                rounding::pow2(k) == 2 * rounding::pow2(k1),
        ;
        lemma_exact(2 * v, k1, p);
    }
}

/// An integer of no more digits than the format has is a number of the format.
pub proof fn lemma_natural_exact(f: Format, v: nat)
    requires
        f.valid(),
        v <= rounding::pow2(f.digits()),
    ensures
        float::natural(f, v) == float::Value::Finite(false, v * rounding::pow2(f.one())),
{
    let p = f.digits();
    let one = rounding::pow2(f.one());
    lemma_exact(v, f.one(), p);
    rounding::lemma_pow2_adds(p, f.one());
    assert(v * one <= rounding::pow2(p + f.one())) by (nonlinear_arith)
        requires
            v <= rounding::pow2(p),
            rounding::pow2(p + f.one()) == rounding::pow2(p) * one,
    ;
    rounding::lemma_pow2_monotone((p + f.one() + 1) as nat, f.top as nat);
    rounding::lemma_pow2_pos(p + f.one());
}

/// A natural number of up to 120 binary digits is finite, and not zero unless
/// it is.
pub proof fn lemma_natural_range(v: nat)
    requires
        v <= 0x100_0000_0000_0000_0000_0000_0000_0000,
    ensures
        ({
            let f = float::double_format();
            let units = rounding::nearest(v * rounding::pow2(f.one()), 1, f.digits());
            &&& float::natural(f, v) == float::Value::Finite(false, units)
            &&& v > 0 ==> units > 0
        }),
{
    let f = float::double_format();
    let one = rounding::pow2(f.one());
    let units = rounding::nearest(v * one, 1, f.digits());
    float::lemma_power_120();
    rounding::lemma_pow2_pos(f.one());
    rounding::lemma_pow2_adds(120, f.one());
    assert(v * one <= 1 * rounding::pow2(120 + f.one())) by (nonlinear_arith)
        requires
            v <= rounding::pow2(120),
            rounding::pow2(120 + f.one()) == rounding::pow2(120) * one,
    ;
    rounding::lemma_nearest_at_most(v * one, 1, f.digits(), 120 + f.one());
    rounding::lemma_pow2_monotone((120 + f.one() + 1) as nat, f.top as nat);
    rounding::lemma_pow2_pos(120 + f.one());
    if v > 0 {
        rounding::lemma_pow2_monotone(52, f.one());
        assert(v * one >= 1 * rounding::pow2(52)) by (nonlinear_arith)
            requires
                v >= 1,
                one >= rounding::pow2(52),
        ;
        rounding::lemma_nearest_error(v * one, 1, f.digits());
        assert(units > 0) by (nonlinear_arith)
            requires
                (units * 1) * rounding::pow2(53) >= (v * one) * (rounding::pow2(53) - 1),
                v >= 1,
                one >= 1,
                rounding::pow2(53) >= 2,
        ;
    }
}

/// A term far below the last digit of a sum does not change its rounding.
proof fn lemma_far(f: Format, big: nat, small: nat, gap: nat, k: nat)
    requires
        f.valid(),
        gap > 60,
        rounding::pow2((f.digits() - 1) as nat) <= big < rounding::pow2(f.digits()),
        0 < small < rounding::pow2(f.digits()),
    ensures
        big * rounding::pow2(gap) > small,
        rounding::nearest(
            ((big * rounding::pow2(gap) + small) as nat) * rounding::pow2(k),
            1,
            f.digits(),
        ) == big * rounding::pow2(gap + k),
        rounding::nearest(
            ((big * rounding::pow2(gap) - small) as nat) * rounding::pow2(k),
            1,
            f.digits(),
        ) == big * rounding::pow2(gap + k),
{
    let p = f.digits();
    let low = rounding::pow2((p - 1) as nat);
    let g = rounding::pow2(gap);
    let g1 = (gap - 1) as nat;
    let h = rounding::pow2(g1);
    let c = rounding::pow2(k);
    rounding::lemma_pow2_pos(gap);
    rounding::lemma_pow2_pos(k);
    rounding::lemma_pow2_pos((p - 1) as nat);
    rounding::lemma_pow2_monotone(p + 2, gap);
    assert(rounding::pow2(p + 2) == 2 * rounding::pow2(p + 1));
    assert(rounding::pow2(p + 1) == 2 * rounding::pow2(p));
    assert(4 * small < g);
    assert(g == 2 * h);
    assert(rounding::pow2(p) == 2 * low);
    assert(big * g >= g) by (nonlinear_arith)
        requires
            big >= 1,
            g >= 1,
    ;
    rounding::lemma_pow2_adds(gap, k);
    assert((big * g) * c == big * rounding::pow2(gap + k)) by (nonlinear_arith)
        requires
            rounding::pow2(gap + k) == g * c,
    ;
    // The sum lies in the binade of the larger term.
    let plus = (big * g + small) as nat;
    lemma_far_binade(f, plus, big, small, gap, k);
    // So does the difference, unless the larger term is the least of its binade.
    let minus = (big * g - small) as nat;
    if big > low {
        let b1 = (big - 1) as nat;
        let s1 = (g - small) as nat;
        assert(minus == b1 * g + s1) by (nonlinear_arith)
            requires
                minus == big * g - small,
                b1 == big - 1,
                s1 == g - small,
        ;
        assert(minus < rounding::pow2(p) * g) by (nonlinear_arith)
            requires
                minus < big * g,
                big < rounding::pow2(p),
                g >= 1,
        ;
        assert(minus >= low * g) by (nonlinear_arith)
            requires
                minus == b1 * g + s1,
                b1 >= low,
                s1 >= 0,
                g >= 1,
        ;
        rounding::lemma_half_even_from(minus, g, b1, s1);
        lemma_rounds_to(f, minus, gap, k, big);
    } else {
        assert(big == low);
        let q = (rounding::pow2(p) - 1) as nat;
        let s1 = (h - small) as nat;
        assert(minus == q * h + s1) by (nonlinear_arith)
            requires
                minus == low * g - small,
                g == 2 * h,
                q == 2 * low - 1,
                s1 == h - small,
        ;
        assert(minus < rounding::pow2(p) * h) by (nonlinear_arith)
            requires
                minus == low * g - small,
                g == 2 * h,
                rounding::pow2(p) == 2 * low,
                small > 0,
        ;
        assert(minus >= low * h) by (nonlinear_arith)
            requires
                minus == low * g - small,
                g == 2 * h,
                4 * small < g,
                low >= 1,
        ;
        rounding::lemma_half_even_from(minus, h, q, s1);
        lemma_rounds_to(f, minus, g1, k, rounding::pow2(p));
        rounding::lemma_pow2_adds(g1, k);
        assert(rounding::pow2(p) * rounding::pow2(g1 + k) == low * rounding::pow2(gap + k))
            by (nonlinear_arith)
            requires
                rounding::pow2(p) == 2 * low,
                rounding::pow2(gap + k) == 2 * rounding::pow2(g1 + k),
        ;
    }
}

/// `n`, which has `gap` digits more than the format, rounds to `q`.
proof fn lemma_rounds_to(f: Format, n: nat, gap: nat, k: nat, q: nat)
    requires
        f.valid(),
        n < rounding::pow2(f.digits()) * rounding::pow2(gap),
        n >= rounding::pow2((f.digits() - 1) as nat) * rounding::pow2(gap),
        rounding::half_even(n, rounding::pow2(gap)) == q,
    ensures
        rounding::nearest(n * rounding::pow2(k), 1, f.digits()) == q * rounding::pow2(gap + k),
{
    let p = f.digits();
    let g = rounding::pow2(gap);
    let c = rounding::pow2(k);
    let low = (p - 1) as nat;
    rounding::lemma_pow2_pos(k);
    rounding::lemma_pow2_pos(gap);
    rounding::lemma_pow2_adds(p, gap + k);
    rounding::lemma_pow2_adds(low, gap + k);
    rounding::lemma_pow2_adds(gap, k);
    assert(n * c < 1 * rounding::pow2(p + (gap + k))) by (nonlinear_arith)
        requires
            n < rounding::pow2(p) * g,
            rounding::pow2(p + (gap + k)) == rounding::pow2(p) * rounding::pow2(gap + k),
            rounding::pow2(gap + k) == g * c,
            c >= 1,
    ;
    assert((p + (gap + k) - 1) as nat == low + (gap + k));
    assert(n * c >= 1 * rounding::pow2(low + (gap + k))) by (nonlinear_arith)
        requires
            n >= rounding::pow2(low) * g,
            rounding::pow2(low + (gap + k)) == rounding::pow2(low) * rounding::pow2(gap + k),
            rounding::pow2(gap + k) == g * c,
            c >= 1,
    ;
    rounding::lemma_binade_unique(n * c, 1, p, gap + k);
    rounding::lemma_half_even_scale(n, g, c);
    assert(c * g == 1 * rounding::pow2(gap + k)) by (nonlinear_arith)
        requires
            rounding::pow2(gap + k) == g * c,
    ;
    vstd::arithmetic::mul::lemma_mul_is_commutative(n as int, c as int);
}

proof fn lemma_far_binade(f: Format, plus: nat, big: nat, small: nat, gap: nat, k: nat)
    requires
        f.valid(),
        rounding::pow2((f.digits() - 1) as nat) <= big < rounding::pow2(f.digits()),
        4 * small < rounding::pow2(gap),
        plus == big * rounding::pow2(gap) + small,
    ensures
        rounding::nearest(plus * rounding::pow2(k), 1, f.digits()) == big * rounding::pow2(gap + k),
{
    let p = f.digits();
    let g = rounding::pow2(gap);
    assert(plus < rounding::pow2(p) * g) by (nonlinear_arith)
        requires
            plus == big * g + small,
            big + 1 <= rounding::pow2(p),
            small < g,
    ;
    assert(plus >= rounding::pow2((p - 1) as nat) * g) by (nonlinear_arith)
        requires
            plus == big * g + small,
            big >= rounding::pow2((p - 1) as nat),
            g >= 0,
            small >= 0,
    ;
    rounding::lemma_half_even_from(plus, g, big, small);
    lemma_rounds_to(f, plus, gap, k, big);
}

impl Float {
    /// The number nearest to the ratio of two integers.
    pub fn from_ratio(f: Format, n: u64, d: u64) -> (r: Float)
        requires
            f.valid(),
            0 < d <= 0x1000_0000_0000_0000,
        ensures
            r.valid(f),
            r.value(f) == float::ratio(f, n as nat, d as nat),
    {
        proof {
            rounding::lemma_pow2_zero(d as nat);
        }
        float::round(f, false, n as u128, d as u128, 0)
    }

    /// The number nearest to an integer.
    pub fn from_natural(f: Format, v: u64) -> (r: Float)
        requires
            f.valid(),
        ensures
            r.valid(f),
            r.value(f) == float::natural(f, v as nat),
    {
        Float::from_ratio(f, v, 1)
    }

    /// The number with its sign turned.
    pub fn negate(self) -> (r: Float)
        ensures
            forall|f: Format| self.valid(f) ==> #[trigger] r.valid(f),
            forall|f: Format| #[trigger] r.value(f) == float::opposite(self.value(f)),
    {
        match self {
            Float::Nan => Float::Nan,
            Float::Infinite { negative } => Float::Infinite { negative: !negative },
            Float::Finite { negative, mantissa, exponent } => Float::Finite {
                negative: !negative,
                mantissa: mantissa,
                exponent: exponent,
            },
        }
    }

    /// The product.
    pub fn times(self, f: Format, other: Float) -> (r: Float)
        requires
            f.valid(),
            self.valid(f),
            other.valid(f),
        ensures
            r.valid(f),
            r.value(f) == float::product(f, self.value(f), other.value(f)),
    {
        match (self, other) {
            (Float::Nan, _) => Float::Nan,
            (_, Float::Nan) => Float::Nan,
            (Float::Infinite { negative: s }, Float::Infinite { negative: t }) => Float::Infinite {
                negative: s != t,
            },
            (
                Float::Infinite { negative: s },
                Float::Finite { negative: t, mantissa, exponent },
            ) => {
                proof {
                    lemma_zero_mantissa(mantissa, (exponent - f.min_exponent) as nat);
                }
                if mantissa == 0 {
                    Float::Nan
                } else {
                    Float::Infinite { negative: s != t }
                }
            },
            (
                Float::Finite { negative: s, mantissa, exponent },
                Float::Infinite { negative: t },
            ) => {
                proof {
                    lemma_zero_mantissa(mantissa, (exponent - f.min_exponent) as nat);
                }
                if mantissa == 0 {
                    Float::Nan
                } else {
                    Float::Infinite { negative: s != t }
                }
            },
            (
                Float::Finite { negative: s, mantissa: a, exponent: ea },
                Float::Finite { negative: t, mantissa: b, exponent: eb },
            ) => {
                proof {
                    lemma_mantissa_bound(f, a);
                    lemma_mantissa_bound(f, b);
                    assert(a * b < 0x20_0000_0000_0000 * 0x20_0000_0000_0000) by (nonlinear_arith)
                        requires
                            a < 0x20_0000_0000_0000,
                            b < 0x20_0000_0000_0000,
                    ;
                    lemma_product(f, a as nat, ea as int, b as nat, eb as int);
                }
                float::round(f, s != t, a as u128 * b as u128, 1, ea + eb)
            },
        }
    }

    /// The quotient.
    pub fn over(self, f: Format, other: Float) -> (r: Float)
        requires
            f.valid(),
            self.valid(f),
            other.valid(f),
        ensures
            r.valid(f),
            r.value(f) == float::quotient(f, self.value(f), other.value(f)),
    {
        match (self, other) {
            (Float::Nan, _) => Float::Nan,
            (_, Float::Nan) => Float::Nan,
            (Float::Infinite { .. }, Float::Infinite { .. }) => Float::Nan,
            (Float::Infinite { negative: s }, Float::Finite { negative: t, .. }) => Float::Infinite {
                negative: s != t,
            },
            (Float::Finite { negative: s, .. }, Float::Infinite { negative: t }) => {
                proof {
                    rounding::lemma_pow2_pos(f.digits());
                    lemma_zero_mantissa(0, 0);
                }
                Float::Finite { negative: s != t, mantissa: 0, exponent: f.min_exponent }
            },
            (
                Float::Finite { negative: s, mantissa: a, exponent: ea },
                Float::Finite { negative: t, mantissa: b, exponent: eb },
            ) => {
                proof {
                    lemma_mantissa_bound(f, a);
                    lemma_mantissa_bound(f, b);
                    lemma_zero_mantissa(a, (ea - f.min_exponent) as nat);
                    lemma_zero_mantissa(b, (eb - f.min_exponent) as nat);
                }
                if b == 0 {
                    if a == 0 {
                        Float::Nan
                    } else {
                        Float::Infinite { negative: s != t }
                    }
                } else {
                    proof {
                        lemma_quotient(f, a as nat, ea as int, b as nat, eb as int);
                    }
                    float::round(f, s != t, a as u128, b as u128, ea - eb)
                }
            },
        }
    }
}

proof fn lemma_mantissa_bound(f: Format, m: u64)
    requires
        f.valid(),
        m < rounding::pow2(f.digits()),
    ensures
        m < 0x20_0000_0000_0000,
{
    rounding::lemma_pow2_monotone(f.digits(), 53);
    float::lemma_power_120();
}

proof fn lemma_zero_mantissa(m: u64, k: nat)
    ensures
        m as nat * rounding::pow2(k) == 0 <==> m == 0,
{
    rounding::lemma_pow2_pos(k);
    assert(m as nat * rounding::pow2(k) == 0 <==> m == 0) by (nonlinear_arith)
        requires
            rounding::pow2(k) >= 1,
    ;
}

/// The product of two counts and of two mantissas round alike.
proof fn lemma_product(f: Format, a: nat, ea: int, b: nat, eb: int)
    requires
        f.valid(),
        ea >= f.min_exponent,
        eb >= f.min_exponent,
    ensures
        rounding::nearest(
            (a * rounding::pow2((ea - f.min_exponent) as nat)) * (b * rounding::pow2(
                (eb - f.min_exponent) as nat,
            )),
            rounding::pow2(f.one()),
            f.digits(),
        ) == rounding::nearest(
            float::over(f, a * b, ea + eb),
            float::under(f, 1, ea + eb),
            f.digits(),
        ),
{
    let i = (ea - f.min_exponent) as nat;
    let j = (eb - f.min_exponent) as nat;
    let e = ea + eb;
    let u = a * rounding::pow2(i);
    let v = b * rounding::pow2(j);
    rounding::lemma_pow2_adds(i, j);
    assert(u * v == (a * b) * rounding::pow2(i + j)) by (nonlinear_arith)
        requires
            u == a * rounding::pow2(i),
            v == b * rounding::pow2(j),
            rounding::pow2(i + j) == rounding::pow2(i) * rounding::pow2(j),
    ;
    rounding::lemma_pow2_pos(f.one());
    if e >= f.min_exponent {
        let k = (e - f.min_exponent) as nat;
        let c = rounding::pow2(f.one());
        rounding::lemma_pow2_adds(k, f.one());
        assert(i + j == k + f.one());
        rounding::lemma_pow2_zero(1);
        let n = (a * b) * rounding::pow2(k);
        assert(float::over(f, a * b, e) == n);
        assert(float::under(f, 1, e) == 1);
        assert(u * v == c * n) by (nonlinear_arith)
            requires
                u * v == (a * b) * rounding::pow2(i + j),
                rounding::pow2(i + j) == rounding::pow2(k) * c,
                n == (a * b) * rounding::pow2(k),
        ;
        assert(c * 1 == c);
        rounding::lemma_nearest_scale(n, 1, f.digits(), c);
    } else {
        let k = (f.min_exponent - e) as nat;
        let c = rounding::pow2(i + j);
        rounding::lemma_pow2_pos(i + j);
        rounding::lemma_pow2_pos(k);
        rounding::lemma_pow2_adds(i + j, k);
        assert(i + j + k == f.one());
        rounding::lemma_pow2_zero(a * b);
        assert(float::over(f, a * b, e) == a * b);
        let d = rounding::pow2(k);
        assert(1 * d == d);
        assert(float::under(f, 1, e) == d);
        assert(u * v == c * (a * b)) by (nonlinear_arith)
            requires
                u * v == (a * b) * c,
        ;
        rounding::lemma_nearest_scale(a * b, d, f.digits(), c);
    }
}

/// The quotient of two counts and of two mantissas round alike.
proof fn lemma_quotient(f: Format, a: nat, ea: int, b: nat, eb: int)
    requires
        f.valid(),
        ea >= f.min_exponent,
        eb >= f.min_exponent,
        b > 0,
    ensures
        rounding::nearest(
            (a * rounding::pow2((ea - f.min_exponent) as nat)) * rounding::pow2(f.one()),
            b * rounding::pow2((eb - f.min_exponent) as nat),
            f.digits(),
        ) == rounding::nearest(
            float::over(f, a, ea - eb),
            float::under(f, b, ea - eb),
            f.digits(),
        ),
{
    let i = (ea - f.min_exponent) as nat;
    let j = (eb - f.min_exponent) as nat;
    let e = ea - eb;
    let n = (a * rounding::pow2(i)) * rounding::pow2(f.one());
    let d = b * rounding::pow2(j);
    rounding::lemma_pow2_adds(i, f.one());
    assert(n == a * rounding::pow2(i + f.one())) by (nonlinear_arith)
        requires
            n == (a * rounding::pow2(i)) * rounding::pow2(f.one()),
            rounding::pow2(i + f.one()) == rounding::pow2(i) * rounding::pow2(f.one()),
    ;
    if e >= f.min_exponent {
        let k = (e - f.min_exponent) as nat;
        let c = rounding::pow2(j);
        rounding::lemma_pow2_pos(j);
        rounding::lemma_pow2_adds(k, j);
        assert(k + j == i + f.one());
        rounding::lemma_pow2_zero(b);
        let n1 = a * rounding::pow2(k);
        assert(n == c * n1) by (nonlinear_arith)
            requires
                n == a * rounding::pow2(k + j),
                rounding::pow2(k + j) == rounding::pow2(k) * c,
                n1 == a * rounding::pow2(k),
        ;
        assert(d == c * b) by (nonlinear_arith)
            requires
                d == b * c,
        ;
        rounding::lemma_nearest_scale(n1, b, f.digits(), c);
    } else {
        let k = (f.min_exponent - e) as nat;
        let c = rounding::pow2(i + f.one());
        rounding::lemma_pow2_pos(i + f.one());
        rounding::lemma_pow2_pos(k);
        rounding::lemma_pow2_adds(k, i + f.one());
        assert(k + (i + f.one()) == j);
        rounding::lemma_pow2_zero(a);
        let d1 = b * rounding::pow2(k);
        assert(d1 > 0) by (nonlinear_arith)
            requires
                d1 == b * rounding::pow2(k),
                b > 0,
                rounding::pow2(k) >= 1,
        ;
        assert(n == c * a) by (nonlinear_arith)
            requires
                n == a * c,
        ;
        assert(d == c * d1) by (nonlinear_arith)
            requires
                d == b * rounding::pow2(j),
                rounding::pow2(j) == rounding::pow2(k) * c,
                d1 == b * rounding::pow2(k),
        ;
        rounding::lemma_nearest_scale(a, d1, f.digits(), c);
    }
}

/// The count of a finite number of the format.
pub open spec fn units(f: Format, m: u64, e: i32) -> nat {
    m as nat * rounding::pow2((e - f.min_exponent) as nat)
}

/// A sum of two finite numbers, written over the lower exponent.
proof fn lemma_aligned(f: Format, a: u64, ea: i32, gap: nat, eb: i32)
    requires
        f.valid(),
        eb >= f.min_exponent,
        ea == eb + gap,
    ensures
        units(f, a, ea) == (a as nat * rounding::pow2(gap)) * rounding::pow2(
            (eb - f.min_exponent) as nat,
        ),
{
    let k = (eb - f.min_exponent) as nat;
    rounding::lemma_pow2_adds(gap, k);
    assert(a as nat * rounding::pow2(gap + k) == (a as nat * rounding::pow2(gap)) * rounding::pow2(
        k,
    )) by (nonlinear_arith)
        requires
            rounding::pow2(gap + k) == rounding::pow2(gap) * rounding::pow2(k),
    ;
}

/// The sum of two finite numbers of which the first has the higher exponent.
fn plus_aligned(
    f: Format,
    s: bool,
    a: u64,
    ea: i32,
    t: bool,
    b: u64,
    eb: i32,
) -> (r: Float)
    requires
        f.valid(),
        (Float::Finite { negative: s, mantissa: a, exponent: ea }).valid(f),
        (Float::Finite { negative: t, mantissa: b, exponent: eb }).valid(f),
        ea >= eb,
        a > 0,
        b > 0,
    ensures
        r.valid(f),
        r.value(f) == float::sum(
            f,
            float::Value::Finite(s, units(f, a, ea)),
            float::Value::Finite(t, units(f, b, eb)),
        ),
{
    let gap = ea - eb;
    let ghost k = (eb - f.min_exponent) as nat;
    let ghost c = rounding::pow2(k);
    proof {
        lemma_mantissa_bound(f, a);
        lemma_mantissa_bound(f, b);
        lemma_aligned(f, a, ea, gap as nat, eb);
        rounding::lemma_pow2_pos(k);
        rounding::lemma_pow2_zero(1);
    }
    if gap > 60 {
        proof {
            let g = rounding::pow2(gap as nat);
            lemma_far(f, a as nat, b as nat, gap as nat, k);
            rounding::lemma_pow2_adds(gap as nat, k);
            assert((gap as nat + k) as nat == (ea - f.min_exponent) as nat);
            lemma_signed_sum(s, a as nat * g, t, b as nat, c);
            lemma_representable(f, Float::Finite { negative: s, mantissa: a, exponent: ea });
        }
        Float::Finite { negative: s, mantissa: a, exponent: ea }
    } else {
        let high = float::power_of_two(gap as u32);
        proof {
            float::lemma_power_120();
            rounding::lemma_pow2_monotone(gap as nat, 60);
            assert(a * high <= 0x20_0000_0000_0000 * 0x1000_0000_0000_0000) by (nonlinear_arith)
                requires
                    a < 0x20_0000_0000_0000,
                    high <= 0x1000_0000_0000_0000,
            ;
            assert(a * high >= 0) by (nonlinear_arith);
        }
        let x: u128 = a as u128 * high;
        let y: u128 = b as u128;
        proof {
            assert(x > 0) by (nonlinear_arith)
                requires
                    x == a * high,
                    a > 0,
                    high >= 1,
            ;
            lemma_signed_sum(s, x as nat, t, y as nat, c);
            rounding::lemma_pow2_pos(f.digits());
        }
        if s == t {
            float::round(f, s, x + y, 1, eb)
        } else if x == y {
            proof {
                rounding::lemma_pow2_zero(0);
            }
            Float::Finite { negative: false, mantissa: 0, exponent: f.min_exponent }
        } else if x > y {
            float::round(f, s, x - y, 1, eb)
        } else {
            float::round(f, t, y - x, 1, eb)
        }
    }
}

/// Sign and size of a sum whose terms share the factor `c`.
proof fn lemma_signed_sum(s: bool, x: nat, t: bool, y: nat, c: nat)
    requires
        c >= 1,
        x > 0,
        y > 0,
    ensures
        s == t ==> float::signed(s, x * c) + float::signed(t, y * c) == float::signed(
            s,
            (x + y) * c,
        ) && (x + y) * c > 0,
        s != t && x > y ==> float::signed(s, x * c) + float::signed(t, y * c) == float::signed(
            s,
            ((x - y) as nat) * c,
        ) && ((x - y) as nat) * c > 0,
        s != t && x < y ==> float::signed(s, x * c) + float::signed(t, y * c) == float::signed(
            t,
            ((y - x) as nat) * c,
        ) && ((y - x) as nat) * c > 0,
        s != t && x == y ==> float::signed(s, x * c) + float::signed(t, y * c) == 0,
{
    assert((x + y) * c == x * c + y * c) by (nonlinear_arith);
    assert((x + y) * c > 0) by (nonlinear_arith)
        requires
            x > 0,
            y > 0,
            c >= 1,
    ;
    if x > y {
        let z = (x - y) as nat;
        assert(z * c == x * c - y * c) by (nonlinear_arith)
            requires
                z == x - y,
        ;
        assert(z * c > 0) by (nonlinear_arith)
            requires
                z > 0,
                c >= 1,
        ;
    } else if x < y {
        let z = (y - x) as nat;
        assert(z * c == y * c - x * c) by (nonlinear_arith)
            requires
                z == y - x,
        ;
        assert(z * c > 0) by (nonlinear_arith)
            requires
                z > 0,
                c >= 1,
        ;
    }
}

/// Higher exponent, or the same and a larger mantissa: the larger number.
proof fn lemma_magnitude(f: Format, a: u64, ea: i32, b: u64, eb: i32)
    requires
        f.valid(),
        (Float::Finite { negative: false, mantissa: a, exponent: ea }).valid(f),
        (Float::Finite { negative: false, mantissa: b, exponent: eb }).valid(f),
    ensures
        units(f, a, ea) < units(f, b, eb) <==> (ea < eb || (ea == eb && a < b)),
{
    if ea == eb {
        let c = rounding::pow2((ea - f.min_exponent) as nat);
        rounding::lemma_pow2_pos((ea - f.min_exponent) as nat);
        assert((a as nat * c < b as nat * c) == (a < b)) by (nonlinear_arith)
            requires
                c >= 1,
        ;
    } else if ea < eb {
        lemma_magnitude_apart(f, a, ea, b, eb);
    } else {
        lemma_magnitude_apart(f, b, eb, a, ea);
    }
}

proof fn lemma_magnitude_apart(f: Format, a: u64, ea: i32, b: u64, eb: i32)
    requires
        f.valid(),
        (Float::Finite { negative: false, mantissa: a, exponent: ea }).valid(f),
        (Float::Finite { negative: false, mantissa: b, exponent: eb }).valid(f),
        ea < eb,
    ensures
        units(f, a, ea) < units(f, b, eb),
{
    let i = (ea - f.min_exponent) as nat;
    let j = (eb - f.min_exponent) as nat;
    let p = f.digits();
    let low = (p - 1) as nat;
    rounding::lemma_pow2_pos(i);
    rounding::lemma_pow2_monotone(p + i, low + j);
    rounding::lemma_pow2_adds(p, i);
    rounding::lemma_pow2_adds(low, j);
    assert(a as nat * rounding::pow2(i) < rounding::pow2(p) * rounding::pow2(i))
        by (nonlinear_arith)
        requires
            (a as nat) < rounding::pow2(p),
            rounding::pow2(i) >= 1,
    ;
    assert(b as nat * rounding::pow2(j) >= rounding::pow2(low) * rounding::pow2(j))
        by (nonlinear_arith)
        requires
            b as nat >= rounding::pow2(low),
    ;
}

impl Float {
    /// The sum.
    pub fn plus(self, f: Format, other: Float) -> (r: Float)
        requires
            f.valid(),
            self.valid(f),
            other.valid(f),
        ensures
            r.valid(f),
            r.value(f) == float::sum(f, self.value(f), other.value(f)),
    {
        match (self, other) {
            (Float::Nan, _) => Float::Nan,
            (_, Float::Nan) => Float::Nan,
            (Float::Infinite { negative: s }, Float::Infinite { negative: t }) => if s == t {
                Float::Infinite { negative: s }
            } else {
                Float::Nan
            },
            (Float::Infinite { negative: s }, Float::Finite { .. }) => Float::Infinite {
                negative: s,
            },
            (Float::Finite { .. }, Float::Infinite { negative: t }) => Float::Infinite {
                negative: t,
            },
            (
                Float::Finite { negative: s, mantissa: a, exponent: ea },
                Float::Finite { negative: t, mantissa: b, exponent: eb },
            ) => {
                proof {
                    lemma_zero_mantissa(a, (ea - f.min_exponent) as nat);
                    lemma_zero_mantissa(b, (eb - f.min_exponent) as nat);
                    lemma_zero_mantissa(0, 0);
                    rounding::lemma_pow2_pos(f.digits());
                    lemma_representable(f, self);
                    lemma_representable(f, other);
                }
                if a == 0 && b == 0 {
                    Float::Finite { negative: s && t, mantissa: 0, exponent: f.min_exponent }
                } else if a == 0 {
                    other
                } else if b == 0 {
                    self
                } else if ea >= eb {
                    plus_aligned(f, s, a, ea, t, b, eb)
                } else {
                    plus_aligned(f, t, b, eb, s, a, ea)
                }
            },
        }
    }

    /// The difference.
    pub fn minus(self, f: Format, other: Float) -> (r: Float)
        requires
            f.valid(),
            self.valid(f),
            other.valid(f),
        ensures
            r.valid(f),
            r.value(f) == float::sum(f, self.value(f), float::opposite(other.value(f))),
    {
        let turned = other.negate();
        proof {
            assert(turned.valid(f));
            assert(turned.value(f) == float::opposite(other.value(f)));
        }
        self.plus(f, turned)
    }

    /// Whether this number is less than the other.
    pub fn below(self, f: Format, other: Float) -> (r: bool)
        requires
            f.valid(),
            self.valid(f),
            other.valid(f),
        ensures
            r == float::less(self.value(f), other.value(f)),
    {
        match (self, other) {
            (Float::Nan, _) => false,
            (_, Float::Nan) => false,
            (Float::Infinite { negative: s }, Float::Infinite { negative: t }) => s && !t,
            (Float::Infinite { negative: s }, Float::Finite { .. }) => s,
            (Float::Finite { .. }, Float::Infinite { negative: t }) => !t,
            (
                Float::Finite { negative: s, mantissa: a, exponent: ea },
                Float::Finite { negative: t, mantissa: b, exponent: eb },
            ) => {
                proof {
                    lemma_magnitude(f, a, ea, b, eb);
                    lemma_magnitude(f, b, eb, a, ea);
                    lemma_zero_mantissa(a, (ea - f.min_exponent) as nat);
                    lemma_zero_mantissa(b, (eb - f.min_exponent) as nat);
                }
                if s && t {
                    eb < ea || (eb == ea && b < a)
                } else if s {
                    a != 0 || b != 0
                } else if t {
                    false
                } else {
                    ea < eb || (ea == eb && a < b)
                }
            },
        }
    }

    /// Whether this number is at least the other.
    pub fn reaches(self, f: Format, other: Float) -> (r: bool)
        requires
            f.valid(),
            self.valid(f),
            other.valid(f),
        ensures
            r == float::at_least(self.value(f), other.value(f)),
    {
        match (self, other) {
            (Float::Nan, _) => false,
            (_, Float::Nan) => false,
            _ => !self.below(f, other),
        }
    }
}

/// A quotient of integers does not change when both terms are scaled; nor does
/// the quotient rounded up.
proof fn lemma_quotient_scale(n: nat, d: nat, c: nat)
    requires
        d > 0,
        c > 0,
    ensures
        (c * n) / (c * d) == n / d,
        (c * n + c * d - 1) / ((c * d) as int) == (n + d - 1) / (d as int),
{
    let q = n / d;
    let r = n % d;
    vstd::arithmetic::div_mod::lemma_fundamental_div_mod(n as int, d as int);
    vstd::arithmetic::mul::lemma_mul_is_commutative(d as int, q as int);
    assert(c * n == q * (c * d) + c * r) by (nonlinear_arith)
        requires
            n == q * d + r,
    ;
    assert(c * r < c * d) by (nonlinear_arith)
        requires
            r < d,
            c > 0,
    ;
    vstd::arithmetic::div_mod::lemma_fundamental_div_mod_converse(
        (c * n) as int,
        (c * d) as int,
        q as int,
        (c * r) as int,
    );
    let up = n + d - 1;
    let q1 = up / (d as int);
    let r1 = up % (d as int);
    vstd::arithmetic::div_mod::lemma_fundamental_div_mod(up, d as int);
    vstd::arithmetic::mul::lemma_mul_is_commutative(d as int, q1);
    assert(c * n + c * d - 1 == q1 * (c * d) + (c * r1 + c - 1)) by (nonlinear_arith)
        requires
            n + d - 1 == q1 * d + r1,
    ;
    assert(0 <= c * r1 + c - 1 < c * d) by (nonlinear_arith)
        requires
            0 <= r1 < d,
            c > 0,
    ;
    vstd::arithmetic::div_mod::lemma_fundamental_div_mod_converse(
        c * n + c * d - 1,
        (c * d) as int,
        q1,
        c * r1 + c - 1,
    );
}

/// An integer cut to the range of `u32`.
fn saturate(v: u128) -> (r: u32)
    ensures
        r == float::saturated(v as nat),
{
    if v <= 0xffff_ffff {
        v as u32
    } else {
        0xffff_ffff
    }
}

/// A ratio of integers that stands in for a finite number where that is
/// rounded to an integer of 32 bits.
struct Fraction {
    n: u128,
    d: u128,
}

impl Fraction {
    /// The ratio, and `u` least positive numbers of the format, round alike.
    spec fn agrees(self, f: Format, u: nat) -> bool {
        let one = rounding::pow2(f.one());
        let n = self.n as nat;
        let d = self.d as nat;
        &&& 0 < d <= 0x100_0000_0000_0000_0000_0000_0000_0000
        &&& n <= 0x100_0000_0000_0000_0000_0000_0000_0000
        &&& float::saturated(u / one) == float::saturated(n / d)
        &&& float::saturated(((u + one - 1) / (one as int)) as nat) == float::saturated(
            ((n + d - 1) / (d as int)) as nat,
        )
        &&& float::saturated((2 * u + one) / (2 * one)) == float::saturated(
            (2 * n + d) / (2 * d),
        )
    }
}

/// An integral number agrees with itself.
proof fn lemma_integral(f: Format, v: nat, u: nat)
    requires
        f.valid(),
        u == v * rounding::pow2(f.one()),
    ensures
        u / rounding::pow2(f.one()) == v,
        (u + rounding::pow2(f.one()) - 1) / (rounding::pow2(f.one()) as int) == v,
        (2 * u + rounding::pow2(f.one())) / (2 * rounding::pow2(f.one())) == v,
{
    let one = rounding::pow2(f.one());
    rounding::lemma_pow2_pos(f.one());
    assert(u + one - 1 == v * one + (one - 1));
    assert(2 * u + one == v * (2 * one) + one) by (nonlinear_arith)
        requires
            u == v * one,
    ;
    vstd::arithmetic::div_mod::lemma_fundamental_div_mod_converse(
        u as int,
        one as int,
        v as int,
        0,
    );
    vstd::arithmetic::div_mod::lemma_fundamental_div_mod_converse(
        u + one - 1,
        one as int,
        v as int,
        one - 1,
    );
    vstd::arithmetic::div_mod::lemma_fundamental_div_mod_converse(
        (2 * u + one) as int,
        (2 * one) as int,
        v as int,
        one as int,
    );
}

/// The ratio that stands in for a finite number.
fn fraction(f: Format, mantissa: u64, exponent: i32) -> (r: Fraction)
    requires
        f.valid(),
        (Float::Finite { negative: false, mantissa: mantissa, exponent: exponent }).valid(f),
    ensures
        r.agrees(f, units(f, mantissa, exponent)),
{
    let ghost m = mantissa as nat;
    let ghost one = rounding::pow2(f.one());
    let ghost u = units(f, mantissa, exponent);
    proof {
        lemma_mantissa_bound(f, mantissa);
        rounding::lemma_pow2_pos(f.one());
        float::lemma_power_120();
    }
    if exponent >= 0 {
        let ghost e = exponent as nat;
        let ghost v = m * rounding::pow2(e);
        proof {
            rounding::lemma_pow2_adds(e, f.one());
            assert((e + f.one()) as nat == (exponent - f.min_exponent) as nat);
            assert(u == v * one) by (nonlinear_arith)
                requires
                    u == m * rounding::pow2(e + f.one()),
                    rounding::pow2(e + f.one()) == rounding::pow2(e) * one,
                    v == m * rounding::pow2(e),
            ;
            lemma_integral(f, v, u);
        }
        if exponent > 60 {
            proof {
                rounding::lemma_pow2_monotone(60, e);
                lemma_zero_mantissa(mantissa, e);
                if mantissa > 0 {
                    assert(v >= rounding::pow2(e)) by (nonlinear_arith)
                        requires
                            v == m * rounding::pow2(e),
                            m >= 1,
                            rounding::pow2(e) >= 0,
                    ;
                }
            }
            if mantissa == 0 {
                Fraction { n: 0, d: 1 }
            } else {
                let r = Fraction { n: 0x1000_0000_0000_0000, d: 1 };
                proof {
                    let n = r.n as nat;
                    assert((2 * n + 1) / 2 == n);
                }
                r
            }
        } else {
            let p = float::power_of_two(exponent as u32);
            proof {
                rounding::lemma_pow2_monotone(e, 60);
                assert(mantissa * p <= 0x20_0000_0000_0000 * 0x1000_0000_0000_0000)
                    by (nonlinear_arith)
                    requires
                        mantissa < 0x20_0000_0000_0000,
                        p <= 0x1000_0000_0000_0000,
                ;
                assert(mantissa * p >= 0) by (nonlinear_arith);
                assert((2 * v + 1) / 2 == v);
            }
            Fraction { n: mantissa as u128 * p, d: 1 }
        }
    } else {
        let s: u32 = (-exponent) as u32;
        let ghost c = rounding::pow2((f.one() - s) as nat);
        proof {
            assert((f.one() - s) as nat == (exponent - f.min_exponent) as nat);
            rounding::lemma_pow2_pos((f.one() - s) as nat);
            rounding::lemma_pow2_adds((f.one() - s) as nat, s as nat);
            assert(one == c * rounding::pow2(s as nat));
            assert(u == c * m) by (nonlinear_arith)
                requires
                    u == m * c,
            ;
        }
        if s > 100 {
            proof {
                rounding::lemma_pow2_monotone(60, s as nat);
                assert(one >= c * (4 * m)) by (nonlinear_arith)
                    requires
                        one == c * rounding::pow2(s as nat),
                        4 * m <= rounding::pow2(s as nat),
                        c >= 1,
                ;
                assert(c * (4 * m) == 4 * (c * m)) by (nonlinear_arith);
                assert(4 * u <= one);
                lemma_zero_mantissa(mantissa, (f.one() - s) as nat);
                assert(u < one);
                lemma_less_than_one(u, one);
                lemma_less_than_one(0, 4);
                lemma_less_than_one(1, 4);
            }
            if mantissa == 0 {
                Fraction { n: 0, d: 4 }
            } else {
                Fraction { n: 1, d: 4 }
            }
        } else {
            let p = float::power_of_two(s);
            proof {
                lemma_quotient_scale(m, p as nat, c);
                assert(c * (2 * m + p) == 2 * u + one) by (nonlinear_arith)
                    requires
                        u == c * m,
                        one == c * p,
                ;
                assert(c * (2 * p) == 2 * one) by (nonlinear_arith)
                    requires
                        one == c * p,
                ;
                lemma_quotient_scale((2 * m + p) as nat, (2 * p) as nat, c);
            }
            Fraction { n: mantissa as u128, d: p }
        }
    }
}

/// A number of at most a quarter rounds as a quarter does.
proof fn lemma_less_than_one(u: nat, one: nat)
    requires
        4 * u <= one,
        one > 0,
    ensures
        u / one == 0,
        (u + one - 1) / (one as int) == (if u == 0 {
            0int
        } else {
            1int
        }),
        (2 * u + one) / (2 * one) == 0,
{
    assert(u == 0 * one + u);
    vstd::arithmetic::div_mod::lemma_fundamental_div_mod_converse(
        u as int,
        one as int,
        0,
        u as int,
    );
    if u == 0 {
        vstd::arithmetic::div_mod::lemma_fundamental_div_mod_converse(
            u + one - 1,
            one as int,
            0,
            one - 1,
        );
    } else {
        vstd::arithmetic::div_mod::lemma_fundamental_div_mod_converse(
            u + one - 1,
            one as int,
            1,
            u - 1,
        );
    }
    vstd::arithmetic::div_mod::lemma_fundamental_div_mod_converse(
        (2 * u + one) as int,
        (2 * one) as int,
        0,
        (2 * u + one) as int,
    );
}

impl Float {
    /// The number rounded down, as `u32`.
    pub fn floor_to_u32(self, f: Format) -> (r: u32)
        requires
            f.valid(),
            self.valid(f),
        ensures
            r == float::floor_u32(f, self.value(f)),
    {
        match self {
            Float::Nan => 0,
            Float::Infinite { negative } => if negative {
                0
            } else {
                u32::MAX
            },
            Float::Finite { negative, mantissa, exponent } => if negative {
                0
            } else {
                let x = fraction(f, mantissa, exponent);
                saturate(x.n / x.d)
            },
        }
    }

    /// The number rounded up, as `u32`.
    pub fn ceil_to_u32(self, f: Format) -> (r: u32)
        requires
            f.valid(),
            self.valid(f),
        ensures
            r == float::ceil_u32(f, self.value(f)),
    {
        match self {
            Float::Nan => 0,
            Float::Infinite { negative } => if negative {
                0
            } else {
                u32::MAX
            },
            Float::Finite { negative, mantissa, exponent } => if negative {
                0
            } else {
                let x = fraction(f, mantissa, exponent);
                saturate((x.n + (x.d - 1)) / x.d)
            },
        }
    }

    /// The number rounded to the nearest integer, halves up, as `u32`.
    pub fn round_to_u32(self, f: Format) -> (r: u32)
        requires
            f.valid(),
            self.valid(f),
        ensures
            r == float::round_u32(f, self.value(f)),
    {
        match self {
            Float::Nan => 0,
            Float::Infinite { negative } => if negative {
                0
            } else {
                u32::MAX
            },
            Float::Finite { negative, mantissa, exponent } => if negative {
                0
            } else {
                let x = fraction(f, mantissa, exponent);
                saturate((2 * x.n + x.d) / (2 * x.d))
            },
        }
    }
}

} // verus!
