//! Binary floating point in integer arithmetic.
//!
//! A number is held as sign, mantissa and exponent. Every operation gives the
//! exact result rounded to nearest, ties to even, as IEEE 754 has it.
use vstd::prelude::*;
use crate::rounding;

verus! {

/// A binary interchange format: how many significant digits a number has, the
/// exponent of the least positive number, and how many bits a finite number
/// takes when it is counted in multiples of that least number.
#[derive(Clone, Copy)]
pub struct Format {
    pub precision: u32,
    pub min_exponent: i32,
    pub top: u32,
}

impl Format {
    /// The bounds that the arithmetic below relies on.
    pub open spec fn valid(self) -> bool {
        &&& 2 <= self.precision <= 53
        &&& -1100 <= self.min_exponent <= 0
        &&& self.precision <= self.top <= 2200
        &&& self.top >= self.precision - self.min_exponent + 64
    }

    /// Binary digits of a mantissa.
    pub open spec fn digits(self) -> nat {
        self.precision as nat
    }

    /// How many of the least positive numbers make one, as a power of two.
    pub open spec fn one(self) -> nat {
        (-self.min_exponent) as nat
    }
}

/// The 32-bit format.
pub open spec fn single_format() -> Format {
    Format { precision: 24, min_exponent: (-149) as i32, top: 277 }
}

/// The 64-bit format.
pub open spec fn double_format() -> Format {
    Format { precision: 53, min_exponent: (-1074) as i32, top: 2098 }
}

/// The 32-bit format.
pub fn single() -> (r: Format)
    ensures
        r == single_format(),
        r.valid(),
{
    Format { precision: 24, min_exponent: -149, top: 277 }
}

/// The 64-bit format.
pub fn double() -> (r: Format)
    ensures
        r == double_format(),
        r.valid(),
{
    Format { precision: 53, min_exponent: -1074, top: 2098 }
}

/// What a floating point number stands for. A finite one is a sign and a count
/// of the least positive numbers of its format.
pub enum Value {
    Nan,
    Infinite(bool),
    Finite(bool, nat),
}

/// The number of the format nearest to `n / d` least positive numbers, with
/// the given sign; infinite where it is too large.
pub open spec fn rounded(f: Format, negative: bool, n: nat, d: nat) -> Value {
    let units = rounding::nearest(n, d, f.digits());
    if units < rounding::pow2(f.top as nat) {
        Value::Finite(negative, units)
    } else {
        Value::Infinite(negative)
    }
}

/// A finite value as a signed count.
pub open spec fn signed(negative: bool, units: nat) -> int {
    if negative {
        -(units as int)
    } else {
        units as int
    }
}

/// The value of a natural number.
pub open spec fn natural(f: Format, v: nat) -> Value {
    rounded(f, false, v * rounding::pow2(f.one()), 1)
}

/// The value of a ratio of natural numbers.
pub open spec fn ratio(f: Format, n: nat, d: nat) -> Value {
    rounded(f, false, n * rounding::pow2(f.one()), d)
}

/// The sum.
pub open spec fn sum(f: Format, a: Value, b: Value) -> Value {
    match (a, b) {
        (Value::Nan, _) => Value::Nan,
        (_, Value::Nan) => Value::Nan,
        (Value::Infinite(s), Value::Infinite(t)) => if s == t {
            Value::Infinite(s)
        } else {
            Value::Nan
        },
        (Value::Infinite(s), _) => Value::Infinite(s),
        (_, Value::Infinite(t)) => Value::Infinite(t),
        (Value::Finite(s, u), Value::Finite(t, v)) => {
            let total = signed(s, u) + signed(t, v);
            if total == 0 {
                Value::Finite(s && t, 0)
            } else if total > 0 {
                rounded(f, false, total as nat, 1)
            } else {
                rounded(f, true, (-total) as nat, 1)
            }
        },
    }
}

/// The value with its sign turned.
pub open spec fn opposite(a: Value) -> Value {
    match a {
        Value::Nan => Value::Nan,
        Value::Infinite(s) => Value::Infinite(!s),
        Value::Finite(s, u) => Value::Finite(!s, u),
    }
}

/// The product.
pub open spec fn product(f: Format, a: Value, b: Value) -> Value {
    match (a, b) {
        (Value::Nan, _) => Value::Nan,
        (_, Value::Nan) => Value::Nan,
        (Value::Infinite(s), Value::Infinite(t)) => Value::Infinite(s != t),
        (Value::Infinite(s), Value::Finite(t, v)) => if v == 0 {
            Value::Nan
        } else {
            Value::Infinite(s != t)
        },
        (Value::Finite(s, u), Value::Infinite(t)) => if u == 0 {
            Value::Nan
        } else {
            Value::Infinite(s != t)
        },
        (Value::Finite(s, u), Value::Finite(t, v)) => rounded(
            f,
            s != t,
            u * v,
            rounding::pow2(f.one()),
        ),
    }
}

/// The quotient.
pub open spec fn quotient(f: Format, a: Value, b: Value) -> Value {
    match (a, b) {
        (Value::Nan, _) => Value::Nan,
        (_, Value::Nan) => Value::Nan,
        (Value::Infinite(_), Value::Infinite(_)) => Value::Nan,
        (Value::Infinite(s), Value::Finite(t, _)) => Value::Infinite(s != t),
        (Value::Finite(s, _), Value::Infinite(t)) => Value::Finite(s != t, 0),
        (Value::Finite(s, u), Value::Finite(t, v)) => if v == 0 {
            if u == 0 {
                Value::Nan
            } else {
                Value::Infinite(s != t)
            }
        } else {
            rounded(f, s != t, u * rounding::pow2(f.one()), v)
        },
    }
}

/// Whether `a` is less than `b`. Nothing is less than, or greater than, what
/// is not a number.
pub open spec fn less(a: Value, b: Value) -> bool {
    match (a, b) {
        (Value::Nan, _) => false,
        (_, Value::Nan) => false,
        (Value::Infinite(s), Value::Infinite(t)) => s && !t,
        (Value::Infinite(s), Value::Finite(..)) => s,
        (Value::Finite(..), Value::Infinite(t)) => !t,
        (Value::Finite(s, u), Value::Finite(t, v)) => signed(s, u) < signed(t, v),
    }
}

/// Whether `a` is at least `b`.
pub open spec fn at_least(a: Value, b: Value) -> bool {
    !(a is Nan) && !(b is Nan) && !less(a, b)
}

/// An integer cut to the range of `u32`.
pub open spec fn saturated(v: nat) -> u32 {
    if v <= u32::MAX {
        v as u32
    } else {
        u32::MAX
    }
}

/// The value rounded down, as `u32`; zero for what is negative or not a number.
pub open spec fn floor_u32(f: Format, a: Value) -> u32 {
    match a {
        Value::Nan => 0,
        Value::Infinite(s) => if s {
            0
        } else {
            u32::MAX
        },
        Value::Finite(s, u) => if s {
            0
        } else {
            saturated(u / rounding::pow2(f.one()))
        },
    }
}

/// The value rounded up, as `u32`; zero for what is negative or not a number.
pub open spec fn ceil_u32(f: Format, a: Value) -> u32 {
    match a {
        Value::Nan => 0,
        Value::Infinite(s) => if s {
            0
        } else {
            u32::MAX
        },
        Value::Finite(s, u) => if s {
            0
        } else {
            saturated(
                ((u + rounding::pow2(f.one()) - 1) / (rounding::pow2(f.one()) as int)) as nat,
            )
        },
    }
}

/// The value rounded to the nearest integer, halves up, as `u32`; zero for
/// what is negative or not a number.
pub open spec fn round_u32(f: Format, a: Value) -> u32 {
    match a {
        Value::Nan => 0,
        Value::Infinite(s) => if s {
            0
        } else {
            u32::MAX
        },
        Value::Finite(s, u) => if s {
            0
        } else {
            saturated((2 * u + rounding::pow2(f.one())) / (2 * rounding::pow2(f.one())))
        },
    }
}

/// A floating point number: a finite one is the mantissa times two to the
/// power of the exponent.
#[derive(Clone, Copy)]
pub enum Float {
    Nan,
    Infinite { negative: bool },
    Finite { negative: bool, mantissa: u64, exponent: i32 },
}

impl Float {
    /// The number is one of the format, in its only representation.
    pub open spec fn valid(self, f: Format) -> bool {
        match self {
            Float::Finite { negative, mantissa, exponent } => {
                &&& mantissa < rounding::pow2(f.digits())
                &&& exponent >= f.min_exponent
                &&& exponent - f.min_exponent + f.precision <= f.top
                &&& exponent > f.min_exponent ==> mantissa >= rounding::pow2(
                    (f.digits() - 1) as nat,
                )
            },
            _ => true,
        }
    }

    /// What the number stands for.
    pub open spec fn value(self, f: Format) -> Value {
        match self {
            Float::Nan => Value::Nan,
            Float::Infinite { negative } => Value::Infinite(negative),
            Float::Finite { negative, mantissa, exponent } => Value::Finite(
                negative,
                mantissa as nat * rounding::pow2((exponent - f.min_exponent) as nat),
            ),
        }
    }
}

/// Numerator, in least positive numbers of the format, of `n` times two to the
/// power `e`.
pub open spec fn over(f: Format, n: nat, e: int) -> nat {
    n * rounding::pow2(
        (if e >= f.min_exponent {
            e - f.min_exponent
        } else {
            0
        }) as nat,
    )
}

/// Denominator, in least positive numbers of the format, of two to the power
/// `e` divided by `d`.
pub open spec fn under(f: Format, d: nat, e: int) -> nat {
    d * rounding::pow2(
        (if e < f.min_exponent {
            f.min_exponent - e
        } else {
            0
        }) as nat,
    )
}

/// `n / d` times two to the power `e`, rounded, as a count.
spec fn target(f: Format, n: nat, d: nat, e: int) -> nat {
    rounding::nearest(over(f, n, e), under(f, d, e), f.digits())
}

proof fn lemma_under_positive(f: Format, d: nat, e: int)
    requires
        d > 0,
    ensures
        under(f, d, e) > 0,
{
    let k = (if e < f.min_exponent {
        f.min_exponent - e
    } else {
        0
    }) as nat;
    rounding::lemma_pow2_pos(k);
    assert(d * rounding::pow2(k) > 0) by (nonlinear_arith)
        requires
            d > 0,
            rounding::pow2(k) >= 1,
    ;
}

/// Doubling the numerator makes up for an exponent one lower.
proof fn lemma_target_numerator(f: Format, n: nat, d: nat, e: int)
    requires
        f.valid(),
        d > 0,
    ensures
        target(f, 2 * n, d, e - 1) == target(f, n, d, e),
{
    if e > f.min_exponent {
        let k = (e - f.min_exponent) as nat;
        let k1 = (k - 1) as nat;
        assert(rounding::pow2(k) == 2 * rounding::pow2(k1));
        assert((2 * n) * rounding::pow2(k1) == n * rounding::pow2(k)) by (nonlinear_arith)
            requires
                rounding::pow2(k) == 2 * rounding::pow2(k1),
        ;
        assert(over(f, 2 * n, e - 1) == over(f, n, e));
        assert(under(f, d, e - 1) == under(f, d, e));
    } else {
        let k = (f.min_exponent - e) as nat;
        let k1 = (k + 1) as nat;
        assert(rounding::pow2(k1) == 2 * rounding::pow2(k));
        assert(d * rounding::pow2(k1) == 2 * (d * rounding::pow2(k))) by (nonlinear_arith)
            requires
                rounding::pow2(k1) == 2 * rounding::pow2(k),
        ;
        rounding::lemma_pow2_zero(n);
        rounding::lemma_pow2_zero(2 * n);
        assert(over(f, n, e) == n);
        assert(over(f, 2 * n, e - 1) == 2 * n);
        assert(under(f, d, e - 1) == 2 * under(f, d, e));
        lemma_under_positive(f, d, e);
        rounding::lemma_nearest_scale(n, under(f, d, e), f.digits(), 2);
    }
}

/// Doubling the denominator makes up for an exponent one higher.
proof fn lemma_target_denominator(f: Format, n: nat, d: nat, e: int)
    requires
        f.valid(),
        d > 0,
    ensures
        target(f, n, 2 * d, e + 1) == target(f, n, d, e),
{
    if e >= f.min_exponent {
        let k = (e - f.min_exponent) as nat;
        let k1 = (k + 1) as nat;
        assert(rounding::pow2(k1) == 2 * rounding::pow2(k));
        assert(n * rounding::pow2(k1) == 2 * (n * rounding::pow2(k))) by (nonlinear_arith)
            requires
                rounding::pow2(k1) == 2 * rounding::pow2(k),
        ;
        rounding::lemma_pow2_zero(d);
        rounding::lemma_pow2_zero(2 * d);
        assert(under(f, d, e) == d);
        assert(under(f, 2 * d, e + 1) == 2 * d);
        rounding::lemma_nearest_scale(over(f, n, e), d, f.digits(), 2);
    } else {
        let k = (f.min_exponent - e) as nat;
        let k1 = (k - 1) as nat;
        assert(rounding::pow2(k) == 2 * rounding::pow2(k1));
        assert((2 * d) * rounding::pow2(k1) == d * rounding::pow2(k)) by (nonlinear_arith)
            requires
                rounding::pow2(k) == 2 * rounding::pow2(k1),
        ;
        assert(under(f, 2 * d, e + 1) == under(f, d, e));
        assert(over(f, n, e + 1) == over(f, n, e));
    }
}

/// Two to the power `k`.
pub fn power_of_two(k: u32) -> (r: u128)
    requires
        k <= 120,
    ensures
        r == rounding::pow2(k as nat),
        1 <= r <= 0x100_0000_0000_0000_0000_0000_0000_0000,
{
    let mut r: u128 = 1;
    let mut i: u32 = 0;
    proof {
        lemma_power_120();
    }
    while i < k
        invariant
            i <= k <= 120,
            r == rounding::pow2(i as nat),
            rounding::pow2(120) == 0x100_0000_0000_0000_0000_0000_0000_0000,
        decreases k - i,
    {
        proof {
            rounding::lemma_pow2_monotone((i + 1) as nat, 120);
        }
        r = r * 2;
        i = i + 1;
    }
    proof {
        rounding::lemma_pow2_monotone(k as nat, 120);
        rounding::lemma_pow2_pos(k as nat);
    }
    r
}

pub proof fn lemma_power_120()
    ensures
        rounding::pow2(53) == 0x20_0000_0000_0000,
        rounding::pow2(60) == 0x1000_0000_0000_0000,
        rounding::pow2(120) == 0x100_0000_0000_0000_0000_0000_0000_0000,
{
    reveal_with_fuel(rounding::pow2, 31);
    assert(rounding::pow2(30) == 0x4000_0000);
    assert(rounding::pow2(23) == 0x80_0000);
    rounding::lemma_pow2_adds(30, 30);
    rounding::lemma_pow2_adds(30, 23);
    rounding::lemma_pow2_adds(60, 60);
    assert(rounding::pow2(60) * rounding::pow2(60)
        == 0x100_0000_0000_0000_0000_0000_0000_0000) by (nonlinear_arith)
        requires
            rounding::pow2(60) == 0x1000_0000_0000_0000,
    ;
}

/// The integer nearest to `n / d`, the even one of two that are equally near.
fn nearest_integer(n: u128, d: u128) -> (r: u128)
    requires
        d > 0,
        d < 0x400_0000_0000_0000_0000_0000_0000_0000,
        n < 0x400_0000_0000_0000_0000_0000_0000_0000,
    ensures
        r == rounding::half_even(n as nat, d as nat),
{
    let q = n / d;
    let rest = n % d;
    if 2 * rest > d || (2 * rest == d && q % 2 == 1) {
        assert(q <= n) by (nonlinear_arith)
            requires
                q == n as int / d as int,
                d > 0,
        ;
        q + 1
    } else {
        q
    }
}

/// `n / d` times two to the power `e`, rounded to the format.
pub fn round(f: Format, negative: bool, n: u128, d: u128, e: i32) -> (r: Float)
    requires
        f.valid(),
        0 < d <= 0x1000_0000_0000_0000,
        n < 0x100_0000_0000_0000_0000_0000_0000_0000,
        -10000 <= e <= 10000,
    ensures
        r.valid(f),
        r.value(f) == rounded(
            f,
            negative,
            over(f, n as nat, e as int),
            under(f, d as nat, e as int),
        ),
{
    let ghost goal = target(f, n as nat, d as nat, e as int);
    let p: u32 = f.precision;
    let half: u128 = power_of_two(p - 1);
    let full: u128 = 2 * half;
    let ghost lowest = f.min_exponent as int;
    proof {
        lemma_power_120();
        rounding::lemma_pow2_monotone((p - 1) as nat, 53);
        rounding::lemma_pow2_monotone(p as nat, f.top as nat);
        rounding::lemma_pow2_pos((p - 1) as nat);
        assert(rounding::pow2(p as nat) == full);
    }
    if n == 0 {
        proof {
            lemma_target_zero(f, d as nat, e as int);
            lemma_zero_times(f);
        }
        return Float::Finite { negative: negative, mantissa: 0, exponent: f.min_exponent };
    }
    let mut n: u128 = n;
    let mut d: u128 = d;
    let mut e: i128 = e as i128;
    let ghost first = n;
    let ghost start = e as int;
    assert(d * half <= 0x1000_0000_0000_0000 * half) by (nonlinear_arith)
        requires
            d <= 0x1000_0000_0000_0000,
            half >= 1,
    ;
    let bottom: u128 = d * half;
    while n < bottom
        invariant
            f.valid(),
            p == f.precision,
            half == rounding::pow2((p - 1) as nat),
            1 <= half <= 0x20_0000_0000_0000,
            0 < d <= 0x1000_0000_0000_0000,
            bottom == d * half,
            bottom <= 0x1000_0000_0000_0000 * half,
            0 < first <= n,
            n < 0x100_0000_0000_0000_0000_0000_0000_0000,
            start - e <= n - first,
            -10000 <= start <= 10000,
            e <= start,
            target(f, n as nat, d as nat, e as int) == goal,
        decreases 2 * bottom - n,
    {
        proof {
            lemma_target_numerator(f, n as nat, d as nat, e as int);
        }
        n = 2 * n;
        e = e - 1;
    }
    let ghost mid = e as int;
    let ghost first_d = d;
    assert(n >= d * half);
    while n / full >= d
        invariant
            f.valid(),
            p == f.precision,
            half == rounding::pow2((p - 1) as nat),
            1 <= half <= 0x20_0000_0000_0000,
            full == 2 * half,
            0 < first_d <= d,
            0 < n,
            n < 0x100_0000_0000_0000_0000_0000_0000_0000,
            d * half <= n,
            e - mid <= d - first_d,
            -0x100_0000_0000_0000_0000_0000_0000_0000 - 20000 <= mid <= 10000,
            mid <= e,
            target(f, n as nat, d as nat, e as int) == goal,
        decreases n - d,
    {
        proof {
            lemma_target_denominator(f, n as nat, d as nat, e as int);
            assert(n >= (2 * d) * half && n >= 2 * d) by (nonlinear_arith)
                requires
                    n as int / full as int >= d,
                    full == 2 * half,
                    half >= 1,
            ;
        }
        d = 2 * d;
        e = e + 1;
    }
    assert(n < d * full) by (nonlinear_arith)
        requires
            (n as int / full as int) < d,
            full > 0,
    ;
    assert(d <= n) by (nonlinear_arith)
        requires
            d * half <= n,
            half >= 1,
    ;
    let min: i128 = f.min_exponent as i128;
    let ghost below = e < min;
    while e < min && d <= 2 * n
        invariant
            f.valid(),
            p == f.precision,
            full == rounding::pow2(p as nat),
            half == rounding::pow2((p - 1) as nat),
            min == f.min_exponent,
            0 < d < 0x400_0000_0000_0000_0000_0000_0000_0000,
            0 < n,
            n < 0x100_0000_0000_0000_0000_0000_0000_0000,
            n < d * full,
            below ==> e <= min,
            e <= 0x100_0000_0000_0000_0000_0000_0000_0000 + 10000,
            !below ==> e >= min && d * half <= n,
            target(f, n as nat, d as nat, e as int) == goal,
        decreases min - e,
    {
        proof {
            lemma_target_denominator(f, n as nat, d as nat, e as int);
            assert(n < (2 * d) * full) by (nonlinear_arith)
                requires
                    n < d * full,
                    full >= 0,
                    d > 0,
            ;
        }
        d = 2 * d;
        e = e + 1;
    }
    if e < min {
        proof {
            lemma_target_tiny(f, n as nat, d as nat, e as int);
            lemma_zero_times(f);
        }
        return Float::Finite { negative: negative, mantissa: 0, exponent: f.min_exponent };
    }
    let q = nearest_integer(n, d);
    proof {
        let j = (e - min) as nat;
        rounding::lemma_pow2_zero(d as nat);
        rounding::lemma_nearest_in_binade(n as nat, d as nat, p as nat, j);
        assert(goal == rounding::half_even(n as nat, d as nat) * rounding::pow2(j));
        assert(n <= full * d) by (nonlinear_arith)
            requires
                n < d * full,
        ;
        rounding::lemma_half_even_at_most(n as nat, d as nat, full as nat);
        if j > 0 {
            assert(n >= half * d) by (nonlinear_arith)
                requires
                    n >= d * half,
            ;
            rounding::lemma_half_even_at_least(n as nat, d as nat, half as nat);
        }
        lemma_carry(f, q as nat, j);
    }
    if q == full {
        finite(f, negative, half as u64, e + 1)
    } else {
        finite(f, negative, q as u64, e)
    }
}

/// The finite number with this mantissa and exponent, or infinity where the
/// format has none so large.
fn finite(f: Format, negative: bool, mantissa: u64, e: i128) -> (r: Float)
    requires
        f.valid(),
        mantissa < rounding::pow2(f.digits()),
        e >= f.min_exponent,
        e > f.min_exponent ==> mantissa >= rounding::pow2((f.digits() - 1) as nat),
        e < i128::MAX - 10000,
    ensures
        r.valid(f),
        r.value(f) == {
            let units = mantissa as nat * rounding::pow2((e - f.min_exponent) as nat);
            if units < rounding::pow2(f.top as nat) {
                Value::Finite(negative, units)
            } else {
                Value::Infinite(negative)
            }
        },
{
    let ghost j = (e - f.min_exponent) as nat;
    let ghost units = mantissa as nat * rounding::pow2(j);
    let room: i128 = f.top as i128 - f.precision as i128;
    if e - f.min_exponent as i128 > room {
        proof {
            let low = (f.digits() - 1) as nat;
            rounding::lemma_pow2_adds(low, j);
            rounding::lemma_pow2_monotone(f.top as nat, low + j);
            assert(units >= rounding::pow2(low) * rounding::pow2(j)) by (nonlinear_arith)
                requires
                    units == mantissa as nat * rounding::pow2(j),
                    mantissa as nat >= rounding::pow2(low),
            ;
        }
        Float::Infinite { negative: negative }
    } else {
        proof {
            rounding::lemma_pow2_adds(f.digits(), j);
            rounding::lemma_pow2_monotone(f.digits() + j, f.top as nat);
            rounding::lemma_pow2_pos(j);
            assert(units < rounding::pow2(f.digits()) * rounding::pow2(j)) by (nonlinear_arith)
                requires
                    units == mantissa as nat * rounding::pow2(j),
                    (mantissa as nat) < rounding::pow2(f.digits()),
                    rounding::pow2(j) >= 1,
            ;
        }
        Float::Finite { negative: negative, mantissa: mantissa, exponent: e as i32 }
    }
}

/// A mantissa that rounding carried to a digit more is half of it, one
/// exponent up.
proof fn lemma_carry(f: Format, q: nat, j: nat)
    requires
        f.valid(),
    ensures
        q == rounding::pow2(f.digits()) ==> q * rounding::pow2(j) == rounding::pow2(
            (f.digits() - 1) as nat,
        ) * rounding::pow2(j + 1),
        rounding::pow2((f.digits() - 1) as nat) < rounding::pow2(f.digits()),
{
    let h = rounding::pow2((f.digits() - 1) as nat);
    rounding::lemma_pow2_pos((f.digits() - 1) as nat);
    assert(rounding::pow2(f.digits()) == 2 * h);
    assert(rounding::pow2(j + 1) == 2 * rounding::pow2(j));
    assert((2 * h) * rounding::pow2(j) == h * (2 * rounding::pow2(j))) by (nonlinear_arith);
}

proof fn lemma_zero_times(f: Format)
    requires
        f.valid(),
    ensures
        0 * rounding::pow2(0) == 0,
        0 < rounding::pow2(f.top as nat),
        0 < rounding::pow2(f.digits()),
{
    rounding::lemma_pow2_pos(f.top as nat);
    rounding::lemma_pow2_pos(f.digits());
}

proof fn lemma_target_zero(f: Format, d: nat, e: int)
    requires
        f.valid(),
        d > 0,
    ensures
        target(f, 0, d, e) == 0,
        over(f, 0, e) == 0,
{
    let k = (if e >= f.min_exponent {
        e - f.min_exponent
    } else {
        0
    }) as nat;
    assert(0 * rounding::pow2(k) == 0) by (nonlinear_arith);
    lemma_under_positive(f, d, e);
    lemma_target_small(f, 0, under(f, d, e));
}

proof fn lemma_target_small(f: Format, n: nat, d: nat)
    requires
        f.valid(),
        2 * n < d,
    ensures
        rounding::nearest(n, d, f.digits()) == 0,
{
    rounding::lemma_pow2_pos(f.digits());
    assert(n < d * rounding::pow2(f.digits())) by (nonlinear_arith)
        requires
            2 * n < d,
            n >= 0,
            rounding::pow2(f.digits()) >= 1,
    ;
    rounding::lemma_pow2_zero(d);
    assert(rounding::binade(n, d, f.digits()) == 0);
    assert(n == 0 * d + n);
    rounding::lemma_half_even_from(n, d, 0, n);
}

proof fn lemma_target_tiny(f: Format, n: nat, d: nat, e: int)
    requires
        f.valid(),
        e < f.min_exponent,
        d > 2 * n,
    ensures
        target(f, n, d, e) == 0,
{
    let k = (f.min_exponent - e) as nat;
    rounding::lemma_pow2_pos(k);
    rounding::lemma_pow2_zero(n);
    assert(d * rounding::pow2(k) >= d) by (nonlinear_arith)
        requires
            rounding::pow2(k) >= 1,
            d >= 0,
    ;
    lemma_target_small(f, n, under(f, d, e));
}

} // verus!
