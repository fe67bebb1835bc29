//! Rounding a ratio of natural numbers to a fixed number of binary digits.
//!
//! The rule is the default one of binary floating point: to nearest, and to
//! the even neighbour where the ratio lies halfway between two.
use vstd::prelude::*;

verus! {

/// Two to the power `k`.
pub open spec fn pow2(k: nat) -> nat
    decreases k,
{
    if k == 0 {
        1
    } else {
        2 * pow2((k - 1) as nat)
    }
}

/// The integer nearest to `n / d`, the even one of two that are equally near.
pub open spec fn half_even(n: nat, d: nat) -> nat {
    let q = n / d;
    let r = n % d;
    if 2 * r > d || (2 * r == d && q % 2 == 1) {
        q + 1
    } else {
        q
    }
}

/// The least `k` with `n / d` below two to the power `p + k`.
pub open spec fn binade(n: nat, d: nat, p: nat) -> nat
    decreases
            (if n >= d {
                n - d + 1
            } else {
                0
            }),
{
    if d == 0 || n < d * pow2(p) {
        0
    } else {
        proof {
            lemma_pow2_pos(p);
            assert(d * pow2(p) >= d) by (nonlinear_arith)
                requires
                    pow2(p) >= 1,
                    d >= 0,
            ;
        }
        1 + binade(n, 2 * d, p)
    }
}

/// The number nearest to `n / d` among those with at most `p` significant
/// binary digits.
pub open spec fn nearest(n: nat, d: nat, p: nat) -> nat {
    let k = binade(n, d, p);
    half_even(n, d * pow2(k)) * pow2(k)
}

pub proof fn lemma_pow2_pos(k: nat)
    ensures
        pow2(k) >= 1,
    decreases k,
{
    if k > 0 {
        lemma_pow2_pos((k - 1) as nat);
    }
}

pub proof fn lemma_pow2_zero(n: nat)
    ensures
        pow2(0) == 1,
        n * pow2(0) == n,
{
    assert(n * 1 == n) by (nonlinear_arith);
}

pub proof fn lemma_pow2_adds(a: nat, b: nat)
    ensures
        pow2(a + b) == pow2(a) * pow2(b),
    decreases a,
{
    if a > 0 {
        lemma_pow2_adds((a - 1) as nat, b);
        assert(pow2(a + b) == 2 * pow2((a - 1 + b) as nat));
        assert(2 * (pow2((a - 1) as nat) * pow2(b)) == (2 * pow2((a - 1) as nat)) * pow2(b))
            by (nonlinear_arith);
    } else {
        assert(1 * pow2(b) == pow2(b));
    }
}

pub proof fn lemma_pow2_monotone(a: nat, b: nat)
    requires
        a <= b,
    ensures
        pow2(a) <= pow2(b),
    decreases b,
{
    if a < b {
        lemma_pow2_monotone(a, (b - 1) as nat);
        lemma_pow2_pos((b - 1) as nat);
    }
}

/// `half_even` and its remainder, pinned by the division identity.
pub proof fn lemma_half_even_from(n: nat, d: nat, q: nat, r: nat)
    requires
        r < d,
        n == q * d + r,
    ensures
        n / d == q,
        n % d == r,
        half_even(n, d) == (if 2 * r > d || (2 * r == d && q % 2 == 1) {
            q + 1
        } else {
            q
        }),
{
    vstd::arithmetic::div_mod::lemma_fundamental_div_mod_converse(
        n as int,
        d as int,
        q as int,
        r as int,
    );
}

/// Scaling both terms of a ratio leaves its rounding unchanged.
pub proof fn lemma_half_even_scale(n: nat, d: nat, c: nat)
    requires
        d > 0,
        c > 0,
    ensures
        half_even(c * n, c * d) == half_even(n, d),
{
    let q = n / d;
    let r = n % d;
    vstd::arithmetic::div_mod::lemma_fundamental_div_mod(n as int, d as int);
    vstd::arithmetic::mul::lemma_mul_is_commutative(d as int, q as int);
    assert(n == q * d + r);
    assert(c * n == q * (c * d) + c * r) by (nonlinear_arith)
        requires
            n == q * d + r,
    ;
    assert(c * r < c * d) by (nonlinear_arith)
        requires
            r < d,
            c > 0,
    ;
    assert((2 * (c * r) > c * d) == (2 * r > d)) by (nonlinear_arith)
        requires
            c > 0,
    ;
    assert((2 * (c * r) == c * d) == (2 * r == d)) by (nonlinear_arith)
        requires
            c > 0,
    ;
    lemma_half_even_from(c * n, c * d, q, c * r);
}

/// `half_even` is within half a unit of the ratio.
pub proof fn lemma_half_even_bounds(n: nat, d: nat)
    requires
        d > 0,
    ensures
        2 * (half_even(n, d) * d) <= 2 * n + d,
        2 * n <= 2 * (half_even(n, d) * d) + d,
{
    let q = n / d;
    let r = n % d;
    vstd::arithmetic::div_mod::lemma_fundamental_div_mod(n as int, d as int);
    vstd::arithmetic::mul::lemma_mul_is_commutative(d as int, q as int);
    assert((q + 1) * d == q * d + d) by (nonlinear_arith);
}

/// `half_even` does not exceed an integer that bounds the ratio.
pub proof fn lemma_half_even_at_most(n: nat, d: nat, b: nat)
    requires
        d > 0,
        n <= b * d,
    ensures
        half_even(n, d) <= b,
{
    lemma_half_even_bounds(n, d);
    let h = half_even(n, d);
    assert(h <= b) by (nonlinear_arith)
        requires
            2 * (h * d) <= 2 * n + d,
            n <= b * d,
            d > 0,
            h >= 0,
            b >= 0,
    ;
}

/// `half_even` reaches any integer that the ratio reaches.
pub proof fn lemma_half_even_at_least(n: nat, d: nat, b: nat)
    requires
        d > 0,
        n >= b * d,
    ensures
        half_even(n, d) >= b,
{
    lemma_half_even_bounds(n, d);
    let h = half_even(n, d);
    assert(h >= b) by (nonlinear_arith)
        requires
            2 * n <= 2 * (h * d) + d,
            n >= b * d,
            d > 0,
            h >= 0,
            b >= 0,
    ;
}

/// The two bounds that single `binade` out.
pub proof fn lemma_binade_unique(n: nat, d: nat, p: nat, k: nat)
    requires
        d > 0,
        p > 0,
        n < d * pow2(p + k),
        k > 0 ==> n >= d * pow2((p + k - 1) as nat),
    ensures
        binade(n, d, p) == k,
    decreases k,
{
    if k > 0 {
        lemma_pow2_monotone(p, (p + k - 1) as nat);
        assert(d * pow2(p) <= d * pow2((p + k - 1) as nat)) by (nonlinear_arith)
            requires
                pow2(p) <= pow2((p + k - 1) as nat),
        ;
        let k1 = (k - 1) as nat;
        assert(d * pow2(p + k) == (2 * d) * pow2(p + k1)) by (nonlinear_arith)
            requires
                pow2(p + k) == 2 * pow2(p + k1),
        ;
        if k1 > 0 {
            assert(d * pow2((p + k - 1) as nat) == (2 * d) * pow2((p + k1 - 1) as nat))
                by (nonlinear_arith)
                requires
                    pow2((p + k - 1) as nat) == 2 * pow2((p + k1 - 1) as nat),
            ;
        }
        lemma_binade_unique(n, 2 * d, p, k1);
    }
}

/// The defining bounds of `binade`.
pub proof fn lemma_binade_bounds(n: nat, d: nat, p: nat)
    requires
        d > 0,
    ensures
        n < d * pow2(p + binade(n, d, p)),
        binade(n, d, p) > 0 ==> n >= d * pow2((p + binade(n, d, p) - 1) as nat),
    decreases
            (if n >= d {
                n - d + 1
            } else {
                0
            }),
{
    if n >= d * pow2(p) {
        lemma_pow2_pos(p);
        assert(d * pow2(p) >= d) by (nonlinear_arith)
            requires
                pow2(p) >= 1,
                d >= 0,
        ;
        lemma_binade_bounds(n, 2 * d, p);
        let k1 = binade(n, 2 * d, p);
        let k = (k1 + 1) as nat;
        assert(binade(n, d, p) == k);
        assert(d * pow2(p + k) == (2 * d) * pow2(p + k1)) by (nonlinear_arith)
            requires
                pow2(p + k) == 2 * pow2(p + k1),
        ;
        if k1 > 0 {
            assert(d * pow2((p + k - 1) as nat) == (2 * d) * pow2((p + k1 - 1) as nat))
                by (nonlinear_arith)
                requires
                    pow2((p + k - 1) as nat) == 2 * pow2((p + k1 - 1) as nat),
            ;
        }
    }
}

/// Scaling both terms of a ratio leaves its binade unchanged.
pub proof fn lemma_binade_scale(n: nat, d: nat, p: nat, c: nat)
    requires
        d > 0,
        c > 0,
        p > 0,
    ensures
        binade(c * n, c * d, p) == binade(n, d, p),
{
    let k = binade(n, d, p);
    lemma_binade_bounds(n, d, p);
    assert(c * d > 0) by (nonlinear_arith)
        requires
            c > 0,
            d > 0,
    ;
    assert(c * n < (c * d) * pow2(p + k)) by (nonlinear_arith)
        requires
            n < d * pow2(p + k),
            c > 0,
    ;
    if k > 0 {
        assert(c * n >= (c * d) * pow2((p + k - 1) as nat)) by (nonlinear_arith)
            requires
                n >= d * pow2((p + k - 1) as nat),
                c > 0,
        ;
    }
    lemma_binade_unique(c * n, c * d, p, k);
}

/// Scaling both terms of a ratio leaves the nearest number unchanged.
pub proof fn lemma_nearest_scale(n: nat, d: nat, p: nat, c: nat)
    requires
        d > 0,
        c > 0,
        p > 0,
    ensures
        nearest(c * n, c * d, p) == nearest(n, d, p),
{
    lemma_binade_scale(n, d, p, c);
    let k = binade(n, d, p);
    lemma_pow2_pos(k);
    assert(d * pow2(k) > 0) by (nonlinear_arith)
        requires
            d > 0,
            pow2(k) >= 1,
    ;
    lemma_half_even_scale(n, d * pow2(k), c);
    assert((c * d) * pow2(k) == c * (d * pow2(k))) by (nonlinear_arith);
}

/// `nearest` in a known binade.
pub proof fn lemma_nearest_in_binade(n: nat, d: nat, p: nat, k: nat)
    requires
        d > 0,
        p > 0,
        n < d * pow2(p),
        k > 0 ==> n >= d * pow2((p - 1) as nat),
    ensures
        nearest(n * pow2(k), d, p) == half_even(n, d) * pow2(k),
{
    let c = pow2(k);
    lemma_pow2_pos(k);
    lemma_pow2_adds(p, k);
    assert(n * c < d * pow2(p + k)) by (nonlinear_arith)
        requires
            n < d * pow2(p),
            pow2(p + k) == pow2(p) * c,
            c >= 1,
    ;
    if k > 0 {
        lemma_pow2_adds((p - 1) as nat, k);
        assert(((p - 1) + k) as nat == (p + k - 1) as nat);
        assert(n * c >= d * pow2((p + k - 1) as nat)) by (nonlinear_arith)
            requires
                n >= d * pow2((p - 1) as nat),
                pow2((p + k - 1) as nat) == pow2((p - 1) as nat) * c,
                c >= 1,
        ;
    }
    lemma_binade_unique(n * c, d, p, k);
    lemma_half_even_scale(n, d, c);
    vstd::arithmetic::mul::lemma_mul_is_commutative(n as int, c as int);
    vstd::arithmetic::mul::lemma_mul_is_commutative(d as int, c as int);
}

/// Rounding moves a ratio of `p` digits or more by at most its `2^p`th part.
pub proof fn lemma_nearest_error(n: nat, d: nat, p: nat)
    requires
        d > 0,
        p > 0,
        n >= d * pow2((p - 1) as nat),
    ensures
        (nearest(n, d, p) * d) * pow2(p) <= n * (pow2(p) + 1),
        (nearest(n, d, p) * d) * pow2(p) >= n * (pow2(p) - 1),
{
    let k = binade(n, d, p);
    let c = d * pow2(k);
    lemma_binade_bounds(n, d, p);
    lemma_pow2_pos(k);
    let low = (p - 1) as nat;
    lemma_pow2_adds(low, k);
    assert((p + k - 1) as nat == low + k);
    assert(c > 0) by (nonlinear_arith)
        requires
            c == d * pow2(k),
            d > 0,
            pow2(k) >= 1,
    ;
    let h = half_even(n, c);
    lemma_half_even_bounds(n, c);
    assert(h * c == nearest(n, d, p) * d) by (nonlinear_arith)
        requires
            c == d * pow2(k),
            nearest(n, d, p) == h * pow2(k),
    ;
    assert(n >= c * pow2(low)) by {
        if k > 0 {
            assert(d * pow2(low + k) == c * pow2(low)) by (nonlinear_arith)
                requires
                    c == d * pow2(k),
                    pow2(low + k) == pow2(low) * pow2(k),
            ;
        } else {
            lemma_pow2_zero(d);
        }
    }
    let t = pow2(low);
    assert(pow2(p) == 2 * t);
    assert((h * c) * (2 * t) <= n * (2 * t + 1)) by (nonlinear_arith)
        requires
            2 * (h * c) <= 2 * n + c,
            n >= c * t,
            t >= 0,
    ;
    assert((h * c) * (2 * t) >= n * (2 * t - 1)) by (nonlinear_arith)
        requires
            2 * n <= 2 * (h * c) + c,
            n >= c * t,
            t >= 0,
    ;
}

/// Rounding does not pass a power of two that bounds the ratio.
pub proof fn lemma_nearest_at_most(n: nat, d: nat, p: nat, b: nat)
    requires
        d > 0,
        p > 0,
        n <= d * pow2(b),
    ensures
        nearest(n, d, p) <= pow2(b),
{
    let k = binade(n, d, p);
    lemma_binade_bounds(n, d, p);
    lemma_pow2_pos(k);
    if k > b {
        lemma_pow2_monotone((b + 1) as nat, (p + k - 1) as nat);
        lemma_pow2_pos(b);
        assert(d * pow2((p + k - 1) as nat) > d * pow2(b)) by (nonlinear_arith)
            requires
                d > 0,
                pow2((p + k - 1) as nat) > pow2(b),
        ;
    }
    let j = (b - k) as nat;
    lemma_pow2_adds(j, k);
    let c = d * pow2(k);
    assert(c > 0) by (nonlinear_arith)
        requires
            c == d * pow2(k),
            d > 0,
            pow2(k) >= 1,
    ;
    assert(n <= pow2(j) * c) by (nonlinear_arith)
        requires
            n <= d * pow2(b),
            pow2(b) == pow2(j) * pow2(k),
            c == d * pow2(k),
    ;
    lemma_half_even_at_most(n, c, pow2(j));
    assert(half_even(n, c) * pow2(k) <= pow2(j) * pow2(k)) by (nonlinear_arith)
        requires
            half_even(n, c) <= pow2(j),
    ;
}

/// A larger number does not round to a smaller integer.
proof fn lemma_half_even_monotone(n: nat, m: nat, d: nat)
    requires
        d > 0,
        n <= m,
    ensures
        half_even(n, d) <= half_even(m, d),
{
    let (q, r) = (n / d, n % d);
    let (s, t) = (m / d, m % d);
    vstd::arithmetic::div_mod::lemma_fundamental_div_mod(n as int, d as int);
    vstd::arithmetic::div_mod::lemma_fundamental_div_mod(m as int, d as int);
    vstd::arithmetic::div_mod::lemma_div_is_ordered(n as int, m as int, d as int);
    if q == s {
        assert(d * q == d * s);
        assert(r <= t);
    }
}

/// A larger ratio does not round to a smaller number.
pub proof fn lemma_nearest_monotone(n: nat, m: nat, d: nat, p: nat)
    requires
        d > 0,
        p > 0,
        n <= m,
    ensures
        nearest(n, d, p) <= nearest(m, d, p),
{
    let j = binade(n, d, p);
    let k = binade(m, d, p);
    lemma_binade_bounds(n, d, p);
    lemma_binade_bounds(m, d, p);
    lemma_pow2_pos(j);
    lemma_pow2_pos(k);
    let c = d * pow2(k);
    assert(c > 0) by (nonlinear_arith)
        requires
            c == d * pow2(k),
            d > 0,
            pow2(k) >= 1,
    ;
    if j == k {
        lemma_half_even_monotone(n, m, c);
        assert(half_even(n, c) * pow2(k) <= half_even(m, c) * pow2(k)) by (nonlinear_arith)
            requires
                half_even(n, c) <= half_even(m, c),
        ;
    } else if j < k {
        let low = (p - 1) as nat;
        lemma_nearest_at_most(n, d, p, p + j);
        lemma_pow2_monotone(p + j, (p + k - 1) as nat);
        lemma_pow2_adds(low, k);
        assert(m >= pow2(low) * c) by (nonlinear_arith)
            requires
                m >= d * pow2((p + k - 1) as nat),
                pow2((p + k - 1) as nat) == pow2(low) * pow2(k),
                c == d * pow2(k),
        ;
        lemma_half_even_at_least(m, c, pow2(low));
        assert(half_even(m, c) * pow2(k) >= pow2(low) * pow2(k)) by (nonlinear_arith)
            requires
                half_even(m, c) >= pow2(low),
        ;
    } else {
        lemma_pow2_monotone(p + k, (p + j - 1) as nat);
        assert(d * pow2((p + j - 1) as nat) >= d * pow2(p + k)) by (nonlinear_arith)
            requires
                pow2((p + j - 1) as nat) >= pow2(p + k),
        ;
    }
}

/// A ratio of at most one rounds to at most one, in units of `one`.
pub proof fn lemma_share_at_most_one(a: nat, b: nat, one: nat, p: nat, k: nat)
    requires
        a <= b,
        b > 0,
        p > 0,
        one == pow2(k),
    ensures
        nearest(a * one, b, p) <= one,
{
    assert(a * one <= b * pow2(k)) by (nonlinear_arith)
        requires
            a <= b,
            one == pow2(k),
    ;
    lemma_nearest_at_most(a * one, b, p, k);
}

} // verus!
