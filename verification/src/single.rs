//! Facts of the 32-bit floating point format.
use vstd::prelude::*;
use crate::arithmetic;
use crate::float;
use crate::rounding;

verus! {

/// An integer of at most `2^24` is a number of the 32-bit format.
pub proof fn lemma_small_natural(v: nat)
    requires
        v <= 0x100_0000,
    ensures
        float::natural(float::single_format(), v) == float::Value::Finite(
            false,
            v * rounding::pow2(149),
        ),
{
    lemma_one();
    arithmetic::lemma_natural_exact(float::single_format(), v);
}

/// Powers of two that bound numbers of the format.
pub proof fn lemma_one()
    ensures
        float::single_format().one() == 149,
        rounding::pow2(149) >= 1,
        rounding::pow2(24) == 0x100_0000,
        rounding::pow2(23) == 0x80_0000,
        rounding::pow2(32) == 0x1_0000_0000,
{
    reveal_with_fuel(rounding::pow2, 33);
    rounding::lemma_pow2_pos(149);
}

/// Scaling `k` by the ratio of `src` to `net` in 32-bit arithmetic takes three
/// roundings, and is off by no more than their errors together.
pub proof fn lemma_three_errors(k: nat, net: nat, src: nat, one: nat, size: nat, scale: nat, v: nat)
    requires
        one >= 1,
        net >= 1,
        size * 0x100_0000 <= (src * one) * 0x100_0001,
        size * 0x100_0000 >= (src * one) * 0xff_ffff,
        (scale * (net * one)) * 0x100_0000 <= (size * one) * 0x100_0001,
        (scale * (net * one)) * 0x100_0000 >= (size * one) * 0xff_ffff,
        (v * one) * 0x100_0000 <= ((k * one) * scale) * 0x100_0001,
        (v * one) * 0x100_0000 >= ((k * one) * scale) * 0xff_ffff,
    ensures
        (v * net - (k * src) * one) * 0x100_0000 <= 4 * ((k * src) * one),
        ((k * src) * one - v * net) * 0x100_0000 <= 4 * ((k * src) * one),
{
    let t: nat = 0x100_0000;
    let u: nat = 0x100_0001;
    let w: nat = 0xff_ffff;
    let end = src * one;
    let goal = (k * src) * one;
    assert(goal == k * end) by (nonlinear_arith)
        requires
            goal == (k * src) * one,
            end == src * one,
    ;
    let ks = k * scale;
    assert((k * one) * scale == ks * one) by (nonlinear_arith)
        requires
            ks == k * scale,
    ;
    assert(v * t <= ks * u && v * t >= ks * w) by (nonlinear_arith)
        requires
            (v * one) * t <= (ks * one) * u,
            (v * one) * t >= (ks * one) * w,
            one >= 1,
    ;
    let sn = scale * net;
    assert(scale * (net * one) == sn * one) by (nonlinear_arith)
        requires
            sn == scale * net,
    ;
    assert(sn * t <= size * u && sn * t >= size * w) by (nonlinear_arith)
        requires
            (sn * one) * t <= (size * one) * u,
            (sn * one) * t >= (size * one) * w,
            one >= 1,
    ;
    let vn = v * net;
    let ksn = k * sn;
    assert(ks * net == ksn) by (nonlinear_arith)
        requires
            ks == k * scale,
            ksn == k * sn,
            sn == scale * net,
    ;
    assert(vn * t <= ksn * u && vn * t >= ksn * w) by (nonlinear_arith)
        requires
            v * t <= ks * u,
            v * t >= ks * w,
            vn == v * net,
            ks * net == ksn,
            net >= 1,
    ;
    let kz = k * size;
    assert(ksn * t <= kz * u && ksn * t >= kz * w) by (nonlinear_arith)
        requires
            sn * t <= size * u,
            sn * t >= size * w,
            ksn == k * sn,
            kz == k * size,
    ;
    assert(kz * t <= goal * u && kz * t >= goal * w) by (nonlinear_arith)
        requires
            size * t <= end * u,
            size * t >= end * w,
            kz == k * size,
            goal == k * end,
    ;
    // What remains is three errors one after the other.
    assert(kz <= 2 * goal) by (nonlinear_arith)
        requires
            kz * t <= goal * u,
            u <= 2 * t,
            t >= 1,
    ;
    assert(kz * t - goal * t <= goal && goal * t - kz * t <= goal) by (nonlinear_arith)
        requires
            kz * t <= goal * u,
            kz * t >= goal * w,
            u == t + 1,
            w == t - 1,
    ;
    assert(ksn * t - kz * t <= kz && kz * t - ksn * t <= kz) by (nonlinear_arith)
        requires
            ksn * t <= kz * u,
            ksn * t >= kz * w,
            u == t + 1,
            w == t - 1,
    ;
    assert(vn * t - ksn * t <= ksn && ksn * t - vn * t <= ksn) by (nonlinear_arith)
        requires
            vn * t <= ksn * u,
            vn * t >= ksn * w,
            u == t + 1,
            w == t - 1,
    ;
    assert(5 * kz <= 6 * goal) by (nonlinear_arith)
        requires
            kz * t <= goal * u,
            5 * u <= 6 * t,
            t >= 1,
    ;
    assert(5 * ksn <= 6 * kz) by (nonlinear_arith)
        requires
            ksn * t <= kz * u,
            5 * u <= 6 * t,
            t >= 1,
    ;
    assert((vn - goal) * t == vn * t - goal * t) by (nonlinear_arith);
    assert((goal - vn) * t == goal * t - vn * t) by (nonlinear_arith);
}

} // verus!
