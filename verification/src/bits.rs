//! The interchange encodings of floating point numbers.
use vstd::prelude::*;
use crate::float;
use crate::rounding;
use crate::float::Float;

verus! {

/// The number that 32 bits encode: one of sign, eight of exponent, 23 of
/// mantissa.
pub open spec fn single_number(bits: u32) -> Float {
    let negative = bits >= 0x8000_0000;
    let field = (bits / 0x80_0000) % 0x100;
    let fraction = bits % 0x80_0000;
    if field == 0xff {
        if fraction == 0 {
            Float::Infinite { negative: negative }
        } else {
            Float::Nan
        }
    } else if field == 0 {
        Float::Finite { negative: negative, mantissa: fraction as u64, exponent: (-149) as i32 }
    } else {
        Float::Finite {
            negative: negative,
            mantissa: (0x80_0000 + fraction) as u64,
            exponent: (field - 150) as i32,
        }
    }
}

/// What 32 bits stand for.
pub open spec fn single_value(bits: u32) -> float::Value {
    single_number(bits).value(float::single_format())
}

/// The 32 bits that encode a number; what is not a number has one encoding
/// here, the quiet one.
pub open spec fn single_encoding(x: Float) -> u32 {
    match x {
        Float::Nan => 0x7fc0_0000,
        Float::Infinite { negative } => if negative {
            0xff80_0000
        } else {
            0x7f80_0000
        },
        Float::Finite { negative, mantissa, exponent } => {
            let size = if mantissa < 0x80_0000 {
                mantissa as int
            } else {
                (exponent + 150) * 0x80_0000 + (mantissa - 0x80_0000)
            };
            if negative {
                (0x8000_0000 + size) as u32
            } else {
                size as u32
            }
        },
    }
}

/// The number that 64 bits encode: one of sign, eleven of exponent, 52 of
/// mantissa.
pub open spec fn double_number(bits: u64) -> Float {
    let negative = bits >= 0x8000_0000_0000_0000;
    let field = (bits / 0x10_0000_0000_0000) % 0x800;
    let fraction = bits % 0x10_0000_0000_0000;
    if field == 0x7ff {
        if fraction == 0 {
            Float::Infinite { negative: negative }
        } else {
            Float::Nan
        }
    } else if field == 0 {
        Float::Finite { negative: negative, mantissa: fraction, exponent: (-1074) as i32 }
    } else {
        Float::Finite {
            negative: negative,
            mantissa: (0x10_0000_0000_0000 + fraction) as u64,
            exponent: (field - 1075) as i32,
        }
    }
}

/// What 64 bits stand for.
pub open spec fn double_value(bits: u64) -> float::Value {
    double_number(bits).value(float::double_format())
}

/// The 64 bits that encode a number; what is not a number has one encoding
/// here, the quiet one.
pub open spec fn double_encoding(x: Float) -> u64 {
    match x {
        Float::Nan => 0x7ff8_0000_0000_0000,
        Float::Infinite { negative } => if negative {
            0xfff0_0000_0000_0000
        } else {
            0x7ff0_0000_0000_0000
        },
        Float::Finite { negative, mantissa, exponent } => {
            let size = if mantissa < 0x10_0000_0000_0000 {
                mantissa as int
            } else {
                (exponent + 1075) * 0x10_0000_0000_0000 + (mantissa - 0x10_0000_0000_0000)
            };
            if negative {
                (0x8000_0000_0000_0000 + size) as u64
            } else {
                size as u64
            }
        },
    }
}

/// The powers of two that the encodings turn on.
proof fn lemma_powers()
    ensures
        rounding::pow2(23) == 0x80_0000,
        rounding::pow2(24) == 0x100_0000,
        rounding::pow2(52) == 0x10_0000_0000_0000,
        rounding::pow2(53) == 0x20_0000_0000_0000,
{
    reveal_with_fuel(rounding::pow2, 28);
    assert(rounding::pow2(26) == 0x400_0000);
    rounding::lemma_pow2_adds(26, 26);
    rounding::lemma_pow2_adds(26, 27);
}

/// The number that 32 bits encode.
pub fn single_from_bits(bits: u32) -> (r: Float)
    ensures
        r == single_number(bits),
        r.valid(float::single_format()),
{
    let negative = bits >= 0x8000_0000;
    let field: u32 = (bits / 0x80_0000) % 0x100;
    let fraction: u32 = bits % 0x80_0000;
    proof {
        lemma_powers();
    }
    if field == 0xff {
        if fraction == 0 {
            Float::Infinite { negative: negative }
        } else {
            Float::Nan
        }
    } else if field == 0 {
        Float::Finite { negative: negative, mantissa: fraction as u64, exponent: -149 }
    } else {
        Float::Finite {
            negative: negative,
            mantissa: (0x80_0000 + fraction) as u64,
            exponent: field as i32 - 150,
        }
    }
}

/// The 32 bits that encode a number.
pub fn single_to_bits(x: Float) -> (r: u32)
    requires
        x.valid(float::single_format()),
    ensures
        r == single_encoding(x),
{
    proof {
        lemma_powers();
    }
    match x {
        Float::Nan => 0x7fc0_0000,
        Float::Infinite { negative } => if negative {
            0xff80_0000
        } else {
            0x7f80_0000
        },
        Float::Finite { negative, mantissa, exponent } => {
            let size: u32 = if mantissa < 0x80_0000 {
                mantissa as u32
            } else {
                (exponent + 150) as u32 * 0x80_0000 + (mantissa - 0x80_0000) as u32
            };
            if negative {
                0x8000_0000 + size
            } else {
                size
            }
        },
    }
}

/// The number that 64 bits encode.
pub fn double_from_bits(bits: u64) -> (r: Float)
    ensures
        r == double_number(bits),
        r.valid(float::double_format()),
{
    let negative = bits >= 0x8000_0000_0000_0000;
    let field: u64 = (bits / 0x10_0000_0000_0000) % 0x800;
    let fraction: u64 = bits % 0x10_0000_0000_0000;
    proof {
        lemma_powers();
    }
    if field == 0x7ff {
        if fraction == 0 {
            Float::Infinite { negative: negative }
        } else {
            Float::Nan
        }
    } else if field == 0 {
        Float::Finite { negative: negative, mantissa: fraction, exponent: -1074 }
    } else {
        Float::Finite {
            negative: negative,
            mantissa: 0x10_0000_0000_0000 + fraction,
            exponent: field as i32 - 1075,
        }
    }
}

/// The 64 bits that encode a number.
pub fn double_to_bits(x: Float) -> (r: u64)
    requires
        x.valid(float::double_format()),
    ensures
        r == double_encoding(x),
{
    proof {
        lemma_powers();
    }
    match x {
        Float::Nan => 0x7ff8_0000_0000_0000,
        Float::Infinite { negative } => if negative {
            0xfff0_0000_0000_0000
        } else {
            0x7ff0_0000_0000_0000
        },
        Float::Finite { negative, mantissa, exponent } => {
            let size: u64 = if mantissa < 0x10_0000_0000_0000 {
                mantissa
            } else {
                (exponent + 1075) as u64 * 0x10_0000_0000_0000 + (mantissa - 0x10_0000_0000_0000)
            };
            if negative {
                0x8000_0000_0000_0000 + size
            } else {
                size
            }
        },
    }
}

/// Encoding a number in 32 bits and reading it back gives the number.
pub proof fn single_encoding_reads_back(x: Float)
    requires
        x.valid(float::single_format()),
    ensures
        single_number(single_encoding(x)) == x,
{
    lemma_powers();
}

/// Reading 32 bits and encoding the number again gives the same bits, unless
/// they encode what is not a number.
pub proof fn single_number_encodes_back(bits: u32)
    requires
        !(single_number(bits) is Nan),
    ensures
        single_encoding(single_number(bits)) == bits,
{
}

/// Encoding a number in 64 bits and reading it back gives the number.
pub proof fn double_encoding_reads_back(x: Float)
    requires
        x.valid(float::double_format()),
    ensures
        double_number(double_encoding(x)) == x,
{
    lemma_powers();
}

/// Reading 64 bits and encoding the number again gives the same bits, unless
/// they encode what is not a number.
pub proof fn double_number_encodes_back(bits: u64)
    requires
        !(double_number(bits) is Nan),
    ensures
        double_encoding(double_number(bits)) == bits,
{
}

/// Two numbers of a format that stand for the same are the same.
proof fn lemma_one_number(f: float::Format, x: Float, y: Float)
    requires
        f.valid(),
        x.valid(f),
        y.valid(f),
        x.value(f) == y.value(f),
    ensures
        x == y,
{
    if let Float::Finite { mantissa: m, exponent: d, .. } = x {
        if let Float::Finite { mantissa: n, exponent: e, .. } = y {
            if d < e {
                lemma_apart(f, m as nat, d, n as nat, e);
            } else if e < d {
                lemma_apart(f, n as nat, e, m as nat, d);
            } else {
                let p = rounding::pow2((d - f.min_exponent) as nat);
                rounding::lemma_pow2_pos((d - f.min_exponent) as nat);
                assert(m == n) by (nonlinear_arith)
                    requires
                        m as nat * p == n as nat * p,
                        p >= 1,
                ;
            }
        }
    }
}

/// A number with the higher exponent is the larger.
proof fn lemma_apart(f: float::Format, m: nat, d: i32, n: nat, e: i32)
    requires
        f.valid(),
        f.min_exponent <= d < e,
        m < rounding::pow2(f.digits()),
        n >= rounding::pow2((f.digits() - 1) as nat),
    ensures
        m * rounding::pow2((d - f.min_exponent) as nat) < n * rounding::pow2(
            (e - f.min_exponent) as nat,
        ),
{
    let low = (d - f.min_exponent) as nat;
    let high = (e - f.min_exponent) as nat;
    let half = rounding::pow2((f.digits() - 1) as nat);
    let p = rounding::pow2(low);
    let q = rounding::pow2(high);
    rounding::lemma_pow2_pos(low);
    rounding::lemma_pow2_monotone(low + 1, high);
    assert(rounding::pow2(low + 1) == 2 * p);
    assert(rounding::pow2(f.digits()) == 2 * half);
    assert(m * p < n * q) by (nonlinear_arith)
        requires
            m < 2 * half,
            n >= half,
            p >= 1,
            q >= 2 * p,
    ;
}

/// What is a number has one encoding in 64 bits only.
pub proof fn a_number_has_one_encoding(a: u64, b: u64)
    requires
        double_value(a) == double_value(b),
        !(double_value(a) is Nan),
    ensures
        a == b,
{
    lemma_powers();
    lemma_one_number(float::double_format(), double_number(a), double_number(b));
    double_number_encodes_back(a);
    double_number_encodes_back(b);
}

} // verus!
