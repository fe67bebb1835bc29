//! Words that an engine found, line by line.
use vstd::prelude::*;
use crate::arithmetic;
use crate::bits;
use crate::float;
use crate::rounding;
use crate::float::Float;

verus! {

/// A word and where it stands, in 32-bit numbers, held as their encodings.
#[derive(Debug, PartialEq, Eq)]
pub struct Word {
    pub text: String,
    pub x: u32,
    pub y: u32,
    pub width: u32,
    pub height: u32,
}

/// A word and where it stands, in 64-bit numbers, held as their encodings.
#[derive(Debug, PartialEq, Eq)]
pub struct PlacedWord {
    pub text: String,
    pub x: u64,
    pub y: u64,
    pub width: u64,
    pub height: u64,
}

/// A 32-bit number as a 64-bit number, which it is without loss.
pub open spec fn widened(v: float::Value) -> float::Value {
    match v {
        float::Value::Finite(s, u) => float::Value::Finite(
            s,
            u * rounding::pow2(
                (float::double_format().one() - float::single_format().one()) as nat,
            ),
        ),
        _ => v,
    }
}

/// `p` is `w` with its place in 64-bit numbers.
pub open spec fn placed_from(p: PlacedWord, w: Word) -> bool {
    &&& p.text@ == w.text@
    &&& bits::double_value(p.x) == widened(bits::single_value(w.x))
    &&& bits::double_value(p.y) == widened(bits::single_value(w.y))
    &&& bits::double_value(p.width) == widened(bits::single_value(w.width))
    &&& bits::double_value(p.height) == widened(bits::single_value(w.height))
}

/// The words of all lines, one after the other.
pub open spec fn words_in(lines: Seq<Vec<Word>>) -> Seq<Word>
    decreases lines.len(),
{
    if lines.len() == 0 {
        Seq::empty()
    } else {
        words_in(lines.drop_last()) + lines.last()@
    }
}

/// A 32-bit number as a 64-bit number.
pub fn widen(v: u32) -> (r: u64)
    ensures
        bits::double_value(r) == widened(bits::single_value(v)),
{
    let f = float::double();
    let x = bits::single_from_bits(v);
    let y = match x {
        Float::Finite { negative, mantissa, exponent } => {
            proof {
                lemma_widened(mantissa as nat, exponent as int, negative);
            }
            float::round(f, negative, mantissa as u128, 1, exponent)
        },
        _ => x,
    };
    proof {
        bits::double_encoding_reads_back(y);
    }
    bits::double_to_bits(y)
}

/// Widening keeps every digit.
proof fn lemma_widened(m: nat, e: int, negative: bool)
    requires
        m < rounding::pow2(24),
        -149 <= e <= 149,
    ensures
        ({
            let f = float::double_format();
            float::rounded(f, negative, float::over(f, m, e), float::under(f, 1, e)) == widened(
                float::Value::Finite(negative, m * rounding::pow2((e + 149) as nat)),
            )
        }),
{
    let f = float::double_format();
    let k = (e + 1074) as nat;
    let low = (e + 149) as nat;
    rounding::lemma_pow2_zero(1);
    rounding::lemma_pow2_monotone(24, 53);
    arithmetic::lemma_exact(m, k, 53);
    rounding::lemma_pow2_adds(low, 925);
    assert(m * (rounding::pow2(low) * rounding::pow2(925)) == (m * rounding::pow2(low))
        * rounding::pow2(925)) by (nonlinear_arith);
    rounding::lemma_pow2_adds(24, k);
    rounding::lemma_pow2_monotone((24 + k) as nat, f.top as nat);
    rounding::lemma_pow2_pos(k);
    assert(m * rounding::pow2(k) < rounding::pow2(24) * rounding::pow2(k)) by (nonlinear_arith)
        requires
            m < rounding::pow2(24),
            rounding::pow2(k) >= 1,
    ;
}

/// The words of all lines, in the order of the lines and of the words in them.
pub fn placed_words(lines: &Vec<Vec<Word>>) -> (r: Vec<PlacedWord>)
    ensures
        r@.len() == words_in(lines@).len(),
        forall|i: int|
            0 <= i < r@.len() ==> placed_from(#[trigger] r@[i], words_in(lines@)[i]),
{
    let mut r: Vec<PlacedWord> = Vec::new();
    let mut i: usize = 0;
    while i < lines.len()
        invariant
            i <= lines@.len(),
            r@.len() == words_in(lines@.take(i as int)).len(),
            forall|k: int|
                0 <= k < r@.len() ==> placed_from(
                    #[trigger] r@[k],
                    words_in(lines@.take(i as int))[k],
                ),
        decreases lines@.len() - i,
    {
        let ghost before = words_in(lines@.take(i as int));
        let line = &lines[i];
        let mut j: usize = 0;
        while j < line.len()
            invariant
                j <= line@.len(),
                r@.len() == before.len() + j,
                forall|k: int|
                    0 <= k < r@.len() ==> placed_from(#[trigger] r@[k], (before + line@)[k]),
            decreases line@.len() - j,
        {
            let w = &line[j];
            r.push(
                PlacedWord {
                    text: w.text.clone(),
                    x: widen(w.x),
                    y: widen(w.y),
                    width: widen(w.width),
                    height: widen(w.height),
                },
            );
            j = j + 1;
        }
        proof {
            let next = lines@.take(i + 1);
            assert(next.drop_last() =~= lines@.take(i as int));
            assert(next.last() == lines@[i as int]);
        }
        i = i + 1;
    }
    assert(lines@.take(i as int) =~= lines@);
    r
}

/// No word is lost and none comes twice: the words of the lines come one line
/// after the other, each line from its first word to its last.
pub proof fn every_word_of_every_line_comes_in_order(lines: Seq<Vec<Word>>)
    ensures
        words_in(lines) == lines.map_values(|line: Vec<Word>| line@).flatten(),
    decreases lines.len(),
{
    let all = lines.map_values(|line: Vec<Word>| line@);
    if lines.len() == 0 {
        assert(all.flatten() =~= Seq::<Word>::empty());
    } else {
        let some = lines.drop_last();
        every_word_of_every_line_comes_in_order(some);
        assert(all =~= some.map_values(|line: Vec<Word>| line@).push(lines.last()@));
        some.map_values(|line: Vec<Word>| line@).lemma_flatten_push(lines.last()@);
    }
}

/// A number stands for the same in 64 bits as it did in 32: counted in the least
/// positive numbers of both formats, sign and size agree.
pub proof fn a_widened_number_is_the_same_number(negative: bool, units: nat)
    ensures
        widened(float::Value::Finite(negative, units)) matches float::Value::Finite(s, u) && s
            == negative && u * rounding::pow2(float::single_format().one()) == units
            * rounding::pow2(float::double_format().one()),
        widened(float::Value::Nan) is Nan,
        widened(float::Value::Infinite(negative)) == float::Value::Infinite(negative),
{
    rounding::lemma_pow2_adds(925, 149);
    assert((units * rounding::pow2(925)) * rounding::pow2(149) == units * (rounding::pow2(925)
        * rounding::pow2(149))) by (nonlinear_arith);
}

/// A word keeps its text and its place.
pub proof fn a_word_keeps_its_text_and_place(p: PlacedWord, w: Word)
    requires
        placed_from(p, w),
    ensures
        p.text@ == w.text@,
        bits::double_value(p.x) == widened(bits::single_value(w.x)),
        bits::double_value(p.y) == widened(bits::single_value(w.y)),
        bits::double_value(p.width) == widened(bits::single_value(w.width)),
        bits::double_value(p.height) == widened(bits::single_value(w.height)),
{
}

} // verus!
