//! Bytes as text.
use vstd::prelude::*;
use base64::Engine;

verus! {

/// The character of six bits.
pub open spec fn letter(v: int) -> char {
    (if v < 26 {
        65 + v
    } else if v < 52 {
        97 + (v - 26)
    } else if v < 62 {
        48 + (v - 52)
    } else if v == 62 {
        43
    } else {
        47
    }) as char
}

/// Three bytes as four characters, from the highest bits on.
pub open spec fn quad(a: u8, b: u8, c: u8) -> Seq<char> {
    let (a, b, c) = (a as int, b as int, c as int);
    seq![letter(a / 4), letter(a % 4 * 16 + b / 16), letter(b % 16 * 4 + c / 64), letter(c % 64)]
}

/// Bytes in base 64: four characters for three bytes, filled up at the end
/// with `=`.
pub open spec fn encoded(bytes: Seq<u8>) -> Seq<char>
    decreases bytes.len(),
{
    let n = bytes.len();
    if n == 0 {
        Seq::empty()
    } else if n == 1 {
        quad(bytes[0], 0, 0).update(2, '=').update(3, '=')
    } else if n == 2 {
        quad(bytes[0], bytes[1], 0).update(3, '=')
    } else {
        quad(bytes[0], bytes[1], bytes[2]) + encoded(bytes.subrange(3, n as int))
    }
}

/// How many characters so many bytes take in base 64.
pub open spec fn encoded_length(n: int) -> int {
    (n + 2) / 3 * 4
}

/// Bytes in base 64.
///
/// Stands for `base64::Engine::encode` on `general_purpose::STANDARD`: the
/// alphabet of RFC 4648 with padding.
#[verifier::external_body]
pub(crate) fn encode(bytes: &Vec<u8>) -> (r: String)
    requires
        encoded_length(bytes@.len() as int) <= isize::MAX,
    ensures
        r@ == encoded(bytes@),
{
    base64::engine::general_purpose::STANDARD.encode(bytes)
}

/// Four characters stand for three bytes.
pub proof fn base64_takes_four_characters_for_three_bytes(bytes: Seq<u8>)
    ensures
        encoded(bytes).len() == encoded_length(bytes.len() as int),
    decreases bytes.len(),
{
    if bytes.len() >= 3 {
        base64_takes_four_characters_for_three_bytes(bytes.subrange(3, bytes.len() as int));
    }
}

/// The characters of different six bits differ, and from `=`.
proof fn lemma_letters(v: int, w: int)
    requires
        0 <= v < 64,
        0 <= w < 64,
    ensures
        letter(v) == letter(w) ==> v == w,
        letter(v) != '=',
{
}

proof fn lemma_quad(a: u8, b: u8, c: u8, d: u8, e: u8, f: u8)
    ensures
        quad(a, b, c)[0] == quad(d, e, f)[0] && quad(a, b, c)[1] == quad(d, e, f)[1] && b == 0
            && c == 0 && e == 0 && f == 0 ==> a == d,
        quad(a, b, c)[0] == quad(d, e, f)[0] && quad(a, b, c)[1] == quad(d, e, f)[1] && quad(
            a,
            b,
            c,
        )[2] == quad(d, e, f)[2] && c == 0 && f == 0 ==> a == d && b == e,
        quad(a, b, c) == quad(d, e, f) ==> a == d && b == e && c == f,
        quad(a, b, c)[2] != '=' && quad(a, b, c)[3] != '=',
{
    let (a, b, c) = (a as int, b as int, c as int);
    let (d, e, f) = (d as int, e as int, f as int);
    lemma_letters(a / 4, d / 4);
    lemma_letters(a % 4 * 16 + b / 16, d % 4 * 16 + e / 16);
    lemma_letters(b % 16 * 4 + c / 64, e % 16 * 4 + f / 64);
    lemma_letters(c % 64, f % 64);
}

/// No two byte strings are the same in base 64: what was encoded can be told
/// from the text.
pub proof fn base64_tells_bytes_apart(a: Seq<u8>, b: Seq<u8>)
    requires
        encoded(a) == encoded(b),
    ensures
        a == b,
    decreases a.len(),
{
    base64_takes_four_characters_for_three_bytes(a);
    base64_takes_four_characters_for_three_bytes(b);
    let s = encoded(a);
    let t = encoded(b);
    if a.len() > 0 {
        let x = quad(
            a[0],
            if a.len() > 1 {
                a[1]
            } else {
                0
            },
            if a.len() > 2 {
                a[2]
            } else {
                0
            },
        );
        let y = quad(
            b[0],
            if b.len() > 1 {
                b[1]
            } else {
                0
            },
            if b.len() > 2 {
                b[2]
            } else {
                0
            },
        );
        lemma_quad(
            a[0],
            if a.len() > 1 {
                a[1]
            } else {
                0
            },
            if a.len() > 2 {
                a[2]
            } else {
                0
            },
            b[0],
            if b.len() > 1 {
                b[1]
            } else {
                0
            },
            if b.len() > 2 {
                b[2]
            } else {
                0
            },
        );
        assert(s[0] == t[0] && s[1] == t[1] && s[2] == t[2] && s[3] == t[3]);
        assert(x[0] == s[0] && x[1] == s[1]);
        assert(y[0] == t[0] && y[1] == t[1]);
        if a.len() >= 3 && b.len() >= 3 {
            let c = a.subrange(3, a.len() as int);
            let d = b.subrange(3, b.len() as int);
            assert(encoded(c) =~= s.subrange(4, s.len() as int));
            assert(encoded(d) =~= t.subrange(4, t.len() as int));
            base64_tells_bytes_apart(c, d);
            assert(x =~= s.subrange(0, 4));
            assert(y =~= t.subrange(0, 4));
            assert(a =~= seq![a[0], a[1], a[2]] + c);
            assert(b =~= seq![b[0], b[1], b[2]] + d);
        } else {
            assert(a.len() == b.len());
            assert(a =~= b);
        }
    } else {
        assert(a =~= b);
    }
}

/// The characters of base 64, in the order of what they stand for: capitals,
/// small letters, digits, plus and slash.
pub proof fn the_letters_of_base64(v: int)
    requires
        0 <= v < 64,
    ensures
        letter(v)
            == "ABCDEFGHIJKLMNOPQRSTUVWXYZabcdefghijklmnopqrstuvwxyz0123456789+/"@[v],
{
    reveal_strlit("ABCDEFGHIJKLMNOPQRSTUVWXYZabcdefghijklmnopqrstuvwxyz0123456789+/");
}

/// Each three bytes are told, in four characters of six bits, from the highest
/// bits on; of one or two bytes that are left over the missing bits are zero, and
/// `=` stands for each missing character.
pub proof fn six_bits_make_a_character(bytes: Seq<u8>, i: int) -> (v: (int, int, int, int))
    requires
        0 <= 3 * i < bytes.len(),
    ensures
        ({
            let s = encoded(bytes);
            let left = bytes.len() - 3 * i;
            let a = bytes[3 * i] as int;
            let b = if left > 1 {
                bytes[3 * i + 1] as int
            } else {
                0
            };
            let c = if left > 2 {
                bytes[3 * i + 2] as int
            } else {
                0
            };
            &&& 0 <= v.0 < 64 && 0 <= v.1 < 64 && 0 <= v.2 < 64 && 0 <= v.3 < 64
            &&& v.0 * 0x4_0000 + v.1 * 0x1000 + v.2 * 0x40 + v.3 == a * 0x1_0000 + b * 0x100 + c
            &&& 4 * i + 4 <= s.len()
            &&& s[4 * i] == letter(v.0) && s[4 * i + 1] == letter(v.1)
            &&& s[4 * i + 2] == (if left > 1 {
                letter(v.2)
            } else {
                '='
            })
            &&& s[4 * i + 3] == (if left > 2 {
                letter(v.3)
            } else {
                '='
            })
        }),
    decreases i,
{
    let n = bytes.len();
    if i > 0 {
        let rest = bytes.subrange(3, n as int);
        let v = six_bits_make_a_character(rest, i - 1);
        assert(rest[3 * (i - 1)] == bytes[3 * i]);
        assert(n - 3 * i > 1 ==> rest[3 * (i - 1) + 1] == bytes[3 * i + 1]);
        assert(n - 3 * i > 2 ==> rest[3 * (i - 1) + 2] == bytes[3 * i + 2]);
        let s = encoded(bytes);
        let t = encoded(rest);
        assert(s == quad(bytes[0], bytes[1], bytes[2]) + t);
        assert(forall|k: int| 0 <= k < t.len() ==> s[k + 4] == #[trigger] t[k]);
        assert(s[4 * (i - 1) + 4] == t[4 * (i - 1)]);
        assert(s[4 * (i - 1) + 1 + 4] == t[4 * (i - 1) + 1]);
        assert(s[4 * (i - 1) + 2 + 4] == t[4 * (i - 1) + 2]);
        assert(s[4 * (i - 1) + 3 + 4] == t[4 * (i - 1) + 3]);
        v
    } else {
        let a = bytes[0] as int;
        let b = if n > 1 {
            bytes[1] as int
        } else {
            0
        };
        let c = if n > 2 {
            bytes[2] as int
        } else {
            0
        };
        (a / 4, a % 4 * 16 + b / 16, b % 16 * 4 + c / 64, c % 64)
    }
}

} // verus!
