//! Text: comparing, trimming, splitting and joining.
use vstd::prelude::*;

verus! {

/// Adds a character to a text.
///
/// Stands for `String::push` of the standard library, which appends the
/// character at the end.
pub assume_specification[ String::push ](s: &mut String, c: char)
    ensures
        final(s)@ == old(s)@.push(c),
;

/// Whether two texts are the same.
pub fn same_text(a: &str, b: &str) -> (r: bool)
    ensures
        r == (a@ == b@),
{
    a.to_owned() == b.to_owned()
}

/// What a text that may be missing says.
pub open spec fn told(s: Option<String>) -> Option<Seq<char>> {
    match s {
        Some(s) => Some(s@),
        None => None,
    }
}

/// Two texts, one after the other.
pub fn joined_texts(a: &str, b: &str) -> (r: String)
    ensures
        r@ == a@ + b@,
{
    let mut r = a.to_owned();
    r.append(b);
    r
}

/// The characters of a text.
pub fn characters(s: &str) -> (r: Vec<char>)
    ensures
        r@ == s@,
{
    let mut r: Vec<char> = Vec::new();
    for c in it: s.chars()
        invariant
            it.seq() == s@,
            r@ == s@.take(it.index()),
    {
        r.push(c);
        assert(s@.take(r@.len() as int) =~= r@);
    }
    assert(s@.take(s@.len() as int) =~= s@);
    r
}

/// The text of some characters, from one place to another.
pub fn text_of(chars: &Vec<char>, from: usize, to: usize) -> (r: String)
    requires
        from <= to <= chars@.len(),
    ensures
        r@ == chars@.subrange(from as int, to as int),
{
    let mut r = String::new();
    let mut i: usize = from;
    assert(chars@.subrange(from as int, from as int) =~= Seq::<char>::empty());
    while i < to
        invariant
            from <= i <= to <= chars@.len(),
            r@ == chars@.subrange(from as int, i as int),
        decreases to - i,
    {
        r.push(chars[i]);
        assert(chars@.subrange(from as int, i + 1) =~= chars@.subrange(from as int, i as int).push(
            chars@[i as int],
        ));
        i = i + 1;
    }
    r
}

/// How many bytes a text takes.
pub fn byte_length(s: &str) -> (r: usize)
    ensures
        r == vstd::utf8::encode_utf8(s@).len(),
{
    s.as_bytes().len()
}

/// White space, as Unicode has it.
pub open spec fn blank(c: char) -> bool {
    let v = c as int;
    ||| 0x9 <= v <= 0xd
    ||| v == 0x20
    ||| v == 0x85
    ||| v == 0xa0
    ||| v == 0x1680
    ||| 0x2000 <= v <= 0x200a
    ||| v == 0x2028
    ||| v == 0x2029
    ||| v == 0x202f
    ||| v == 0x205f
    ||| v == 0x3000
}

/// White space, as Unicode has it.
pub fn is_blank(c: char) -> (r: bool)
    ensures
        r == blank(c),
{
    let v: u32 = c as u32;
    (0x9 <= v && v <= 0xd) || v == 0x20 || v == 0x85 || v == 0xa0 || v == 0x1680 || (0x2000 <= v
        && v <= 0x200a) || v == 0x2028 || v == 0x2029 || v == 0x202f || v == 0x205f || v == 0x3000
}

/// A text without the white space at its ends.
pub open spec fn trimmed(s: Seq<char>) -> Seq<char>
    decreases s.len(),
{
    if s.len() > 0 && blank(s[0]) {
        trimmed(s.subrange(1, s.len() as int))
    } else if s.len() > 0 && blank(s.last()) {
        trimmed(s.drop_last())
    } else {
        s
    }
}

/// A text without the white space at its ends.
pub fn trim(s: &str) -> (r: String)
    ensures
        r@ == trimmed(s@),
{
    let chars = characters(s);
    let mut from: usize = 0;
    let mut to: usize = chars.len();
    assert(chars@.subrange(0, to as int) =~= s@);
    while from < to && is_blank(chars[from])
        invariant
            chars@ == s@,
            from <= to == chars@.len(),
            trimmed(chars@.subrange(from as int, to as int)) == trimmed(s@),
        decreases to - from,
    {
        proof {
            let rest = chars@.subrange(from as int, to as int);
            assert(rest[0] == chars@[from as int]);
            assert(rest.subrange(1, rest.len() as int) =~= chars@.subrange(from + 1, to as int));
        }
        from = from + 1;
    }
    while from < to && is_blank(chars[to - 1])
        invariant
            from <= to <= chars@.len(),
            from < to ==> !blank(chars@[from as int]),
            trimmed(chars@.subrange(from as int, to as int)) == trimmed(s@),
        decreases to - from,
    {
        proof {
            let rest = chars@.subrange(from as int, to as int);
            assert(rest[0] == chars@[from as int]);
            assert(rest.last() == chars@[to - 1]);
            assert(rest.drop_last() =~= chars@.subrange(from as int, to - 1));
        }
        to = to - 1;
    }
    proof {
        let rest = chars@.subrange(from as int, to as int);
        if rest.len() > 0 {
            assert(rest[0] == chars@[from as int]);
            assert(rest.last() == chars@[to - 1]);
        }
    }
    text_of(&chars, from, to)
}

/// A trimmed text is a stretch of the text, and starts and ends with something
/// else than white space, unless it is empty.
pub proof fn a_trimmed_text_has_no_white_space_at_its_ends(s: Seq<char>)
    ensures
        trimmed(s).len() > 0 ==> !blank(trimmed(s)[0]) && !blank(trimmed(s).last()),
        exists|i: int, j: int|
            0 <= i <= j <= s.len() && trimmed(s) == #[trigger] s.subrange(i, j),
    decreases s.len(),
{
    if s.len() > 0 && blank(s[0]) {
        let rest = s.subrange(1, s.len() as int);
        a_trimmed_text_has_no_white_space_at_its_ends(rest);
        let (i, j) = choose|i: int, j: int|
            0 <= i <= j <= rest.len() && trimmed(rest) == #[trigger] rest.subrange(i, j);
        assert(rest.subrange(i, j) =~= s.subrange(i + 1, j + 1));
    } else if s.len() > 0 && blank(s.last()) {
        let rest = s.drop_last();
        a_trimmed_text_has_no_white_space_at_its_ends(rest);
        let (i, j) = choose|i: int, j: int|
            0 <= i <= j <= rest.len() && trimmed(rest) == #[trigger] rest.subrange(i, j);
        assert(rest.subrange(i, j) =~= s.subrange(i, j));
    } else {
        assert(s.subrange(0, s.len() as int) =~= s);
    }
}

/// The texts of some strings.
pub open spec fn texts(parts: Seq<String>) -> Seq<Seq<char>> {
    Seq::new(parts.len(), |i: int| parts[i]@)
}

/// The texts, one after the other, with `gap` between each two.
pub open spec fn joined(parts: Seq<Seq<char>>, gap: Seq<char>) -> Seq<char>
    decreases parts.len(),
{
    if parts.len() == 0 {
        Seq::empty()
    } else if parts.len() == 1 {
        parts[0]
    } else {
        joined(parts.drop_last(), gap) + gap + parts.last()
    }
}

/// The texts, one after the other, with `gap` between each two.
pub fn join(parts: &Vec<String>, gap: &str) -> (r: String)
    ensures
        r@ == joined(texts(parts@), gap@),
{
    let mut r = String::new();
    let mut i: usize = 0;
    let ghost all = texts(parts@);
    while i < parts.len()
        invariant
            i <= parts@.len(),
            all == texts(parts@),
            r@ == joined(all.take(i as int), gap@),
        decreases parts@.len() - i,
    {
        let ghost held = r@;
        if i > 0 {
            r.append(gap);
        }
        r.append(parts[i].as_str());
        proof {
            let next = all.take(i + 1);
            assert(next.drop_last() =~= all.take(i as int));
            assert(next.last() == parts@[i as int]@);
            if i == 0 {
                assert(r@ =~= all[0]);
            }
        }
        i = i + 1;
    }
    assert(all.take(i as int) =~= all);
    r
}

/// `part` stands somewhere in a text.
pub open spec fn holds(whole: Seq<char>, part: Seq<char>) -> bool {
    exists|i: int|
        0 <= i <= whole.len() - part.len() && #[trigger] whole.subrange(i, i + part.len()) == part
}

/// What a part of a text holds, the text holds.
pub proof fn lemma_holds(before: Seq<char>, whole: Seq<char>, after: Seq<char>, part: Seq<char>)
    requires
        holds(whole, part),
    ensures
        holds(before + whole + after, part),
{
    let i = choose|i: int|
        0 <= i <= whole.len() - part.len() && #[trigger] whole.subrange(i, i + part.len()) == part;
    let j = before.len() + i;
    assert((before + whole + after).subrange(j, j + part.len()) =~= part);
}

/// A text holds itself, and each of its beginnings.
pub proof fn lemma_holds_start(part: Seq<char>, after: Seq<char>)
    ensures
        holds(part + after, part),
        holds(part, part),
{
    assert((part + after).subrange(0, 0int + part.len()) =~= part);
    assert(part.subrange(0, 0int + part.len()) =~= part);
}

/// Each of the texts stands in the joined text.
pub proof fn a_joined_text_holds_its_parts(parts: Seq<Seq<char>>, gap: Seq<char>, i: int)
    requires
        0 <= i < parts.len(),
    ensures
        holds(joined(parts, gap), parts[i]),
    decreases parts.len(),
{
    if parts.len() == 1 {
        lemma_holds_start(parts[0], Seq::empty());
    } else if i == parts.len() - 1 {
        let before = joined(parts.drop_last(), gap) + gap;
        lemma_holds_start(parts.last(), Seq::empty());
        lemma_holds(before, parts.last(), Seq::empty(), parts.last());
        assert(before + parts.last() + Seq::<char>::empty() =~= joined(parts, gap));
    } else {
        let shorter = parts.drop_last();
        a_joined_text_holds_its_parts(shorter, gap, i);
        lemma_holds(Seq::empty(), joined(shorter, gap), gap + parts.last(), parts[i]);
        assert(Seq::<char>::empty() + joined(shorter, gap) + (gap + parts.last()) =~= joined(
            parts,
            gap,
        ));
    }
}

/// Where the first line of a text ends: at its line feed, or at its end.
pub open spec fn line_end(s: Seq<char>) -> int
    decreases s.len(),
{
    if s.len() == 0 || s[0] == '\n' {
        0
    } else {
        1 + line_end(s.subrange(1, s.len() as int))
    }
}

/// A line without the carriage return before its line feed.
pub open spec fn without_return(s: Seq<char>) -> Seq<char> {
    if s.len() > 0 && s.last() == '\r' {
        s.drop_last()
    } else {
        s
    }
}

/// The lines of a text. A line feed ends a line, with the carriage return
/// before it if there is one; the last line may do without.
pub open spec fn lines(s: Seq<char>) -> Seq<Seq<char>>
    decreases s.len(),
{
    let end = line_end(s);
    if s.len() == 0 {
        Seq::empty()
    } else if end < 0 || end >= s.len() {
        seq![s]
    } else {
        seq![without_return(s.subrange(0, end))] + lines(s.subrange(end + 1, s.len() as int))
    }
}

/// The line feed that ends a line is the first.
proof fn lemma_line_end(s: Seq<char>)
    ensures
        0 <= line_end(s) <= s.len(),
        line_end(s) < s.len() ==> s[line_end(s)] == '\n',
        forall|i: int| 0 <= i < line_end(s) ==> s[i] != '\n',
    decreases s.len(),
{
    if !(s.len() == 0 || s[0] == '\n') {
        let rest = s.subrange(1, s.len() as int);
        lemma_line_end(rest);
        assert forall|i: int| 0 <= i < line_end(s) implies s[i] != '\n' by {
            if i > 0 {
                assert(rest[i - 1] == s[i]);
            }
        }
    }
}

/// The first line feed is the one that ends the line.
proof fn lemma_line_end_at(s: Seq<char>, end: int)
    requires
        0 <= end <= s.len(),
        end < s.len() ==> s[end] == '\n',
        forall|i: int| 0 <= i < end ==> s[i] != '\n',
    ensures
        line_end(s) == end,
{
    lemma_line_end(s);
    let e = line_end(s);
    if e < end {
        assert(s[e] != '\n');
    } else if end < e {
        assert(s[end] != '\n');
    }
}

/// The lines of a text.
pub fn split_lines(s: &str) -> (r: Vec<String>)
    ensures
        texts(r@) == lines(s@),
{
    let chars = characters(s);
    let size: usize = chars.len();
    let mut r: Vec<String> = Vec::new();
    let mut start: usize = 0;
    assert(chars@.subrange(0, size as int) =~= s@);
    assert(texts(r@) + lines(s@) =~= lines(s@));
    while start < size
        invariant
            size == chars@.len(),
            start <= size,
            texts(r@) + lines(chars@.subrange(start as int, size as int)) == lines(s@),
        decreases size - start,
    {
        let ghost rest = chars@.subrange(start as int, size as int);
        let ghost held = texts(r@);
        let mut end: usize = start;
        while end < size && chars[end] != '\n'
            invariant
                size == chars@.len(),
                start <= end <= size,
                forall|i: int| start <= i < end ==> #[trigger] chars@[i] != '\n',
            decreases size - end,
        {
            end = end + 1;
        }
        proof {
            assert(end < size ==> rest[end - start] == chars@[end as int]);
            assert forall|i: int| 0 <= i < end - start implies rest[i] != '\n' by {
                assert(chars@[start + i] != '\n');
            }
            lemma_line_end_at(rest, end - start);
        }
        if end == size {
            r.push(text_of(&chars, start, size));
            proof {
                assert(lines(rest) == seq![rest]);
                assert(texts(r@) =~= held.push(rest));
                assert(lines(chars@.subrange(size as int, size as int)) =~= Seq::empty());
                assert(texts(r@) + Seq::<Seq<char>>::empty() =~= held + seq![rest]);
            }
            start = size;
        } else {
            let last: usize = if end > start && chars[end - 1] == '\r' {
                end - 1
            } else {
                end
            };
            r.push(text_of(&chars, start, last));
            proof {
                let line = rest.subrange(0, end - start);
                assert(line =~= chars@.subrange(start as int, end as int));
                if end > start {
                    assert(line.last() == chars@[end - 1]);
                }
                assert(chars@.subrange(start as int, last as int) =~= without_return(line));
                assert(rest.subrange(end - start + 1, rest.len() as int) =~= chars@.subrange(
                    end + 1,
                    size as int,
                ));
                assert(texts(r@) =~= held.push(without_return(line)));
                assert(texts(r@) + lines(chars@.subrange(end + 1, size as int)) =~= held + lines(
                    rest,
                ));
            }
            start = end + 1;
        }
    }
    proof {
        assert(chars@.subrange(start as int, size as int).len() == 0);
        assert(texts(r@) + lines(chars@.subrange(start as int, size as int)) =~= texts(r@));
    }
    r
}

/// Texts written one to a line.
pub open spec fn written(tokens: Seq<Seq<char>>) -> Seq<char>
    decreases tokens.len(),
{
    if tokens.len() == 0 {
        Seq::empty()
    } else {
        tokens[0].push('\n') + written(tokens.subrange(1, tokens.len() as int))
    }
}

/// Texts written one to a line are read back as they were, as long as none
/// holds a line feed or ends with a carriage return.
pub proof fn lines_read_back_what_was_written(tokens: Seq<Seq<char>>)
    requires
        forall|i: int, j: int|
            0 <= i < tokens.len() && 0 <= j < tokens[i].len() ==> #[trigger] tokens[i][j] != '\n',
        forall|i: int|
            0 <= i < tokens.len() && tokens[i].len() > 0 ==> (#[trigger] tokens[i]).last() != '\r',
    ensures
        lines(written(tokens)) == tokens,
    decreases tokens.len(),
{
    if tokens.len() > 0 {
        let first = tokens[0];
        let rest = tokens.subrange(1, tokens.len() as int);
        let s = written(tokens);
        assert forall|i: int, j: int|
            0 <= i < rest.len() && 0 <= j < rest[i].len() implies #[trigger] rest[i][j] != '\n' by {
            assert(tokens[i + 1][j] != '\n');
        }
        assert forall|i: int|
            0 <= i < rest.len() && rest[i].len() > 0 implies (#[trigger] rest[i]).last() != '\r' by {
            assert(tokens[i + 1].last() != '\r');
        }
        lines_read_back_what_was_written(rest);
        assert forall|i: int| 0 <= i < first.len() implies s[i] != '\n' by {
            assert(tokens[0][i] != '\n');
        }
        lemma_line_end_at(s, first.len() as int);
        assert(s.subrange(0, first.len() as int) =~= first);
        assert(s.subrange(first.len() as int + 1, s.len() as int) =~= written(rest));
        assert(seq![first] + rest =~= tokens);
    } else {
        assert(lines(written(tokens)) =~= tokens);
    }
}

/// A decimal digit.
pub open spec fn digit(d: nat) -> char {
    (48 + d) as char
}

/// A number in decimal digits.
pub open spec fn decimal(n: nat) -> Seq<char>
    decreases n,
{
    if n < 10 {
        seq![digit(n)]
    } else {
        decimal(n / 10).push(digit(n % 10))
    }
}

/// A number in decimal digits.
pub fn to_decimal(n: u64) -> (r: String)
    ensures
        r@ == decimal(n as nat),
    decreases n,
{
    let mut r = if n < 10 {
        String::new()
    } else {
        to_decimal(n / 10)
    };
    let d: u8 = 48 + (n % 10) as u8;
    r.push(d as char);
    assert(r@ =~= decimal(n as nat));
    r
}

/// Trimming takes away white space at the ends and nothing else: what is left is
/// a stretch of the text, before and behind which there is only white space.
/// Nothing is left just where there is only white space.
pub proof fn trimming_takes_white_space_only(s: Seq<char>) -> (at: (int, int))
    ensures
        0 <= at.0 <= at.1 <= s.len(),
        trimmed(s) == s.subrange(at.0, at.1),
        forall|k: int| 0 <= k < at.0 || at.1 <= k < s.len() ==> blank(#[trigger] s[k]),
        at.0 < at.1 ==> !blank(s[at.0]) && !blank(s[at.1 - 1]),
        trimmed(s).len() == 0 <==> forall|k: int| 0 <= k < s.len() ==> blank(#[trigger] s[k]),
    decreases s.len(),
{
    let at = if s.len() > 0 && blank(s[0]) {
        let rest = s.subrange(1, s.len() as int);
        let (i, j) = trimming_takes_white_space_only(rest);
        assert(rest.subrange(i, j) =~= s.subrange(i + 1, j + 1));
        assert forall|k: int| 0 <= k < i + 1 || j + 1 <= k < s.len() implies blank(
            #[trigger] s[k],
        ) by {
            if k > 0 {
                assert(rest[k - 1] == s[k]);
            }
        }
        (i + 1, j + 1)
    } else if s.len() > 0 && blank(s.last()) {
        let rest = s.drop_last();
        let (i, j) = trimming_takes_white_space_only(rest);
        assert(rest.subrange(i, j) =~= s.subrange(i, j));
        assert forall|k: int| 0 <= k < i || j <= k < s.len() implies blank(#[trigger] s[k]) by {
            if k < s.len() - 1 {
                assert(rest[k] == s[k]);
            }
        }
        (i, j)
    } else {
        assert(s.subrange(0, s.len() as int) =~= s);
        (0, s.len() as int)
    };
    at
}

/// A joined text is made of all its parts, in order, each but the first with the
/// gap before it.
pub proof fn a_joined_text_is_made_of_its_parts(
    parts: Seq<Seq<char>>,
    gap: Seq<char>,
    pieces: Seq<Seq<char>>,
)
    requires
        pieces.len() == parts.len(),
        forall|i: int|
            0 <= i < parts.len() ==> #[trigger] pieces[i] == (if i == 0 {
                parts[i]
            } else {
                gap + parts[i]
            }),
    ensures
        joined(parts, gap) == pieces.flatten(),
    decreases parts.len(),
{
    let n = parts.len();
    if n == 0 {
        assert(pieces.flatten() =~= Seq::<char>::empty());
    } else {
        a_joined_text_is_made_of_its_parts(parts.drop_last(), gap, pieces.drop_last());
        assert(pieces =~= pieces.drop_last().push(pieces[n - 1]));
        pieces.drop_last().lemma_flatten_push(pieces[n - 1]);
        if n == 1 {
            assert(pieces.drop_last().flatten() =~= Seq::<char>::empty());
        }
        assert(joined(parts, gap) =~= pieces.flatten());
    }
}

/// A line feed ends a line, alone or behind a carriage return, and what comes
/// after it is read as if it stood alone. A text without a line feed is one
/// line.
pub proof fn a_line_feed_ends_a_line(line: Seq<char>, rest: Seq<char>)
    requires
        !line.contains('\n'),
    ensures
        line.len() == 0 || line.last() != '\r' ==> lines(line.push('\n') + rest) == seq![line]
            + lines(rest),
        lines(line.push('\r').push('\n') + rest) == seq![line] + lines(rest),
        line.len() > 0 ==> lines(line) == seq![line],
        lines(Seq::<char>::empty()).len() == 0,
{
    let n = line.len() as int;
    assert forall|i: int| 0 <= i < n implies line[i] != '\n' by {}
    let plain = line.push('\n') + rest;
    lemma_line_end_at(plain, n);
    assert(plain.subrange(0, n) =~= line);
    assert(plain.subrange(n + 1, plain.len() as int) =~= rest);
    let full = line.push('\r').push('\n') + rest;
    lemma_line_end_at(full, n + 1);
    assert(full.subrange(0, n + 1) =~= line.push('\r'));
    assert(line.push('\r').drop_last() =~= line);
    assert(full.subrange(n + 2, full.len() as int) =~= rest);
    lemma_line_end_at(line, n);
}

/// The number that decimal digits stand for.
pub open spec fn number_read(s: Seq<char>) -> int
    decreases s.len(),
{
    if s.len() == 0 {
        0
    } else {
        10 * number_read(s.drop_last()) + (s.last() as int - '0' as int)
    }
}

/// A number in decimal digits reads back as the number, and begins with no zero
/// unless it is zero.
pub proof fn decimal_digits_read_back(n: nat)
    ensures
        number_read(decimal(n)) == n,
        decimal(n).len() > 0,
        n > 0 ==> decimal(n)[0] != '0',
        forall|i: int| 0 <= i < decimal(n).len() ==> '0' <= #[trigger] decimal(n)[i] <= '9',
    decreases n,
{
    if n < 10 {
        assert(decimal(n).drop_last() =~= Seq::<char>::empty());
        assert(number_read(decimal(n).drop_last()) == 0);
    } else {
        decimal_digits_read_back(n / 10);
        assert(decimal(n).drop_last() =~= decimal(n / 10));
        assert(decimal(n)[0] == decimal(n / 10)[0]);
    }
}

} // verus!
