//! From the recognizer's numbers to text.
use vstd::prelude::*;
use crate::bits;
use crate::float;
use crate::float::Float;
use crate::tensor::Tensor;

verus! {

/// The greatest of the first `n` numbers of a row and its class: the first of
/// several, and class zero where none is above minus infinity.
pub open spec fn greatest(t: Tensor, y: int, n: nat) -> (float::Value, nat)
    decreases n,
{
    if n == 0 {
        (float::Value::Infinite(true), 0)
    } else {
        let before = greatest(t, y, (n - 1) as nat);
        let v = bits::single_value(t.at(y, n - 1));
        if float::less(before.0, v) {
            (v, (n - 1) as nat)
        } else {
            before
        }
    }
}

/// The class of each row: that of its greatest number.
pub open spec fn classes(t: Tensor) -> Seq<nat> {
    Seq::new(t.rows() as nat, |y: int| greatest(t, y, t.columns() as nat).1)
}

/// What the last of these classes adds to the text: nothing where it is the
/// blank, where it repeats the class before it, or where the dictionary does
/// not reach.
pub open spec fn added(classes: Seq<nat>, dict: Seq<String>) -> Seq<char> {
    let c = classes.last();
    if c == 0 || c > dict.len() || (classes.len() > 1 && classes[classes.len() - 2] == c) {
        Seq::empty()
    } else {
        dict[c - 1]@
    }
}

/// The text that a sequence of classes spells.
pub open spec fn spelled(classes: Seq<nat>, dict: Seq<String>) -> Seq<char>
    decreases classes.len(),
{
    if classes.len() == 0 {
        Seq::empty()
    } else {
        spelled(classes.drop_last(), dict) + added(classes, dict)
    }
}

/// The text in the numbers that a recognizer gives: a row for each step, a
/// column for each class, in one plane.
pub open spec fn decoded(t: Tensor, dict: Seq<String>) -> Seq<char> {
    if t.rank() != 2 && t.rank() != 3 || t.rows() == 0 || t.columns() == 0 {
        Seq::empty()
    } else {
        spelled(classes(t), dict)
    }
}

/// The class of a row.
fn class_of(logits: &Tensor, y: usize) -> (r: usize)
    requires
        logits.valid(),
        logits.planar(),
        y < logits.rows(),
        logits.columns() > 0,
    ensures
        r == greatest(*logits, y as int, logits.columns() as nat).1,
        r < logits.columns(),
{
    let f = float::single();
    let columns: usize = logits.shape[logits.shape.len() - 1];
    let mut class: usize = 0;
    let mut top = Float::Infinite { negative: true };
    let mut c: usize = 0;
    while c < columns
        invariant
            f == float::single_format(),
            f.valid(),
            logits.valid(),
            logits.planar(),
            y < logits.rows(),
            columns == logits.columns(),
            columns > 0,
            c <= columns,
            class < columns,
            top.valid(f),
            top.value(f) == greatest(*logits, y as int, c as nat).0,
            class == greatest(*logits, y as int, c as nat).1,
        decreases columns - c,
    {
        let v = bits::single_from_bits(logits.get(y, c));
        if top.below(f, v) {
            top = v;
            class = c;
        }
        c = c + 1;
    }
    class
}

/// The text in the numbers that a recognizer gives for a strip: the classes of
/// its steps, runs of one class taken once and blanks left out. Class `i + 1`
/// stands for line `i` of the dictionary.
pub fn ctc_greedy_decode(logits: &Tensor, dict: &Vec<String>) -> (r: String)
    requires
        logits.valid(),
        logits.rank() == 3 && logits.rows() > 0 && logits.columns() > 0 ==> logits.shape@[0] > 0,
    ensures
        r@ == decoded(*logits, dict@),
{
    let mut text = String::new();
    let rank: usize = logits.shape.len();
    if rank != 2 && rank != 3 {
        return text;
    }
    let rows: usize = logits.shape[rank - 2];
    let columns: usize = logits.shape[rank - 1];
    if rows == 0 || columns == 0 {
        return text;
    }
    let ghost all = classes(*logits);
    let mut before: Option<usize> = None;
    let mut y: usize = 0;
    while y < rows
        invariant
            logits.valid(),
            logits.planar(),
            rows == logits.rows(),
            columns == logits.columns(),
            columns > 0,
            all == classes(*logits),
            y <= rows,
            before matches Some(c) ==> y > 0 && c == all[y - 1],
            before is None ==> y == 0,
            text@ == spelled(all.take(y as int), dict@),
        decreases rows - y,
    {
        let class = class_of(logits, y);
        let repeated = match before {
            Some(c) => c == class,
            None => false,
        };
        proof {
            let next = all.take(y + 1);
            assert(next.drop_last() =~= all.take(y as int));
            assert(next.last() == class);
            assert(y > 0 ==> next[y - 1] == all[y - 1]);
        }
        if class != 0 && !repeated && class <= dict.len() {
            text.append(dict[class - 1].as_str());
        }
        before = Some(class);
        y = y + 1;
    }
    proof {
        assert(all.take(rows as int) =~= all);
    }
    text
}

/// The class of a row is that of its greatest number: none of the row is
/// greater, and each one before it is less or not a number. A row without a
/// number above minus infinity has class zero.
pub proof fn a_class_is_that_of_the_greatest_number(t: Tensor, y: int, n: nat)
    ensures
        ({
            let (v, c) = greatest(t, y, n);
            &&& n > 0 ==> c < n
            &&& !(v is Nan)
            &&& v == float::Value::Infinite(true) ==> c == 0
            &&& v != float::Value::Infinite(true) ==> v == bits::single_value(t.at(y, c as int))
            &&& forall|j: int|
                0 <= j < n ==> !float::less(v, bits::single_value(#[trigger] t.at(y, j)))
            &&& forall|j: int|
                0 <= j < c ==> !float::at_least(bits::single_value(#[trigger] t.at(y, j)), v)
        }),
    decreases n,
{
    if n > 0 {
        a_class_is_that_of_the_greatest_number(t, y, (n - 1) as nat);
    }
}

/// A class that comes once more spells nothing more.
pub proof fn a_repeated_class_adds_nothing(classes: Seq<nat>, dict: Seq<String>, i: int)
    requires
        0 <= i < classes.len(),
    ensures
        spelled(classes.insert(i, classes[i]), dict) == spelled(classes, dict),
    decreases classes.len(),
{
    let longer = classes.insert(i, classes[i]);
    let n = classes.len();
    if i == n - 1 {
        assert(longer.drop_last() =~= classes);
        assert(longer.last() == longer[n - 1]);
        assert(spelled(longer, dict) =~= spelled(classes, dict));
    } else {
        let shorter = classes.drop_last();
        a_repeated_class_adds_nothing(shorter, dict, i);
        assert(longer.drop_last() =~= shorter.insert(i, shorter[i]));
        assert(longer.last() == classes.last());
        assert(longer[n - 1] == classes[n - 2]);
    }
}

/// A blank spells nothing, and changes nothing but between two steps of one
/// class, which it makes two letters of.
pub proof fn a_blank_adds_nothing(classes: Seq<nat>, dict: Seq<String>, i: int)
    requires
        0 <= i <= classes.len(),
        0 < i < classes.len() ==> classes[i - 1] != classes[i],
    ensures
        spelled(classes.insert(i, 0), dict) == spelled(classes, dict),
    decreases classes.len(),
{
    let longer = classes.insert(i, 0);
    let n = classes.len();
    if i == n {
        assert(longer.drop_last() =~= classes);
        assert(spelled(longer, dict) =~= spelled(classes, dict));
    } else {
        let shorter = classes.drop_last();
        assert(0 < i < shorter.len() ==> shorter[i - 1] == classes[i - 1] && shorter[i]
            == classes[i]);
        a_blank_adds_nothing(shorter, dict, i);
        assert(longer.drop_last() =~= shorter.insert(i, 0));
        assert(longer.last() == classes.last());
        if i < n - 1 {
            assert(longer[n - 1] == classes[n - 2]);
        } else {
            assert(longer[n - 1] == 0);
            assert(n > 1 ==> classes[n - 2] == classes[i - 1]);
        }
    }
}

/// A blank between two steps of one class keeps them apart: each spells its
/// letter.
pub proof fn a_blank_parts_equal_classes(before: Seq<nat>, dict: Seq<String>, c: nat)
    requires
        0 < c <= dict.len(),
    ensures
        spelled(before.push(c).push(0).push(c), dict) == spelled(before.push(c), dict)
            + dict[c - 1]@,
{
    let one = before.push(c);
    let two = one.push(0);
    let three = two.push(c);
    assert(three.drop_last() =~= two);
    assert(two.drop_last() =~= one);
    assert(spelled(two, dict) =~= spelled(one, dict));
    assert(three[three.len() - 2] == 0);
}

/// The class `c` leads in row `y`: its number is the first of the greatest, what
/// is not a number left aside. Where no number is above minus infinity the blank
/// leads.
pub open spec fn leads(t: Tensor, y: int, c: int) -> bool {
    let lowest = float::Value::Infinite(true);
    let v = bits::single_value(t.at(y, c));
    &&& 0 <= c < t.columns()
    &&& float::less(lowest, v) || (c == 0 && forall|j: int|
        0 <= j < t.columns() ==> !float::less(lowest, bits::single_value(#[trigger] t.at(y, j))))
    &&& forall|j: int|
        0 <= j < t.columns() ==> !float::less(v, bits::single_value(#[trigger] t.at(y, j)))
    &&& forall|j: int|
        0 <= j < c ==> !float::at_least(bits::single_value(#[trigger] t.at(y, j)), v)
}

proof fn lemma_leads(t: Tensor, y: int, c: int)
    requires
        leads(t, y, c),
    ensures
        greatest(t, y, t.columns() as nat).1 == c,
{
    let n = t.columns() as nat;
    let (v, k) = greatest(t, y, n);
    a_class_is_that_of_the_greatest_number(t, y, n);
    let w = bits::single_value(t.at(y, c));
    assert(!float::less(v, w));
    if v != float::Value::Infinite(true) {
        let u = bits::single_value(t.at(y, k as int));
        assert(!float::less(w, u));
    }
}

/// Every step is read: the text is made of what each step adds, from the first
/// to the last and however many there are. A step adds the token of the class
/// that leads in it, unless that is the blank, is not in the dictionary, or led
/// in the step before.
pub proof fn the_text_is_made_of_every_step(
    t: Tensor,
    dict: Seq<String>,
    leading: Seq<int>,
    added: Seq<Seq<char>>,
)
    requires
        t.rank() == 2 || t.rank() == 3,
        leading.len() == t.rows(),
        added.len() == t.rows(),
        t.columns() > 0,
        forall|y: int| 0 <= y < t.rows() ==> leads(t, y, #[trigger] leading[y]),
        forall|y: int|
            0 <= y < t.rows() ==> #[trigger] added[y] == (if 0 < leading[y] <= dict.len() && (y == 0
                || leading[y - 1] != leading[y]) {
                dict[leading[y] - 1]@
            } else {
                Seq::empty()
            }),
    ensures
        decoded(t, dict) == added.flatten(),
{
    let all = classes(t);
    assert forall|y: int| 0 <= y < t.rows() implies #[trigger] all[y] == leading[y] by {
        lemma_leads(t, y, leading[y]);
    }
    lemma_steps(all, dict, leading, added, t.rows() as nat);
    assert(all.take(t.rows() as int) =~= all);
    assert(added.take(t.rows() as int) =~= added);
    if t.rows() == 0 {
        assert(added.flatten() =~= Seq::<char>::empty());
    }
}

proof fn lemma_steps(
    all: Seq<nat>,
    dict: Seq<String>,
    leading: Seq<int>,
    added: Seq<Seq<char>>,
    n: nat,
)
    requires
        n <= all.len() == leading.len() == added.len(),
        forall|y: int| 0 <= y < all.len() ==> #[trigger] all[y] == leading[y],
        forall|y: int|
            0 <= y < all.len() ==> #[trigger] added[y] == (if 0 < leading[y] <= dict.len() && (y
                == 0 || leading[y - 1] != leading[y]) {
                dict[leading[y] - 1]@
            } else {
                Seq::empty()
            }),
    ensures
        spelled(all.take(n as int), dict) == added.take(n as int).flatten(),
    decreases n,
{
    if n > 0 {
        let m = (n - 1) as int;
        lemma_steps(all, dict, leading, added, m as nat);
        let some = all.take(n as int);
        assert(some.drop_last() =~= all.take(m));
        assert(some.last() == all[m]);
        assert(m > 0 ==> some[m - 1] == all[m - 1]);
        assert(m > 0 ==> all[m - 1] == leading[m - 1]);
        assert(added.take(n as int) =~= added.take(m).push(added[m]));
        added.take(m).lemma_flatten_push(added[m]);
        assert(spelled(some, dict) =~= added.take(n as int).flatten());
    } else {
        assert(added.take(0).flatten() =~= Seq::<char>::empty());
        assert(spelled(all.take(0), dict) =~= Seq::<char>::empty());
    }
}

/// A further step in which a new class of the dictionary leads adds the token
/// of that class at the end; a blank, a class that led before, or one that the
/// dictionary does not have, adds nothing.
pub proof fn a_further_step_adds_its_token(
    shorter: Tensor,
    longer: Tensor,
    dict: Seq<String>,
    before: int,
    c: int,
)
    requires
        shorter.rank() == 2 || shorter.rank() == 3,
        longer.rank() == 2 || longer.rank() == 3,
        longer.rows() == shorter.rows() + 1,
        longer.columns() == shorter.columns(),
        forall|y: int, x: int|
            0 <= y < shorter.rows() && 0 <= x < shorter.columns() ==> #[trigger] longer.at(y, x)
                == shorter.at(y, x),
        leads(longer, shorter.rows() as int, c),
        shorter.rows() > 0 ==> leads(longer, shorter.rows() - 1, before),
    ensures
        decoded(longer, dict) == decoded(shorter, dict) + (if 0 < c <= dict.len() && (shorter.rows()
            == 0 || before != c) {
            dict[c - 1]@
        } else {
            Seq::empty()
        }),
{
    let n = shorter.rows() as int;
    let all = classes(longer);
    lemma_leads(longer, n, c);
    if n > 0 {
        lemma_leads(longer, n - 1, before);
    }
    assert forall|y: int| 0 <= y < n implies greatest(longer, y, longer.columns() as nat)
        == #[trigger] greatest(shorter, y, shorter.columns() as nat) by {
        lemma_same_row(longer, shorter, y, longer.columns() as nat);
    }
    assert(all.drop_last() =~= classes(shorter));
    assert(spelled(classes(longer), dict) =~= decoded(longer, dict));
    if n == 0 {
        assert(spelled(all.drop_last(), dict) =~= Seq::<char>::empty());
    }
}

proof fn lemma_same_row(a: Tensor, b: Tensor, y: int, n: nat)
    requires
        n <= a.columns() == b.columns(),
        forall|x: int| 0 <= x < b.columns() ==> #[trigger] a.at(y, x) == b.at(y, x),
    ensures
        greatest(a, y, n) == greatest(b, y, n),
    decreases n,
{
    if n > 0 {
        lemma_same_row(a, b, y, (n - 1) as nat);
        assert(a.at(y, n - 1) == b.at(y, n - 1));
    }
}

/// Numbers that are neither a plane nor planes, or of which there are none, spell
/// nothing.
pub proof fn what_is_no_plane_spells_nothing(t: Tensor, dict: Seq<String>)
    requires
        t.rank() < 2 || t.rank() > 3 || t.rows() == 0 || t.columns() == 0,
    ensures
        decoded(t, dict) == Seq::<char>::empty(),
{
}

} // verus!
