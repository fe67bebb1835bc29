//! What is said when something fails.
use vstd::prelude::*;
use crate::text;

verus! {

/// `what`, then why.
pub open spec fn because(what: Seq<char>, why: Seq<char>) -> Seq<char> {
    what + ": "@ + why
}

/// `what`, then why.
pub fn failed(what: &str, why: &str) -> (r: String)
    ensures
        r@ == because(what@, why@),
{
    let mut r = text::joined_texts(what, ": ");
    r.append(why);
    r
}

/// A step that failed says what it was and why; one that did not keeps its
/// result.
pub fn explained<T>(outcome: Result<T, String>, what: &str) -> (r: Result<T, String>)
    ensures
        match outcome {
            Ok(v) => r == Ok::<T, String>(v),
            Err(e) => r is Err && r->Err_0@ == because(what@, e@),
        },
{
    match outcome {
        Ok(v) => Ok(v),
        Err(e) => Err(failed(what, e.as_str())),
    }
}

/// `before`, a text in single quotes, then `after`.
pub open spec fn quoting(before: Seq<char>, quoted: Seq<char>, after: Seq<char>) -> Seq<char> {
    before + " '"@ + quoted + "'"@ + after
}

/// `before`, a text in single quotes, then `after`.
pub fn quote(before: &str, quoted: &str, after: &str) -> (r: String)
    ensures
        r@ == quoting(before@, quoted@, after@),
{
    let mut r = text::joined_texts(before, " '");
    r.append(quoted);
    r.append("'");
    r.append(after);
    r
}

} // verus!
