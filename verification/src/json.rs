//! JSON values: what a tool is asked and what it answers.
use vstd::prelude::*;
use crate::bits;
use crate::float;
use crate::text;
use crate::float::Float;

verus! {

/// A JSON value. A floating point number is held as its 64-bit encoding.
#[derive(Debug, PartialEq, Eq)]
pub enum Json {
    Null,
    Bool(bool),
    Unsigned(u64),
    Signed(i64),
    Float(u64),
    Text(String),
    Array(Vec<Json>),
    Object(Vec<(String, Json)>),
}

/// What a JSON value says.
pub enum Doc {
    Null,
    Bool(bool),
    Integer(int),
    Float(float::Value),
    Text(Seq<char>),
    Array(Seq<Doc>),
    Object(Seq<(Seq<char>, Doc)>),
}

/// A floating point number, which JSON has only where it is finite.
pub open spec fn number(v: float::Value) -> Doc {
    if v is Finite {
        Doc::Float(v)
    } else {
        Doc::Null
    }
}

/// The 64-bit floating point number nearest to an integer.
pub open spec fn integer_value(v: int) -> float::Value {
    let f = float::double_format();
    if v < 0 {
        float::opposite(float::natural(f, (-v) as nat))
    } else {
        float::natural(f, v as nat)
    }
}

impl Doc {
    /// The value of a field; null where there is none.
    pub open spec fn field(self, key: Seq<char>) -> Doc {
        match self {
            Doc::Object(fields) => found(fields, key),
            _ => Doc::Null,
        }
    }

    pub open spec fn as_bool(self) -> Option<bool> {
        match self {
            Doc::Bool(b) => Some(b),
            _ => None,
        }
    }

    pub open spec fn as_u64(self) -> Option<int> {
        match self {
            Doc::Integer(v) => if 0 <= v <= u64::MAX {
                Some(v)
            } else {
                None
            },
            _ => None,
        }
    }

    pub open spec fn as_i64(self) -> Option<int> {
        match self {
            Doc::Integer(v) => if i64::MIN <= v <= i64::MAX {
                Some(v)
            } else {
                None
            },
            _ => None,
        }
    }

    pub open spec fn as_double(self) -> Option<float::Value> {
        match self {
            Doc::Integer(v) => Some(integer_value(v)),
            Doc::Float(v) => Some(v),
            _ => None,
        }
    }

    pub open spec fn as_text(self) -> Option<Seq<char>> {
        match self {
            Doc::Text(s) => Some(s),
            _ => None,
        }
    }
}

/// The value of the first field of this name; null where there is none.
pub open spec fn found(fields: Seq<(Seq<char>, Doc)>, key: Seq<char>) -> Doc
    decreases fields.len(),
{
    if fields.len() == 0 {
        Doc::Null
    } else if fields[0].0 == key {
        fields[0].1
    } else {
        found(fields.subrange(1, fields.len() as int), key)
    }
}

/// What the fields of an object say.
pub open spec fn field_docs(fields: Seq<(String, Json)>) -> Seq<(Seq<char>, Doc)> {
    Seq::new(fields.len(), |i: int| (fields[i].0@, fields[i].1.doc()))
}

/// What the items of a list say.
pub open spec fn docs(items: Seq<Json>) -> Seq<Doc> {
    Seq::new(items.len(), |i: int| items[i].doc())
}

impl Json {
    /// What the value says.
    pub open spec fn doc(self) -> Doc
        decreases self,
    {
        match self {
            Json::Null => Doc::Null,
            Json::Bool(b) => Doc::Bool(b),
            Json::Unsigned(v) => Doc::Integer(v as int),
            Json::Signed(v) => Doc::Integer(v as int),
            Json::Float(v) => Doc::Float(bits::double_value(v)),
            Json::Text(s) => Doc::Text(s@),
            Json::Array(items) => Doc::Array(
                Seq::new(
                    items@.len(),
                    |i: int|
                        if 0 <= i < items@.len() {
                            items@[i].doc()
                        } else {
                            Doc::Null
                        },
                ),
            ),
            Json::Object(fields) => Doc::Object(
                Seq::new(
                    fields@.len(),
                    |i: int|
                        if 0 <= i < fields@.len() {
                            (fields@[i].0@, fields@[i].1.doc())
                        } else {
                            (Seq::empty(), Doc::Null)
                        },
                ),
            ),
        }
    }
}

/// An object says what its fields say, a list what its items say.
pub proof fn lemma_doc(fields: Vec<(String, Json)>, items: Vec<Json>)
    ensures
        Json::Object(fields).doc() == Doc::Object(field_docs(fields@)),
        Json::Array(items).doc() == Doc::Array(docs(items@)),
{
    assert(Json::Object(fields).doc()->Object_0 =~= field_docs(fields@));
    assert(Json::Array(items).doc()->Array_0 =~= docs(items@));
}

/// Where a field is found.
pub proof fn lemma_found(fields: Seq<(Seq<char>, Doc)>, key: Seq<char>, n: int)
    requires
        0 <= n <= fields.len(),
        forall|i: int| 0 <= i < n ==> (#[trigger] fields[i]).0 != key,
        n < fields.len() ==> fields[n].0 == key,
    ensures
        found(fields, key) == (if n < fields.len() {
            fields[n].1
        } else {
            Doc::Null
        }),
    decreases n,
{
    if n > 0 {
        let rest = fields.subrange(1, fields.len() as int);
        assert(fields[0].0 != key);
        assert forall|i: int| 0 <= i < n - 1 implies (#[trigger] rest[i]).0 != key by {
            assert(fields[i + 1].0 != key);
        }
        if n < fields.len() {
            assert(rest[n - 1] == fields[n]);
        }
        lemma_found(rest, key, n - 1);
    }
}

impl Json {
    /// The value of a field, if there is one.
    pub fn field(&self, key: &str) -> (r: Option<&Json>)
        ensures
            match r {
                Some(v) => v.doc() == self.doc().field(key@),
                None => self.doc().field(key@) == Doc::Null,
            },
    {
        match self {
            Json::Object(fields) => {
                let ghost all = field_docs(fields@);
                proof {
                    let none: Vec<Json> = arbitrary();
                    lemma_doc(*fields, none);
                }
                let mut i: usize = 0;
                while i < fields.len()
                    invariant
                        i <= fields@.len(),
                        all == field_docs(fields@),
                        self.doc() == Doc::Object(all),
                        forall|j: int| 0 <= j < i ==> (#[trigger] all[j]).0 != key@,
                    decreases fields@.len() - i,
                {
                    if text::same_text(fields[i].0.as_str(), key) {
                        proof {
                            lemma_found(all, key@, i as int);
                        }
                        return Some(&fields[i].1);
                    }
                    i = i + 1;
                }
                proof {
                    lemma_found(all, key@, i as int);
                }
                None
            },
            _ => None,
        }
    }

    /// Whether the value is an object.
    pub fn is_object(&self) -> (r: bool)
        ensures
            r == (self.doc() is Object),
    {
        match self {
            Json::Object(_) => true,
            _ => false,
        }
    }

    /// The truth value of a field.
    pub fn bool_at(&self, key: &str) -> (r: Option<bool>)
        ensures
            r == self.doc().field(key@).as_bool(),
    {
        match self.field(key) {
            Some(Json::Bool(b)) => Some(*b),
            _ => None,
        }
    }

    /// The unsigned number of a field.
    pub fn u64_at(&self, key: &str) -> (r: Option<u64>)
        ensures
            match r {
                Some(v) => self.doc().field(key@).as_u64() == Some(v as int),
                None => self.doc().field(key@).as_u64() is None,
            },
    {
        match self.field(key) {
            Some(Json::Unsigned(v)) => Some(*v),
            Some(Json::Signed(v)) => if *v >= 0 {
                Some(*v as u64)
            } else {
                None
            },
            _ => None,
        }
    }

    /// The signed number of a field.
    pub fn i64_at(&self, key: &str) -> (r: Option<i64>)
        ensures
            match r {
                Some(v) => self.doc().field(key@).as_i64() == Some(v as int),
                None => self.doc().field(key@).as_i64() is None,
            },
    {
        match self.field(key) {
            Some(Json::Unsigned(v)) => if *v <= i64::MAX as u64 {
                Some(*v as i64)
            } else {
                None
            },
            Some(Json::Signed(v)) => Some(*v),
            _ => None,
        }
    }

    /// The number of a field, in floating point.
    pub fn double_at(&self, key: &str) -> (r: Option<u64>)
        ensures
            match r {
                Some(v) => self.doc().field(key@).as_double() == Some(bits::double_value(v)),
                None => self.doc().field(key@).as_double() is None,
            },
    {
        let f = float::double();
        match self.field(key) {
            Some(Json::Unsigned(v)) => {
                let x = Float::from_natural(f, *v);
                proof {
                    bits::double_encoding_reads_back(x);
                }
                Some(bits::double_to_bits(x))
            },
            Some(Json::Signed(v)) => {
                let x = if *v >= 0 {
                    Float::from_natural(f, *v as u64)
                } else {
                    Float::from_natural(f, magnitude(*v)).negate()
                };
                proof {
                    bits::double_encoding_reads_back(x);
                }
                Some(bits::double_to_bits(x))
            },
            Some(Json::Float(v)) => Some(*v),
            _ => None,
        }
    }

    /// The text of a field.
    pub fn text_at(&self, key: &str) -> (r: Option<String>)
        ensures
            match r {
                Some(s) => self.doc().field(key@).as_text() == Some(s@),
                None => self.doc().field(key@).as_text() is None,
            },
    {
        match self.field(key) {
            Some(Json::Text(s)) => Some(s.clone()),
            _ => None,
        }
    }
}

/// How far a negative number is from zero.
fn magnitude(v: i64) -> (r: u64)
    requires
        v < 0,
    ensures
        r == -v,
{
    (-(v + 1)) as u64 + 1
}

/// A text as a value.
pub fn text_value(s: &str) -> (r: Json)
    ensures
        r.doc() == Doc::Text(s@),
{
    Json::Text(s.to_owned())
}

/// A floating point number as a value; null where it is not finite.
pub fn number_value(v: u64) -> (r: Json)
    ensures
        r.doc() == number(bits::double_value(v)),
{
    match bits::double_from_bits(v) {
        Float::Finite { .. } => Json::Float(v),
        _ => Json::Null,
    }
}

/// A list of values.
pub fn array_value(items: Vec<Json>) -> (r: Json)
    ensures
        r.doc() == Doc::Array(docs(items@)),
{
    proof {
        let none: Vec<(String, Json)> = arbitrary();
        lemma_doc(none, items);
    }
    Json::Array(items)
}

/// A list of texts.
pub fn texts_value(items: &Vec<&str>) -> (r: Json)
    ensures
        r.doc() == Doc::Array(Seq::new(items@.len(), |i: int| Doc::Text(items@[i]@))),
{
    let mut list: Vec<Json> = Vec::new();
    let mut i: usize = 0;
    while i < items.len()
        invariant
            i <= items@.len(),
            list@.len() == i,
            forall|j: int| 0 <= j < i ==> (#[trigger] list@[j]).doc() == Doc::Text(items@[j]@),
        decreases items@.len() - i,
    {
        list.push(text_value(items[i]));
        i = i + 1;
    }
    assert(docs(list@) =~= Seq::new(items@.len(), |i: int| Doc::Text(items@[i]@)));
    array_value(list)
}

/// The fields of an object in the making.
pub struct Fields {
    pub list: Vec<(String, Json)>,
}

impl Fields {
    /// What the fields say.
    pub open spec fn docs(self) -> Seq<(Seq<char>, Doc)> {
        field_docs(self.list@)
    }

    /// No fields.
    pub fn new() -> (r: Fields)
        ensures
            r.docs() == Seq::<(Seq<char>, Doc)>::empty(),
    {
        let r = Fields { list: Vec::new() };
        assert(r.docs() =~= Seq::empty());
        r
    }

    /// The fields and one more.
    pub fn with(self, key: &str, value: Json) -> (r: Fields)
        ensures
            r.docs() == self.docs().push((key@, value.doc())),
    {
        let mut list = self.list;
        let name = key.to_owned();
        list.push((name, value));
        let r = Fields { list: list };
        assert(r.docs() =~= self.docs().push((key@, value.doc())));
        r
    }

    /// The object of these fields.
    pub fn object(self) -> (r: Json)
        ensures
            r.doc() == Doc::Object(self.docs()),
    {
        proof {
            let none: Vec<Json> = arbitrary();
            lemma_doc(self.list, none);
        }
        Json::Object(self.list)
    }
}

/// Values are read as what they are, and only as that: numbers in the range of
/// the type, whole numbers also as floating point numbers, without loss as long
/// as these have the digits.
pub proof fn values_are_read_as_what_they_are(v: int, x: float::Value, s: Seq<char>, b: bool)
    ensures
        Doc::Integer(v).as_u64() == (if 0 <= v <= u64::MAX {
            Some(v)
        } else {
            None
        }),
        Doc::Integer(v).as_i64() == (if i64::MIN <= v <= i64::MAX {
            Some(v)
        } else {
            None
        }),
        -0x20_0000_0000_0000 <= v <= 0x20_0000_0000_0000 ==> Doc::Integer(v).as_double() == Some(
            float::Value::Finite(
                v < 0,
                (if v < 0 {
                    -v
                } else {
                    v
                }) as nat * crate::rounding::pow2(1074),
            ),
        ),
        Doc::Float(x).as_double() == Some(x) && Doc::Float(x).as_u64() is None && Doc::Float(
            x,
        ).as_i64() is None,
        Doc::Text(s).as_text() == Some(s) && Doc::Text(s).as_bool() is None && Doc::Text(
            s,
        ).as_u64() is None && Doc::Text(s).as_i64() is None && Doc::Text(s).as_double() is None,
        Doc::Bool(b).as_bool() == Some(b) && Doc::Bool(b).as_text() is None,
        Doc::Integer(v).as_text() is None && Doc::Null.as_text() is None && Doc::Null.as_u64() is None,
{
    let f = float::double_format();
    if -0x20_0000_0000_0000 <= v <= 0x20_0000_0000_0000 {
        float::lemma_power_120();
        assert(f.one() == 1074);
        crate::arithmetic::lemma_natural_exact(
            f,
            (if v < 0 {
                -v
            } else {
                v
            }) as nat,
        );
    }
}

} // verus!
