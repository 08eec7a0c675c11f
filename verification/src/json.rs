//! A JSON document model: the values that OSCQuery messages are made of.
use vstd::prelude::*;
use crate::text::str_eq;

verus! {

/// A JSON number, by the readings that OSCQuery takes of it: as a 64-bit
/// integer (when it is one), as a double (its IEEE-754 bits), and as that
/// double narrowed to single precision (its bits). A reading that a number
/// does not offer is `None`.
#[derive(Debug, Clone, Copy, PartialEq, Eq, Structural)]
pub struct JsonNumber {
    pub int: Option<i64>,
    pub double: Option<u64>,
    pub single: Option<u32>,
}

impl JsonNumber {
    /// An integer number, with its readings as a double and as that double
    /// narrowed to single precision.
    pub fn from_i64(i: i64) -> (r: Self)
        ensures
            r == (JsonNumber {
                int: Some(i),
                double: Some(crate::ieee::double_of_int(i as int)),
                single: Some(crate::ieee::single_of_int(i as int)),
            }),
    {
        JsonNumber {
            int: Some(i),
            double: Some(crate::ieee::double_bits_of(i)),
            single: Some(crate::ieee::single_bits_of(i)),
        }
    }
}

/// A JSON value. An object is its list of entries in order; where a key occurs
/// more than once, the last entry holds its value.
#[derive(Debug)]
pub enum JsonValue {
    Null,
    Bool(bool),
    Number(JsonNumber),
    String(String),
    Array(Vec<JsonValue>),
    Object(Vec<(String, JsonValue)>),
}

impl Clone for JsonValue {
    /// A copy with the same content.
    fn clone(&self) -> (r: Self)
        ensures
            r@ == self@,
    {
        crate::codec::copy_json(self)
    }
}

/// The mathematical content of a `JsonValue`.
pub enum JsonView {
    Null,
    Bool(bool),
    Number(JsonNumber),
    String(Seq<char>),
    Array(Seq<JsonView>),
    Object(Seq<(Seq<char>, JsonView)>),
}

impl View for JsonValue {
    type V = JsonView;

    open spec fn view(&self) -> JsonView
        decreases self, 0nat,
    {
        match self {
            JsonValue::Null => JsonView::Null,
            JsonValue::Bool(b) => JsonView::Bool(*b),
            JsonValue::Number(n) => JsonView::Number(*n),
            JsonValue::String(s) => JsonView::String(s@),
            JsonValue::Array(v) => JsonView::Array(json_views(v@)),
            JsonValue::Object(es) => JsonView::Object(entry_views(es@)),
        }
    }
}

/// The views of a sequence of values.
pub open spec fn json_views(s: Seq<JsonValue>) -> Seq<JsonView>
    decreases s, 0nat,
{
    if s.len() == 0 {
        Seq::empty()
    } else {
        seq![s[0]@] + json_views(s.drop_first())
    }
}

/// The views of a sequence of object entries.
pub open spec fn entry_views(s: Seq<(String, JsonValue)>) -> Seq<(Seq<char>, JsonView)>
    decreases s, 0nat,
{
    if s.len() == 0 {
        Seq::empty()
    } else {
        seq![(s[0].0@, s[0].1@)] + entry_views(s.drop_first())
    }
}

pub proof fn lemma_json_views(s: Seq<JsonValue>)
    ensures
        json_views(s).len() == s.len(),
        forall|i: int| 0 <= i < s.len() ==> #[trigger] json_views(s)[i] == s[i]@,
    decreases s.len(),
{
    if s.len() > 0 {
        lemma_json_views(s.drop_first());
        assert(json_views(s) == seq![s[0]@] + json_views(s.drop_first()));
        assert forall|i: int| 0 <= i < s.len() implies #[trigger] json_views(s)[i] == s[i]@ by {
            if i > 0 {
                assert(s.drop_first()[i - 1] == s[i]);
            }
        }
    }
}

pub proof fn lemma_entry_views(s: Seq<(String, JsonValue)>)
    ensures
        entry_views(s).len() == s.len(),
        forall|i: int|
            0 <= i < s.len() ==> #[trigger] entry_views(s)[i] == (s[i].0@, s[i].1@),
    decreases s.len(),
{
    if s.len() > 0 {
        lemma_entry_views(s.drop_first());
        assert(entry_views(s) == seq![(s[0].0@, s[0].1@)] + entry_views(s.drop_first()));
        assert forall|i: int| 0 <= i < s.len() implies #[trigger] entry_views(s)[i] == (
            s[i].0@,
            s[i].1@,
        ) by {
            if i > 0 {
                assert(s.drop_first()[i - 1] == s[i]);
            }
        }
    }
}

pub proof fn lemma_json_views_push(s: Seq<JsonValue>, x: JsonValue)
    ensures
        json_views(s.push(x)) == json_views(s).push(x@),
{
    lemma_json_views(s);
    lemma_json_views(s.push(x));
    assert(json_views(s.push(x)) =~= json_views(s).push(x@));
}

pub proof fn lemma_entry_views_push(s: Seq<(String, JsonValue)>, x: (String, JsonValue))
    ensures
        entry_views(s.push(x)) == entry_views(s).push((x.0@, x.1@)),
{
    lemma_entry_views(s);
    lemma_entry_views(s.push(x));
    assert(entry_views(s.push(x)) =~= entry_views(s).push((x.0@, x.1@)));
}

/// The value that the last entry with key `k` holds, if any.
pub open spec fn lookup(es: Seq<(Seq<char>, JsonView)>, k: Seq<char>) -> Option<JsonView>
    decreases es.len(),
{
    if es.len() == 0 {
        None
    } else if es.last().0 == k {
        Some(es.last().1)
    } else {
        lookup(es.drop_last(), k)
    }
}

/// The entry of `o` for key `k`, if `o` is an object that has one.
pub open spec fn member(o: JsonView, k: Seq<char>) -> Option<JsonView> {
    match o {
        JsonView::Object(es) => lookup(es, k),
        _ => None,
    }
}

/// Whether a value is an object without entries.
pub open spec fn is_empty_object(j: JsonView) -> bool {
    match j {
        JsonView::Object(es) => es.len() == 0,
        _ => false,
    }
}

/// The value as a boolean.
pub open spec fn json_bool(j: JsonView) -> Option<bool> {
    match j {
        JsonView::Bool(b) => Some(b),
        _ => None,
    }
}

/// The value as a 64-bit integer.
pub open spec fn json_int(j: JsonView) -> Option<i64> {
    match j {
        JsonView::Number(n) => n.int,
        _ => None,
    }
}

/// The value as a double, by its bits.
pub open spec fn json_double(j: JsonView) -> Option<u64> {
    match j {
        JsonView::Number(n) => n.double,
        _ => None,
    }
}

/// The value as a double narrowed to single precision, by its bits.
pub open spec fn json_single(j: JsonView) -> Option<u32> {
    match j {
        JsonView::Number(n) => n.single,
        _ => None,
    }
}

/// The value as a string.
pub open spec fn json_str(j: JsonView) -> Option<Seq<char>> {
    match j {
        JsonView::String(s) => Some(s),
        _ => None,
    }
}

impl JsonValue {
    /// The value of the entry for `key`, when this is an object that has one
    /// (the last such entry).
    pub fn get(&self, key: &str) -> (r: Option<&JsonValue>)
        ensures
            match r {
                Some(v) => member(self@, key@) == Some(v@),
                None => member(self@, key@) is None,
            },
    {
        match self {
            JsonValue::Object(es) => {
                proof {
                    lemma_entry_views(es@);
                }
                let mut i: usize = es.len();
                assert(entry_views(es@).take(i as int) == entry_views(es@));
                while i > 0
                    invariant
                        i <= es.len(),
                        self@ == JsonView::Object(entry_views(es@)),
                        entry_views(es@).len() == es.len(),
                        forall|j: int|
                            0 <= j < es.len() ==> #[trigger] entry_views(es@)[j] == (
                                es@[j].0@,
                                es@[j].1@,
                            ),
                        lookup(entry_views(es@), key@) == lookup(
                            entry_views(es@).take(i as int),
                            key@,
                        ),
                    decreases i,
                {
                    let ghost t = entry_views(es@).take(i as int);
                    assert(t.last() == entry_views(es@)[i - 1]);
                    if str_eq(es[i - 1].0.as_str(), key) {
                        return Some(&es[i - 1].1);
                    }
                    assert(t.drop_last() == entry_views(es@).take(i - 1));
                    i = i - 1;
                }
                assert(entry_views(es@).take(0) == Seq::<(Seq<char>, JsonView)>::empty());
                None
            },
            _ => None,
        }
    }

    /// The element at `i`, when this is an array that long.
    pub fn at(&self, i: usize) -> (r: Option<&JsonValue>)
        ensures
            match r {
                Some(v) => self@ matches JsonView::Array(s) && i < s.len() && s[i as int] == v@,
                None => !(self@ matches JsonView::Array(s) && i < s.len()),
            },
    {
        match self {
            JsonValue::Array(v) => {
                proof {
                    lemma_json_views(v@);
                }
                if i < v.len() {
                    Some(&v[i])
                } else {
                    None
                }
            },
            _ => None,
        }
    }

    /// The value as a boolean.
    pub fn as_bool(&self) -> (r: Option<bool>)
        ensures
            r == json_bool(self@),
    {
        match self {
            JsonValue::Bool(b) => Some(*b),
            _ => None,
        }
    }

    /// The value as a 64-bit integer.
    pub fn as_i64(&self) -> (r: Option<i64>)
        ensures
            r == json_int(self@),
    {
        match self {
            JsonValue::Number(n) => n.int,
            _ => None,
        }
    }

    /// The value as a string.
    pub fn as_str(&self) -> (r: Option<&str>)
        ensures
            match r {
                Some(s) => json_str(self@) == Some(s@),
                None => json_str(self@) is None,
            },
    {
        match self {
            JsonValue::String(s) => Some(s.as_str()),
            _ => None,
        }
    }

    /// Whether the value is an object.
    pub fn is_object(&self) -> (r: bool)
        ensures
            r == (self@ is Object),
    {
        match self {
            JsonValue::Object(_) => true,
            _ => false,
        }
    }

    /// Whether the value is an object without entries.
    pub fn is_empty_object(&self) -> (r: bool)
        ensures
            r == is_empty_object(self@),
    {
        match self {
            JsonValue::Object(es) => {
                proof {
                    lemma_entry_views(es@);
                }
                es.len() == 0
            },
            _ => false,
        }
    }
}

} // verus!
