//! The JSON form of OSCQuery nodes and host information, both ways.
use vstd::prelude::*;
use crate::json::{
    entry_views, is_empty_object, json_bool, json_double, json_int, json_single, json_str,
    json_views, lemma_entry_views, lemma_entry_views_push, lemma_json_views, lemma_json_views_push,
    JsonNumber, JsonValue, JsonView,
};
use crate::node::{
    tag_of, tags_of, HostInfoView, OSCHostInfo, access_code, lemma_views_of, lemma_views_of_push, values_view, views_of, NodeView, OSCAccess,
    OSCQueryNode, OscValue, OscValueView,
};
use crate::text::{
    char_is_whitespace, chars_of, is_white_space, key_lt, last_index_of, lemma_key_lt_strict,
    lemma_last_index_of, opt_view, rfind_char, str_eq, str_lt, without_white_space,
};

verus! {

/// Whether single precision bits stand for a finite number.
pub open spec fn finite32(b: u32) -> bool {
    (b >> 23u32) & 0xffu32 != 0xffu32
}

/// Whether double precision bits stand for a finite number.
pub open spec fn finite64(b: u64) -> bool {
    (b >> 52u64) & 0x7ffu64 != 0x7ffu64
}

/// An integer JSON number, with every reading that a parsed one has.
pub open spec fn int_json(i: i64) -> JsonView {
    JsonView::Number(
        JsonNumber {
            int: Some(i),
            double: Some(crate::ieee::double_of_int(i as int)),
            single: Some(crate::ieee::single_of_int(i as int)),
        },
    )
}

/// The JSON form of an OSC value: numbers as numbers that carry every reading
/// a parsed number of their kind has (an integer: as an integer, a double and
/// a single; a float: as a double and a single), and a non-finite float
/// written as `null`.
pub open spec fn value_json(v: OscValueView) -> JsonView {
    match v {
        OscValueView::Int(i) => int_json(i as i64),
        OscValueView::Float(b) => if finite32(b) {
            JsonView::Number(
                JsonNumber { int: None, double: Some(crate::ieee::widen(b)), single: Some(b) },
            )
        } else {
            JsonView::Null
        },
        OscValueView::Long(l) => int_json(l),
        OscValueView::Double(b) => if finite64(b) {
            JsonView::Number(
                JsonNumber { int: None, double: Some(b), single: Some(crate::ieee::narrow(b)) },
            )
        } else {
            JsonView::Null
        },
        OscValueView::Bool(b) => JsonView::Bool(b),
        OscValueView::String(s) => JsonView::String(s),
    }
}

/// The last segment of an OSC path: what follows its last `/`.
pub open spec fn last_segment(p: Seq<char>) -> Seq<char> {
    p.skip(last_index_of(p, '/') + 1)
}

/// One entry when the string field is present.
pub open spec fn str_entry(k: Seq<char>, v: Option<Seq<char>>) -> Seq<(Seq<char>, JsonView)> {
    match v {
        Some(s) => seq![(k, JsonView::String(s))],
        None => Seq::empty(),
    }
}

/// The JSON object of a node: `FULL_PATH`, `TYPE`, `ACCESS`, `VALUE`,
/// `DESCRIPTION` and `CONTENTS`, each only when the node has that field.
/// `CONTENTS` maps the last path segment of each child that has a path to
/// the child's object.
pub open spec fn node_json(n: NodeView) -> JsonView
    decreases n, 1nat,
{
    JsonView::Object(
        str_entry("FULL_PATH"@, n.full_path) + str_entry("TYPE"@, n.osc_type) + (match n.access {
            Some(a) => seq![("ACCESS"@, int_json(access_code(a) as i64))],
            None => Seq::empty(),
        }) + (match n.value {
            Some(vs) => seq![("VALUE"@, JsonView::Array(vs.map_values(|v: OscValueView| value_json(v))))],
            None => Seq::empty(),
        }) + str_entry("DESCRIPTION"@, n.description) + (match n.contents {
            Some(s) => seq![("CONTENTS"@, JsonView::Object(contents_json(s)))],
            None => Seq::empty(),
        }),
    )
}

/// The `CONTENTS` entries of a sequence of children.
pub open spec fn contents_json(s: Seq<NodeView>) -> Seq<(Seq<char>, JsonView)>
    decreases s, 1nat,
{
    if s.len() == 0 {
        Seq::empty()
    } else {
        (match s[0].full_path {
            Some(p) => seq![(last_segment(p), node_json(s[0]))],
            None => Seq::empty(),
        }) + contents_json(s.drop_first())
    }
}

pub proof fn lemma_contents_json_push(s: Seq<NodeView>, x: NodeView)
    ensures
        contents_json(s.push(x)) == contents_json(s) + (match x.full_path {
            Some(p) => seq![(last_segment(p), node_json(x))],
            None => Seq::<(Seq<char>, JsonView)>::empty(),
        }),
    decreases s.len(),
{
    if s.len() == 0 {
        assert(s.push(x).drop_first() =~= Seq::<NodeView>::empty());
        assert(contents_json(Seq::<NodeView>::empty()) == Seq::<(Seq<char>, JsonView)>::empty());
        assert(contents_json(s.push(x)) =~= contents_json(s) + (match x.full_path {
            Some(p) => seq![(last_segment(p), node_json(x))],
            None => Seq::<(Seq<char>, JsonView)>::empty(),
        }));
    } else {
        assert(s.push(x).drop_first() =~= s.drop_first().push(x));
        lemma_contents_json_push(s.drop_first(), x);
        assert(contents_json(s.push(x)) =~= contents_json(s) + (match x.full_path {
            Some(p) => seq![(last_segment(p), node_json(x))],
            None => Seq::<(Seq<char>, JsonView)>::empty(),
        }));
    }
}

/// The JSON form of a value.
pub fn value_to_json(v: &OscValue) -> (r: JsonValue)
    ensures
        r@ == value_json(v@),
{
    match v {
        OscValue::Int(i) => JsonValue::Number(JsonNumber::from_i64(*i as i64)),
        OscValue::Float(b) => if (*b >> 23u32) & 0xffu32 != 0xffu32 {
            JsonValue::Number(
                JsonNumber {
                    int: None,
                    double: Some(crate::ieee::widen_bits(*b)),
                    single: Some(*b),
                },
            )
        } else {
            JsonValue::Null
        },
        OscValue::Long(l) => JsonValue::Number(JsonNumber::from_i64(*l)),
        OscValue::Double(b) => if (*b >> 52u64) & 0x7ffu64 != 0x7ffu64 {
            JsonValue::Number(
                JsonNumber {
                    int: None,
                    double: Some(*b),
                    single: Some(crate::ieee::narrow_bits(*b)),
                },
            )
        } else {
            JsonValue::Null
        },
        OscValue::Bool(b) => JsonValue::Bool(*b),
        OscValue::String(s) => JsonValue::String(s.clone()),
    }
}

/// The last segment of a path.
pub fn last_segment_of(p: &str) -> (r: String)
    ensures
        r@ == last_segment(p@),
{
    let cs = chars_of(p);
    proof {
        lemma_last_index_of(p@, '/');
    }
    let start: usize = match rfind_char(&cs, '/') {
        Some(i) => {
            assert(i < cs.len());
            i + 1
        },
        None => 0,
    };
    let r = p.substring_char(start, cs.len()).to_owned();
    assert(p@.subrange(start as int, p@.len() as int) == p@.skip(start as int));
    r
}

/// Appends the entry `(k, v)`, keeping track of the views.
fn push_entry(es: &mut Vec<(String, JsonValue)>, k: &str, v: JsonValue)
    ensures
        entry_views(final(es)@) == entry_views(old(es)@).push((k@, v@)),
{
    let key = k.to_owned();
    proof {
        lemma_entry_views_push(es@, (key, v));
    }
    es.push((key, v));
}

/// The JSON values of a list of values.
fn values_to_json(vs: &Vec<OscValue>) -> (r: Vec<JsonValue>)
    ensures
        json_views(r@) == values_view(vs@).map_values(|v: OscValueView| value_json(v)),
{
    let mut arr: Vec<JsonValue> = Vec::new();
    let mut i: usize = 0;
    assert(json_views(arr@) =~= Seq::<JsonView>::empty());
    while i < vs.len()
        invariant
            i <= vs.len(),
            json_views(arr@) == values_view(vs@.take(i as int)).map_values(
                |v: OscValueView| value_json(v),
            ),
        decreases vs.len() - i,
    {
        let j = value_to_json(&vs[i]);
        proof {
            lemma_json_views_push(arr@, j);
        }
        arr.push(j);
        i = i + 1;
        assert(values_view(vs@.take(i as int)).map_values(|v: OscValueView| value_json(v))
            =~= values_view(vs@.take(i - 1)).map_values(|v: OscValueView| value_json(v)).push(
            value_json(vs@[i - 1]@),
        ));
    }
    assert(vs@.take(vs.len() as int) == vs@);
    arr
}

/// The `CONTENTS` entries of a list of children.
#[verifier::loop_isolation(false)]
fn contents_to_json(v: &Vec<OSCQueryNode>) -> (r: Vec<(String, JsonValue)>)
    ensures
        entry_views(r@) == contents_json(views_of(v@)),
    decreases v, 1nat,
{
    proof {
        lemma_views_of(v@);
    }
    let mut cs: Vec<(String, JsonValue)> = Vec::new();
    let mut i: usize = 0;
    assert(views_of(v@).take(0) =~= Seq::<NodeView>::empty());
    assert(entry_views(cs@) =~= Seq::<(Seq<char>, JsonView)>::empty());
    while i < v.len()
        invariant
            i <= v.len(),
            entry_views(cs@) == contents_json(views_of(v@).take(i as int)),
        decreases v.len() - i,
    {
        let child = &v[i];
        proof {
            assert(views_of(v@).take(i + 1) == views_of(v@).take(i as int).push(child@));
            lemma_contents_json_push(views_of(v@).take(i as int), child@);
        }
        if let Some(p) = &child.full_path {
            let key = last_segment_of(p.as_str());
            let cj = child.to_json();
            push_entry(&mut cs, key.as_str(), cj);
        }
        i = i + 1;
    }
    assert(views_of(v@).take(v.len() as int) == views_of(v@));
    cs
}

impl OSCQueryNode {
    /// The JSON object of this node and, under `CONTENTS`, of its subtree.
    pub fn to_json(&self) -> (r: JsonValue)
        ensures
            r@ == node_json(self@),
        decreases self, 0nat,
    {
        let mut es: Vec<(String, JsonValue)> = Vec::new();
        let ghost want = match node_json(self@) {
            JsonView::Object(e) => e,
            _ => Seq::empty(),
        };
        assert(entry_views(es@) =~= Seq::<(Seq<char>, JsonView)>::empty());
        if let Some(p) = &self.full_path {
            push_entry(&mut es, "FULL_PATH", JsonValue::String(p.clone()));
        }
        assert(entry_views(es@) =~= str_entry("FULL_PATH"@, self@.full_path));
        if let Some(t) = &self.osc_type {
            push_entry(&mut es, "TYPE", JsonValue::String(t.clone()));
        }
        let ghost e2 = str_entry("FULL_PATH"@, self@.full_path) + str_entry("TYPE"@, self@.osc_type);
        assert(entry_views(es@) =~= e2);
        if let Some(a) = &self.access {
            push_entry(&mut es, "ACCESS", JsonValue::Number(JsonNumber::from_i64(a.to_u8() as i64)));
        }
        let ghost e3 = e2 + (match self@.access {
            Some(a) => seq![("ACCESS"@, int_json(access_code(a) as i64))],
            None => Seq::empty(),
        });
        assert(entry_views(es@) =~= e3);
        if let Some(vs) = &self.value {
            push_entry(&mut es, "VALUE", JsonValue::Array(values_to_json(vs)));
        }
        let ghost e4 = e3 + (match self@.value {
            Some(vs) => seq![("VALUE"@, JsonView::Array(vs.map_values(|v: OscValueView| value_json(v))))],
            None => Seq::empty(),
        });
        assert(entry_views(es@) =~= e4);
        if let Some(d) = &self.description {
            push_entry(&mut es, "DESCRIPTION", JsonValue::String(d.clone()));
        }
        let ghost e5 = e4 + str_entry("DESCRIPTION"@, self@.description);
        assert(entry_views(es@) =~= e5);
        if let Some(v) = &self.contents {
            push_entry(&mut es, "CONTENTS", JsonValue::Object(contents_to_json(v)));
        }
        assert(entry_views(es@) =~= want);
        JsonValue::Object(es)
    }
}


/// The value that a JSON value stands for under an OSC type tag, if any.
pub open spec fn parse_with_tag(tag: char, j: JsonView) -> Option<OscValueView> {
    if tag == 'i' {
        match json_int(j) {
            Some(v) => Some(OscValueView::Int(v as i32)),
            None => None,
        }
    } else if tag == 'f' || tag == 't' {
        match json_single(j) {
            Some(b) => Some(OscValueView::Float(b)),
            None => None,
        }
    } else if tag == 'h' {
        match json_int(j) {
            Some(v) => Some(OscValueView::Long(v)),
            None => None,
        }
    } else if tag == 'd' {
        match json_double(j) {
            Some(b) => Some(OscValueView::Double(b)),
            None => None,
        }
    } else if tag == 'T' || tag == 'F' {
        match json_bool(j) {
            Some(b) => Some(OscValueView::Bool(b)),
            None => None,
        }
    } else if tag == 's' {
        match json_str(j) {
            Some(s) => Some(OscValueView::String(s)),
            None => None,
        }
    } else {
        None
    }
}

/// The view of an optional value.
pub open spec fn opt_value_view(o: Option<OscValue>) -> Option<OscValueView> {
    match o {
        Some(v) => Some(v@),
        None => None,
    }
}

/// Parse a JSON value according to an OSC type tag character.
pub fn parse_value_with_tag(tag: char, json_val: &JsonValue) -> (r: Option<OscValue>)
    ensures
        opt_value_view(r) == parse_with_tag(tag, json_val@),
{
    let jv = json_val;
    if tag == 'i' {
        match jv.as_i64() {
            Some(v) => Some(OscValue::Int(v as i32)),
            None => None,
        }
    } else if tag == 'f' || tag == 't' {
        match jv {
            JsonValue::Number(n) => match n.single {
                Some(b) => Some(OscValue::Float(b)),
                None => None,
            },
            _ => None,
        }
    } else if tag == 'h' {
        match jv.as_i64() {
            Some(v) => Some(OscValue::Long(v)),
            None => None,
        }
    } else if tag == 'd' {
        match jv {
            JsonValue::Number(n) => match n.double {
                Some(b) => Some(OscValue::Double(b)),
                None => None,
            },
            _ => None,
        }
    } else if tag == 'T' || tag == 'F' {
        match jv.as_bool() {
            Some(b) => Some(OscValue::Bool(b)),
            None => None,
        }
    } else if tag == 's' {
        match jv.as_str() {
            Some(s) => Some(OscValue::String(s.to_owned())),
            None => None,
        }
    } else {
        None
    }
}

/// The values read under type tags: the value at index `i` under tag `i`,
/// dropped where there is no tag or the value does not fit the tag.
pub open spec fn typed_values(vals: Seq<JsonView>, tags: Seq<char>) -> Seq<OscValueView>
    decreases vals.len(),
{
    if vals.len() == 0 {
        Seq::empty()
    } else {
        let i = vals.len() - 1;
        let rest = typed_values(vals.drop_last(), tags);
        if i < tags.len() {
            match parse_with_tag(tags[i], vals.last()) {
                Some(v) => rest.push(v),
                None => rest,
            }
        } else {
            rest
        }
    }
}

/// The value read without a type tag: a boolean, else an integer (truncated
/// to 32 bits), else a float, else a string.
pub open spec fn untyped_value(j: JsonView) -> Option<OscValueView> {
    match json_bool(j) {
        Some(b) => Some(OscValueView::Bool(b)),
        None => match json_int(j) {
            Some(i) => Some(OscValueView::Int(i as i32)),
            None => match json_single(j) {
                Some(b) => Some(OscValueView::Float(b)),
                None => match json_str(j) {
                    Some(s) => Some(OscValueView::String(s)),
                    None => None,
                },
            },
        },
    }
}

/// The values read without type tags, dropping what is none of them.
pub open spec fn untyped_values(vals: Seq<JsonView>) -> Seq<OscValueView>
    decreases vals.len(),
{
    if vals.len() == 0 {
        Seq::empty()
    } else {
        let rest = untyped_values(vals.drop_last());
        match untyped_value(vals.last()) {
            Some(v) => rest.push(v),
            None => rest,
        }
    }
}

/// Whether one of the values is an empty object.
pub open spec fn has_empty_object(vals: Seq<JsonView>) -> bool {
    exists|i: int| 0 <= i < vals.len() && is_empty_object(#[trigger] vals[i])
}

/// The value of a node read from its `VALUE` array and its `TYPE`: with a type,
/// the typed reading, or nothing at all when an element is an empty object;
/// without one, the untyped reading. No value when nothing was read.
pub open spec fn decoded_values(value: Option<Seq<JsonView>>, osc_type: Option<Seq<char>>) -> Option<
    Seq<OscValueView>,
> {
    match value {
        None => None,
        Some(vals) => {
            let parsed = match osc_type {
                Some(t) => if has_empty_object(vals) {
                    Seq::empty()
                } else {
                    typed_values(vals, without_white_space(t))
                },
                None => untyped_values(vals),
            };
            if parsed.len() == 0 {
                None
            } else {
                Some(parsed)
            }
        },
    }
}

/// The value read without a type tag.
fn untyped_value_of(j: &JsonValue) -> (r: Option<OscValue>)
    ensures
        opt_value_view(r) == untyped_value(j@),
{
    match j.as_bool() {
        Some(b) => Some(OscValue::Bool(b)),
        None => match j.as_i64() {
            Some(i) => Some(OscValue::Int(i as i32)),
            None => match j {
                JsonValue::Number(n) if n.single.is_some() => Some(OscValue::Float(n.single.unwrap())),
                _ => match j.as_str() {
                    Some(s) => Some(OscValue::String(s.to_owned())),
                    None => None,
                },
            },
        },
    }
}

/// Reads the values of a node from its `VALUE` array and its `TYPE`.
pub fn decode_values(vals: &Vec<JsonValue>, osc_type: &Option<String>) -> (r: Option<Vec<OscValue>>)
    ensures
        (match r {
            Some(v) => Some(values_view(v@)),
            None => None,
        }) == decoded_values(Some(json_views(vals@)), opt_view(*osc_type)),
{
    proof {
        lemma_json_views(vals@);
    }
    let ghost js = json_views(vals@);
    let mut parsed: Vec<OscValue> = Vec::new();
    match osc_type {
        Some(t) => {
            let tags = crate::node::tags_to_type_chars(t.as_str());
            let mut i: usize = 0;
            while i < vals.len()
                invariant
                    i <= vals.len(),
                    js == json_views(vals@),
                    js.len() == vals.len(),
                    forall|j: int| 0 <= j < vals.len() ==> #[trigger] js[j] == vals@[j]@,
                    tags@ == without_white_space(t@),
                    opt_view(*osc_type) == Some(t@),
                    forall|j: int| 0 <= j < i ==> !is_empty_object(#[trigger] js[j]),
                    values_view(parsed@) == typed_values(js.take(i as int), tags@),
                decreases vals.len() - i,
            {
                let v = &vals[i];
                if v.is_empty_object() {
                    assert(has_empty_object(js));
                    assert(opt_view(*osc_type) == Some(t@));
                    assert(decoded_values(Some(js), opt_view(*osc_type)) is None);
                    return None;
                }
                let ghost prev = parsed@;
                if i < tags.len() {
                    match parse_value_with_tag(tags[i], v) {
                        Some(x) => {
                            parsed.push(x);
                        },
                        None => {},
                    }
                }
                proof {
                    assert(js.take(i + 1).drop_last() == js.take(i as int));
                    assert(js.take(i + 1).last() == js[i as int]);
                    if parsed@.len() > prev.len() {
                        assert(values_view(parsed@) =~= values_view(prev).push(parsed@.last()@));
                    }
                }
                i = i + 1;
            }
            assert(js.take(vals.len() as int) == js);
            assert(!has_empty_object(js));
        },
        None => {
            let mut i: usize = 0;
            while i < vals.len()
                invariant
                    i <= vals.len(),
                    js == json_views(vals@),
                    js.len() == vals.len(),
                    forall|j: int| 0 <= j < vals.len() ==> #[trigger] js[j] == vals@[j]@,
                    values_view(parsed@) == untyped_values(js.take(i as int)),
                decreases vals.len() - i,
            {
                let ghost prev = parsed@;
                match untyped_value_of(&vals[i]) {
                    Some(x) => {
                        parsed.push(x);
                    },
                    None => {},
                }
                proof {
                    assert(js.take(i + 1).drop_last() == js.take(i as int));
                    assert(js.take(i + 1).last() == js[i as int]);
                    if parsed@.len() > prev.len() {
                        assert(values_view(parsed@) =~= values_view(prev).push(parsed@.last()@));
                    }
                }
                i = i + 1;
            }
            assert(js.take(vals.len() as int) == js);
        },
    }
    if parsed.len() == 0 {
        None
    } else {
        Some(parsed)
    }
}


/// A JSON number that is an integer from 0 to 255.
pub open spec fn json_u8(j: JsonView) -> Option<u8> {
    match json_int(j) {
        Some(i) => if 0 <= i <= 255 {
            Some(i as u8)
        } else {
            None
        },
        None => None,
    }
}

/// A JSON number that is an integer from 0 to 65535.
pub open spec fn json_u16(j: JsonView) -> Option<u16> {
    match json_int(j) {
        Some(i) => if 0 <= i <= 65535 {
            Some(i as u16)
        } else {
            None
        },
        None => None,
    }
}

/// The access level with a wire number, if any.
pub open spec fn access_of_code(c: u8) -> Option<OSCAccess> {
    if c == 0 {
        Some(OSCAccess::NoValue)
    } else if c == 1 {
        Some(OSCAccess::ReadOnly)
    } else if c == 2 {
        Some(OSCAccess::WriteOnly)
    } else if c == 3 {
        Some(OSCAccess::ReadWrite)
    } else {
        None
    }
}

/// The fields of a node read so far from the entries of its object.
pub struct NodeFields {
    pub full_path: Option<Seq<char>>,
    pub osc_type: Option<Seq<char>>,
    pub access: Option<OSCAccess>,
    pub value: Option<Seq<JsonView>>,
    pub description: Option<Seq<char>>,
    pub contents: Option<Seq<NodeView>>,
}

/// No field read yet.
pub open spec fn no_fields() -> NodeFields {
    NodeFields {
        full_path: None,
        osc_type: None,
        access: None,
        value: None,
        description: None,
        contents: None,
    }
}

/// The fields after reading one more entry, or none when the entry does not
/// fit its key: `FULL_PATH`, `TYPE` and `DESCRIPTION` take a string, `ACCESS`
/// a number from 0 to 255 (a number above 3 reads as no access), `VALUE` an
/// array, `CONTENTS` an object whose every value is a node (see
/// `read_children`); other keys are skipped.
pub open spec fn read_entry(f: NodeFields, e: (Seq<char>, JsonView)) -> Option<NodeFields>
    decreases e, 0nat,
{
    let k = e.0;
    if k == "FULL_PATH"@ {
        match e.1 {
            JsonView::String(s) => Some(NodeFields { full_path: Some(s), ..f }),
            _ => None,
        }
    } else if k == "TYPE"@ {
        match e.1 {
            JsonView::String(s) => Some(NodeFields { osc_type: Some(s), ..f }),
            _ => None,
        }
    } else if k == "ACCESS"@ {
        match json_u8(e.1) {
            Some(c) => Some(NodeFields { access: access_of_code(c), ..f }),
            None => None,
        }
    } else if k == "VALUE"@ {
        match e.1 {
            JsonView::Array(vs) => Some(NodeFields { value: Some(vs), ..f }),
            _ => None,
        }
    } else if k == "DESCRIPTION"@ {
        match e.1 {
            JsonView::String(s) => Some(NodeFields { description: Some(s), ..f }),
            _ => None,
        }
    } else if k == "CONTENTS"@ {
        match e.1 {
            JsonView::Object(cs) => match read_at(cs, key_order(cs)) {
                Some(ns) => Some(NodeFields { contents: Some(ns), ..f }),
                None => None,
            },
            _ => None,
        }
    } else {
        Some(f)
    }
}

/// The fields read from the entries of an object, in order (a later entry
/// overrides an earlier one), or none when an entry does not fit its key.
pub open spec fn read_fields(es: Seq<(Seq<char>, JsonView)>) -> Option<NodeFields>
    decreases es, 0nat,
{
    if es.len() == 0 {
        Some(no_fields())
    } else {
        match read_fields(es.drop_last()) {
            Some(f) => read_entry(f, es[es.len() - 1]),
            None => None,
        }
    }
}

/// The positions `s`, ordered by key, with position `k` put in: in place of
/// the position with the same key, else before the first position whose key
/// comes after its key.
pub open spec fn order_insert(cs: Seq<(Seq<char>, JsonView)>, s: Seq<int>, k: int) -> Seq<int>
    decreases s.len(),
{
    if s.len() == 0 {
        seq![k]
    } else if cs[s[0]].0 == cs[k].0 {
        seq![k] + s.drop_first()
    } else if key_lt(cs[k].0, cs[s[0]].0) {
        seq![k] + s
    } else {
        seq![s[0]] + order_insert(cs, s.drop_first(), k)
    }
}

/// The positions among the first `n` entries that hold the last entry of
/// their key, ordered by key.
pub open spec fn key_order_upto(cs: Seq<(Seq<char>, JsonView)>, n: nat) -> Seq<int>
    decreases n,
{
    if n == 0 {
        Seq::empty()
    } else {
        order_insert(cs, key_order_upto(cs, (n - 1) as nat), n - 1)
    }
}

/// The positions of the entries of an object as a map reads them: the last
/// entry of each key, in the order of the keys.
pub open spec fn key_order(cs: Seq<(Seq<char>, JsonView)>) -> Seq<int> {
    key_order_upto(cs, cs.len())
}

/// The nodes read from the values at positions `ks`, in that order, or none
/// when one of them is not a node.
pub open spec fn read_at(cs: Seq<(Seq<char>, JsonView)>, ks: Seq<int>) -> Option<Seq<NodeView>>
    decreases cs, ks.len(),
{
    if ks.len() == 0 {
        Some(Seq::empty())
    } else {
        match read_at(cs, ks.drop_last()) {
            Some(ns) => {
                let k = ks[ks.len() - 1];
                if 0 <= k < cs.len() {
                    match read_node(cs[k].1) {
                        Some(n) => Some(ns.push(n)),
                        None => None,
                    }
                } else {
                    None
                }
            },
            None => None,
        }
    }
}

/// The nodes of a `CONTENTS` object, read as a map: one per key (its last
/// entry), in the order of the keys; none when one of them is not a node.
pub open spec fn read_children(cs: Seq<(Seq<char>, JsonView)>) -> Option<Seq<NodeView>> {
    read_at(cs, key_order(cs))
}

/// The node that a JSON value stands for, or none when it is not an object
/// or one of its entries does not fit its key.
pub open spec fn read_node(j: JsonView) -> Option<NodeView>
    decreases j, 0nat,
{
    match j {
        JsonView::Object(es) => match read_fields(es) {
            Some(f) => Some(
                NodeView {
                    full_path: f.full_path,
                    contents: f.contents,
                    osc_type: f.osc_type,
                    access: f.access,
                    value: decoded_values(f.value, f.osc_type),
                    description: f.description,
                },
            ),
            None => None,
        },
        _ => None,
    }
}


/// The value as an integer from 0 to 255.
pub fn json_u8_of(j: &JsonValue) -> (r: Option<u8>)
    ensures
        r == json_u8(j@),
{
    match j.as_i64() {
        Some(i) => if 0 <= i && i <= 255 {
            Some(i as u8)
        } else {
            None
        },
        None => None,
    }
}

/// The value as an integer from 0 to 65535.
pub fn json_u16_of(j: &JsonValue) -> (r: Option<u16>)
    ensures
        r == json_u16(j@),
{
    match j.as_i64() {
        Some(i) => if 0 <= i && i <= 65535 {
            Some(i as u16)
        } else {
            None
        },
        None => None,
    }
}

/// Once a prefix of the entries fails to read, so do all the entries.
pub proof fn lemma_read_fields_fails(es: Seq<(Seq<char>, JsonView)>, i: int)
    requires
        0 <= i <= es.len(),
        read_fields(es.take(i)) is None,
    ensures
        read_fields(es) is None,
    decreases es.len() - i,
{
    if i < es.len() {
        assert(es.take(i + 1).drop_last() == es.take(i));
        lemma_read_fields_fails(es, i + 1);
    } else {
        assert(es.take(i) == es);
    }
}

/// Once a prefix of the positions fails to read, so do all of them.
pub proof fn lemma_read_at_fails(cs: Seq<(Seq<char>, JsonView)>, ks: Seq<int>, i: int)
    requires
        0 <= i <= ks.len(),
        read_at(cs, ks.take(i)) is None,
    ensures
        read_at(cs, ks) is None,
    decreases ks.len() - i,
{
    if i < ks.len() {
        assert(ks.take(i + 1).drop_last() == ks.take(i));
        lemma_read_at_fails(cs, ks, i + 1);
    } else {
        assert(ks.take(i) == ks);
    }
}

/// Where `order_insert` puts position `k`: at the first place `p` whose key is
/// the same as its key (replacing it) or comes after it.
pub proof fn lemma_order_insert_at(cs: Seq<(Seq<char>, JsonView)>, s: Seq<int>, k: int, p: int)
    requires
        0 <= p <= s.len(),
        forall|q: int|
            0 <= q < p ==> !(cs[#[trigger] s[q]].0 == cs[k].0 || key_lt(cs[k].0, cs[s[q]].0)),
        p < s.len() ==> (cs[s[p]].0 == cs[k].0 || key_lt(cs[k].0, cs[s[p]].0)),
    ensures
        order_insert(cs, s, k) == (if p < s.len() && cs[s[p]].0 == cs[k].0 {
            s.update(p, k)
        } else {
            s.insert(p, k)
        }),
    decreases p,
{
    if p == 0 {
        if s.len() == 0 {
            assert(s.insert(0, k) =~= seq![k]);
        } else if cs[s[0]].0 == cs[k].0 {
            assert(s.update(0, k) =~= seq![k] + s.drop_first());
        } else {
            assert(s.insert(0, k) =~= seq![k] + s);
        }
    } else {
        let t = s.drop_first();
        assert(!(cs[s[0]].0 == cs[k].0 || key_lt(cs[k].0, cs[s[0]].0)));
        assert forall|q: int| 0 <= q < p - 1 implies !(cs[#[trigger] t[q]].0 == cs[k].0 || key_lt(
            cs[k].0,
            cs[t[q]].0,
        )) by {
            assert(t[q] == s[q + 1]);
        }
        if p - 1 < t.len() {
            assert(t[p - 1] == s[p]);
        }
        lemma_order_insert_at(cs, t, k, p - 1);
        if p < s.len() && cs[s[p]].0 == cs[k].0 {
            assert(order_insert(cs, s, k) =~= s.update(p, k));
        } else {
            assert(order_insert(cs, s, k) =~= s.insert(p, k));
        }
    }
}

/// The views of an optional list of nodes.
pub open spec fn opt_views_of(o: Option<Vec<OSCQueryNode>>) -> Option<Seq<NodeView>> {
    match o {
        Some(v) => Some(views_of(v@)),
        None => None,
    }
}

/// The place at which `order_insert` puts entry `i` into the positions `idx`.
fn insert_position(cs: &Vec<(String, JsonValue)>, idx: &Vec<usize>, i: usize) -> (p: usize)
    requires
        i < cs.len(),
        forall|q: int| 0 <= q < idx.len() ==> #[trigger] idx@[q] < cs.len(),
    ensures
        p <= idx.len(),
        forall|q: int|
            0 <= q < p ==> !(cs@[#[trigger] idx@[q] as int].0@ == cs@[i as int].0@ || key_lt(
                cs@[i as int].0@,
                cs@[idx@[q] as int].0@,
            )),
        p < idx.len() ==> (cs@[idx@[p as int] as int].0@ == cs@[i as int].0@ || key_lt(
            cs@[i as int].0@,
            cs@[idx@[p as int] as int].0@,
        )),
{
    let mut p: usize = 0;
    while p < idx.len()
        invariant
            p <= idx.len(),
            i < cs.len(),
            forall|q: int| 0 <= q < idx.len() ==> #[trigger] idx@[q] < cs.len(),
            forall|q: int|
                0 <= q < p ==> !(cs@[#[trigger] idx@[q] as int].0@ == cs@[i as int].0@ || key_lt(
                    cs@[i as int].0@,
                    cs@[idx@[q] as int].0@,
                )),
        decreases idx.len() - p,
    {
        let c = cs[idx[p]].0.as_str();
        let k = cs[i].0.as_str();
        if str_eq(c, k) || str_lt(k, c) {
            return p;
        }
        p = p + 1;
    }
    p
}

/// The positions of a list as integers.
pub open spec fn positions(v: Seq<usize>) -> Seq<int> {
    v.map_values(|x: usize| x as int)
}

/// Reads the values of a `CONTENTS` object as nodes, as a map reads them.
fn read_children_json(cs: &Vec<(String, JsonValue)>) -> (r: Option<Vec<OSCQueryNode>>)
    ensures
        opt_views_of(r) == read_children(entry_views(cs@)),
    decreases cs, 1nat,
{
    proof {
        lemma_entry_views(cs@);
    }
    let ghost ev = entry_views(cs@);
    let mut idx: Vec<usize> = Vec::new();
    let mut i: usize = 0;
    assert(positions(idx@) =~= key_order_upto(ev, 0));
    while i < cs.len()
        invariant
            i <= cs.len(),
            ev == entry_views(cs@),
            ev.len() == cs.len(),
            forall|j: int| 0 <= j < cs.len() ==> #[trigger] ev[j] == (cs@[j].0@, cs@[j].1@),
            positions(idx@) == key_order_upto(ev, i as nat),
            forall|q: int| 0 <= q < idx.len() ==> #[trigger] idx@[q] < i,
        decreases cs.len() - i,
    {
        let p = insert_position(cs, &idx, i);
        let ghost s0 = positions(idx@);
        let ghost old_idx = idx@;
        proof {
            assert forall|q: int| 0 <= q < p implies !(ev[#[trigger] s0[q]].0 == ev[i as int].0
                || key_lt(ev[i as int].0, ev[s0[q]].0)) by {
                assert(s0[q] == idx@[q] as int);
                assert(ev[s0[q]] == (cs@[idx@[q] as int].0@, cs@[idx@[q] as int].1@));
                assert(ev[i as int] == (cs@[i as int].0@, cs@[i as int].1@));
            }
            if p < idx.len() {
                assert(s0[p as int] == idx@[p as int] as int);
                assert(ev[s0[p as int]] == (cs@[idx@[p as int] as int].0@, cs@[idx@[p as int] as int].1@));
                assert(ev[i as int] == (cs@[i as int].0@, cs@[i as int].1@));
            }
            lemma_order_insert_at(ev, s0, i as int, p as int);
        }
        let same = p < idx.len() && str_eq(cs[idx[p]].0.as_str(), cs[i].0.as_str());
        if same {
            proof {
                assert(ev[s0[p as int]] == (cs@[idx@[p as int] as int].0@, cs@[idx@[p as int] as int].1@));
                assert(ev[i as int] == (cs@[i as int].0@, cs@[i as int].1@));
            }
            idx.set(p, i);
            assert(positions(idx@) =~= s0.update(p as int, i as int));
        } else {
            proof {
                if p < old_idx.len() {
                    assert(s0[p as int] == old_idx[p as int] as int);
                    assert(ev[s0[p as int]] == (cs@[old_idx[p as int] as int].0@, cs@[old_idx[p as int] as int].1@));
                    assert(ev[i as int] == (cs@[i as int].0@, cs@[i as int].1@));
                }
            }
            idx.insert(p, i);
            assert(positions(idx@) =~= s0.insert(p as int, i as int));
        }
        assert forall|q: int| 0 <= q < idx.len() implies #[trigger] idx@[q] < i + 1 by {
            if same {
                if q != p {
                    assert(idx@[q] == old_idx[q]);
                }
            } else {
                if q < p {
                    assert(idx@[q] == old_idx[q]);
                } else if q > p {
                    assert(idx@[q] == old_idx[q - 1]);
                }
            }
        }
        i = i + 1;
    }
    let ghost ks = positions(idx@);
    assert(ks == key_order(ev));
    let mut out: Vec<OSCQueryNode> = Vec::new();
    let mut t: usize = 0;
    assert(ks.take(0) =~= Seq::<int>::empty());
    assert(views_of(out@) =~= Seq::<NodeView>::empty());
    while t < idx.len()
        invariant
            t <= idx.len(),
            ks == positions(idx@),
            ks.len() == idx.len(),
            ev == entry_views(cs@),
            ev.len() == cs.len(),
            forall|j: int| 0 <= j < cs.len() ==> #[trigger] ev[j] == (cs@[j].0@, cs@[j].1@),
            forall|q: int| 0 <= q < idx.len() ==> #[trigger] idx@[q] < cs.len(),
            ks == key_order(ev),
            read_at(ev, ks.take(t as int)) == Some(views_of(out@)),
        decreases idx.len() - t,
    {
        let k = idx[t];
        let ghost u = ks.take(t + 1);
        assert(u.drop_last() == ks.take(t as int));
        assert(u[u.len() - 1] == k as int);
        assert(ev[k as int] == (cs@[k as int].0@, cs@[k as int].1@));
        match OSCQueryNode::from_json(&cs[k].1) {
            Some(n) => {
                proof {
                    lemma_views_of_push(out@, n);
                }
                out.push(n);
            },
            None => {
                proof {
                    lemma_read_at_fails(ev, ks, t + 1);
                }
                return None;
            },
        }
        t = t + 1;
    }
    assert(ks.take(idx.len() as int) == ks);
    Some(out)
}

impl OSCQueryNode {
    /// The node that a JSON object stands for: the reading of an OSCQuery node
    /// object. None when the value is not an object or an entry does not fit its key.
    #[verifier::loop_isolation(false)]
    pub fn from_json(j: &JsonValue) -> (r: Option<OSCQueryNode>)
        ensures
            match r {
                Some(n) => read_node(j@) == Some(n@),
                None => read_node(j@) is None,
            },
        decreases j, 0nat,
    {
        match j {
            JsonValue::Object(es) => {
                proof {
                    lemma_entry_views(es@);
                }
                let ghost ev = entry_views(es@);
                let mut full_path: Option<String> = None;
                let mut osc_type: Option<String> = None;
                let mut access: Option<OSCAccess> = None;
                let mut value: Option<&Vec<JsonValue>> = None;
                let mut description: Option<String> = None;
                let mut contents: Option<Vec<OSCQueryNode>> = None;
                let mut i: usize = 0;
                assert(ev.take(0) =~= Seq::<(Seq<char>, JsonView)>::empty());
                while i < es.len()
                    invariant
                        i <= es.len(),
                        j@ == JsonView::Object(ev),
                        ev == entry_views(es@),
                        ev.len() == es.len(),
                        forall|k: int|
                            0 <= k < es.len() ==> #[trigger] ev[k] == (es@[k].0@, es@[k].1@),
                        read_fields(ev.take(i as int)) == Some(
                            NodeFields {
                                full_path: opt_view(full_path),
                                osc_type: opt_view(osc_type),
                                access: access,
                                value: match value {
                                    Some(v) => Some(json_views(v@)),
                                    None => None,
                                },
                                description: opt_view(description),
                                contents: opt_views_of(contents),
                            },
                        ),
                    decreases es.len() - i,
                {
                    let ghost t = ev.take(i + 1);
                    assert(t.drop_last() == ev.take(i as int));
                    assert(t[t.len() - 1] == ev[i as int]);
                    let key = es[i].0.as_str();
                    let v = &es[i].1;
                    if str_eq(key, "FULL_PATH") {
                        match v {
                            JsonValue::String(s) => {
                                full_path = Some(s.clone());
                            },
                            _ => {
                                proof {
                                    assert(!(v@ is String));
                                    assert(ev[i as int].0 == "FULL_PATH"@);
                                    assert(read_entry(read_fields(ev.take(i as int))->0, ev[i as int]) is None);
                                    assert(read_fields(ev.take(i + 1)) is None);
                                    lemma_read_fields_fails(ev, i + 1);
                                }
                                return None;
                            },
                        }
                    } else if str_eq(key, "TYPE") {
                        match v {
                            JsonValue::String(s) => {
                                osc_type = Some(s.clone());
                            },
                            _ => {
                                proof {
                                    assert(!(v@ is String));
                                    assert(ev[i as int].0 == "TYPE"@);
                                    assert(read_entry(read_fields(ev.take(i as int))->0, ev[i as int]) is None);
                                    assert(read_fields(ev.take(i + 1)) is None);
                                    lemma_read_fields_fails(ev, i + 1);
                                }
                                return None;
                            },
                        }
                    } else if str_eq(key, "ACCESS") {
                        match json_u8_of(v) {
                            Some(c) => {
                                access = OSCAccess::from_u8(c);
                            },
                            None => {
                                proof {
                                    lemma_read_fields_fails(ev, i + 1);
                                }
                                return None;
                            },
                        }
                    } else if str_eq(key, "VALUE") {
                        match v {
                            JsonValue::Array(vs) => {
                                value = Some(vs);
                            },
                            _ => {
                                proof {
                                    lemma_read_fields_fails(ev, i + 1);
                                }
                                return None;
                            },
                        }
                    } else if str_eq(key, "DESCRIPTION") {
                        match v {
                            JsonValue::String(s) => {
                                description = Some(s.clone());
                            },
                            _ => {
                                proof {
                                    lemma_read_fields_fails(ev, i + 1);
                                }
                                return None;
                            },
                        }
                    } else if str_eq(key, "CONTENTS") {
                        match v {
                            JsonValue::Object(cs) => match read_children_json(cs) {
                                Some(ns) => {
                                    contents = Some(ns);
                                },
                                None => {
                                    proof {
                                        lemma_read_fields_fails(ev, i + 1);
                                    }
                                    return None;
                                },
                            },
                            _ => {
                                proof {
                                    lemma_read_fields_fails(ev, i + 1);
                                }
                                return None;
                            },
                        }
                    }
                    i = i + 1;
                }
                assert(ev.take(es.len() as int) == ev);
                let vals = match value {
                    Some(vs) => decode_values(vs, &osc_type),
                    None => None,
                };
                Some(
                    OSCQueryNode {
                        full_path,
                        contents,
                        osc_type,
                        access,
                        value: vals,
                        description,
                    },
                )
            },
            _ => None,
        }
    }
}


/// The JSON object of host information: `NAME`, then `OSC_IP`, `OSC_PORT` and
/// `OSC_TRANSPORT` when present, then `EXTENSIONS`.
pub open spec fn host_json(h: HostInfoView) -> JsonView {
    JsonView::Object(
        seq![("NAME"@, JsonView::String(h.name))] + str_entry("OSC_IP"@, h.osc_ip) + (match h.osc_port {
            Some(p) => seq![("OSC_PORT"@, int_json(p as i64))],
            None => Seq::empty(),
        }) + str_entry("OSC_TRANSPORT"@, h.osc_transport) + seq![
            ("EXTENSIONS"@, JsonView::Object(h.extensions)),
        ],
    )
}

/// The fields of host information read so far.
pub struct HostFields {
    pub name: Option<Seq<char>>,
    pub osc_ip: Option<Seq<char>>,
    pub osc_port: Option<u16>,
    pub osc_transport: Option<Seq<char>>,
    pub extensions: Option<Seq<(Seq<char>, JsonView)>>,
}

/// The host fields after one more entry, or none when the entry does not fit
/// its key: `NAME`, `OSC_IP` and `OSC_TRANSPORT` take a string, `OSC_PORT` a
/// number from 0 to 65535, `EXTENSIONS` an object; other keys are skipped.
pub open spec fn read_host_entry(f: HostFields, e: (Seq<char>, JsonView)) -> Option<HostFields> {
    let k = e.0;
    if k == "NAME"@ {
        match e.1 {
            JsonView::String(s) => Some(HostFields { name: Some(s), ..f }),
            _ => None,
        }
    } else if k == "OSC_IP"@ {
        match e.1 {
            JsonView::String(s) => Some(HostFields { osc_ip: Some(s), ..f }),
            _ => None,
        }
    } else if k == "OSC_PORT"@ {
        match json_u16(e.1) {
            Some(p) => Some(HostFields { osc_port: Some(p), ..f }),
            None => None,
        }
    } else if k == "OSC_TRANSPORT"@ {
        match e.1 {
            JsonView::String(s) => Some(HostFields { osc_transport: Some(s), ..f }),
            _ => None,
        }
    } else if k == "EXTENSIONS"@ {
        match e.1 {
            JsonView::Object(x) => Some(HostFields { extensions: Some(x), ..f }),
            _ => None,
        }
    } else {
        Some(f)
    }
}

/// The host fields read from the entries of an object, in order.
pub open spec fn read_host_fields(es: Seq<(Seq<char>, JsonView)>) -> Option<HostFields>
    decreases es.len(),
{
    if es.len() == 0 {
        Some(
            HostFields {
                name: None,
                osc_ip: None,
                osc_port: None,
                osc_transport: None,
                extensions: None,
            },
        )
    } else {
        match read_host_fields(es.drop_last()) {
            Some(f) => read_host_entry(f, es.last()),
            None => None,
        }
    }
}

/// The host information that a JSON value stands for, or none when it is not
/// an object, an entry does not fit its key, or there is no `NAME`. Without
/// `EXTENSIONS` there are no extensions.
pub open spec fn read_host(j: JsonView) -> Option<HostInfoView> {
    match j {
        JsonView::Object(es) => match read_host_fields(es) {
            Some(f) => match f.name {
                Some(n) => Some(
                    HostInfoView {
                        name: n,
                        osc_ip: f.osc_ip,
                        osc_port: f.osc_port,
                        osc_transport: f.osc_transport,
                        extensions: match f.extensions {
                            Some(x) => x,
                            None => Seq::empty(),
                        },
                    },
                ),
                None => None,
            },
            None => None,
        },
        _ => None,
    }
}

pub proof fn lemma_read_host_fields_fails(es: Seq<(Seq<char>, JsonView)>, i: int)
    requires
        0 <= i <= es.len(),
        read_host_fields(es.take(i)) is None,
    ensures
        read_host_fields(es) is None,
    decreases es.len() - i,
{
    if i < es.len() {
        assert(es.take(i + 1).drop_last() == es.take(i));
        lemma_read_host_fields_fails(es, i + 1);
    } else {
        assert(es.take(i) == es);
    }
}

/// A copy of an object's entries (values copied in depth).
pub fn copy_entries(es: &Vec<(String, JsonValue)>) -> (r: Vec<(String, JsonValue)>)
    ensures
        entry_views(r@) == entry_views(es@),
    decreases es, 1nat,
{
    proof {
        lemma_entry_views(es@);
    }
    let mut out: Vec<(String, JsonValue)> = Vec::new();
    let mut i: usize = 0;
    assert(entry_views(out@) =~= entry_views(es@).take(0));
    while i < es.len()
        invariant
            i <= es.len(),
            entry_views(es@).len() == es.len(),
            forall|j: int|
                0 <= j < es.len() ==> #[trigger] entry_views(es@)[j] == (es@[j].0@, es@[j].1@),
            entry_views(out@) == entry_views(es@).take(i as int),
        decreases es.len() - i,
    {
        let v = copy_json(&es[i].1);
        push_entry(&mut out, es[i].0.as_str(), v);
        i = i + 1;
        assert(entry_views(es@).take(i as int) =~= entry_views(es@).take(i - 1).push(
            entry_views(es@)[i - 1],
        ));
    }
    assert(entry_views(es@).take(es.len() as int) == entry_views(es@));
    out
}

/// A copy of a JSON value, in depth.
#[verifier::loop_isolation(false)]
pub fn copy_json(j: &JsonValue) -> (r: JsonValue)
    ensures
        r@ == j@,
    decreases j, 0nat,
{
    match j {
        JsonValue::Null => JsonValue::Null,
        JsonValue::Bool(b) => JsonValue::Bool(*b),
        JsonValue::Number(n) => JsonValue::Number(*n),
        JsonValue::String(s) => JsonValue::String(s.clone()),
        JsonValue::Array(vs) => {
            proof {
                lemma_json_views(vs@);
            }
            let mut out: Vec<JsonValue> = Vec::new();
            let mut i: usize = 0;
            assert(json_views(out@) =~= json_views(vs@).take(0));
            while i < vs.len()
                invariant
                    i <= vs.len(),
                    json_views(vs@).len() == vs.len(),
                    forall|k: int| 0 <= k < vs.len() ==> #[trigger] json_views(vs@)[k] == vs@[k]@,
                    json_views(out@) == json_views(vs@).take(i as int),
                    *j == JsonValue::Array(*vs),
                decreases vs.len() - i,
            {
                let c = copy_json(&vs[i]);
                proof {
                    lemma_json_views_push(out@, c);
                }
                out.push(c);
                i = i + 1;
                assert(json_views(vs@).take(i as int) =~= json_views(vs@).take(i - 1).push(
                    json_views(vs@)[i - 1],
                ));
            }
            assert(json_views(vs@).take(vs.len() as int) == json_views(vs@));
            JsonValue::Array(out)
        },
        JsonValue::Object(es) => JsonValue::Object(copy_entries(es)),
    }
}

impl OSCHostInfo {
    /// The JSON object of this host information.
    pub fn to_json(&self) -> (r: JsonValue)
        ensures
            r@ == host_json(self@),
    {
        let mut es: Vec<(String, JsonValue)> = Vec::new();
        assert(entry_views(es@) =~= Seq::<(Seq<char>, JsonView)>::empty());
        push_entry(&mut es, "NAME", JsonValue::String(self.name.clone()));
        if let Some(ip) = &self.osc_ip {
            push_entry(&mut es, "OSC_IP", JsonValue::String(ip.clone()));
        }
        if let Some(port) = self.osc_port {
            push_entry(&mut es, "OSC_PORT", JsonValue::Number(JsonNumber::from_i64(port as i64)));
        }
        if let Some(t) = &self.osc_transport {
            push_entry(&mut es, "OSC_TRANSPORT", JsonValue::String(t.clone()));
        }
        let ext = copy_entries(&self.extensions);
        push_entry(&mut es, "EXTENSIONS", JsonValue::Object(ext));
        assert(entry_views(es@) =~= match host_json(self@) {
            JsonView::Object(e) => e,
            _ => Seq::empty(),
        });
        JsonValue::Object(es)
    }

    /// The host information that a JSON object stands for.
    pub fn from_json(j: &JsonValue) -> (r: Option<OSCHostInfo>)
        ensures
            match r {
                Some(h) => read_host(j@) == Some(h@),
                None => read_host(j@) is None,
            },
    {
        match j {
            JsonValue::Object(es) => {
                proof {
                    lemma_entry_views(es@);
                }
                let ghost ev = entry_views(es@);
                let mut name: Option<String> = None;
                let mut osc_ip: Option<String> = None;
                let mut osc_port: Option<u16> = None;
                let mut osc_transport: Option<String> = None;
                let mut extensions: Option<&Vec<(String, JsonValue)>> = None;
                let mut i: usize = 0;
                assert(ev.take(0) =~= Seq::<(Seq<char>, JsonView)>::empty());
                while i < es.len()
                    invariant
                        i <= es.len(),
                        j@ == JsonView::Object(ev),
                        ev == entry_views(es@),
                        ev.len() == es.len(),
                        forall|k: int|
                            0 <= k < es.len() ==> #[trigger] ev[k] == (es@[k].0@, es@[k].1@),
                        read_host_fields(ev.take(i as int)) == Some(
                            HostFields {
                                name: opt_view(name),
                                osc_ip: opt_view(osc_ip),
                                osc_port: osc_port,
                                osc_transport: opt_view(osc_transport),
                                extensions: match extensions {
                                    Some(x) => Some(entry_views(x@)),
                                    None => None,
                                },
                            },
                        ),
                    decreases es.len() - i,
                {
                    let ghost t = ev.take(i + 1);
                    assert(t.drop_last() == ev.take(i as int));
                    assert(t.last() == ev[i as int]);
                    let key = es[i].0.as_str();
                    let v = &es[i].1;
                    let ghost before = read_host_fields(ev.take(i as int))->0;
                    let ok: bool = if str_eq(key, "NAME") {
                        match v {
                            JsonValue::String(s) => {
                                name = Some(s.clone());
                                true
                            },
                            _ => false,
                        }
                    } else if str_eq(key, "OSC_IP") {
                        match v {
                            JsonValue::String(s) => {
                                osc_ip = Some(s.clone());
                                true
                            },
                            _ => false,
                        }
                    } else if str_eq(key, "OSC_PORT") {
                        match json_u16_of(v) {
                            Some(p) => {
                                osc_port = Some(p);
                                true
                            },
                            None => false,
                        }
                    } else if str_eq(key, "OSC_TRANSPORT") {
                        match v {
                            JsonValue::String(s) => {
                                osc_transport = Some(s.clone());
                                true
                            },
                            _ => false,
                        }
                    } else if str_eq(key, "EXTENSIONS") {
                        match v {
                            JsonValue::Object(x) => {
                                extensions = Some(x);
                                true
                            },
                            _ => false,
                        }
                    } else {
                        true
                    };
                    if !ok {
                        proof {
                            assert(read_host_entry(before, ev[i as int]) is None);
                            assert(read_host_fields(t) is None);
                            lemma_read_host_fields_fails(ev, i + 1);
                        }
                        return None;
                    }
                    i = i + 1;
                }
                assert(ev.take(es.len() as int) == ev);
                match name {
                    Some(n) => {
                        let ext = match extensions {
                            Some(x) => copy_entries(x),
                            None => Vec::new(),
                        };
                        assert(entry_views(Seq::<(String, JsonValue)>::empty())
                            =~= Seq::<(Seq<char>, JsonView)>::empty());
                        Some(
                            OSCHostInfo {
                                name: n,
                                osc_ip,
                                osc_port,
                                osc_transport,
                                extensions: ext,
                            },
                        )
                    },
                    None => None,
                }
            },
            _ => None,
        }
    }
}


proof fn lemma_read_host_fields_push(es: Seq<(Seq<char>, JsonView)>, e: (Seq<char>, JsonView))
    ensures
        read_host_fields(es.push(e)) == (match read_host_fields(es) {
            Some(f) => read_host_entry(f, e),
            None => None,
        }),
{
    assert(es.push(e).drop_last() == es);
}

/// Reading back the JSON object of host information gives the same host information.
pub proof fn law_host_info_round_trip(h: HostInfoView)
    ensures
        read_host(host_json(h)) == Some(h),
{
    reveal_strlit("NAME");
    reveal_strlit("OSC_IP");
    reveal_strlit("OSC_PORT");
    reveal_strlit("OSC_TRANSPORT");
    reveal_strlit("EXTENSIONS");
    assert("NAME"@.len() == 4);
    assert("OSC_IP"@.len() == 6);
    assert("OSC_PORT"@.len() == 8);
    assert("OSC_TRANSPORT"@.len() == 13);
    assert("EXTENSIONS"@.len() == 10);
    let e0: Seq<(Seq<char>, JsonView)> = Seq::empty();
    let n = ("NAME"@, JsonView::String(h.name));
    let e1 = e0.push(n);
    lemma_read_host_fields_push(e0, n);
    assert(read_host_fields(e0) == Some(
        HostFields { name: None, osc_ip: None, osc_port: None, osc_transport: None, extensions: None },
    ));
    assert(read_host_fields(e1) == Some(
        HostFields { name: Some(h.name), osc_ip: None, osc_port: None, osc_transport: None, extensions: None },
    ));
    let e2 = match h.osc_ip {
        Some(s) => e1.push(("OSC_IP"@, JsonView::String(s))),
        None => e1,
    };
    if let Some(s) = h.osc_ip {
        lemma_read_host_fields_push(e1, ("OSC_IP"@, JsonView::String(s)));
        assert("OSC_IP"@ != "NAME"@);
    }
    assert(read_host_fields(e2) == Some(
        HostFields { name: Some(h.name), osc_ip: h.osc_ip, osc_port: None, osc_transport: None, extensions: None },
    ));
    let e3 = match h.osc_port {
        Some(p) => e2.push(("OSC_PORT"@, int_json(p as i64))),
        None => e2,
    };
    if let Some(p) = h.osc_port {
        lemma_read_host_fields_push(e2, ("OSC_PORT"@, int_json(p as i64)));
        assert("OSC_PORT"@ != "NAME"@);
        assert("OSC_PORT"@ != "OSC_IP"@);
    }
    assert(read_host_fields(e3) == Some(
        HostFields { name: Some(h.name), osc_ip: h.osc_ip, osc_port: h.osc_port, osc_transport: None, extensions: None },
    ));
    let e4 = match h.osc_transport {
        Some(s) => e3.push(("OSC_TRANSPORT"@, JsonView::String(s))),
        None => e3,
    };
    if let Some(s) = h.osc_transport {
        lemma_read_host_fields_push(e3, ("OSC_TRANSPORT"@, JsonView::String(s)));
        assert("OSC_TRANSPORT"@ != "NAME"@);
        assert("OSC_TRANSPORT"@ != "OSC_IP"@);
        assert("OSC_TRANSPORT"@ != "OSC_PORT"@);
    }
    assert(read_host_fields(e4) == Some(
        HostFields { name: Some(h.name), osc_ip: h.osc_ip, osc_port: h.osc_port, osc_transport: h.osc_transport, extensions: None },
    ));
    let x = ("EXTENSIONS"@, JsonView::Object(h.extensions));
    let e5 = e4.push(x);
    lemma_read_host_fields_push(e4, x);
    assert("EXTENSIONS"@ != "NAME"@);
    assert("EXTENSIONS"@ != "OSC_IP"@);
    assert("EXTENSIONS"@ != "OSC_PORT"@);
    assert("EXTENSIONS"@ != "OSC_TRANSPORT"@);
    assert(host_json(h) == JsonView::Object(e5)) by {
        assert(seq![n] + str_entry("OSC_IP"@, h.osc_ip) + (match h.osc_port {
            Some(p) => seq![("OSC_PORT"@, int_json(p as i64))],
            None => Seq::empty(),
        }) + str_entry("OSC_TRANSPORT"@, h.osc_transport) + seq![x] =~= e5);
    }
}


/// Whether a value reads back from its JSON form: floats must be finite.
pub open spec fn value_round_trips(v: OscValueView) -> bool {
    match v {
        OscValueView::Float(b) => finite32(b),
        OscValueView::Double(b) => finite64(b),
        _ => true,
    }
}

/// Whether a node reads back from its JSON form: a value is non-empty, of
/// finite numbers, with the type tags of its elements as its type (as
/// `with_value` sets them); every child has a path and reads back too, and the
/// children's last path segments are distinct and in the order of `key_lt`
/// (the order in which a `CONTENTS` map gives them back).
pub open spec fn node_round_trips(n: NodeView) -> bool
    decreases n, 0nat,
{
    &&& match n.value {
        None => true,
        Some(vs) => vs.len() > 0 && n.osc_type == Some(tags_of(vs)) && forall|i: int|
            0 <= i < vs.len() ==> value_round_trips(#[trigger] vs[i]),
    }
    &&& match n.contents {
        None => true,
        Some(s) => children_round_trip(s) && segments_increase(s),
    }
}

/// Whether the children's last path segments strictly increase, the order in
/// which the keys of a `CONTENTS` map come back (so no two share a segment).
pub open spec fn segments_increase(s: Seq<NodeView>) -> bool {
    forall|i: int, j: int|
        0 <= i < j < s.len() ==> key_lt(
            last_segment(#[trigger] s[i].full_path->0),
            last_segment(#[trigger] s[j].full_path->0),
        )
}

/// Whether every node of a list has a path and reads back from its JSON form.
pub open spec fn children_round_trip(s: Seq<NodeView>) -> bool
    decreases s, 0nat,
{
    s.len() == 0 || (children_round_trip(s.drop_last()) && s[s.len() - 1].full_path is Some
        && node_round_trips(s[s.len() - 1]))
}

proof fn lemma_read_fields_push(es: Seq<(Seq<char>, JsonView)>, e: (Seq<char>, JsonView))
    ensures
        read_fields(es.push(e)) == (match read_fields(es) {
            Some(f) => read_entry(f, e),
            None => None,
        }),
{
    assert(es.push(e).drop_last() == es);
    assert(es.push(e)[es.len() as int] == e);
}

proof fn lemma_typed_values_round_trip(vs: Seq<OscValueView>, k: int)
    requires
        0 <= k <= vs.len(),
        forall|i: int| 0 <= i < vs.len() ==> value_round_trips(#[trigger] vs[i]),
    ensures
        typed_values(vs.map_values(|v: OscValueView| value_json(v)).take(k), tags_of(vs)) == vs.take(k),
    decreases k,
{
    let js = vs.map_values(|v: OscValueView| value_json(v));
    if k == 0 {
        assert(js.take(0) =~= Seq::<JsonView>::empty());
        assert(vs.take(0) =~= Seq::<OscValueView>::empty());
    } else {
        lemma_typed_values_round_trip(vs, k - 1);
        assert(js.take(k).drop_last() == js.take(k - 1));
        assert(js.take(k).last() == value_json(vs[k - 1]));
        assert(tags_of(vs)[k - 1] == tag_of(vs[k - 1]));
        assert(value_round_trips(vs[k - 1]));
        let v = vs[k - 1];
        assert(parse_with_tag(tag_of(v), value_json(v)) == Some(v));
        assert(vs.take(k) =~= vs.take(k - 1).push(v));
    }
}

proof fn lemma_values_round_trip(vs: Seq<OscValueView>)
    requires
        vs.len() > 0,
        forall|i: int| 0 <= i < vs.len() ==> value_round_trips(#[trigger] vs[i]),
    ensures
        decoded_values(Some(vs.map_values(|v: OscValueView| value_json(v))), Some(tags_of(vs))) == Some(vs),
{
    let js = vs.map_values(|v: OscValueView| value_json(v));
    let t = tags_of(vs);
    assert forall|i: int| 0 <= i < js.len() implies !is_empty_object(#[trigger] js[i]) by {
        assert(js[i] == value_json(vs[i]));
    }
    assert(!has_empty_object(js));
    assert(without_white_space(t) == t) by {
        assert forall|i: int| 0 <= i < t.len() implies !is_white_space(#[trigger] t[i]) by {
            assert(t[i] == tag_of(vs[i]));
        }
        lemma_no_white_space(t);
    }
    lemma_typed_values_round_trip(vs, vs.len() as int);
    assert(js.take(js.len() as int) == js);
    assert(vs.take(vs.len() as int) == vs);
}

proof fn lemma_no_white_space(t: Seq<char>)
    requires
        forall|i: int| 0 <= i < t.len() ==> !is_white_space(#[trigger] t[i]),
    ensures
        without_white_space(t) == t,
    decreases t.len(),
{
    if t.len() > 0 {
        let u = t.drop_last();
        assert forall|i: int| 0 <= i < u.len() implies !is_white_space(#[trigger] u[i]) by {
            assert(u[i] == t[i]);
        }
        lemma_no_white_space(u);
        assert(u.push(t.last()) == t);
        u.lemma_filter_push(t.last(), |c: char| !is_white_space(c));
    } else {
        reveal(Seq::filter);
    }
}

proof fn lemma_entry_full_path(f: NodeFields, p: Seq<char>)
    ensures
        read_entry(f, ("FULL_PATH"@, JsonView::String(p))) == Some(NodeFields { full_path: Some(p), ..f }),
{
}

proof fn lemma_entry_type(f: NodeFields, t: Seq<char>)
    ensures
        read_entry(f, ("TYPE"@, JsonView::String(t))) == Some(NodeFields { osc_type: Some(t), ..f }),
{
    reveal_strlit("FULL_PATH");
    reveal_strlit("TYPE");
    assert("FULL_PATH"@.len() != "TYPE"@.len());
}

proof fn lemma_entry_access(f: NodeFields, a: OSCAccess)
    ensures
        read_entry(f, ("ACCESS"@, int_json(access_code(a) as i64))) == Some(NodeFields { access: Some(a), ..f }),
{
    reveal_strlit("FULL_PATH");
    reveal_strlit("TYPE");
    reveal_strlit("ACCESS");
    assert("FULL_PATH"@.len() != "ACCESS"@.len());
    assert("TYPE"@.len() != "ACCESS"@.len());
    assert(access_of_code(access_code(a)) == Some(a));
}

proof fn lemma_entry_value(f: NodeFields, js: Seq<JsonView>)
    ensures
        read_entry(f, ("VALUE"@, JsonView::Array(js))) == Some(NodeFields { value: Some(js), ..f }),
{
    reveal_strlit("FULL_PATH");
    reveal_strlit("TYPE");
    reveal_strlit("ACCESS");
    reveal_strlit("VALUE");
    assert("FULL_PATH"@.len() != "VALUE"@.len());
    assert("TYPE"@.len() != "VALUE"@.len());
    assert("ACCESS"@.len() != "VALUE"@.len());
}

proof fn lemma_entry_description(f: NodeFields, d: Seq<char>)
    ensures
        read_entry(f, ("DESCRIPTION"@, JsonView::String(d))) == Some(NodeFields { description: Some(d), ..f }),
{
    reveal_strlit("FULL_PATH");
    reveal_strlit("TYPE");
    reveal_strlit("ACCESS");
    reveal_strlit("VALUE");
    reveal_strlit("DESCRIPTION");
    assert("FULL_PATH"@.len() != "DESCRIPTION"@.len());
    assert("TYPE"@.len() != "DESCRIPTION"@.len());
    assert("ACCESS"@.len() != "DESCRIPTION"@.len());
    assert("VALUE"@.len() != "DESCRIPTION"@.len());
}

proof fn lemma_entry_contents(f: NodeFields, cs: Seq<(Seq<char>, JsonView)>, ns: Seq<NodeView>)
    requires
        read_children(cs) == Some(ns),
    ensures
        read_entry(f, ("CONTENTS"@, JsonView::Object(cs))) == Some(NodeFields { contents: Some(ns), ..f }),
{
    reveal_strlit("FULL_PATH");
    reveal_strlit("TYPE");
    reveal_strlit("ACCESS");
    reveal_strlit("VALUE");
    reveal_strlit("DESCRIPTION");
    reveal_strlit("CONTENTS");
    assert("FULL_PATH"@.len() != "CONTENTS"@.len());
    assert("TYPE"@.len() != "CONTENTS"@.len());
    assert("ACCESS"@.len() != "CONTENTS"@.len());
    assert("VALUE"@.len() != "CONTENTS"@.len());
    assert("DESCRIPTION"@.len() != "CONTENTS"@.len());
}

/// The entries of one optional entry.
pub open spec fn opt_seq(e: Option<(Seq<char>, JsonView)>) -> Seq<(Seq<char>, JsonView)> {
    match e {
        Some(x) => seq![x],
        None => Seq::empty(),
    }
}

proof fn lemma_opt_step(
    es: Seq<(Seq<char>, JsonView)>,
    f: NodeFields,
    e: Option<(Seq<char>, JsonView)>,
    g: NodeFields,
)
    requires
        read_fields(es) == Some(f),
        e matches Some(x) ==> read_entry(f, x) == Some(g),
        e is None ==> g == f,
    ensures
        read_fields(es + opt_seq(e)) == Some(g),
{
    match e {
        Some(x) => {
            assert(es + opt_seq(e) == es.push(x));
            lemma_read_fields_push(es, x);
        },
        None => {
            assert(es + opt_seq(e) == es);
        },
    }
}

/// The entries of a node's JSON object, one optional entry per field.
pub open spec fn node_entry_parts(n: NodeView) -> Seq<Option<(Seq<char>, JsonView)>> {
    seq![
        match n.full_path {
            Some(p) => Some(("FULL_PATH"@, JsonView::String(p))),
            None => None,
        },
        match n.osc_type {
            Some(t) => Some(("TYPE"@, JsonView::String(t))),
            None => None,
        },
        match n.access {
            Some(a) => Some(("ACCESS"@, int_json(access_code(a) as i64))),
            None => None,
        },
        match n.value {
            Some(vs) => Some(("VALUE"@, JsonView::Array(vs.map_values(|v: OscValueView| value_json(v))))),
            None => None,
        },
        match n.description {
            Some(d) => Some(("DESCRIPTION"@, JsonView::String(d))),
            None => None,
        },
        match n.contents {
            Some(s) => Some(("CONTENTS"@, JsonView::Object(contents_json(s)))),
            None => None,
        },
    ]
}

proof fn lemma_node_json_parts(n: NodeView)
    ensures
        node_json(n) == JsonView::Object(
            opt_seq(node_entry_parts(n)[0]) + opt_seq(node_entry_parts(n)[1]) + opt_seq(
                node_entry_parts(n)[2],
            ) + opt_seq(node_entry_parts(n)[3]) + opt_seq(node_entry_parts(n)[4]) + opt_seq(
                node_entry_parts(n)[5],
            ),
        ),
{
    let p = node_entry_parts(n);
    assert(str_entry("FULL_PATH"@, n.full_path) == opt_seq(p[0]));
    assert(str_entry("TYPE"@, n.osc_type) == opt_seq(p[1]));
    assert(str_entry("DESCRIPTION"@, n.description) == opt_seq(p[4]));
}

/// Reading back the JSON object of a node gives the node, for a node whose
/// values are typed, non-empty and finite, and whose children, at every level,
/// all have paths and come in strictly increasing order of their last path
/// segments (`node_round_trips`). Other trees come back with their children
/// in key order, one per last segment.
pub proof fn law_node_round_trip(n: NodeView)
    requires
        node_round_trips(n),
    ensures
        read_node(node_json(n)) == Some(n),
    decreases n, 1nat,
{
    let p = node_entry_parts(n);
    lemma_node_json_parts(n);
    let e0: Seq<(Seq<char>, JsonView)> = Seq::empty();
    let f0 = no_fields();
    let f1 = NodeFields { full_path: n.full_path, ..f0 };
    let f2 = NodeFields { osc_type: n.osc_type, ..f1 };
    let f3 = NodeFields { access: n.access, ..f2 };
    let f4 = NodeFields {
        value: match n.value {
            Some(vs) => Some(vs.map_values(|v: OscValueView| value_json(v))),
            None => None,
        },
        ..f3
    };
    let f5 = NodeFields { description: n.description, ..f4 };
    let f6 = NodeFields { contents: n.contents, ..f5 };
    if let Some(x) = n.full_path {
        lemma_entry_full_path(f0, x);
    }
    lemma_opt_step(e0, f0, p[0], f1);
    let e1 = e0 + opt_seq(p[0]);
    if let Some(t) = n.osc_type {
        lemma_entry_type(f1, t);
    }
    lemma_opt_step(e1, f1, p[1], f2);
    let e2 = e1 + opt_seq(p[1]);
    if let Some(a) = n.access {
        lemma_entry_access(f2, a);
    }
    lemma_opt_step(e2, f2, p[2], f3);
    let e3 = e2 + opt_seq(p[2]);
    if let Some(vs) = n.value {
        lemma_entry_value(f3, vs.map_values(|v: OscValueView| value_json(v)));
    }
    lemma_opt_step(e3, f3, p[3], f4);
    let e4 = e3 + opt_seq(p[3]);
    if let Some(d) = n.description {
        lemma_entry_description(f4, d);
    }
    lemma_opt_step(e4, f4, p[4], f5);
    let e5 = e4 + opt_seq(p[4]);
    if let Some(s) = n.contents {
        law_children_round_trip(s);
        lemma_entry_contents(f5, contents_json(s), s);
    }
    lemma_opt_step(e5, f5, p[5], f6);
    assert(e0 + opt_seq(p[0]) == opt_seq(p[0]));
    if let Some(vs) = n.value {
        lemma_values_round_trip(vs);
    }
}

/// Every child of a list that round-trips has a path and round-trips.
proof fn lemma_children_all(s: Seq<NodeView>)
    requires
        children_round_trip(s),
    ensures
        forall|i: int|
            0 <= i < s.len() ==> (#[trigger] s[i]).full_path is Some && node_round_trips(s[i]),
    decreases s.len(),
{
    if s.len() > 0 {
        lemma_children_all(s.drop_last());
        assert forall|i: int| 0 <= i < s.len() implies (#[trigger] s[i]).full_path is Some
            && node_round_trips(s[i]) by {
            if i < s.len() - 1 {
                assert(s[i] == s.drop_last()[i]);
            }
        }
    }
}

/// The `CONTENTS` entries of children that all have paths: one per child, in order.
proof fn lemma_contents_json_at(s: Seq<NodeView>)
    requires
        forall|i: int| 0 <= i < s.len() ==> (#[trigger] s[i]).full_path is Some,
    ensures
        contents_json(s).len() == s.len(),
        forall|i: int|
            0 <= i < s.len() ==> #[trigger] contents_json(s)[i] == (
                last_segment(s[i].full_path->0),
                node_json(s[i]),
            ),
    decreases s.len(),
{
    if s.len() > 0 {
        let t = s.drop_first();
        assert forall|i: int| 0 <= i < t.len() implies (#[trigger] t[i]).full_path is Some by {
            assert(t[i] == s[i + 1]);
        }
        lemma_contents_json_at(t);
        let c = contents_json(s);
        assert(c == seq![(last_segment(s[0].full_path->0), node_json(s[0]))] + contents_json(t));
        assert forall|i: int| 0 <= i < s.len() implies #[trigger] contents_json(s)[i] == (
            last_segment(s[i].full_path->0),
            node_json(s[i]),
        ) by {
            if i > 0 {
                assert(t[i - 1] == s[i]);
            }
        }
    }
}

/// Entries whose keys strictly increase are read in their own order.
proof fn lemma_key_order_sorted(cs: Seq<(Seq<char>, JsonView)>, n: nat)
    requires
        n <= cs.len(),
        forall|i: int, j: int| 0 <= i < j < cs.len() ==> key_lt(#[trigger] cs[i].0, #[trigger] cs[j].0),
    ensures
        key_order_upto(cs, n) == Seq::new(n, |i: int| i),
    decreases n,
{
    if n > 0 {
        let m = (n - 1) as nat;
        lemma_key_order_sorted(cs, m);
        let s = Seq::new(m, |i: int| i);
        let k = m as int;
        assert forall|q: int| 0 <= q < k implies !(cs[#[trigger] s[q]].0 == cs[k].0 || key_lt(
            cs[k].0,
            cs[s[q]].0,
        )) by {
            assert(s[q] == q);
            assert(key_lt(cs[q].0, cs[k].0));
            lemma_key_lt_strict(cs[q].0, cs[k].0);
        }
        lemma_order_insert_at(cs, s, k, k);
        assert(s.insert(k, k) =~= Seq::new(n, |i: int| i));
    }
}

/// Reading the first `m` `CONTENTS` entries of children that round-trip gives
/// the first `m` children.
proof fn lemma_read_range(s: Seq<NodeView>, m: nat)
    requires
        children_round_trip(s),
        m <= s.len(),
    ensures
        read_at(contents_json(s), Seq::new(m, |i: int| i)) == Some(s.take(m as int)),
    decreases s, m,
{
    lemma_children_all(s);
    lemma_contents_json_at(s);
    let cs = contents_json(s);
    let ks = Seq::new(m, |i: int| i);
    if m == 0 {
        assert(s.take(0) =~= Seq::<NodeView>::empty());
    } else {
        let k = m - 1;
        lemma_read_range(s, (m - 1) as nat);
        assert(ks.drop_last() =~= Seq::new((m - 1) as nat, |i: int| i));
        assert(ks[ks.len() - 1] == k);
        law_node_round_trip(s[k]);
        assert(cs[k].1 == node_json(s[k]));
        assert(s.take(k).push(s[k]) =~= s.take(m as int));
    }
}

/// Reading back the `CONTENTS` entries of children that all round-trip, and
/// whose last path segments increase, gives the children.
pub proof fn law_children_round_trip(s: Seq<NodeView>)
    requires
        children_round_trip(s),
        segments_increase(s),
    ensures
        read_children(contents_json(s)) == Some(s),
    decreases s, s.len() + 1,
{
    lemma_children_all(s);
    lemma_contents_json_at(s);
    let cs = contents_json(s);
    assert forall|i: int, j: int| 0 <= i < j < cs.len() implies key_lt(
        #[trigger] cs[i].0,
        #[trigger] cs[j].0,
    ) by {
        assert(cs[i].0 == last_segment(s[i].full_path->0));
        assert(cs[j].0 == last_segment(s[j].full_path->0));
        assert(key_lt(last_segment(s[i].full_path->0), last_segment(s[j].full_path->0)));
    }
    lemma_key_order_sorted(cs, cs.len());
    lemma_read_range(s, s.len());
    assert(s.take(s.len() as int) == s);
}

/// Whether `k` is a key that a field of a node object is read from.
pub open spec fn is_node_key(k: Seq<char>) -> bool {
    k == "FULL_PATH"@ || k == "TYPE"@ || k == "ACCESS"@ || k == "VALUE"@ || k == "DESCRIPTION"@
        || k == "CONTENTS"@
}

/// Whether `k` is a key that a field of host information is read from.
pub open spec fn is_host_key(k: Seq<char>) -> bool {
    k == "NAME"@ || k == "OSC_IP"@ || k == "OSC_PORT"@ || k == "OSC_TRANSPORT"@ || k
        == "EXTENSIONS"@
}

proof fn lemma_read_fields_skip(
    a: Seq<(Seq<char>, JsonView)>,
    k: Seq<char>,
    v: JsonView,
    b: Seq<(Seq<char>, JsonView)>,
)
    requires
        !is_node_key(k),
    ensures
        read_fields(a + seq![(k, v)] + b) == read_fields(a + b),
    decreases b.len(),
{
    if b.len() == 0 {
        assert(a + seq![(k, v)] + b =~= a.push((k, v)));
        assert(a + b =~= a);
        lemma_read_fields_push(a, (k, v));
    } else {
        let b2 = b.drop_last();
        let l = b[b.len() - 1];
        lemma_read_fields_skip(a, k, v, b2);
        assert(a + seq![(k, v)] + b =~= (a + seq![(k, v)] + b2).push(l));
        assert(a + b =~= (a + b2).push(l));
        lemma_read_fields_push(a + seq![(k, v)] + b2, l);
        lemma_read_fields_push(a + b2, l);
    }
}

/// Reading a node object ignores every entry whose key is not one of its
/// fields' keys (`FULL_PATH`, `TYPE`, `ACCESS`, `VALUE`, `DESCRIPTION`,
/// `CONTENTS`): putting such an entry, with any value, anywhere among the
/// entries changes neither whether the object reads as a node nor which node.
pub proof fn law_node_ignores_other_keys(
    a: Seq<(Seq<char>, JsonView)>,
    k: Seq<char>,
    v: JsonView,
    b: Seq<(Seq<char>, JsonView)>,
)
    requires
        !is_node_key(k),
    ensures
        read_node(JsonView::Object(a + seq![(k, v)] + b)) == read_node(JsonView::Object(a + b)),
{
    lemma_read_fields_skip(a, k, v, b);
}

proof fn lemma_read_host_fields_skip(
    a: Seq<(Seq<char>, JsonView)>,
    k: Seq<char>,
    v: JsonView,
    b: Seq<(Seq<char>, JsonView)>,
)
    requires
        !is_host_key(k),
    ensures
        read_host_fields(a + seq![(k, v)] + b) == read_host_fields(a + b),
    decreases b.len(),
{
    if b.len() == 0 {
        assert(a + seq![(k, v)] + b =~= a.push((k, v)));
        assert(a + b =~= a);
        lemma_read_host_fields_push(a, (k, v));
    } else {
        let b2 = b.drop_last();
        let l = b[b.len() - 1];
        lemma_read_host_fields_skip(a, k, v, b2);
        assert(a + seq![(k, v)] + b =~= (a + seq![(k, v)] + b2).push(l));
        assert(a + b =~= (a + b2).push(l));
        lemma_read_host_fields_push(a + seq![(k, v)] + b2, l);
        lemma_read_host_fields_push(a + b2, l);
    }
}

/// Reading host information ignores every entry whose key is not one of its
/// fields' keys (`NAME`, `OSC_IP`, `OSC_PORT`, `OSC_TRANSPORT`,
/// `EXTENSIONS`): putting such an entry, with any value, anywhere among the
/// entries does not change what the object reads as.
pub proof fn law_host_ignores_other_keys(
    a: Seq<(Seq<char>, JsonView)>,
    k: Seq<char>,
    v: JsonView,
    b: Seq<(Seq<char>, JsonView)>,
)
    requires
        !is_host_key(k),
    ensures
        read_host(JsonView::Object(a + seq![(k, v)] + b)) == read_host(JsonView::Object(a + b)),
{
    lemma_read_host_fields_skip(a, k, v, b);
}

} // verus!
