//! OSC access levels, typed OSC values, and the OSCQuery address tree.
use vstd::prelude::*;
pub use crate::codec::parse_value_with_tag;
use crate::json::{entry_views, lemma_entry_views, lookup, JsonValue, JsonView};
use crate::text::{
    char_is_whitespace, chars_of, is_white_space, last_index_of, lemma_last_index_of, opt_str_eq,
    opt_view, push_char, rfind_char, without_white_space,
};

verus! {

/// OSC access level for a node's value.
#[derive(Debug, Clone, Copy, PartialEq, Eq, Structural)]
pub enum OSCAccess {
    NoValue,
    ReadOnly,
    WriteOnly,
    ReadWrite,
}

/// The number that stands for an access level on the wire.
pub open spec fn access_code(a: OSCAccess) -> u8 {
    match a {
        OSCAccess::NoValue => 0,
        OSCAccess::ReadOnly => 1,
        OSCAccess::WriteOnly => 2,
        OSCAccess::ReadWrite => 3,
    }
}

impl OSCAccess {
    /// The access level with wire number `v`, if there is one.
    pub fn from_u8(v: u8) -> (r: Option<Self>)
        ensures
            match r {
                Some(a) => access_code(a) == v,
                None => v > 3,
            },
    {
        match v {
            0 => Some(Self::NoValue),
            1 => Some(Self::ReadOnly),
            2 => Some(Self::WriteOnly),
            3 => Some(Self::ReadWrite),
            _ => None,
        }
    }

    /// The wire number of this access level.
    pub fn to_u8(&self) -> (r: u8)
        ensures
            r == access_code(*self),
    {
        match self {
            Self::NoValue => 0,
            Self::ReadOnly => 1,
            Self::WriteOnly => 2,
            Self::ReadWrite => 3,
        }
    }
}

/// Decoding the wire number of an access level gives the level back.
pub proof fn law_access_code_round_trip(a: OSCAccess)
    ensures
        access_code(a) <= 3,
        forall|b: OSCAccess| access_code(b) == access_code(a) ==> b == a,
{
}

/// A typed OSC value. Single and double precision numbers are held by
/// their IEEE-754 bit patterns.
#[derive(Debug, Clone, PartialEq)]
pub enum OscValue {
    Int(i32),
    Float(u32),
    Long(i64),
    Double(u64),
    Bool(bool),
    String(String),
}

/// The mathematical content of an `OscValue`.
pub enum OscValueView {
    Int(i32),
    Float(u32),
    Long(i64),
    Double(u64),
    Bool(bool),
    String(Seq<char>),
}

impl View for OscValue {
    type V = OscValueView;

    open spec fn view(&self) -> OscValueView {
        match self {
            OscValue::Int(i) => OscValueView::Int(*i),
            OscValue::Float(f) => OscValueView::Float(*f),
            OscValue::Long(l) => OscValueView::Long(*l),
            OscValue::Double(d) => OscValueView::Double(*d),
            OscValue::Bool(b) => OscValueView::Bool(*b),
            OscValue::String(s) => OscValueView::String(s@),
        }
    }
}

/// The OSC type tag character of a value.
pub open spec fn tag_of(v: OscValueView) -> char {
    match v {
        OscValueView::Int(_) => 'i',
        OscValueView::Float(_) => 'f',
        OscValueView::Long(_) => 'h',
        OscValueView::Double(_) => 'd',
        OscValueView::Bool(_) => 'T',
        OscValueView::String(_) => 's',
    }
}

/// The views of a sequence of values.
pub open spec fn values_view(vs: Seq<OscValue>) -> Seq<OscValueView> {
    vs.map_values(|v: OscValue| v@)
}

/// The type tags of a sequence of values.
pub open spec fn tags_of(vs: Seq<OscValueView>) -> Seq<char> {
    vs.map_values(|v: OscValueView| tag_of(v))
}

impl OscValue {
    /// Returns the OSC type tag character for this value.
    pub fn type_tag(&self) -> (r: char)
        ensures
            r == tag_of(self@),
    {
        match self {
            OscValue::Int(_) => 'i',
            OscValue::Float(_) => 'f',
            OscValue::Long(_) => 'h',
            OscValue::Double(_) => 'd',
            OscValue::Bool(_) => 'T',
            OscValue::String(_) => 's',
        }
    }
}

/// Convert a slice of OscValues to their OSC type tag string.
pub fn osc_type_to_tags(values: &[OscValue]) -> (r: String)
    ensures
        r@ == tags_of(values_view(values@)),
{
    let mut s = String::new();
    let mut i: usize = 0;
    while i < values.len()
        invariant
            i <= values.len(),
            s@ == tags_of(values_view(values@.take(i as int))),
        decreases values.len() - i,
    {
        let c = values[i].type_tag();
        push_char(&mut s, c);
        i = i + 1;
        assert(tags_of(values_view(values@.take(i as int))) =~= tags_of(
            values_view(values@.take(i - 1)),
        ).push(c));
    }
    assert(values@.take(values.len() as int) =~= values@);
    s
}

/// Convert an OSC type tag string into a list of type tag chars,
/// skipping whitespace for compatibility with space-separated formats.
pub fn tags_to_type_chars(tags: &str) -> (r: Vec<char>)
    ensures
        r@ == without_white_space(tags@),
{
    let cs = chars_of(tags);
    let mut out: Vec<char> = Vec::new();
    let mut i: usize = 0;
    while i < cs.len()
        invariant
            i <= cs.len(),
            cs@ == tags@,
            out@ == without_white_space(cs@.take(i as int)),
        decreases cs.len() - i,
    {
        let c = cs[i];
        let ws = char_is_whitespace(c);
        proof {
            assert(cs@.take(i + 1) == cs@.take(i as int).push(c));
            cs@.take(i as int).lemma_filter_push(c, |c: char| !is_white_space(c));
        }
        if !ws {
            out.push(c);
        }
        i = i + 1;
    }
    assert(cs@.take(cs.len() as int) == cs@);
    out
}

/// The zero value that a type tag stands for, if the tag is known.
pub open spec fn default_for_tag(c: char) -> Option<OscValueView> {
    if c == 'i' {
        Some(OscValueView::Int(0))
    } else if c == 'f' || c == 't' {
        Some(OscValueView::Float(0))
    } else if c == 'h' {
        Some(OscValueView::Long(0))
    } else if c == 'd' {
        Some(OscValueView::Double(0))
    } else if c == 'T' || c == 'F' {
        Some(OscValueView::Bool(false))
    } else if c == 's' {
        Some(OscValueView::String(Seq::empty()))
    } else {
        None
    }
}

/// Whether every tag of `s` is known.
pub open spec fn all_tags_known(s: Seq<char>) -> bool {
    forall|i: int| 0 <= i < s.len() ==> (#[trigger] default_for_tag(s[i])) is Some
}

/// The message for an unknown type tag.
pub open spec fn unknown_tag_message(c: char) -> Seq<char> {
    "Unknown OSC type tag: '"@.push(c) + "'"@
}

/// Map each type tag character to a zero/default OscValue.
pub fn default_values_for_type_tags(tags: &str) -> (r: Result<Vec<OscValue>, String>)
    ensures
        match r {
            Ok(v) => all_tags_known(tags@) && values_view(v@) == tags@.map_values(
                |c: char| default_for_tag(c)->0,
            ),
            Err(e) => exists|k: int|
                0 <= k < tags@.len() && default_for_tag(#[trigger] tags@[k]) is None
                    && all_tags_known(tags@.take(k)) && e@ == unknown_tag_message(tags@[k]),
        },
{
    let cs = chars_of(tags);
    let mut out: Vec<OscValue> = Vec::new();
    let mut i: usize = 0;
    while i < cs.len()
        invariant
            i <= cs.len(),
            cs@ == tags@,
            all_tags_known(cs@.take(i as int)),
            values_view(out@) == cs@.take(i as int).map_values(|c: char| default_for_tag(c)->0),
        decreases cs.len() - i,
    {
        let c = cs[i];
        let v = if c == 'i' {
            OscValue::Int(0)
        } else if c == 'f' || c == 't' {
            OscValue::Float(0)
        } else if c == 'h' {
            OscValue::Long(0)
        } else if c == 'd' {
            OscValue::Double(0)
        } else if c == 'T' || c == 'F' {
            OscValue::Bool(false)
        } else if c == 's' {
            OscValue::String(String::new())
        } else {
            let mut msg = String::from_str("Unknown OSC type tag: '");
            push_char(&mut msg, c);
            msg.append("'");
            proof {
                reveal_strlit("Unknown OSC type tag: '");
                reveal_strlit("'");
                assert(default_for_tag(tags@[i as int]) is None);
            }
            return Err(msg);
        };
        proof {
            assert(v@ == default_for_tag(c)->0);
        }
        let ghost prev = out@;
        out.push(v);
        proof {
            assert(values_view(out@) =~= values_view(prev).push(v@));
        }
        i = i + 1;
        proof {
            assert(cs@.take(i as int) == cs@.take(i - 1).push(c));
            assert forall|j: int| 0 <= j < i implies (#[trigger] default_for_tag(
                cs@.take(i as int)[j],
            )) is Some by {
                if j < i - 1 {
                    assert(cs@.take(i as int)[j] == cs@.take(i - 1)[j]);
                }
            }
            assert(cs@.take(i as int).map_values(|c: char| default_for_tag(c)->0) =~= cs@.take(
                i - 1,
            ).map_values(|c: char| default_for_tag(c)->0).push(default_for_tag(c)->0));
        }
    }
    assert(cs@.take(cs.len() as int) == cs@);
    Ok(out)
}


/// An OSCQuery node in the address tree.
#[derive(Debug)]
pub struct OSCQueryNode {
    pub full_path: Option<String>,
    pub contents: Option<Vec<OSCQueryNode>>,
    pub osc_type: Option<String>,
    pub access: Option<OSCAccess>,
    pub value: Option<Vec<OscValue>>,
    pub description: Option<String>,
}

/// The mathematical content of an `OSCQueryNode`.
pub struct NodeView {
    pub full_path: Option<Seq<char>>,
    pub contents: Option<Seq<NodeView>>,
    pub osc_type: Option<Seq<char>>,
    pub access: Option<OSCAccess>,
    pub value: Option<Seq<OscValueView>>,
    pub description: Option<Seq<char>>,
}

impl View for OSCQueryNode {
    type V = NodeView;

    open spec fn view(&self) -> NodeView
        decreases self, 0nat,
    {
        NodeView {
            full_path: opt_view(self.full_path),
            contents: match &self.contents {
                Some(v) => Some(views_of(v@)),
                None => None,
            },
            osc_type: opt_view(self.osc_type),
            access: self.access,
            value: match &self.value {
                Some(v) => Some(values_view(v@)),
                None => None,
            },
            description: opt_view(self.description),
        }
    }
}

/// The views of a sequence of nodes.
pub open spec fn views_of(s: Seq<OSCQueryNode>) -> Seq<NodeView>
    decreases s, 0nat,
{
    if s.len() == 0 {
        Seq::empty()
    } else {
        seq![s[0]@] + views_of(s.drop_first())
    }
}

pub proof fn lemma_views_of(s: Seq<OSCQueryNode>)
    ensures
        views_of(s).len() == s.len(),
        forall|i: int| 0 <= i < s.len() ==> #[trigger] views_of(s)[i] == s[i]@,
    decreases s.len(),
{
    if s.len() > 0 {
        lemma_views_of(s.drop_first());
        assert(views_of(s) == seq![s[0]@] + views_of(s.drop_first()));
        assert forall|i: int| 0 <= i < s.len() implies #[trigger] views_of(s)[i] == s[i]@ by {
            if i > 0 {
                assert(s.drop_first()[i - 1] == s[i]);
            }
        }
    }
}

pub proof fn lemma_views_of_push(s: Seq<OSCQueryNode>, x: OSCQueryNode)
    ensures
        views_of(s.push(x)) == views_of(s).push(x@),
{
    lemma_views_of(s);
    lemma_views_of(s.push(x));
    assert(views_of(s.push(x)) =~= views_of(s).push(x@));
}

pub proof fn lemma_views_of_update(s: Seq<OSCQueryNode>, i: int, x: OSCQueryNode)
    requires
        0 <= i < s.len(),
    ensures
        views_of(s.update(i, x)) == views_of(s).update(i, x@),
{
    lemma_views_of(s);
    lemma_views_of(s.update(i, x));
    assert(views_of(s.update(i, x)) =~= views_of(s).update(i, x@));
}

/// A copy of an optional string.
fn copy_opt_string(o: &Option<String>) -> (r: Option<String>)
    ensures
        opt_view(r) == opt_view(*o),
{
    match o {
        Some(s) => Some(s.clone()),
        None => None,
    }
}

/// A copy of a value.
fn copy_value(v: &OscValue) -> (r: OscValue)
    ensures
        r@ == v@,
{
    match v {
        OscValue::Int(i) => OscValue::Int(*i),
        OscValue::Float(f) => OscValue::Float(*f),
        OscValue::Long(l) => OscValue::Long(*l),
        OscValue::Double(d) => OscValue::Double(*d),
        OscValue::Bool(b) => OscValue::Bool(*b),
        OscValue::String(s) => OscValue::String(s.clone()),
    }
}

/// A copy of a list of values.
fn copy_values(vs: &Vec<OscValue>) -> (r: Vec<OscValue>)
    ensures
        values_view(r@) == values_view(vs@),
{
    let mut out: Vec<OscValue> = Vec::new();
    let mut i: usize = 0;
    while i < vs.len()
        invariant
            i <= vs.len(),
            out@.len() == i,
            forall|k: int| 0 <= k < i ==> (#[trigger] out@[k])@ == vs@[k]@,
        decreases vs.len() - i,
    {
        let c = copy_value(&vs[i]);
        out.push(c);
        i = i + 1;
    }
    assert(values_view(out@) =~= values_view(vs@));
    out
}

/// A copy of a tree.
#[verifier::loop_isolation(false)]
fn copy_node(n: &OSCQueryNode) -> (r: OSCQueryNode)
    ensures
        r@ == n@,
    decreases n,
{
    let contents = match &n.contents {
        Some(v) => {
            let mut out: Vec<OSCQueryNode> = Vec::new();
            let mut i: usize = 0;
            assert(views_of(out@) =~= views_of(v@.take(0)));
            while i < v.len()
                invariant
                    i <= v.len(),
                    views_of(out@) == views_of(v@.take(i as int)),
                decreases v.len() - i,
            {
                let c = copy_node(&v[i]);
                proof {
                    lemma_views_of_push(out@, c);
                    lemma_views_of_push(v@.take(i as int), v@[i as int]);
                    assert(v@.take(i as int).push(v@[i as int]) =~= v@.take(i + 1));
                }
                out.push(c);
                i = i + 1;
            }
            assert(v@.take(v.len() as int) =~= v@);
            Some(out)
        },
        None => None,
    };
    let value = match &n.value {
        Some(vs) => Some(copy_values(vs)),
        None => None,
    };
    OSCQueryNode {
        full_path: copy_opt_string(&n.full_path),
        contents,
        osc_type: copy_opt_string(&n.osc_type),
        access: n.access,
        value,
        description: copy_opt_string(&n.description),
    }
}

impl Clone for OSCQueryNode {
    /// A copy of the tree.
    fn clone(&self) -> (r: Self)
        ensures
            r@ == self@,
    {
        copy_node(self)
    }
}

/// A node with the given path and nothing else.
pub open spec fn bare_node(p: Seq<char>) -> NodeView {
    NodeView {
        full_path: Some(p),
        contents: None,
        osc_type: None,
        access: None,
        value: None,
        description: None,
    }
}

/// The children of a node (none when it has no contents).
pub open spec fn children(n: NodeView) -> Seq<NodeView> {
    match n.contents {
        Some(s) => s,
        None => Seq::empty(),
    }
}

/// The first node, in depth-first pre-order, whose full path is `p`.
pub open spec fn find_node(n: NodeView, p: Seq<char>) -> Option<NodeView>
    decreases n, 1nat,
{
    if n.full_path == Some(p) {
        Some(n)
    } else {
        match n.contents {
            Some(s) => find_in(s, p),
            None => None,
        }
    }
}

/// The first node, in depth-first pre-order over the trees of `s`, whose full path is `p`.
pub open spec fn find_in(s: Seq<NodeView>, p: Seq<char>) -> Option<NodeView>
    decreases s, 1nat,
{
    if s.len() == 0 {
        None
    } else {
        match find_node(s[0], p) {
            Some(x) => Some(x),
            None => find_in(s.drop_first(), p),
        }
    }
}

/// `n` with the node that `find_node(n, p)` picks replaced by `x`.
pub open spec fn replace_node(n: NodeView, p: Seq<char>, x: NodeView) -> NodeView
    decreases n, 1nat,
{
    if n.full_path == Some(p) {
        x
    } else {
        match n.contents {
            Some(s) => NodeView { contents: Some(replace_in(s, p, x)), ..n },
            None => n,
        }
    }
}

/// `s` with the node that `find_in(s, p)` picks replaced by `x`.
pub open spec fn replace_in(s: Seq<NodeView>, p: Seq<char>, x: NodeView) -> Seq<NodeView>
    decreases s, 1nat,
{
    if s.len() == 0 {
        s
    } else if find_node(s[0], p) is Some {
        seq![replace_node(s[0], p, x)] + s.drop_first()
    } else {
        seq![s[0]] + replace_in(s.drop_first(), p, x)
    }
}

pub proof fn lemma_find_in_append(a: Seq<NodeView>, b: Seq<NodeView>, p: Seq<char>)
    ensures
        find_in(a + b, p) == (match find_in(a, p) {
            Some(x) => Some(x),
            None => find_in(b, p),
        }),
    decreases a.len(),
{
    if a.len() == 0 {
        assert(a + b =~= b);
    } else {
        assert((a + b).drop_first() =~= a.drop_first() + b);
        lemma_find_in_append(a.drop_first(), b, p);
    }
}

pub proof fn lemma_find_in_single(x: NodeView, p: Seq<char>)
    ensures
        find_in(seq![x], p) == find_node(x, p),
{
    assert(seq![x].drop_first() =~= Seq::<NodeView>::empty());
    assert(seq![x][0] == x);
    assert(find_in(Seq::<NodeView>::empty(), p) is None);
}

/// Splitting `s` at `i`: the search over `s` is the search over the first `i`
/// trees, then over tree `i`, then over the rest.
pub proof fn lemma_find_in_at(s: Seq<NodeView>, i: int, p: Seq<char>)
    requires
        0 <= i < s.len(),
    ensures
        find_in(s.take(i + 1), p) == (match find_in(s.take(i), p) {
            Some(x) => Some(x),
            None => find_node(s[i], p),
        }),
        find_in(s.take(i), p) is None ==> find_in(s, p) == (match find_node(s[i], p) {
            Some(x) => Some(x),
            None => find_in(s.skip(i + 1), p),
        }),
{
    assert(s.take(i + 1) =~= s.take(i) + seq![s[i]]);
    lemma_find_in_append(s.take(i), seq![s[i]], p);
    lemma_find_in_single(s[i], p);
    assert(s =~= s.take(i + 1) + s.skip(i + 1));
    lemma_find_in_append(s.take(i + 1), s.skip(i + 1), p);
}

/// What the search finds has the path that was asked for.
pub proof fn lemma_find_path(n: NodeView, p: Seq<char>)
    ensures
        find_node(n, p) matches Some(m) ==> m.full_path == Some(p),
    decreases n, 1nat,
{
    if n.full_path != Some(p) {
        match n.contents {
            Some(s) => lemma_find_in_path(s, p),
            None => {},
        }
    }
}

pub proof fn lemma_find_in_path(s: Seq<NodeView>, p: Seq<char>)
    ensures
        find_in(s, p) matches Some(m) ==> m.full_path == Some(p),
    decreases s, 1nat,
{
    if s.len() > 0 {
        lemma_find_path(s[0], p);
        lemma_find_in_path(s.drop_first(), p);
    }
}

/// The search over `s` finds the first tree, at index `i`, in which the path occurs.
pub proof fn lemma_replace_in_at(s: Seq<NodeView>, i: int, p: Seq<char>)
    requires
        0 <= i < s.len(),
        forall|j: int| 0 <= j < i ==> (#[trigger] find_node(s[j], p)) is None,
        find_node(s[i], p) is Some,
    ensures
        forall|x: NodeView| #[trigger]
            replace_in(s, p, x) == s.update(i, replace_node(s[i], p, x)),
        find_in(s, p) == find_node(s[i], p),
    decreases i,
{
    if i == 0 {
        assert forall|x: NodeView| #[trigger]
            replace_in(s, p, x) == s.update(i, replace_node(s[i], p, x)) by {
            assert(replace_in(s, p, x) =~= s.update(i, replace_node(s[i], p, x)));
        }
    } else {
        let t = s.drop_first();
        assert forall|j: int| 0 <= j < i - 1 implies (#[trigger] find_node(t[j], p)) is None by {
            assert(t[j] == s[j + 1]);
        }
        assert(find_node(s[0], p) is None);
        lemma_replace_in_at(t, i - 1, p);
        assert forall|x: NodeView| #[trigger]
            replace_in(s, p, x) == s.update(i, replace_node(s[i], p, x)) by {
            assert(replace_in(t, p, x) == t.update(i - 1, replace_node(t[i - 1], p, x)));
            assert(replace_in(s, p, x) =~= s.update(i, replace_node(s[i], p, x)));
        }
    }
}

/// Replacing inside child `i` is replacing inside the children sequence.
pub proof fn lemma_child_replaced(v: Seq<OSCQueryNode>, i: int, p: Seq<char>)
    requires
        0 <= i < v.len(),
        forall|j: int| 0 <= j < i ==> (#[trigger] find_node(v[j]@, p)) is None,
        find_node(v[i]@, p) is Some,
    ensures
        forall|c: OSCQueryNode, x: NodeView|
            #![trigger views_of(v.update(i, c)), replace_in(views_of(v), p, x)]
            c@ == replace_node(v[i]@, p, x) ==> views_of(v.update(i, c)) == replace_in(
                views_of(v),
                p,
                x,
            ),
{
    lemma_views_of(v);
    let s = views_of(v);
    assert forall|j: int| 0 <= j < i implies (#[trigger] find_node(s[j], p)) is None by {
        assert(s[j] == v[j]@);
    }
    lemma_replace_in_at(s, i, p);
    assert forall|c: OSCQueryNode, x: NodeView|
        #![trigger views_of(v.update(i, c)), replace_in(views_of(v), p, x)]
        c@ == replace_node(v[i]@, p, x) implies views_of(v.update(i, c)) == replace_in(
            views_of(v),
            p,
            x,
        ) by {
        lemma_views_of_update(v, i, c);
        assert(replace_in(s, p, x) == s.update(i, replace_node(s[i], p, x)));
        assert(views_of(v.update(i, c)) =~= replace_in(s, p, x));
    }
}

/// `b` has the path of `a` and the children of `a` followed by more.
pub open spec fn extends(a: NodeView, b: NodeView) -> bool {
    &&& b.full_path == a.full_path
    &&& children(a).len() <= children(b).len()
    &&& children(b).take(children(a).len() as int) == children(a)
}

/// `y` with `c` appended to its children.
pub open spec fn with_child(y: NodeView, c: NodeView) -> NodeView {
    NodeView { contents: Some(children(y).push(c)), ..y }
}

proof fn lemma_find_in_cons(y: NodeView, t: Seq<NodeView>, q: Seq<char>)
    ensures
        find_in(seq![y] + t, q) == (match find_node(y, q) {
            Some(m) => Some(m),
            None => find_in(t, q),
        }),
{
    let s = seq![y] + t;
    assert(s[0] == y);
    assert(s.drop_first() =~= t);
}

proof fn lemma_find_in_prefix(a: Seq<NodeView>, b: Seq<NodeView>, q: Seq<char>)
    requires
        a.len() <= b.len(),
        b.take(a.len() as int) == a,
        find_in(a, q) is Some,
    ensures
        find_in(b, q) is Some,
{
    assert(b =~= a + b.skip(a.len() as int));
    lemma_find_in_append(a, b.skip(a.len() as int), q);
}

/// Replacing the node found for `p` by an extension of it keeps every path findable.
pub proof fn lemma_replace_extends(n: NodeView, p: Seq<char>, x: NodeView, q: Seq<char>)
    requires
        find_node(n, p) is Some,
        extends(find_node(n, p)->0, x),
        find_node(n, q) is Some,
    ensures
        find_node(replace_node(n, p, x), q) is Some,
    decreases n, 1nat,
{
    if n.full_path == Some(p) {
        if n.full_path != Some(q) {
            lemma_find_in_prefix(children(n), children(x), q);
        }
    } else {
        let s = n.contents->0;
        if n.full_path != Some(q) {
            lemma_replace_in_extends(s, p, x, q);
        }
    }
}

pub proof fn lemma_replace_in_extends(s: Seq<NodeView>, p: Seq<char>, x: NodeView, q: Seq<char>)
    requires
        find_in(s, p) is Some,
        extends(find_in(s, p)->0, x),
        find_in(s, q) is Some,
    ensures
        find_in(replace_in(s, p, x), q) is Some,
    decreases s, 1nat,
{
    let t = s.drop_first();
    assert(s =~= seq![s[0]] + t);
    if find_node(s[0], p) is Some {
        lemma_find_in_cons(replace_node(s[0], p, x), t, q);
        if find_node(s[0], q) is Some {
            lemma_replace_extends(s[0], p, x, q);
        }
    } else {
        lemma_find_in_cons(s[0], replace_in(t, p, x), q);
        if find_node(s[0], q) is None {
            lemma_replace_in_extends(t, p, x, q);
        }
    }
}

/// Whatever is findable inside the replacement is findable after replacing.
pub proof fn lemma_replace_inserts(n: NodeView, p: Seq<char>, x: NodeView, r: Seq<char>)
    requires
        find_node(n, p) is Some,
        find_node(x, r) is Some,
    ensures
        find_node(replace_node(n, p, x), r) is Some,
    decreases n, 1nat,
{
    if n.full_path != Some(p) {
        let s = n.contents->0;
        if n.full_path != Some(r) {
            lemma_replace_in_inserts(s, p, x, r);
        }
    }
}

pub proof fn lemma_replace_in_inserts(s: Seq<NodeView>, p: Seq<char>, x: NodeView, r: Seq<char>)
    requires
        find_in(s, p) is Some,
        find_node(x, r) is Some,
    ensures
        find_in(replace_in(s, p, x), r) is Some,
    decreases s, 1nat,
{
    let t = s.drop_first();
    assert(s =~= seq![s[0]] + t);
    if find_node(s[0], p) is Some {
        lemma_find_in_cons(replace_node(s[0], p, x), t, r);
        lemma_replace_inserts(s[0], p, x, r);
    } else {
        lemma_find_in_cons(s[0], replace_in(t, p, x), r);
        if find_node(s[0], r) is None {
            lemma_replace_in_inserts(t, p, x, r);
        }
    }
}

/// A node with child `c` appended holds `c`'s path.
proof fn lemma_with_child_finds(y: NodeView, c: NodeView, p: Seq<char>)
    requires
        c.full_path == Some(p),
    ensures
        find_node(with_child(y, c), p) is Some,
        extends(y, with_child(y, c)),
{
    let w = with_child(y, c);
    assert(children(w) == children(y).push(c));
    assert(children(w) =~= children(y) + seq![c]);
    lemma_find_in_append(children(y), seq![c], p);
    lemma_find_in_single(c, p);
    assert(children(w).take(children(y).len() as int) =~= children(y));
}

/// The parent of an OSC path: what comes before its last `/`, or `/` itself
/// when that is the first character; none when the path has no `/`.
pub open spec fn parent_path(p: Seq<char>) -> Option<Seq<char>> {
    let i = last_index_of(p, '/');
    if i < 0 {
        None
    } else if i == 0 {
        Some(seq!['/'])
    } else {
        Some(p.take(i))
    }
}

/// A parent path is shorter than its path, but for `/`, which is its own parent.
pub proof fn lemma_parent_shorter(p: Seq<char>)
    ensures
        parent_path(p) matches Some(q) ==> q.len() < p.len() || (q == p && p == seq!['/']),
{
    lemma_last_index_of(p, '/');
    if last_index_of(p, '/') == 0 && p.len() == 1 {
        assert(p =~= seq!['/']);
    }
}

/// The parent path of an OSC path, computed as `rsplit_once('/')` does.
pub fn parent_path_of(p: &str) -> (r: Option<String>)
    ensures
        opt_view(r) == parent_path(p@),
{
    let cs = chars_of(p);
    proof {
        lemma_last_index_of(p@, '/');
    }
    match rfind_char(&cs, '/') {
        None => None,
        Some(i) => {
            if i == 0 {
                let r = String::from_str("/");
                proof {
                    reveal_strlit("/");
                }
                Some(r)
            } else {
                let r = p.substring_char(0, i).to_owned();
                assert(p@.subrange(0, i as int) == p@.take(i as int));
                Some(r)
            }
        },
    }
}

/// Whether the missing ancestors of `q` can be created below `n`: each path up
/// the chain either is found already or has a strictly shorter parent.
pub open spec fn can_reach(n: NodeView, q: Seq<char>) -> bool
    decreases q.len(),
{
    find_node(n, q) is Some || match parent_path(q) {
        Some(r) => r.len() < q.len() && can_reach(n, r),
        None => false,
    }
}

/// The inputs on which adding a child ends without a panic: the child has no
/// path, or is the node itself, or has no parent, or its parent can be reached.
pub open spec fn add_ok(n: NodeView, c: NodeView) -> bool {
    match c.full_path {
        None => true,
        Some(p) => n.full_path == Some(p) || match parent_path(p) {
            None => true,
            Some(q) => can_reach(n, q),
        },
    }
}

/// The length of a node's path (0 without one).
pub open spec fn path_len(c: NodeView) -> nat {
    match c.full_path {
        Some(p) => p.len(),
        None => 0,
    }
}

/// The tree after adding `c` below `n`: a child without a path, a child with the
/// root's own path, or a child with no parent changes nothing; otherwise the
/// missing ancestors of `c` are added first, and `c` is appended to the children
/// of the node that the search for its parent path finds.
pub open spec fn add_spec(n: NodeView, c: NodeView) -> NodeView
    decreases path_len(c),
{
    match c.full_path {
        None => n,
        Some(p) => if n.full_path == Some(p) {
            n
        } else {
            match parent_path(p) {
                None => n,
                Some(q) => {
                    let n1 = if find_node(n, q) is None && q.len() < p.len() {
                        add_spec(n, bare_node(q))
                    } else {
                        n
                    };
                    match find_node(n1, q) {
                        Some(y) => replace_node(n1, q, with_child(y, c)),
                        None => n1,
                    }
                },
            }
        },
    }
}

/// Adding a child keeps every path that was findable, and makes the child's
/// own path findable when it has a parent (or is the root's own path).
pub proof fn law_add_child_keeps_and_finds(n: NodeView, c: NodeView)
    requires
        add_ok(n, c),
    ensures
        forall|r: Seq<char>| find_node(n, r) is Some ==> #[trigger] find_node(add_spec(n, c), r) is Some,
        c.full_path matches Some(p) ==> ((n.full_path == Some(p) || parent_path(p) is Some)
            ==> find_node(add_spec(n, c), p) is Some),
    decreases path_len(c),
{
    match c.full_path {
        None => {},
        Some(p) => {
            if n.full_path != Some(p) {
                match parent_path(p) {
                    None => {},
                    Some(q) => {
                        lemma_parent_shorter(p);
                        let n1 = if find_node(n, q) is None && q.len() < p.len() {
                            add_spec(n, bare_node(q))
                        } else {
                            n
                        };
                        if find_node(n, q) is None {
                            lemma_parent_shorter(q);
                            assert(q.len() < p.len());
                            law_add_child_keeps_and_finds(n, bare_node(q));
                        }
                        assert(find_node(n1, q) is Some);
                        let y = find_node(n1, q)->0;
                        lemma_with_child_finds(y, c, p);
                        lemma_replace_inserts(n1, q, with_child(y, c), p);
                        assert forall|r: Seq<char>| find_node(n, r) is Some implies #[trigger] find_node(
                            add_spec(n, c),
                            r,
                        ) is Some by {
                            assert(find_node(n1, r) is Some);
                            lemma_replace_extends(n1, q, with_child(y, c), r);
                        }
                    },
                }
            }
        },
    }
}

/// Writing through the node that the search for `p` finds, and keeping its
/// path, is what the search finds afterwards: a node changed through
/// `find_subnode_mut` is read back by `find_subnode`.
pub proof fn law_find_after_replace(n: NodeView, p: Seq<char>, x: NodeView)
    requires
        find_node(n, p) is Some,
        x.full_path == Some(p),
    ensures
        find_node(replace_node(n, p, x), p) == Some(x),
    decreases n, 1nat,
{
    if n.full_path != Some(p) {
        lemma_find_in_after_replace(n.contents->0, p, x);
    }
}

proof fn lemma_find_in_after_replace(s: Seq<NodeView>, p: Seq<char>, x: NodeView)
    requires
        find_in(s, p) is Some,
        x.full_path == Some(p),
    ensures
        find_in(replace_in(s, p, x), p) == Some(x),
    decreases s, 1nat,
{
    let t = s.drop_first();
    if find_node(s[0], p) is Some {
        law_find_after_replace(s[0], p, x);
        lemma_find_in_cons(replace_node(s[0], p, x), t, p);
    } else {
        lemma_find_in_after_replace(t, p, x);
        lemma_find_in_cons(s[0], replace_in(t, p, x), p);
    }
}

/// Whether `new` holds each ancestor of `p` that `old` lacks, up the chain of
/// parents to the first ancestor that `old` already holds.
pub open spec fn missing_ancestors_found(old: NodeView, new: NodeView, p: Seq<char>) -> bool
    decreases p.len(),
{
    match parent_path(p) {
        Some(q) => if q.len() < p.len() {
            &&& find_node(new, q) is Some
            &&& (find_node(old, q) is None ==> missing_ancestors_found(old, new, q))
        } else {
            true
        },
        None => true,
    }
}

/// A tree in which every path of `mid` is findable holds whatever `mid` holds
/// of the chain of ancestors.
proof fn lemma_missing_ancestors_grow(old: NodeView, mid: NodeView, new: NodeView, p: Seq<char>)
    requires
        missing_ancestors_found(old, mid, p),
        forall|r: Seq<char>| find_node(mid, r) is Some ==> #[trigger] find_node(new, r) is Some,
    ensures
        missing_ancestors_found(old, new, p),
    decreases p.len(),
{
    match parent_path(p) {
        Some(q) => {
            if q.len() < p.len() {
                assert(find_node(mid, q) is Some);
                assert(find_node(new, q) is Some);
                if find_node(old, q) is None {
                    lemma_missing_ancestors_grow(old, mid, new, q);
                }
            }
        },
        None => {},
    }
}

/// Adding a child below a node other than itself creates the missing
/// intermediate nodes: its parent, and each ancestor up to the first one that
/// the tree already held, are findable afterwards.
pub proof fn law_add_child_creates_ancestors(n: NodeView, c: NodeView)
    requires
        add_ok(n, c),
    ensures
        c.full_path matches Some(p) ==> (n.full_path != Some(p) ==> missing_ancestors_found(
            n,
            add_spec(n, c),
            p,
        )),
    decreases path_len(c),
{
    match c.full_path {
        None => {},
        Some(p) => {
            if n.full_path != Some(p) {
                match parent_path(p) {
                    None => {},
                    Some(q) => {
                        lemma_parent_shorter(p);
                        if q.len() < p.len() {
                            let n1 = if find_node(n, q) is None {
                                add_spec(n, bare_node(q))
                            } else {
                                n
                            };
                            if find_node(n, q) is None {
                                lemma_parent_shorter(q);
                                law_add_child_keeps_and_finds(n, bare_node(q));
                                law_add_child_creates_ancestors(n, bare_node(q));
                            }
                            assert(find_node(n1, q) is Some);
                            let y = find_node(n1, q)->0;
                            let x = with_child(y, c);
                            let m = add_spec(n, c);
                            assert(m == replace_node(n1, q, x));
                            lemma_find_path(n1, q);
                            lemma_with_child_finds(y, c, p);
                            assert(find_node(x, q) is Some);
                            lemma_replace_inserts(n1, q, x, q);
                            assert(find_node(m, q) is Some);
                            if find_node(n, q) is None {
                                assert forall|r: Seq<char>| find_node(n1, r) is Some implies #[trigger] find_node(
                                    m,
                                    r,
                                ) is Some by {
                                    lemma_replace_extends(n1, q, x, r);
                                }
                                lemma_missing_ancestors_grow(n, n1, m, q);
                            }
                        }
                    },
                }
            }
        },
    }
}

/// Whether `r` is one of the ancestors of `p` that `old` lacks, on the chain
/// of parents up to the first ancestor that `old` holds.
pub open spec fn missing_ancestor(old: NodeView, p: Seq<char>, r: Seq<char>) -> bool
    decreases p.len(),
{
    match parent_path(p) {
        Some(q) => if q.len() < p.len() && find_node(old, q) is None {
            r == q || missing_ancestor(old, q, r)
        } else {
            false
        },
        None => false,
    }
}

/// What the tree holds after a replacement was in the tree before or in the
/// replacement.
proof fn lemma_replace_finds_from(n: NodeView, q: Seq<char>, x: NodeView, r: Seq<char>)
    requires
        find_node(n, q) is Some,
        find_node(replace_node(n, q, x), r) is Some,
    ensures
        find_node(n, r) is Some || find_node(x, r) is Some,
    decreases n, 1nat,
{
    if n.full_path != Some(q) && n.full_path != Some(r) {
        lemma_replace_in_finds_from(n.contents->0, q, x, r);
    }
}

proof fn lemma_replace_in_finds_from(s: Seq<NodeView>, q: Seq<char>, x: NodeView, r: Seq<char>)
    requires
        find_in(s, q) is Some,
        find_in(replace_in(s, q, x), r) is Some,
    ensures
        find_in(s, r) is Some || find_node(x, r) is Some,
    decreases s, 1nat,
{
    let t = s.drop_first();
    assert(s =~= seq![s[0]] + t);
    lemma_find_in_cons(s[0], t, r);
    if find_node(s[0], q) is Some {
        lemma_find_in_cons(replace_node(s[0], q, x), t, r);
        if find_node(replace_node(s[0], q, x), r) is Some {
            lemma_replace_finds_from(s[0], q, x, r);
        }
    } else {
        lemma_find_in_cons(s[0], replace_in(t, q, x), r);
        if find_node(s[0], r) is None {
            lemma_replace_in_finds_from(t, q, x, r);
        }
    }
}

/// What a node with one more child holds was in the node or in the child.
proof fn lemma_with_child_finds_from(y: NodeView, c: NodeView, r: Seq<char>)
    requires
        find_node(with_child(y, c), r) is Some,
    ensures
        find_node(y, r) is Some || find_node(c, r) is Some,
{
    if y.full_path != Some(r) {
        let w = with_child(y, c);
        assert(children(w) =~= children(y) + seq![c]);
        assert(find_node(w, r) == find_in(children(y) + seq![c], r));
        lemma_find_in_append(children(y), seq![c], r);
        lemma_find_in_single(c, r);
        if y.contents is None {
            assert(children(y) =~= Seq::<NodeView>::empty());
            assert(find_in(children(y), r) is None);
        }
    }
}

/// What the node found for `q` holds, the tree holds.
proof fn lemma_find_within(n: NodeView, q: Seq<char>, r: Seq<char>)
    requires
        find_node(n, q) is Some,
        find_node(find_node(n, q)->0, r) is Some,
    ensures
        find_node(n, r) is Some,
    decreases n, 1nat,
{
    if n.full_path != Some(q) && n.full_path != Some(r) {
        lemma_find_in_within(n.contents->0, q, r);
    }
}

proof fn lemma_find_in_within(s: Seq<NodeView>, q: Seq<char>, r: Seq<char>)
    requires
        find_in(s, q) is Some,
        find_node(find_in(s, q)->0, r) is Some,
    ensures
        find_in(s, r) is Some,
    decreases s, 1nat,
{
    if find_node(s[0], q) is Some {
        lemma_find_within(s[0], q, r);
    } else {
        lemma_find_in_within(s.drop_first(), q, r);
    }
}

/// Adding a child adds nothing but the child's own subtree and the missing
/// ancestors of its path: every path found afterwards was found before, is
/// found in the child, or is one of those ancestors.
pub proof fn law_add_child_adds_only(n: NodeView, c: NodeView)
    requires
        add_ok(n, c),
    ensures
        forall|r: Seq<char>|
            #[trigger] find_node(add_spec(n, c), r) is Some ==> find_node(n, r) is Some || find_node(
                c,
                r,
            ) is Some || (c.full_path matches Some(p) && missing_ancestor(n, p, r)),
    decreases path_len(c),
{
    match c.full_path {
        None => {},
        Some(p) => {
            if n.full_path != Some(p) {
                match parent_path(p) {
                    None => {},
                    Some(q) => {
                        lemma_parent_shorter(p);
                        let n1 = if find_node(n, q) is None && q.len() < p.len() {
                            add_spec(n, bare_node(q))
                        } else {
                            n
                        };
                        if find_node(n, q) is None && q.len() < p.len() {
                            lemma_parent_shorter(q);
                            law_add_child_keeps_and_finds(n, bare_node(q));
                            law_add_child_adds_only(n, bare_node(q));
                        }
                        let m = add_spec(n, c);
                        if find_node(n1, q) is Some {
                            let y = find_node(n1, q)->0;
                            let x = with_child(y, c);
                            assert(m == replace_node(n1, q, x));
                            assert forall|r: Seq<char>| #[trigger] find_node(m, r) is Some implies find_node(
                                n,
                                r,
                            ) is Some || find_node(c, r) is Some || missing_ancestor(n, p, r) by {
                                lemma_replace_finds_from(n1, q, x, r);
                                if find_node(x, r) is Some {
                                    lemma_with_child_finds_from(y, c, r);
                                    if find_node(y, r) is Some {
                                        lemma_find_within(n1, q, r);
                                    }
                                }
                                if find_node(n1, r) is Some && find_node(n, q) is None && q.len()
                                    < p.len() {
                                    if find_node(bare_node(q), r) is Some {
                                        assert(r == q);
                                    }
                                }
                            }
                        }
                    },
                }
            }
        },
    }
}

/// Whether `b` holds `a` in place: `b` has the fields of `a` but for its
/// children, and the children of `a`, each held in place, are the first
/// children of `b`.
pub open spec fn grows(a: NodeView, b: NodeView) -> bool
    decreases a, 0nat,
{
    &&& b.full_path == a.full_path
    &&& b.osc_type == a.osc_type
    &&& b.access == a.access
    &&& b.value == a.value
    &&& b.description == a.description
    &&& match a.contents {
        Some(sa) => b.contents is Some && grows_in(sa, children(b)),
        None => true,
    }
}

/// Whether each node of `sa` is held in place by the node at its index in `sb`.
pub open spec fn grows_in(sa: Seq<NodeView>, sb: Seq<NodeView>) -> bool
    decreases sa, 0nat,
{
    sa.len() <= sb.len() && (sa.len() == 0 || (grows(sa[0], sb[0]) && grows_in(
        sa.drop_first(),
        sb.drop_first(),
    )))
}

proof fn lemma_grows_refl(a: NodeView)
    ensures
        grows(a, a),
    decreases a, 1nat,
{
    if let Some(sa) = a.contents {
        lemma_grows_in_prefix(sa, Seq::empty());
        assert(sa + Seq::<NodeView>::empty() =~= sa);
    }
}

/// A list is held in place by itself followed by more.
proof fn lemma_grows_in_prefix(sa: Seq<NodeView>, t: Seq<NodeView>)
    ensures
        grows_in(sa, sa + t),
    decreases sa, 1nat,
{
    if sa.len() > 0 {
        lemma_grows_refl(sa[0]);
        assert((sa + t)[0] == sa[0]);
        assert((sa + t).drop_first() =~= sa.drop_first() + t);
        lemma_grows_in_prefix(sa.drop_first(), t);
    }
}

proof fn lemma_grows_trans(a: NodeView, b: NodeView, c: NodeView)
    requires
        grows(a, b),
        grows(b, c),
    ensures
        grows(a, c),
    decreases a, 1nat,
{
    if let Some(sa) = a.contents {
        lemma_grows_in_trans(sa, children(b), children(c));
    }
}

proof fn lemma_grows_in_trans(sa: Seq<NodeView>, sb: Seq<NodeView>, sc: Seq<NodeView>)
    requires
        grows_in(sa, sb),
        grows_in(sb, sc),
    ensures
        grows_in(sa, sc),
    decreases sa, 1nat,
{
    if sa.len() > 0 {
        lemma_grows_trans(sa[0], sb[0], sc[0]);
        lemma_grows_in_trans(sa.drop_first(), sb.drop_first(), sc.drop_first());
    }
}

/// Replacing the node found for `q` by a node that holds it in place holds
/// the whole tree in place.
proof fn lemma_replace_grows(n: NodeView, q: Seq<char>, x: NodeView)
    requires
        find_node(n, q) is Some,
        grows(find_node(n, q)->0, x),
    ensures
        grows(n, replace_node(n, q, x)),
    decreases n, 1nat,
{
    if n.full_path != Some(q) {
        let sa = n.contents->0;
        lemma_replace_in_grows(sa, q, x);
    }
}

proof fn lemma_replace_in_grows(s: Seq<NodeView>, q: Seq<char>, x: NodeView)
    requires
        find_in(s, q) is Some,
        grows(find_in(s, q)->0, x),
    ensures
        grows_in(s, replace_in(s, q, x)),
    decreases s, 1nat,
{
    let t = s.drop_first();
    let r = replace_in(s, q, x);
    if find_node(s[0], q) is Some {
        lemma_replace_grows(s[0], q, x);
        assert(r[0] == replace_node(s[0], q, x));
        assert(r.drop_first() =~= t);
        lemma_grows_in_prefix(t, Seq::empty());
        assert(t + Seq::<NodeView>::empty() =~= t);
    } else {
        lemma_grows_refl(s[0]);
        assert(r[0] == s[0]);
        assert(r.drop_first() =~= replace_in(t, q, x));
        lemma_replace_in_grows(t, q, x);
    }
}

/// Adding a child keeps every node of the tree in place: each keeps its
/// position and its fields, and its old children stay its first children.
pub proof fn law_add_child_keeps_in_place(n: NodeView, c: NodeView)
    requires
        add_ok(n, c),
    ensures
        grows(n, add_spec(n, c)),
    decreases path_len(c),
{
    lemma_grows_refl(n);
    match c.full_path {
        None => {},
        Some(p) => {
            if n.full_path != Some(p) {
                match parent_path(p) {
                    None => {},
                    Some(q) => {
                        lemma_parent_shorter(p);
                        let n1 = if find_node(n, q) is None && q.len() < p.len() {
                            add_spec(n, bare_node(q))
                        } else {
                            n
                        };
                        if find_node(n, q) is None && q.len() < p.len() {
                            lemma_parent_shorter(q);
                            law_add_child_keeps_in_place(n, bare_node(q));
                        }
                        if find_node(n1, q) is Some {
                            let y = find_node(n1, q)->0;
                            let x = with_child(y, c);
                            if let Some(sy) = y.contents {
                                lemma_grows_in_prefix(sy, seq![c]);
                                assert(sy.push(c) =~= sy + seq![c]);
                            }
                            assert(grows(y, x));
                            lemma_replace_grows(n1, q, x);
                            lemma_grows_trans(n, n1, add_spec(n, c));
                        }
                    },
                }
            }
        },
    }
}

/// The first ancestor of `p` that `n` holds, up the chain of parents (the
/// parent itself when it is not shorter than `p`).
pub open spec fn first_ancestor(n: NodeView, p: Seq<char>) -> Seq<char>
    decreases p.len(),
{
    match parent_path(p) {
        Some(q) => if q.len() < p.len() && find_node(n, q) is None {
            first_ancestor(n, q)
        } else {
            q
        },
        None => p,
    }
}

/// `x` under one bare node (`bare_node`, with the next node as its only
/// child) for each ancestor of `p` that `n` lacks, up the chain of parents to
/// the first ancestor that `n` holds.
pub open spec fn wrap(n: NodeView, p: Seq<char>, x: NodeView) -> NodeView
    decreases p.len(),
{
    match parent_path(p) {
        Some(q) => if q.len() < p.len() && find_node(n, q) is None {
            wrap(n, q, with_child(bare_node(q), x))
        } else {
            x
        },
        None => x,
    }
}

/// Whether no node that `wrap(n, p, _)` puts around has path `t`.
pub open spec fn wraps_avoid(n: NodeView, p: Seq<char>, t: Seq<char>) -> bool
    decreases p.len(),
{
    match parent_path(p) {
        Some(q) => if q.len() < p.len() && find_node(n, q) is None {
            q != t && wraps_avoid(n, q, t)
        } else {
            true
        },
        None => true,
    }
}

proof fn lemma_wraps_avoid_long(n: NodeView, p: Seq<char>, t: Seq<char>)
    requires
        t.len() >= p.len(),
    ensures
        wraps_avoid(n, p, t),
    decreases p.len(),
{
    match parent_path(p) {
        Some(q) => {
            if q.len() < p.len() && find_node(n, q) is None {
                lemma_wraps_avoid_long(n, q, t);
            }
        },
        None => {},
    }
}

/// A replacement at `a` leaves the search for a path that the tree lacks to
/// the replacement.
proof fn lemma_find_after_replace_elsewhere(n: NodeView, a: Seq<char>, x: NodeView, q: Seq<char>)
    requires
        find_node(n, a) is Some,
        find_node(n, q) is None,
    ensures
        find_node(replace_node(n, a, x), q) == find_node(x, q),
    decreases n, 1nat,
{
    if n.full_path != Some(a) {
        lemma_find_in_after_replace_elsewhere(n.contents->0, a, x, q);
    }
}

proof fn lemma_find_in_after_replace_elsewhere(
    s: Seq<NodeView>,
    a: Seq<char>,
    x: NodeView,
    q: Seq<char>,
)
    requires
        find_in(s, a) is Some,
        find_in(s, q) is None,
    ensures
        find_in(replace_in(s, a, x), q) == find_node(x, q),
    decreases s, 1nat,
{
    let t = s.drop_first();
    if find_node(s[0], a) is Some {
        lemma_find_after_replace_elsewhere(s[0], a, x, q);
        lemma_find_in_cons(replace_node(s[0], a, x), t, q);
    } else {
        lemma_find_in_after_replace_elsewhere(t, a, x, q);
        lemma_find_in_cons(s[0], replace_in(t, a, x), q);
    }
}

/// Replacing inside a replacement, at a path that only the replacement holds,
/// is replacing by the changed replacement.
proof fn lemma_replace_twice(n: NodeView, a: Seq<char>, x: NodeView, q: Seq<char>, z: NodeView)
    requires
        find_node(n, a) is Some,
        find_node(n, q) is None,
        find_node(x, q) is Some,
    ensures
        replace_node(replace_node(n, a, x), q, z) == replace_node(n, a, replace_node(x, q, z)),
    decreases n, 1nat,
{
    if n.full_path != Some(a) {
        let s = n.contents->0;
        lemma_replace_in_twice(s, a, x, q, z);
    }
}

proof fn lemma_replace_in_twice(s: Seq<NodeView>, a: Seq<char>, x: NodeView, q: Seq<char>, z: NodeView)
    requires
        find_in(s, a) is Some,
        find_in(s, q) is None,
        find_node(x, q) is Some,
    ensures
        replace_in(replace_in(s, a, x), q, z) == replace_in(s, a, replace_node(x, q, z)),
    decreases s, 1nat,
{
    let t = s.drop_first();
    if find_node(s[0], a) is Some {
        let r0 = replace_node(s[0], a, x);
        lemma_find_after_replace_elsewhere(s[0], a, x, q);
        lemma_replace_twice(s[0], a, x, q, z);
        let u = seq![r0] + t;
        assert(u[0] == r0);
        assert(u.drop_first() =~= t);
        assert(replace_in(u, q, z) =~= seq![replace_node(r0, q, z)] + t);
    } else {
        lemma_replace_in_twice(t, a, x, q, z);
        let u = seq![s[0]] + replace_in(t, a, x);
        assert(u[0] == s[0]);
        assert(u.drop_first() =~= replace_in(t, a, x));
        assert(replace_in(u, q, z) =~= seq![s[0]] + replace_in(replace_in(t, a, x), q, z));
    }
}

/// Replacing in `a + b` at a path that `a` lacks replaces in `b`.
proof fn lemma_replace_in_append(a: Seq<NodeView>, b: Seq<NodeView>, q: Seq<char>, z: NodeView)
    requires
        find_in(a, q) is None,
    ensures
        replace_in(a + b, q, z) == a + replace_in(b, q, z),
    decreases a.len(),
{
    if a.len() == 0 {
        assert(a + b =~= b);
        assert(a + replace_in(b, q, z) =~= replace_in(b, q, z));
    } else {
        let u = a + b;
        assert(u[0] == a[0]);
        assert(u.drop_first() =~= a.drop_first() + b);
        lemma_replace_in_append(a.drop_first(), b, q, z);
        assert(replace_in(u, q, z) =~= a + replace_in(b, q, z));
    }
}

/// In a node whose own subtree lacks `q`, the search and the replacement for
/// `q` go to its last child `w`.
proof fn lemma_with_child_last(y: NodeView, w: NodeView, q: Seq<char>, z: NodeView)
    requires
        find_node(y, q) is None,
        find_node(w, q) is Some,
    ensures
        find_node(with_child(y, w), q) == find_node(w, q),
        replace_node(with_child(y, w), q, z) == with_child(y, replace_node(w, q, z)),
{
    let cy = children(y);
    if y.contents is None {
        assert(cy =~= Seq::<NodeView>::empty());
    }
    assert(find_in(cy, q) is None);
    let w2 = with_child(y, w);
    assert(children(w2) =~= cy + seq![w]);
    lemma_find_in_append(cy, seq![w], q);
    lemma_find_in_single(w, q);
    lemma_replace_in_append(cy, seq![w], q, z);
    let sw = seq![w];
    assert(sw[0] == w);
    assert(sw.drop_first() =~= Seq::<NodeView>::empty());
    assert(replace_in(sw, q, z) =~= seq![replace_node(w, q, z)]);
    assert(cy + seq![replace_node(w, q, z)] =~= cy.push(replace_node(w, q, z)));
}

/// The search and the replacement for a path that `x` holds and the wrapping
/// nodes do not go into `x`.
proof fn lemma_wrap(n: NodeView, p: Seq<char>, x: NodeView, t: Seq<char>, z: NodeView)
    requires
        wraps_avoid(n, p, t),
        find_node(x, t) is Some,
    ensures
        find_node(wrap(n, p, x), t) == find_node(x, t),
        replace_node(wrap(n, p, x), t, z) == wrap(n, p, replace_node(x, t, z)),
    decreases p.len(),
{
    match parent_path(p) {
        Some(q) => {
            if q.len() < p.len() && find_node(n, q) is None {
                let b = bare_node(q);
                assert(find_node(b, t) is None);
                lemma_with_child_last(b, x, t, z);
                lemma_wrap(n, q, with_child(b, x), t, z);
            }
        },
        None => {},
    }
}

/// What adding a child does to the tree: the child, under one bare node for
/// each ancestor of its path that the tree lacks (see `wrap`), is appended to
/// the children of the first ancestor that the tree holds. Nothing else
/// changes.
pub proof fn law_add_child_shape(n: NodeView, c: NodeView, p: Seq<char>)
    requires
        add_ok(n, c),
        c.full_path == Some(p),
        n.full_path != Some(p),
        parent_path(p) is Some,
    ensures
        find_node(n, first_ancestor(n, p)) is Some,
        add_spec(n, c) == replace_node(
            n,
            first_ancestor(n, p),
            with_child(find_node(n, first_ancestor(n, p))->0, wrap(n, p, c)),
        ),
    decreases p.len(),
{
    let q = parent_path(p)->0;
    lemma_parent_shorter(p);
    if find_node(n, q) is None && q.len() < p.len() {
        let bq = bare_node(q);
        lemma_parent_shorter(q);
        assert(n.full_path != Some(q));
        assert(parent_path(q) is Some);
        law_add_child_shape(n, bq, q);
        let a = first_ancestor(n, q);
        assert(first_ancestor(n, p) == a);
        let ya = find_node(n, a)->0;
        let w = wrap(n, q, bq);
        let x = with_child(ya, w);
        let n1 = add_spec(n, bq);
        assert(n1 == replace_node(n, a, x));
        lemma_find_path(n, a);
        if find_node(ya, q) is Some {
            lemma_find_within(n, a, q);
        }
        lemma_wraps_avoid_long(n, q, q);
        assert(find_node(bq, q) == Some(bq));
        let z = with_child(bq, c);
        lemma_wrap(n, q, bq, q, z);
        assert(replace_node(bq, q, z) == z);
        lemma_with_child_last(ya, w, q, z);
        lemma_find_after_replace_elsewhere(n, a, x, q);
        assert(find_node(n1, q) == Some(bq));
        lemma_replace_twice(n, a, x, q, z);
        assert(wrap(n, p, c) == wrap(n, q, z));
    }
}

impl OSCQueryNode {
    /// A node with the given full path and no other fields.
    pub fn new(full_path: &str) -> (r: Self)
        ensures
            r@ == bare_node(full_path@),
    {
        Self {
            full_path: Some(full_path.to_owned()),
            contents: None,
            osc_type: None,
            access: None,
            value: None,
            description: None,
        }
    }

    /// The node with its description set.
    pub fn with_description(self, desc: &str) -> (r: Self)
        ensures
            r@ == (NodeView { description: Some(desc@), ..self@ }),
    {
        let mut n = self;
        n.description = Some(desc.to_owned());
        n
    }

    /// The node with its access level set.
    pub fn with_access(self, access: OSCAccess) -> (r: Self)
        ensures
            r@ == (NodeView { access: Some(access), ..self@ }),
    {
        let mut n = self;
        n.access = Some(access);
        n
    }

    /// The node with its value set, and its type set to the tags of the value.
    pub fn with_value(self, value: Vec<OscValue>) -> (r: Self)
        ensures
            r@ == (NodeView {
                osc_type: Some(tags_of(values_view(value@))),
                value: Some(values_view(value@)),
                ..self@
            }),
    {
        let mut n = self;
        n.osc_type = Some(osc_type_to_tags(value.as_slice()));
        n.value = Some(value);
        n
    }

    /// The node with its type tags set.
    pub fn with_osc_type(self, type_tags: &str) -> (r: Self)
        ensures
            r@ == (NodeView { osc_type: Some(type_tags@), ..self@ }),
    {
        let mut n = self;
        n.osc_type = Some(type_tags.to_owned());
        n
    }

    /// Find a subnode by its full path (recursive DFS).
    #[verifier::loop_isolation(false)]
    pub fn find_subnode(&self, path: &str) -> (r: Option<&OSCQueryNode>)
        ensures
            match r {
                Some(x) => find_node(self@, path@) == Some(x@),
                None => find_node(self@, path@) is None,
            },
            r matches Some(x) ==> opt_view(x.full_path) == Some(path@),
        decreases self,
    {
        proof {
            lemma_find_path(self@, path@);
        }
        if opt_str_eq(&self.full_path, path) {
            return Some(self);
        }
        match &self.contents {
            Some(v) => {
                proof {
                    lemma_views_of(v@);
                }
                let mut i: usize = 0;
                while i < v.len()
                    invariant
                        i <= v.len(),
                        find_in(views_of(v@).take(i as int), path@) is None,
                    decreases v.len() - i,
                {
                    proof {
                        lemma_find_in_at(views_of(v@), i as int, path@);
                    }
                    let found = v[i].find_subnode(path);
                    if found.is_some() {
                        return found;
                    }
                    i = i + 1;
                }
                proof {
                    assert(views_of(v@).take(v.len() as int) == views_of(v@));
                }
                None
            },
            None => None,
        }
    }

    /// The index of the first child whose subtree holds a node with path `path`.
    #[verifier::loop_isolation(false)]
    fn child_index_for(&self, path: &str) -> (r: Option<usize>)
        ensures
            match r {
                Some(i) => self.contents matches Some(v) && i < v.len() && find_node(
                    v@[i as int]@,
                    path@,
                ) is Some && forall|j: int| 0 <= j < i ==> (#[trigger] find_node(v@[j]@, path@)) is None,
                None => find_in(children(self@), path@) is None,
            },
    {
        match &self.contents {
            Some(v) => {
                proof {
                    lemma_views_of(v@);
                }
                let mut i: usize = 0;
                while i < v.len()
                    invariant
                        i <= v.len(),
                        forall|j: int| 0 <= j < i ==> (#[trigger] find_node(v@[j]@, path@)) is None,
                        find_in(views_of(v@).take(i as int), path@) is None,
                    decreases v.len() - i,
                {
                    proof {
                        lemma_find_in_at(views_of(v@), i as int, path@);
                    }
                    if v[i].find_subnode(path).is_some() {
                        return Some(i);
                    }
                    i = i + 1;
                }
                proof {
                    assert(views_of(v@).take(v.len() as int) == views_of(v@));
                }
                None
            },
            None => None,
        }
    }

    /// The search for `path` inside child `i`, the first child that holds it.
    fn find_in_child_mut<'a>(v: &'a mut Vec<OSCQueryNode>, i: usize, path: &str) -> (r: Option<
        &'a mut OSCQueryNode,
    >)
        requires
            i < old(v)@.len(),
            forall|j: int| 0 <= j < i ==> (#[trigger] find_node(old(v)@[j]@, path@)) is None,
            find_node(old(v)@[i as int]@, path@) is Some,
        ensures
            r matches Some(x) && Some(x@) == find_in(views_of(old(v)@), path@) && views_of(final(v)@)
                == replace_in(views_of(old(v)@), path@, final(x)@),
        decreases old(v)@[i as int], 1nat,
    {
        proof {
            lemma_views_of(v@);
            lemma_replace_in_at(views_of(v@), i as int, path@);
            lemma_child_replaced(v@, i as int, path@);
        }
        let child = &mut v[i];
        child.find_subnode_mut(path)
    }

    /// Find a mutable subnode by its full path.
    pub fn find_subnode_mut(&mut self, path: &str) -> (r: Option<&mut OSCQueryNode>)
        ensures
            match find_node(old(self)@, path@) {
                Some(m) => r matches Some(x) && x@ == m && final(self)@ == replace_node(
                    old(self)@,
                    path@,
                    final(x)@,
                ),
                None => r is None && final(self)@ == old(self)@,
            },
        decreases *old(self), 0nat,
    {
        if opt_str_eq(&self.full_path, path) {
            return Some(self);
        }
        let idx = self.child_index_for(path);
        match idx {
            None => None,
            Some(i) => {
                proof {
                    let v = self.contents->0;
                    lemma_views_of(v@);
                    lemma_replace_in_at(views_of(v@), i as int, path@);
                    lemma_child_replaced(v@, i as int, path@);
                }
                match &mut self.contents {
                    Some(v) => Self::find_in_child_mut(v, i, path),
                    None => None,
                }
            },
        }
    }

    /// Add a child node, auto-creating intermediate nodes as needed.
    pub fn add_child_node(&mut self, child: OSCQueryNode)
        requires
            add_ok(old(self)@, child@),
        ensures
            final(self)@ == add_spec(old(self)@, child@),
            forall|r: Seq<char>| find_node(old(self)@, r) is Some ==> #[trigger] find_node(
                final(self)@,
                r,
            ) is Some,
            child@.full_path matches Some(p) ==> ((old(self)@.full_path == Some(p) || parent_path(
                p,
            ) is Some) ==> find_node(final(self)@, p) is Some),
            child@.full_path matches Some(p) ==> (old(self)@.full_path != Some(p)
                ==> missing_ancestors_found(old(self)@, final(self)@, p)),
            grows(old(self)@, final(self)@),
            child@.full_path matches Some(p) ==> (old(self)@.full_path != Some(p) && parent_path(
                p,
            ) is Some ==> final(self)@ == replace_node(
                old(self)@,
                first_ancestor(old(self)@, p),
                with_child(
                    find_node(old(self)@, first_ancestor(old(self)@, p))->0,
                    wrap(old(self)@, p, child@),
                ),
            )),
            forall|r: Seq<char>|
                #[trigger] find_node(final(self)@, r) is Some ==> find_node(old(self)@, r) is Some
                    || find_node(child@, r) is Some || (child@.full_path matches Some(p)
                    && missing_ancestor(old(self)@, p, r)),
        decreases path_len(child@),
    {
        proof {
            law_add_child_keeps_and_finds(self@, child@);
            law_add_child_creates_ancestors(self@, child@);
            law_add_child_keeps_in_place(self@, child@);
            law_add_child_adds_only(self@, child@);
            if let Some(p) = child@.full_path {
                if self@.full_path != Some(p) && parent_path(p) is Some {
                    law_add_child_shape(self@, child@, p);
                }
            }
        }
        let child_path: String = match &child.full_path {
            Some(p) => p.clone(),
            None => return ,
        };
        if opt_str_eq(&self.full_path, child_path.as_str()) {
            return ;
        }
        let parent: String = match parent_path_of(child_path.as_str()) {
            Some(q) => q,
            None => return ,
        };
        proof {
            lemma_parent_shorter(child_path@);
        }
        if self.find_subnode(parent.as_str()).is_none() {
            proof {
                lemma_parent_shorter(parent@);
            }
            self.add_child_node(OSCQueryNode::new(parent.as_str()));
        }
        let ghost n1 = self@;
        match self.find_subnode_mut(parent.as_str()) {
            Some(node) => {
                let ghost y = node@;
                match &mut node.contents {
                    Some(v) => {
                        proof {
                            lemma_views_of_push(v@, child);
                        }
                        v.push(child);
                    },
                    None => {
                        let mut v: Vec<OSCQueryNode> = Vec::new();
                        proof {
                            lemma_views_of_push(v@, child);
                            assert(v@.push(child) =~= seq![child]);
                            assert(views_of(Seq::<OSCQueryNode>::empty()) =~= Seq::<NodeView>::empty());
                        }
                        v.push(child);
                        node.contents = Some(v);
                    },
                }
                proof {
                    assert(node@ == with_child(y, child@));
                }
            },
            None => {},
        }
    }

    /// Whether `add_child_node` can add `child` here (see `add_ok`).
    pub fn can_add_child(&self, child: &OSCQueryNode) -> (r: bool)
        ensures
            r == add_ok(self@, child@),
    {
        let p = match &child.full_path {
            Some(p) => p,
            None => return true,
        };
        if opt_str_eq(&self.full_path, p.as_str()) {
            return true;
        }
        let mut q: String = match parent_path_of(p.as_str()) {
            Some(q) => q,
            None => return true,
        };
        loop
            invariant
                add_ok(self@, child@) == can_reach(self@, q@),
            decreases q@.len(),
        {
            if self.find_subnode(q.as_str()).is_some() {
                return true;
            }
            let r = match parent_path_of(q.as_str()) {
                Some(r) => r,
                None => return false,
            };
            if r.as_str().unicode_len() >= q.as_str().unicode_len() {
                return false;
            }
            q = r;
        }
    }
}



/// OSCQuery host information. `extensions` is a JSON object's entries:
/// where a key occurs more than once, the last entry holds its value.
#[derive(Debug, Clone)]
pub struct OSCHostInfo {
    pub name: String,
    pub osc_ip: Option<String>,
    pub osc_port: Option<u16>,
    pub osc_transport: Option<String>,
    pub extensions: Vec<(String, JsonValue)>,
}

/// The mathematical content of an `OSCHostInfo`.
pub struct HostInfoView {
    pub name: Seq<char>,
    pub osc_ip: Option<Seq<char>>,
    pub osc_port: Option<u16>,
    pub osc_transport: Option<Seq<char>>,
    pub extensions: Seq<(Seq<char>, JsonView)>,
}

impl View for OSCHostInfo {
    type V = HostInfoView;

    open spec fn view(&self) -> HostInfoView {
        HostInfoView {
            name: self.name@,
            osc_ip: opt_view(self.osc_ip),
            osc_port: self.osc_port,
            osc_transport: opt_view(self.osc_transport),
            extensions: entry_views(self.extensions@),
        }
    }
}

impl OSCHostInfo {
    /// The value of extension `key` (its last entry), if there is one.
    pub fn extension(&self, key: &str) -> (r: Option<&JsonValue>)
        ensures
            match r {
                Some(v) => lookup(self@.extensions, key@) == Some(v@),
                None => lookup(self@.extensions, key@) is None,
            },
    {
        let es = &self.extensions;
        proof {
            lemma_entry_views(es@);
        }
        let mut i: usize = es.len();
        assert(entry_views(es@).take(i as int) == entry_views(es@));
        while i > 0
            invariant
                i <= es.len(),
                self@.extensions == entry_views(es@),
                entry_views(es@).len() == es.len(),
                forall|j: int|
                    0 <= j < es.len() ==> #[trigger] entry_views(es@)[j] == (
                        es@[j].0@,
                        es@[j].1@,
                    ),
                lookup(entry_views(es@), key@) == lookup(entry_views(es@).take(i as int), key@),
            decreases i,
        {
            let ghost t = entry_views(es@).take(i as int);
            assert(t.last() == entry_views(es@)[i - 1]);
            if crate::text::str_eq(es[i - 1].0.as_str(), key) {
                return Some(&es[i - 1].1);
            }
            assert(t.drop_last() == entry_views(es@).take(i - 1));
            i = i - 1;
        }
        assert(entry_views(es@).take(0) == Seq::<(Seq<char>, JsonView)>::empty());
        None
    }
}

} // verus!
