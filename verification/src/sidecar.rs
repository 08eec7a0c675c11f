//! The decisions of the OSCQuery sidecar program: endpoint specifications,
//! endpoint files, the events it reports, and what it reports on discovery.
use vstd::prelude::*;
use crate::json::{entry_views, lemma_entry_views_push, member, JsonNumber, JsonValue, JsonView};
use crate::node::{
    bare_node, default_values_for_type_tags, tags_of, values_view, NodeView, OSCAccess,
    OSCQueryNode, OscValue,
};
use crate::table::NameTable;
use crate::text::{
    chars_of, find_char_from, index_from, lemma_index_from, split_on, starts_with,
    str_starts_with, trim, trimmed,
};

verus! {

/// The three parts of an endpoint specification `/path:type_tags:access`: what
/// comes before the first `:`, between the first and the second, and after the
/// second (which may hold more `:`). None with fewer than two `:`.
pub open spec fn endpoint_parts(s: Seq<char>) -> Option<(Seq<char>, Seq<char>, Seq<char>)> {
    let i = index_from(s, ':', 0);
    if i < 0 {
        None
    } else {
        let j = index_from(s, ':', i + 1);
        if j < 0 {
            None
        } else {
            Some((s.take(i), s.subrange(i + 1, j), s.skip(j + 1)))
        }
    }
}

/// The access level that an access mode stands for: `r`, `w`, `rw` or `n`.
pub open spec fn access_of_mode(m: Seq<char>) -> Option<OSCAccess> {
    if m == "r"@ {
        Some(OSCAccess::ReadOnly)
    } else if m == "w"@ {
        Some(OSCAccess::WriteOnly)
    } else if m == "rw"@ {
        Some(OSCAccess::ReadWrite)
    } else if m == "n"@ {
        Some(OSCAccess::NoValue)
    } else {
        None
    }
}

/// The message for a specification without three parts.
pub open spec fn bad_format_message(s: Seq<char>) -> Seq<char> {
    "Invalid endpoint format '"@ + s + "': expected /path:type_tags:access"@
}

/// The message for a path that does not start with `/`.
pub open spec fn bad_path_message(p: Seq<char>) -> Seq<char> {
    "Endpoint path must start with '/': '"@ + p + "'"@
}

/// The message for an unknown access mode.
pub open spec fn bad_access_message(m: Seq<char>) -> Seq<char> {
    "Unknown access mode '"@ + m + "': expected r/w/rw/n"@
}

/// What an endpoint specification reads as: its path, type tags and access
/// level, or the message of the first thing wrong with it.
pub open spec fn parse_endpoint_spec(s: Seq<char>) -> Result<
    (Seq<char>, Seq<char>, OSCAccess),
    Seq<char>,
> {
    match endpoint_parts(s) {
        None => Err(bad_format_message(s)),
        Some((path, tags, mode)) => if !starts_with(path, "/"@) {
            Err(bad_path_message(path))
        } else {
            match access_of_mode(mode) {
                Some(a) => Ok((path, tags, a)),
                None => Err(bad_access_message(mode)),
            }
        },
    }
}

/// Concatenation of three strings.
fn concat3(a: &str, b: &str, c: &str) -> (r: String)
    ensures
        r@ == a@ + b@ + c@,
{
    let mut s = String::from_str(a);
    s.append(b);
    s.append(c);
    s
}

/// Parse an endpoint specification `/path:type_tags:access`.
pub fn parse_endpoint(spec: &str) -> (r: Result<(String, String, OSCAccess), String>)
    ensures
        match (r, parse_endpoint_spec(spec@)) {
            (Ok((p, t, a)), Ok((p2, t2, a2))) => p@ == p2 && t@ == t2 && a == a2,
            (Err(e), Err(e2)) => e@ == e2,
            _ => false,
        },
{
    let cs = chars_of(spec);
    proof {
        lemma_index_from(spec@, ':', 0);
    }
    let i = match find_char_from(&cs, ':', 0) {
        Some(i) => i,
        None => {
            return Err(concat3("Invalid endpoint format '", spec, "': expected /path:type_tags:access"));
        },
    };
    proof {
        lemma_index_from(spec@, ':', i + 1);
    }
    assert(i < cs.len());
    let j = match find_char_from(&cs, ':', i + 1) {
        Some(j) => j,
        None => {
            return Err(concat3("Invalid endpoint format '", spec, "': expected /path:type_tags:access"));
        },
    };
    assert(j < cs.len());
    let path = spec.substring_char(0, i).to_owned();
    let tags = spec.substring_char(i + 1, j).to_owned();
    let mode = spec.substring_char(j + 1, cs.len()).to_owned();
    assert(spec@.subrange(0, i as int) == spec@.take(i as int));
    assert(spec@.subrange(j + 1, spec@.len() as int) == spec@.skip(j + 1));
    if !str_starts_with(path.as_str(), "/") {
        return Err(concat3("Endpoint path must start with '/': '", path.as_str(), "'"));
    }
    let m = mode.as_str();
    let access = if crate::text::str_eq(m, "r") {
        OSCAccess::ReadOnly
    } else if crate::text::str_eq(m, "w") {
        OSCAccess::WriteOnly
    } else if crate::text::str_eq(m, "rw") {
        OSCAccess::ReadWrite
    } else if crate::text::str_eq(m, "n") {
        OSCAccess::NoValue
    } else {
        return Err(concat3("Unknown access mode '", m, "': expected r/w/rw/n"));
    };
    Ok((path, tags, access))
}

/// Whether a trimmed line of an endpoints file holds a specification: it is
/// not blank and not a comment (starting with `#`).
pub open spec fn is_spec_line(l: Seq<char>) -> bool {
    l.len() > 0 && l[0] != '#'
}

/// The specifications of an endpoints file: its lines, trimmed, without blank
/// lines and comments. (A final empty line, which `str::lines` does not give,
/// is blank and left out either way.)
pub open spec fn endpoint_file_specs(text: Seq<char>) -> Seq<Seq<char>> {
    spec_lines(trimmed_lines(split_on(text, '\n')))
}

/// Each line trimmed.
pub open spec fn trimmed_lines(ls: Seq<Seq<char>>) -> Seq<Seq<char>> {
    ls.map_values(|l: Seq<char>| trimmed(l))
}

/// The lines that hold specifications.
pub open spec fn spec_lines(ls: Seq<Seq<char>>) -> Seq<Seq<char>> {
    ls.filter(|l: Seq<char>| is_spec_line(l))
}

/// The views of a list of strings.
pub open spec fn string_views(v: Seq<String>) -> Seq<Seq<char>> {
    v.map_values(|s: String| s@)
}

proof fn lemma_lines_push(d: Seq<Seq<char>>, x: Seq<char>)
    ensures
        spec_lines(trimmed_lines(d.push(x))) == if is_spec_line(trimmed(x)) {
            spec_lines(trimmed_lines(d)).push(trimmed(x))
        } else {
            spec_lines(trimmed_lines(d))
        },
{
    assert(trimmed_lines(d.push(x)) =~= trimmed_lines(d).push(trimmed(x)));
    trimmed_lines(d).lemma_filter_push(trimmed(x), |l: Seq<char>| is_spec_line(l));
}

proof fn lemma_split_on_step(s: Seq<char>, from: int)
    requires
        0 <= from <= s.len(),
        index_from(s, '\n', from) >= 0,
    ensures
        split_on(s.skip(from), '\n') == seq![s.subrange(from, index_from(s, '\n', from))] + split_on(
            s.skip(index_from(s, '\n', from) + 1),
            '\n',
        ),
{
    let t = s.skip(from);
    let k = index_from(s, '\n', from);
    lemma_index_from(s, '\n', from);
    lemma_index_from(t, '\n', 0);
    assert(index_from(t, '\n', 0) == k - from) by {
        let i = index_from(t, '\n', 0);
        if i < 0 {
            assert(t[k - from] == s[k]);
        } else {
            assert(t[i] == s[i + from]);
            if i < k - from {
            }
            if i > k - from {
                assert(t[k - from] == s[k]);
            }
        }
    }
    assert(t.take(k - from) =~= s.subrange(from, k));
    assert(t.skip(k - from + 1) =~= s.skip(k + 1));
}

proof fn lemma_split_on_last(s: Seq<char>, from: int)
    requires
        0 <= from <= s.len(),
        index_from(s, '\n', from) < 0,
    ensures
        split_on(s.skip(from), '\n') == seq![s.skip(from)],
{
    let t = s.skip(from);
    lemma_index_from(t, '\n', 0);
    lemma_index_from(s, '\n', from);
    if index_from(t, '\n', 0) >= 0 {
        let i = index_from(t, '\n', 0);
        assert(t[i] == s[i + from]);
    }
}

/// The endpoint specifications in the text of an endpoints file, in order.
pub fn endpoint_specs_from_file(text: &str) -> (r: Vec<String>)
    ensures
        string_views(r@) == endpoint_file_specs(text@),
{
    let cs = chars_of(text);
    let mut out: Vec<String> = Vec::new();
    let mut start: usize = 0;
    let ghost done: Seq<Seq<char>> = Seq::empty();
    assert(text@.skip(0) == text@);
    loop
        invariant
            start <= cs.len(),
            cs@ == text@,
            split_on(text@, '\n') == done + split_on(text@.skip(start as int), '\n'),
            string_views(out@) == spec_lines(trimmed_lines(done)),
        decreases cs.len() - start,
    {
        proof {
            lemma_index_from(text@, '\n', start as int);
        }
        let next = find_char_from(&cs, '\n', start);
        let end: usize = match next {
            Some(k) => k,
            None => cs.len(),
        };
        let piece = text.substring_char(start, end);
        let line = trim(piece);
        let ghost prev_out = out@;
        let lstr = line.as_str();
        let is_spec = !lstr.is_empty() && lstr.get_char(0) != '#';
        if is_spec {
            out.push(line);
        }
        proof {
            let piece_v = text@.subrange(start as int, end as int);
            let d2 = done.push(piece_v);
            lemma_lines_push(done, piece_v);
            assert(string_views(out@) == spec_lines(trimmed_lines(d2))) by {
                if is_spec {
                    assert(string_views(out@) =~= string_views(prev_out).push(trimmed(piece_v)));
                } else {
                    assert(out@ == prev_out);
                }
            }
            match next {
                Some(k) => {
                    lemma_split_on_step(text@, start as int);
                    assert(split_on(text@, '\n') == d2 + split_on(text@.skip(k + 1), '\n'));
                },
                None => {
                    lemma_split_on_last(text@, start as int);
                    assert(text@.skip(start as int) == piece_v);
                    assert(split_on(text@, '\n') == d2);
                },
            }
            done = d2;
        }
        match next {
            Some(k) => {
                start = k + 1;
            },
            None => {
                return out;
            },
        }
    }
}


/// An endpoint to advertise: a node with the path and access level, and
/// with the values when there are any.
pub open spec fn endpoint_node_spec(
    path: Seq<char>,
    values: Option<Seq<crate::node::OscValueView>>,
    access: OSCAccess,
) -> NodeView {
    let n = NodeView { access: Some(access), ..bare_node(path) };
    match values {
        Some(vs) => NodeView { osc_type: Some(tags_of(vs)), value: Some(vs), ..n },
        None => n,
    }
}

/// The node that advertises an endpoint with an optional value.
pub fn endpoint_node(path: &str, value: Option<Vec<OscValue>>, access: OSCAccess) -> (r: OSCQueryNode)
    ensures
        r@ == endpoint_node_spec(
            path@,
            match value {
                Some(v) => Some(values_view(v@)),
                None => None,
            },
            access,
        ),
        r@.full_path == Some(path@),
        r@.access == Some(access),
        r@.value == match value {
            Some(v) => Some(values_view(v@)),
            None => None,
        },
        r@.osc_type == match value {
            Some(v) => Some(tags_of(values_view(v@))),
            None => None,
        },
{
    let node = OSCQueryNode::new(path).with_access(access);
    match value {
        Some(vals) => node.with_value(vals),
        None => node,
    }
}

/// The node that advertises an endpoint read from a specification: its
/// values are the zero values of its type tags, and it has them as its value
/// only when there are any.
pub fn endpoint_node_of(path: &str, values: Vec<OscValue>, access: OSCAccess) -> (r: OSCQueryNode)
    ensures
        r@ == endpoint_node_spec(
            path@,
            if values@.len() == 0 {
                None
            } else {
                Some(values_view(values@))
            },
            access,
        ),
{
    if values.len() == 0 {
        endpoint_node(path, None, access)
    } else {
        endpoint_node(path, Some(values), access)
    }
}

/// An endpoint advertised with values holds exactly those values: its node
/// has the given path and access level, its value is the given values, and
/// its type is their type tags, one per value in order; without values it
/// has neither. Its JSON (as served) carries the values under `VALUE` and
/// the tags under `TYPE`.
pub proof fn law_endpoint_holds_values(
    path: Seq<char>,
    values: Option<Seq<crate::node::OscValueView>>,
    access: OSCAccess,
)
    ensures
        endpoint_node_spec(path, values, access).full_path == Some(path),
        endpoint_node_spec(path, values, access).access == Some(access),
        endpoint_node_spec(path, values, access).value == values,
        endpoint_node_spec(path, values, access).contents is None,
        endpoint_node_spec(path, values, access).description is None,
        values is None ==> endpoint_node_spec(path, values, access).osc_type is None,
        values matches Some(vs) ==> endpoint_node_spec(path, values, access).osc_type matches Some(
            t,
        ) && t.len() == vs.len() && forall|i: int|
            0 <= i < vs.len() ==> t[i] == crate::node::tag_of(#[trigger] vs[i]),
        values matches Some(vs) ==> member(
            crate::codec::node_json(endpoint_node_spec(path, values, access)),
            "VALUE"@,
        ) == Some(JsonView::Array(vs.map_values(|v: crate::node::OscValueView| crate::codec::value_json(v)))),
        values is None ==> member(
            crate::codec::node_json(endpoint_node_spec(path, values, access)),
            "VALUE"@,
        ) is None,
{
    reveal_strlit("FULL_PATH");
    reveal_strlit("TYPE");
    reveal_strlit("ACCESS");
    reveal_strlit("VALUE");
    assert("FULL_PATH"@.len() == 9 && "TYPE"@.len() == 4 && "ACCESS"@.len() == 6
        && "VALUE"@.len() == 5);
    assert("VALUE"@ != "FULL_PATH"@ && "VALUE"@ != "ACCESS"@ && "VALUE"@ != "TYPE"@);
    let n = endpoint_node_spec(path, values, access);
    let acc = ("ACCESS"@, crate::codec::int_json(crate::node::access_code(access) as i64));
    let fp = ("FULL_PATH"@, JsonView::String(path));
    match values {
        Some(vs) => {
            let vj = ("VALUE"@, JsonView::Array(vs.map_values(|v: crate::node::OscValueView| crate::codec::value_json(v))));
            let es = seq![fp, ("TYPE"@, JsonView::String(tags_of(vs))), acc, vj];
            assert(crate::codec::node_json(n) == JsonView::Object(es)) by {
                assert(crate::codec::str_entry("FULL_PATH"@, n.full_path) + crate::codec::str_entry(
                    "TYPE"@,
                    n.osc_type,
                ) + seq![acc] + seq![vj] + crate::codec::str_entry("DESCRIPTION"@, n.description)
                    + Seq::<(Seq<char>, JsonView)>::empty() =~= es);
            }
            assert(es.last() == vj);
        },
        None => {
            let es = seq![fp, acc];
            assert(crate::codec::node_json(n) == JsonView::Object(es)) by {
                assert(crate::codec::str_entry("FULL_PATH"@, n.full_path) + crate::codec::str_entry(
                    "TYPE"@,
                    n.osc_type,
                ) + seq![acc] + Seq::<(Seq<char>, JsonView)>::empty() + crate::codec::str_entry(
                    "DESCRIPTION"@,
                    n.description,
                ) + Seq::<(Seq<char>, JsonView)>::empty() =~= es);
            }
            assert(es.last() == acc);
            assert(es.drop_last() =~= seq![fp]);
            assert(seq![fp].last() == fp);
            assert(seq![fp].drop_last() =~= Seq::<(Seq<char>, JsonView)>::empty());
            assert(crate::json::lookup(es, "VALUE"@) == crate::json::lookup(seq![fp], "VALUE"@));
            assert(crate::json::lookup(seq![fp], "VALUE"@) == crate::json::lookup(
                Seq::<(Seq<char>, JsonView)>::empty(),
                "VALUE"@,
            ));
        },
    }
}

/// The message for a specification whose type tags hold an unknown tag.
pub open spec fn bad_tags_message(spec: Seq<char>, e: Seq<char>) -> Seq<char> {
    "Bad type tags in endpoint '"@ + spec + "': "@ + e
}

/// An endpoint specification read in full: its path, the zero values of its
/// type tags, and its access level; or the message of what is wrong with it.
pub fn endpoint_from_spec(spec: &str) -> (r: Result<(String, Vec<OscValue>, OSCAccess), String>)
    ensures
        match (r, parse_endpoint_spec(spec@)) {
            (Ok((p, vs, a)), Ok((p2, t2, a2))) => p@ == p2 && a == a2 && crate::node::all_tags_known(t2)
                && values_view(vs@) == t2.map_values(|c: char| crate::node::default_for_tag(c)->0),
            (Err(e), Ok((p2, t2, a2))) => exists|k: int|
                0 <= k < t2.len() && crate::node::default_for_tag(#[trigger] t2[k]) is None
                    && crate::node::all_tags_known(t2.take(k)) && e@ == bad_tags_message(
                    spec@,
                    crate::node::unknown_tag_message(t2[k]),
                ),
            (Err(e), Err(e2)) => e@ == e2,
            _ => false,
        },
{
    let (path, tags, access) = match parse_endpoint(spec) {
        Ok(x) => x,
        Err(e) => {
            return Err(e);
        },
    };
    match default_values_for_type_tags(tags.as_str()) {
        Ok(vs) => Ok((path, vs, access)),
        Err(e) => {
            let mut m = String::from_str("Bad type tags in endpoint '");
            m.append(spec);
            m.append("': ");
            m.append(e.as_str());
            proof {
                let k = choose|k: int|
                    0 <= k < tags@.len() && crate::node::default_for_tag(#[trigger] tags@[k]) is None
                        && crate::node::all_tags_known(tags@.take(k)) && e@
                        == crate::node::unknown_tag_message(tags@[k]);
                assert(crate::node::default_for_tag(tags@[k]) is None);
                assert(m@ == bad_tags_message(spec@, e@));
                assert(m@ == bad_tags_message(spec@, crate::node::unknown_tag_message(tags@[k])));
            }
            Err(m)
        },
    }
}

/// An event that the sidecar reports, one JSON object per line.
#[derive(Debug)]
pub enum Event {
    Ready { http_port: u16, osc_port: u16 },
    ServiceDiscovered { name: String, osc_ip: String, osc_port: u16 },
    ServiceLost { name: String },
    Error { message: String },
}

/// The mathematical content of an `Event`.
pub enum EventView {
    Ready { http_port: u16, osc_port: u16 },
    ServiceDiscovered { name: Seq<char>, osc_ip: Seq<char>, osc_port: u16 },
    ServiceLost { name: Seq<char> },
    Error { message: Seq<char> },
}

impl View for Event {
    type V = EventView;

    open spec fn view(&self) -> EventView {
        match self {
            Event::Ready { http_port, osc_port } => EventView::Ready {
                http_port: *http_port,
                osc_port: *osc_port,
            },
            Event::ServiceDiscovered { name, osc_ip, osc_port } => EventView::ServiceDiscovered {
                name: name@,
                osc_ip: osc_ip@,
                osc_port: *osc_port,
            },
            Event::ServiceLost { name } => EventView::ServiceLost { name: name@ },
            Event::Error { message } => EventView::Error { message: message@ },
        }
    }
}

/// A port as a JSON number.
pub open spec fn port_json(p: u16) -> JsonView {
    crate::codec::int_json(p as i64)
}

/// The JSON object of an event: its kind under `event`, then its fields.
pub open spec fn event_json(e: EventView) -> JsonView {
    match e {
        EventView::Ready { http_port, osc_port } => JsonView::Object(
            seq![
                ("event"@, JsonView::String("ready"@)),
                ("http_port"@, port_json(http_port)),
                ("osc_port"@, port_json(osc_port)),
            ],
        ),
        EventView::ServiceDiscovered { name, osc_ip, osc_port } => JsonView::Object(
            seq![
                ("event"@, JsonView::String("service_discovered"@)),
                ("name"@, JsonView::String(name)),
                ("osc_ip"@, JsonView::String(osc_ip)),
                ("osc_port"@, port_json(osc_port)),
            ],
        ),
        EventView::ServiceLost { name } => JsonView::Object(
            seq![("event"@, JsonView::String("service_lost"@)), ("name"@, JsonView::String(name))],
        ),
        EventView::Error { message } => JsonView::Object(
            seq![("event"@, JsonView::String("error"@)), ("message"@, JsonView::String(message))],
        ),
    }
}

/// Looking up the keys of a short object whose keys differ.
proof fn lemma_lookup4(
    e0: (Seq<char>, JsonView),
    e1: (Seq<char>, JsonView),
    e2: (Seq<char>, JsonView),
    e3: (Seq<char>, JsonView),
)
    requires
        e0.0 != e1.0 && e0.0 != e2.0 && e0.0 != e3.0 && e1.0 != e2.0 && e1.0 != e3.0 && e2.0 != e3.0,
    ensures
        crate::json::lookup(seq![e0, e1, e2, e3], e0.0) == Some(e0.1),
        crate::json::lookup(seq![e0, e1, e2, e3], e1.0) == Some(e1.1),
        crate::json::lookup(seq![e0, e1, e2, e3], e2.0) == Some(e2.1),
        crate::json::lookup(seq![e0, e1, e2, e3], e3.0) == Some(e3.1),
        crate::json::lookup(seq![e0, e1, e2], e0.0) == Some(e0.1),
        crate::json::lookup(seq![e0, e1, e2], e1.0) == Some(e1.1),
        crate::json::lookup(seq![e0, e1, e2], e2.0) == Some(e2.1),
        crate::json::lookup(seq![e0, e1], e0.0) == Some(e0.1),
        crate::json::lookup(seq![e0, e1], e1.0) == Some(e1.1),
{
    let s4 = seq![e0, e1, e2, e3];
    let s3 = seq![e0, e1, e2];
    let s2 = seq![e0, e1];
    let s1 = seq![e0];
    assert(s4.drop_last() =~= s3);
    assert(s3.drop_last() =~= s2);
    assert(s2.drop_last() =~= s1);
    assert(s4.last() == e3);
    assert(s3.last() == e2);
    assert(s2.last() == e1);
    assert(s1.last() == e0);
    assert(crate::json::lookup(s1, e0.0) == Some(e0.1));
    assert(crate::json::lookup(s2, e0.0) == Some(e0.1));
    assert(crate::json::lookup(s3, e0.0) == Some(e0.1));
    assert(crate::json::lookup(s3, e1.0) == Some(e1.1));
}

/// The JSON of an event carries the event's own fields, each under its own
/// key, with its kind under `event`: a discovered service's name, address
/// and port; a lost service's name; the ports of the ready event; the
/// message of an error.
pub proof fn law_event_json_carries_fields(e: EventView)
    ensures
        match e {
            EventView::Ready { http_port, osc_port } => {
                &&& member(event_json(e), "event"@) == Some(JsonView::String("ready"@))
                &&& member(event_json(e), "http_port"@) == Some(crate::codec::int_json(http_port as i64))
                &&& member(event_json(e), "osc_port"@) == Some(crate::codec::int_json(osc_port as i64))
            },
            EventView::ServiceDiscovered { name, osc_ip, osc_port } => {
                &&& member(event_json(e), "event"@) == Some(JsonView::String("service_discovered"@))
                &&& member(event_json(e), "name"@) == Some(JsonView::String(name))
                &&& member(event_json(e), "osc_ip"@) == Some(JsonView::String(osc_ip))
                &&& member(event_json(e), "osc_port"@) == Some(crate::codec::int_json(osc_port as i64))
            },
            EventView::ServiceLost { name } => {
                &&& member(event_json(e), "event"@) == Some(JsonView::String("service_lost"@))
                &&& member(event_json(e), "name"@) == Some(JsonView::String(name))
            },
            EventView::Error { message } => {
                &&& member(event_json(e), "event"@) == Some(JsonView::String("error"@))
                &&& member(event_json(e), "message"@) == Some(JsonView::String(message))
            },
        },
{
    reveal_strlit("event");
    reveal_strlit("http_port");
    reveal_strlit("osc_port");
    reveal_strlit("name");
    reveal_strlit("osc_ip");
    reveal_strlit("message");
    assert("event"@.len() == 5 && "http_port"@.len() == 9 && "osc_port"@.len() == 8
        && "name"@.len() == 4 && "osc_ip"@.len() == 6 && "message"@.len() == 7);
    let dummy = (Seq::<char>::empty(), JsonView::Null);
    match e {
        EventView::Ready { http_port, osc_port } => {
            lemma_lookup4(
                ("event"@, JsonView::String("ready"@)),
                ("http_port"@, port_json(http_port)),
                ("osc_port"@, port_json(osc_port)),
                dummy,
            );
        },
        EventView::ServiceDiscovered { name, osc_ip, osc_port } => {
            lemma_lookup4(
                ("event"@, JsonView::String("service_discovered"@)),
                ("name"@, JsonView::String(name)),
                ("osc_ip"@, JsonView::String(osc_ip)),
                ("osc_port"@, port_json(osc_port)),
            );
        },
        EventView::ServiceLost { name } => {
            lemma_lookup4(
                ("event"@, JsonView::String("service_lost"@)),
                ("name"@, JsonView::String(name)),
                dummy,
                ("osc_port"@, JsonView::Null),
            );
        },
        EventView::Error { message } => {
            lemma_lookup4(
                ("event"@, JsonView::String("error"@)),
                ("message"@, JsonView::String(message)),
                dummy,
                ("osc_port"@, JsonView::Null),
            );
        },
    }
}

fn push_str_entry(es: &mut Vec<(String, JsonValue)>, k: &str, v: &str)
    ensures
        entry_views(final(es)@) == entry_views(old(es)@).push((k@, JsonView::String(v@))),
{
    let e = (String::from_str(k), JsonValue::String(String::from_str(v)));
    proof {
        lemma_entry_views_push(es@, e);
    }
    es.push(e);
}

fn push_port_entry(es: &mut Vec<(String, JsonValue)>, k: &str, p: u16)
    ensures
        entry_views(final(es)@) == entry_views(old(es)@).push((k@, port_json(p))),
{
    let e = (String::from_str(k), JsonValue::Number(JsonNumber::from_i64(p as i64)));
    proof {
        lemma_entry_views_push(es@, e);
    }
    es.push(e);
}

impl Event {
    /// The JSON object of this event.
    pub fn to_json(&self) -> (r: JsonValue)
        ensures
            r@ == event_json(self@),
    {
        let mut es: Vec<(String, JsonValue)> = Vec::new();
        assert(entry_views(es@) =~= Seq::<(Seq<char>, JsonView)>::empty());
        match self {
            Event::Ready { http_port, osc_port } => {
                push_str_entry(&mut es, "event", "ready");
                push_port_entry(&mut es, "http_port", *http_port);
                push_port_entry(&mut es, "osc_port", *osc_port);
            },
            Event::ServiceDiscovered { name, osc_ip, osc_port } => {
                push_str_entry(&mut es, "event", "service_discovered");
                push_str_entry(&mut es, "name", name.as_str());
                push_str_entry(&mut es, "osc_ip", osc_ip.as_str());
                push_port_entry(&mut es, "osc_port", *osc_port);
            },
            Event::ServiceLost { name } => {
                push_str_entry(&mut es, "event", "service_lost");
                push_str_entry(&mut es, "name", name.as_str());
            },
            Event::Error { message } => {
                push_str_entry(&mut es, "event", "error");
                push_str_entry(&mut es, "message", message.as_str());
            },
        }
        assert(entry_views(es@) =~= match event_json(self@) {
            JsonView::Object(x) => x,
            _ => Seq::empty(),
        });
        JsonValue::Object(es)
    }
}

/// What the sidecar has reported as discovered: each service's full name,
/// with the name it was reported under.
pub struct Discoveries {
    pub known: NameTable<String>,
}

/// The address reported for a service without one.
pub open spec fn fallback_ip() -> Seq<char> {
    "127.0.0.1"@
}

/// The view of an optional event.
pub open spec fn opt_event_view(e: Option<Event>) -> Option<EventView> {
    match e {
        Some(x) => Some(x@),
        None => None,
    }
}

/// What the sidecar remembers and reports when a service with full name
/// `fullname`, record name `name`, first address `address` and port `port` is
/// found: nothing for its own services (whose full name starts with `own`);
/// otherwise the service is remembered under its full name and reported as
/// discovered, at its address or at 127.0.0.1.
pub open spec fn found_spec(
    known: Map<Seq<char>, String>,
    own: Seq<char>,
    fullname: Seq<char>,
    name: String,
    address: Option<Seq<char>>,
    port: u16,
) -> (Map<Seq<char>, String>, Option<EventView>) {
    if starts_with(fullname, own) {
        (known, None)
    } else {
        (
            known.insert(fullname, name),
            Some(
                EventView::ServiceDiscovered {
                    name: name@,
                    osc_ip: match address {
                        Some(a) => a,
                        None => fallback_ip(),
                    },
                    osc_port: port,
                },
            ),
        )
    }
}

/// What the sidecar remembers and reports when the service with full name
/// `fullname` is lost: it is forgotten, and reported lost under the name it
/// was reported with when it had been reported at all.
pub open spec fn lost_spec(known: Map<Seq<char>, String>, fullname: Seq<char>) -> (
    Map<Seq<char>, String>,
    Option<EventView>,
) {
    (
        known.remove(fullname),
        if known.contains_key(fullname) {
            Some(EventView::ServiceLost { name: known[fullname]@ })
        } else {
            None
        },
    )
}

impl Discoveries {
    /// Nothing discovered yet.
    pub fn new() -> (r: Self)
        ensures
            r.known.map() == Map::<Seq<char>, String>::empty(),
    {
        Discoveries { known: NameTable::new() }
    }

    /// A service was found. The sidecar's own services (whose full name starts
    /// with its own name) are passed over; any other is remembered under its
    /// full name and reported, at its first address or at 127.0.0.1.
    pub fn on_service_found(
        &mut self,
        own_name: &str,
        fullname: String,
        name: String,
        address: Option<String>,
        port: u16,
    ) -> (r: Option<Event>)
        ensures
            (final(self).known.map(), opt_event_view(r)) == found_spec(
                old(self).known.map(),
                own_name@,
                fullname@,
                name,
                crate::text::opt_view(address),
                port,
            ),
            !starts_with(fullname@, own_name@) ==> (r matches Some(
                Event::ServiceDiscovered { name: n, osc_ip: _, osc_port: _ },
            ) && n == name),
    {
        if str_starts_with(fullname.as_str(), own_name) {
            return None;
        }
        let ip = match address {
            Some(a) => a,
            None => String::from_str("127.0.0.1"),
        };
        let reported = name.clone();
        self.known.insert(fullname, name);
        Some(Event::ServiceDiscovered { name: reported, osc_ip: ip, osc_port: port })
    }

    /// A service was lost: when it had been reported, it is forgotten and
    /// reported lost under the name it was reported with.
    pub fn on_service_lost(&mut self, fullname: &str) -> (r: Option<Event>)
        ensures
            (final(self).known.map(), opt_event_view(r)) == lost_spec(old(self).known.map(), fullname@),
    {
        match self.known.remove(fullname) {
            Some(name) => Some(Event::ServiceLost { name }),
            None => None,
        }
    }
}

/// A service that is found (and is not the sidecar's own) and then lost is
/// reported lost under the name it was reported discovered with, and is then
/// forgotten: the sidecar knows what it knew before, less that service.
pub proof fn law_found_then_lost(
    known: Map<Seq<char>, String>,
    own: Seq<char>,
    fullname: Seq<char>,
    name: String,
    address: Option<Seq<char>>,
    port: u16,
)
    requires
        !starts_with(fullname, own),
    ensures
        ({
            let (k1, e1) = found_spec(known, own, fullname, name, address, port);
            let (k2, e2) = lost_spec(k1, fullname);
            &&& e1 matches Some(EventView::ServiceDiscovered { name: n, osc_ip: _, osc_port: _ })
            &&& e2 == Some(EventView::ServiceLost { name: n })
            &&& k2 == known.remove(fullname)
        }),
{
    let k1 = known.insert(fullname, name);
    assert(k1.remove(fullname) =~= known.remove(fullname));
}

/// A loss is reported only for a service that was reported discovered: losing
/// a service that is not known reports nothing and changes nothing.
pub proof fn law_unknown_loss_is_silent(known: Map<Seq<char>, String>, fullname: Seq<char>)
    requires
        !known.contains_key(fullname),
    ensures
        lost_spec(known, fullname) == (known, None::<EventView>),
{
    assert(known.remove(fullname) =~= known);
}

} // verus!
