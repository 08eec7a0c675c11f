//! What an OSCQuery service holds and how it answers requests.
use vstd::prelude::*;
use mdns_sd::ServiceInfo;
use crate::codec::{host_json, int_json, node_json, str_entry};
use crate::json::{entry_views, lemma_entry_views_push, lookup, member, JsonValue, JsonView};
use crate::mdns::{hostname_of, normalized_host, txt_map, txt_of, addresses_of, fullname_of, mdns_error_text, new_service_info, port_of, txt_keys_ok};
use crate::node::{values_view, OSCAccess, OscValue, add_ok, add_spec, law_add_child_keeps_and_finds, parent_path, find_node, HostInfoView, NodeView, OSCHostInfo, OSCQueryNode};
use crate::text::{contains_seq, occurs_at, str_contains};
use crate::sidecar::{endpoint_node, endpoint_node_spec};

verus! {

/// The root of a service's address tree: path `/`, described as the root node.
pub open spec fn root_node_spec() -> NodeView {
    NodeView { description: Some("root node"@), ..crate::node::bare_node("/"@) }
}

/// The root of a new service's address tree.
pub fn root_node() -> (r: OSCQueryNode)
    ensures
        r@ == root_node_spec(),
{
    OSCQueryNode::new("/").with_description("root node")
}

/// The extensions that a service announces: ACCESS, RANGE, TYPE and VALUE,
/// but not CLIPMODE.
pub open spec fn service_extensions() -> Seq<(Seq<char>, JsonView)> {
    seq![
        ("ACCESS"@, JsonView::Bool(true)),
        ("CLIPMODE"@, JsonView::Bool(false)),
        ("RANGE"@, JsonView::Bool(true)),
        ("TYPE"@, JsonView::Bool(true)),
        ("VALUE"@, JsonView::Bool(true)),
    ]
}

/// The host information of a service named `name` that takes OSC over UDP at
/// `osc_ip`:`osc_port`.
pub open spec fn service_host_info(name: Seq<char>, osc_port: u16, osc_ip: Seq<char>) -> HostInfoView {
    HostInfoView {
        name: name,
        osc_ip: Some(osc_ip),
        osc_port: Some(osc_port),
        osc_transport: Some("UDP"@),
        extensions: service_extensions(),
    }
}

fn push_flag(es: &mut Vec<(String, JsonValue)>, k: &str, b: bool)
    ensures
        entry_views(final(es)@) == entry_views(old(es)@).push((k@, JsonView::Bool(b))),
{
    let e = (String::from_str(k), JsonValue::Bool(b));
    proof {
        lemma_entry_views_push(es@, e);
    }
    es.push(e);
}

/// The host information of a new service.
pub fn host_info_for(name: &str, osc_port: u16, osc_ip: &str) -> (r: OSCHostInfo)
    ensures
        r@ == service_host_info(name@, osc_port, osc_ip@),
        r.name@ == name@,
        crate::text::opt_view(r.osc_ip) == Some(osc_ip@),
        r.osc_port == Some(osc_port),
{
    let mut ext: Vec<(String, JsonValue)> = Vec::new();
    assert(entry_views(ext@) =~= Seq::<(Seq<char>, JsonView)>::empty());
    push_flag(&mut ext, "ACCESS", true);
    push_flag(&mut ext, "CLIPMODE", false);
    push_flag(&mut ext, "RANGE", true);
    push_flag(&mut ext, "TYPE", true);
    push_flag(&mut ext, "VALUE", true);
    assert(entry_views(ext@) =~= service_extensions());
    OSCHostInfo {
        name: name.to_owned(),
        osc_ip: Some(osc_ip.to_owned()),
        osc_port: Some(osc_port),
        osc_transport: Some(String::from_str("UDP")),
        extensions: ext,
    }
}

/// A service type without the letter `b` names no subtype.
proof fn lemma_no_subtype(t: Seq<char>)
    requires
        forall|i: int| 0 <= i < t.len() ==> t[i] != 'b',
    ensures
        !contains_seq(t, "._sub."@),
{
    reveal_strlit("._sub.");
    assert forall|i: int| !occurs_at(t, "._sub."@, i) by {
        if occurs_at(t, "._sub."@, i) {
            assert(t.subrange(i, i + 6)[4] == "._sub."@[4]);
            assert(t[i + 4] == 'b');
        }
    }
}

/// A new service's host information holds what the service was started
/// with: its name, the OSC address `osc_ip` and port `osc_port` it was given,
/// and UDP as the transport; and the `HOST_INFO` document it serves carries
/// each of them under its key.
pub proof fn law_host_info_holds_arguments(name: Seq<char>, osc_port: u16, osc_ip: Seq<char>)
    ensures
        service_host_info(name, osc_port, osc_ip).name == name,
        service_host_info(name, osc_port, osc_ip).osc_ip == Some(osc_ip),
        service_host_info(name, osc_port, osc_ip).osc_port == Some(osc_port),
        member(host_json(service_host_info(name, osc_port, osc_ip)), "NAME"@) == Some(
            JsonView::String(name),
        ),
        member(host_json(service_host_info(name, osc_port, osc_ip)), "OSC_IP"@) == Some(
            JsonView::String(osc_ip),
        ),
        member(host_json(service_host_info(name, osc_port, osc_ip)), "OSC_PORT"@) == Some(
            int_json(osc_port as i64),
        ),
        member(host_json(service_host_info(name, osc_port, osc_ip)), "OSC_TRANSPORT"@) == Some(
            JsonView::String("UDP"@),
        ),
{
    reveal_strlit("NAME");
    reveal_strlit("OSC_IP");
    reveal_strlit("OSC_PORT");
    reveal_strlit("OSC_TRANSPORT");
    reveal_strlit("EXTENSIONS");
    let h = service_host_info(name, osc_port, osc_ip);
    let es = seq![
        ("NAME"@, JsonView::String(name)),
        ("OSC_IP"@, JsonView::String(osc_ip)),
        ("OSC_PORT"@, int_json(osc_port as i64)),
        ("OSC_TRANSPORT"@, JsonView::String("UDP"@)),
        ("EXTENSIONS"@, JsonView::Object(service_extensions())),
    ];
    assert(host_json(h) == JsonView::Object(es)) by {
        assert(seq![("NAME"@, JsonView::String(h.name))] + str_entry("OSC_IP"@, h.osc_ip) + seq![
            ("OSC_PORT"@, int_json(osc_port as i64)),
        ] + str_entry("OSC_TRANSPORT"@, h.osc_transport) + seq![
            ("EXTENSIONS"@, JsonView::Object(h.extensions)),
        ] =~= es);
    }
    assert("NAME"@.len() == 4 && "OSC_IP"@.len() == 6 && "OSC_PORT"@.len() == 8
        && "OSC_TRANSPORT"@.len() == 13 && "EXTENSIONS"@.len() == 10);
    assert(es.drop_last() =~= es.take(4));
    assert(es.take(4).drop_last() =~= es.take(3));
    assert(es.take(3).drop_last() =~= es.take(2));
    assert(es.take(2).drop_last() =~= es.take(1));
    assert(es.last() == es[4]);
    assert(es.take(4).last() == es[3]);
    assert(es.take(3).last() == es[2]);
    assert(es.take(2).last() == es[1]);
    assert(es.take(1).last() == es[0]);
    assert("OSC_TRANSPORT"@ != "EXTENSIONS"@);
    assert("OSC_PORT"@ != "EXTENSIONS"@ && "OSC_PORT"@ != "OSC_TRANSPORT"@);
    assert("OSC_IP"@ != "EXTENSIONS"@ && "OSC_IP"@ != "OSC_TRANSPORT"@ && "OSC_IP"@ != "OSC_PORT"@);
    assert("NAME"@ != "EXTENSIONS"@ && "NAME"@ != "OSC_TRANSPORT"@ && "NAME"@ != "OSC_PORT"@
        && "NAME"@ != "OSC_IP"@);
    assert(lookup(es, "OSC_TRANSPORT"@) == lookup(es.take(4), "OSC_TRANSPORT"@));
    assert(lookup(es, "OSC_TRANSPORT"@) == Some(JsonView::String("UDP"@)));
    assert(lookup(es.take(4), "OSC_PORT"@) == lookup(es.take(3), "OSC_PORT"@));
    assert(lookup(es, "OSC_PORT"@) == lookup(es.take(4), "OSC_PORT"@));
    assert(lookup(es, "OSC_IP"@) == lookup(es.take(4), "OSC_IP"@));
    assert(lookup(es.take(4), "OSC_IP"@) == lookup(es.take(3), "OSC_IP"@));
    assert(lookup(es.take(3), "OSC_IP"@) == lookup(es.take(2), "OSC_IP"@));
    assert(lookup(es, "NAME"@) == lookup(es.take(4), "NAME"@));
    assert(lookup(es.take(4), "NAME"@) == lookup(es.take(3), "NAME"@));
    assert(lookup(es.take(3), "NAME"@) == lookup(es.take(2), "NAME"@));
    assert(lookup(es.take(2), "NAME"@) == lookup(es.take(1), "NAME"@));
}

/// The two records that a service registers: an OSCQuery record at the HTTP
/// port and an OSC record at the OSC port, both for host `{name}.local.` at
/// 127.0.0.1 with TXT property `txtvers=1`. They are always made; on an error
/// of `mdns_sd` the message says which record failed.
pub fn service_records(name: &str, http_port: u16, osc_port: u16) -> (r: Result<
    (ServiceInfo, ServiceInfo),
    String,
>)
    ensures
        match r {
            Ok((q, o)) => {
                &&& fullname_of(q) == name@ + "."@ + "_oscjson._tcp.local."@
                &&& port_of(q) == http_port
                &&& addresses_of(q) == set!["127.0.0.1"@]
                &&& fullname_of(o) == name@ + "."@ + "_osc._udp.local."@
                &&& port_of(o) == osc_port
                &&& addresses_of(o) == set!["127.0.0.1"@]
                &&& hostname_of(q) == normalized_host(name@ + ".local."@)
                &&& hostname_of(o) == normalized_host(name@ + ".local."@)
                &&& txt_of(q) == Map::<Seq<char>, Option<Seq<u8>>>::empty().insert(
                    "txtvers"@,
                    Some(vstd::utf8::encode_utf8("1"@)),
                )
                &&& txt_of(o) == txt_of(q)
            },
            Err(_) => false,
        },
{
    let mut host = String::from_str(name);
    host.append(".local.");
    let props = vec![(String::from_str("txtvers"), String::from_str("1"))];
    let ip = "127.0.0.1";
    proof {
        reveal_strlit("_oscjson._tcp.local.");
        reveal_strlit("_osc._udp.local.");
        lemma_no_subtype("_oscjson._tcp.local."@);
        lemma_no_subtype("_osc._udp.local."@);
        reveal_strlit("txtvers");
        assert(vstd::utf8::is_ascii_chars(props@[0].0@));
        assert(!props@[0].0@.contains('='));
        assert(txt_keys_ok(props@));
        assert(props@.len() == 1);
        assert(props@[0].0@ == "txtvers"@);
        assert(props@[0].1@ == "1"@);
        assert(props@.drop_last() =~= Seq::<(String, String)>::empty());
        assert(txt_map(Seq::<(String, String)>::empty()) == Map::<Seq<char>, Option<Seq<u8>>>::empty());
        assert(txt_map(props@.drop_last()) == Map::<Seq<char>, Option<Seq<u8>>>::empty());
        assert(txt_map(props@) == Map::<Seq<char>, Option<Seq<u8>>>::empty().insert(
            "txtvers"@,
            Some(vstd::utf8::encode_utf8("1"@)),
        ));
    }
    let oscquery = match new_service_info(
        "_oscjson._tcp.local.",
        name,
        host.as_str(),
        ip,
        http_port,
        props.as_slice(),
    ) {
        Ok(i) => i,
        Err(e) => {
            let mut m = String::from_str("Failed to create OSCQuery service info: ");
            m.append(mdns_error_text(&e).as_str());
            return Err(m);
        },
    };
    let osc = match new_service_info(
        "_osc._udp.local.",
        name,
        host.as_str(),
        ip,
        osc_port,
        props.as_slice(),
    ) {
        Ok(i) => i,
        Err(e) => {
            let mut m = String::from_str("Failed to create OSC service info: ");
            m.append(mdns_error_text(&e).as_str());
            return Err(m);
        },
    };
    Ok((oscquery, osc))
}

/// Adds the node that advertises an endpoint (see `endpoint_node`) to a
/// service's address tree, when `add_child_node` can add it; says whether it
/// did. Advertising is adding that node; where it cannot be added the tree is
/// left as it was.
pub fn advertise(root: &mut OSCQueryNode, path: &str, value: Option<Vec<OscValue>>, access: OSCAccess) -> (added: bool)
    ensures
        added == add_ok(
            old(root)@,
            endpoint_node_spec(
                path@,
                match value {
                    Some(v) => Some(values_view(v@)),
                    None => None,
                },
                access,
            ),
        ),
        added ==> final(root)@ == add_spec(
            old(root)@,
            endpoint_node_spec(
                path@,
                match value {
                    Some(v) => Some(values_view(v@)),
                    None => None,
                },
                access,
            ),
        ),
        !added ==> final(root)@ == old(root)@,
{
    let node = endpoint_node(path, value, access);
    if root.can_add_child(&node) {
        root.add_child_node(node);
        true
    } else {
        false
    }
}

/// The body of a reply: a JSON document, or plain text.
pub enum ReplyBody {
    Json(JsonValue),
    Text(String),
}

/// A reply to an HTTP request; its content type is always `application/json`.
pub struct Reply {
    pub status: u16,
    pub body: ReplyBody,
}

/// What a service answers to a request for `path`: the host information when
/// the path mentions `HOST_INFO`; else the node with that path and its
/// subtree; else 404 with the text "OSC Path not found".
pub open spec fn reply_spec(root: NodeView, host: HostInfoView, path: Seq<char>) -> (u16, Result<
    JsonView,
    Seq<char>,
>) {
    if contains_seq(path, "HOST_INFO"@) {
        (200, Ok(host_json(host)))
    } else {
        match find_node(root, path) {
            Some(n) => (200, Ok(node_json(n))),
            None => (404, Err("OSC Path not found"@)),
        }
    }
}

/// The view of a reply.
pub open spec fn reply_view(r: Reply) -> (u16, Result<JsonView, Seq<char>>) {
    (
        r.status,
        match r.body {
            ReplyBody::Json(j) => Ok(j@),
            ReplyBody::Text(t) => Err(t@),
        },
    )
}

/// Answers a request for `path` from the address tree and host information.
pub fn handle_request(root: &OSCQueryNode, host_info: &OSCHostInfo, path: &str) -> (r: Reply)
    ensures
        reply_view(r) == reply_spec(root@, host_info@, path@),
{
    if str_contains(path, "HOST_INFO") {
        return Reply { status: 200, body: ReplyBody::Json(host_info.to_json()) };
    }
    match root.find_subnode(path) {
        Some(node) => Reply { status: 200, body: ReplyBody::Json(node.to_json()) },
        None => Reply { status: 404, body: ReplyBody::Text(String::from_str("OSC Path not found")) },
    }
}


/// A node added to the address tree (with a parent path) is then served: a
/// request for its path that does not mention `HOST_INFO` is answered with
/// status 200; and every path that was served before still is.
pub proof fn law_added_node_is_served(n: NodeView, c: NodeView, host: HostInfoView, q: Seq<char>)
    requires
        add_ok(n, c),
        !contains_seq(q, "HOST_INFO"@),
    ensures
        c.full_path == Some(q) && parent_path(q) is Some ==> reply_spec(add_spec(n, c), host, q).0
            == 200,
        reply_spec(n, host, q).0 == 200 ==> reply_spec(add_spec(n, c), host, q).0 == 200,
{
    law_add_child_keeps_and_finds(n, c);
}

} // verus!
