use toq_rs::json::{JsonNumber, JsonValue};
use toq_rs::query::{discovery_event, host_info_from_reply, node_from_reply, ServiceRegistry};
use toq_rs::sidecar::{Discoveries, Event};
use toq_rs::DiscoveryEvent;
use toq_rs::service::{handle_request, host_info_for, root_node, service_records, ReplyBody};
use toq_rs::{OSCAccess, OSCHostInfo, OSCQueryClient, OSCQueryNode, OscValue};

/// The library's JSON model of a value parsed by serde_json.
fn model_of(v: &serde_json::Value) -> JsonValue {
    match v {
        serde_json::Value::Null => JsonValue::Null,
        serde_json::Value::Bool(b) => JsonValue::Bool(*b),
        serde_json::Value::Number(n) => JsonValue::Number(JsonNumber {
            int: n.as_i64(),
            double: n.as_f64().map(f64::to_bits),
            single: n.as_f64().map(|d| (d as f32).to_bits()),
        }),
        serde_json::Value::String(s) => JsonValue::String(s.clone()),
        serde_json::Value::Array(a) => JsonValue::Array(a.iter().map(model_of).collect()),
        serde_json::Value::Object(m) => {
            JsonValue::Object(m.iter().map(|(k, v)| (k.clone(), model_of(v))).collect())
        }
    }
}

fn parse(text: &str) -> JsonValue {
    model_of(&serde_json::from_str::<serde_json::Value>(text).unwrap())
}

#[test]
fn test_client_parses_node_json() {
    let json = r#"{
        "FULL_PATH": "/avatar/parameters/VRCFaceBlendH",
        "TYPE": "f",
        "ACCESS": 1,
        "VALUE": [0.5],
        "DESCRIPTION": "A face blend parameter"
    }"#;

    let node: OSCQueryNode = OSCQueryNode::from_json(&parse(json)).unwrap();
    assert_eq!(node.full_path.as_deref(), Some("/avatar/parameters/VRCFaceBlendH"));
    assert_eq!(node.osc_type.as_deref(), Some("f"));
    assert_eq!(node.value, Some(vec![OscValue::Float(0.5f32.to_bits())]));
}

#[test]
fn test_client_parses_host_info_json() {
    let json = r#"{
        "NAME": "VRChat",
        "OSC_IP": "127.0.0.1",
        "OSC_PORT": 9000,
        "OSC_TRANSPORT": "UDP",
        "EXTENSIONS": {"ACCESS": true, "VALUE": true}
    }"#;

    let hi: OSCHostInfo = OSCHostInfo::from_json(&parse(json)).unwrap();
    assert_eq!(hi.name, "VRChat");
    assert_eq!(hi.osc_ip.as_deref(), Some("127.0.0.1"));
    assert_eq!(hi.osc_port, Some(9000));
    assert_eq!(hi.osc_transport.as_deref(), Some("UDP"));
}

#[test]
fn client_urls() {
    let c = OSCQueryClient::from_addr("127.0.0.1", 8080);
    assert_eq!(c.base_url, "http://127.0.0.1:8080");
    assert_eq!(c.node_url("/test/value"), "http://127.0.0.1:8080/test/value");
    assert_eq!(c.host_info_url(), "http://127.0.0.1:8080/HOST_INFO");
}

#[test]
fn replies_need_success() {
    let body = parse(r#"{"FULL_PATH": "/x", "TYPE": "i", "VALUE": [99]}"#);
    let n = node_from_reply(200, Some(&body)).unwrap();
    assert_eq!(n.value, Some(vec![OscValue::Int(99)]));
    assert!(node_from_reply(404, Some(&body)).is_none());
    assert!(node_from_reply(200, None).is_none());
    let hi = parse(r#"{"NAME": "IntegrationTest"}"#);
    assert_eq!(host_info_from_reply(204, Some(&hi)).unwrap().name, "IntegrationTest");
    assert!(host_info_from_reply(500, Some(&hi)).is_none());
}

fn json_body(b: &ReplyBody) -> &JsonValue {
    match b {
        ReplyBody::Json(j) => j,
        ReplyBody::Text(t) => panic!("text body {t}"),
    }
}

#[test]
fn service_answers_requests() {
    let mut root = root_node();
    let node = OSCQueryNode::new("/test/node")
        .with_access(OSCAccess::ReadWrite)
        .with_value(vec![OscValue::Int(42)]);
    assert!(root.can_add_child(&node));
    root.add_child_node(node);
    let hi = host_info_for("TestService", 9000, "127.0.0.1");

    let r = handle_request(&root, &hi, "/HOST_INFO");
    assert_eq!(r.status, 200);
    let j = json_body(&r.body);
    assert_eq!(j.get("NAME").and_then(|v| v.as_str()), Some("TestService"));
    assert_eq!(j.get("OSC_PORT").and_then(|v| v.as_i64()), Some(9000));
    assert_eq!(
        j.get("EXTENSIONS").and_then(|e| e.get("CLIPMODE")).and_then(|v| v.as_bool()),
        Some(false)
    );

    let r = handle_request(&root, &hi, "/");
    assert_eq!(r.status, 200);
    assert_eq!(
        json_body(&r.body).get("DESCRIPTION").and_then(|v| v.as_str()),
        Some("root node")
    );

    let r = handle_request(&root, &hi, "/test/node");
    assert_eq!(r.status, 200);
    let j = json_body(&r.body);
    assert_eq!(j.get("FULL_PATH").and_then(|v| v.as_str()), Some("/test/node"));
    assert_eq!(j.get("VALUE").and_then(|v| v.at(0)).and_then(|v| v.as_i64()), Some(42));

    let r = handle_request(&root, &hi, "/nonexistent");
    assert_eq!(r.status, 404);
    assert!(matches!(r.body, ReplyBody::Text(ref t) if t == "OSC Path not found"));
}

#[test]
fn service_records_are_made() {
    let (q, o) = service_records("MyApp", 8080, 9001).unwrap();
    assert_eq!(q.get_fullname(), "MyApp._oscjson._tcp.local.");
    assert_eq!(q.get_port(), 8080);
    assert_eq!(o.get_fullname(), "MyApp._osc._udp.local.");
    assert_eq!(o.get_port(), 9001);
    assert_eq!(q.get_hostname(), "MyApp.local.");
    assert_eq!(o.get_hostname(), "MyApp.local.");
    assert_eq!(q.get_property_val_str("txtvers"), Some("1"));
    assert_eq!(o.get_properties().len(), 1);
    let (q2, _) = service_records("Box.local", 1, 2).unwrap();
    assert_eq!(q2.get_hostname(), "Box.local.");
}

fn record(name: &str, port: u16) -> mdns_sd::ServiceInfo {
    mdns_sd::ServiceInfo::new(
        "_oscjson._tcp.local.",
        name,
        &format!("{name}.local."),
        "127.0.0.1",
        port,
        None::<std::collections::HashMap<String, String>>,
    )
    .unwrap()
}

#[test]
fn discovery_events_from_browse_events() {
    let found = discovery_event(mdns_sd::ServiceEvent::ServiceResolved(record("Peer", 9000)));
    match found {
        Some(DiscoveryEvent::ServiceFound { fullname, info }) => {
            assert_eq!(fullname, "Peer._oscjson._tcp.local.");
            assert_eq!(info.get_port(), 9000);
        }
        _ => panic!("expected a found service"),
    }
    let lost = discovery_event(mdns_sd::ServiceEvent::ServiceRemoved(
        "_oscjson._tcp.local.".into(),
        "Peer._oscjson._tcp.local.".into(),
    ));
    assert!(matches!(lost, Some(DiscoveryEvent::ServiceLost { fullname }) if fullname == "Peer._oscjson._tcp.local."));
    assert!(discovery_event(mdns_sd::ServiceEvent::SearchStarted("x".into())).is_none());
}

#[test]
fn sidecar_reports_discovered_records() {
    let mut d = Discoveries::new();
    let e = DiscoveryEvent::ServiceFound {
        fullname: "Peer._oscjson._tcp.local.".into(),
        info: Box::new(record("Peer", 9000)),
    };
    match d.on_discovery_event("MyApp", e) {
        Some(Event::ServiceDiscovered { name, osc_ip, osc_port }) => {
            assert_eq!(name, "Peer._oscjson._tcp.local.");
            assert_eq!(osc_ip, "127.0.0.1");
            assert_eq!(osc_port, 9000);
        }
        other => panic!("unexpected {:?}", other),
    }
    let lost = DiscoveryEvent::ServiceLost { fullname: "Peer._oscjson._tcp.local.".into() };
    assert!(matches!(d.on_discovery_event("MyApp", lost), Some(Event::ServiceLost { .. })));
}

#[test]
fn registry_keeps_resolved_records() {
    let mut r = ServiceRegistry::new();
    r.apply(mdns_sd::ServiceEvent::ServiceResolved(record("A", 1)));
    r.apply(mdns_sd::ServiceEvent::ServiceResolved(record("B", 2)));
    r.apply(mdns_sd::ServiceEvent::ServiceResolved(record("A", 3)));
    let found = r.discovered();
    assert_eq!(found.len(), 2);
    assert!(found.iter().any(|s| s.get_fullname() == "A._oscjson._tcp.local." && s.get_port() == 3));
    r.apply(mdns_sd::ServiceEvent::ServiceRemoved("t".into(), "B._oscjson._tcp.local.".into()));
    let found = r.discovered();
    assert_eq!(found.len(), 1);
    assert_eq!(found[0].get_port(), 3);
}

#[test]
fn client_from_record() {
    let c = OSCQueryClient::new(&record("Peer", 8123)).unwrap();
    assert_eq!(c.base_url, "http://127.0.0.1:8123");
}

#[test]
fn advertising_adds_the_endpoint_node() {
    let mut root = root_node();
    assert!(toq_rs::service::advertise(
        &mut root,
        "/a/b",
        Some(vec![OscValue::Float(0.0f32.to_bits())]),
        OSCAccess::ReadWrite
    ));
    let b = root.find_subnode("/a/b").unwrap();
    assert_eq!(b.osc_type.as_deref(), Some("f"));
    assert_eq!(b.access, Some(OSCAccess::ReadWrite));
    assert!(root.find_subnode("/a").is_some());
    assert!(!toq_rs::service::advertise(&mut root, "x/y", None, OSCAccess::NoValue));
    assert!(root.find_subnode("x/y").is_none());
}

#[test]
fn record_names_and_ports() {
    let info = record("Peer", 8123);
    let ev = discovery_event(mdns_sd::ServiceEvent::ServiceResolved(info));
    assert!(matches!(ev, Some(DiscoveryEvent::ServiceFound { ref fullname, ref info }) if fullname == "Peer._oscjson._tcp.local." && info.get_port() == 8123));
}
