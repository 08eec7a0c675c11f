use toq_rs::json::JsonValue;
use toq_rs::sidecar::{endpoint_from_spec, endpoint_node, endpoint_specs_from_file, parse_endpoint, Discoveries, Event};
use toq_rs::{OSCAccess, OscValue};

#[test]
fn test_parse_endpoint_valid() {
    let (path, tags, access) = parse_endpoint("/avatar/parameters/X:f:rw").unwrap();
    assert_eq!(path, "/avatar/parameters/X");
    assert_eq!(tags, "f");
    assert_eq!(access, OSCAccess::ReadWrite);
}

#[test]
fn test_parse_endpoint_multi_type() {
    let (path, tags, access) = parse_endpoint("/test:ff:r").unwrap();
    assert_eq!(path, "/test");
    assert_eq!(tags, "ff");
    assert_eq!(access, OSCAccess::ReadOnly);
}

#[test]
fn test_parse_endpoint_all_access_modes() {
    assert_eq!(parse_endpoint("/p:i:r").unwrap().2, OSCAccess::ReadOnly);
    assert_eq!(parse_endpoint("/p:i:w").unwrap().2, OSCAccess::WriteOnly);
    assert_eq!(parse_endpoint("/p:i:rw").unwrap().2, OSCAccess::ReadWrite);
    assert_eq!(parse_endpoint("/p:i:n").unwrap().2, OSCAccess::NoValue);
}

#[test]
fn test_parse_endpoint_missing_parts() {
    assert!(parse_endpoint("/test:f").is_err());
    assert!(parse_endpoint("/test").is_err());
}

#[test]
fn test_parse_endpoint_no_leading_slash() {
    assert!(parse_endpoint("test:f:rw").is_err());
}

#[test]
fn test_parse_endpoint_bad_access() {
    assert!(parse_endpoint("/test:f:x").is_err());
}

#[test]
fn parse_endpoint_error_messages() {
    assert_eq!(
        parse_endpoint("/test").unwrap_err(),
        "Invalid endpoint format '/test': expected /path:type_tags:access"
    );
    assert_eq!(
        parse_endpoint("test:f:rw").unwrap_err(),
        "Endpoint path must start with '/': 'test'"
    );
    assert_eq!(
        parse_endpoint("/test:f:x").unwrap_err(),
        "Unknown access mode 'x': expected r/w/rw/n"
    );
    // the access part keeps any further ':'
    assert_eq!(
        parse_endpoint("/t:f:r:w").unwrap_err(),
        "Unknown access mode 'r:w': expected r/w/rw/n"
    );
    let (p, t, a) = parse_endpoint("/t::n").unwrap();
    assert_eq!((p.as_str(), t.as_str(), a), ("/t", "", OSCAccess::NoValue));
}

#[test]
fn endpoint_from_spec_reads_values() {
    let (p, vs, a) = endpoint_from_spec("/avatar/parameters/MyBool:T:r").unwrap();
    assert_eq!(p, "/avatar/parameters/MyBool");
    assert_eq!(vs, vec![OscValue::Bool(false)]);
    assert_eq!(a, OSCAccess::ReadOnly);
    assert_eq!(
        endpoint_from_spec("/x:q:r").unwrap_err(),
        "Bad type tags in endpoint '/x:q:r': Unknown OSC type tag: 'q'"
    );
}

#[test]
fn endpoint_nodes() {
    let n = endpoint_node("/a", Some(vec![OscValue::Int(0)]), OSCAccess::ReadWrite);
    assert_eq!(n.osc_type.as_deref(), Some("i"));
    assert_eq!(n.access, Some(OSCAccess::ReadWrite));
    let n = endpoint_node("/b", None, OSCAccess::NoValue);
    assert!(n.value.is_none() && n.osc_type.is_none());
}

#[test]
fn endpoints_file_skips_comments_and_blank_lines() {
    let text = "# comments and blank lines are ignored\n/avatar/parameters/MyParam:f:rw\n\n  /avatar/parameters/MyBool:T:r  \r\n/avatar/change:s:rw";
    assert_eq!(
        endpoint_specs_from_file(text),
        vec![
            "/avatar/parameters/MyParam:f:rw",
            "/avatar/parameters/MyBool:T:r",
            "/avatar/change:s:rw"
        ]
    );
    assert!(endpoint_specs_from_file("").is_empty());
    assert!(endpoint_specs_from_file("\n\n   \n#x\n").is_empty());
}

#[test]
fn endpoints_file_matches_lines_and_trim() {
    let text = "a\r\n b \n\n#c\nd\n";
    let expected: Vec<String> = text
        .lines()
        .map(str::trim)
        .filter(|l| !l.is_empty() && !l.starts_with('#'))
        .map(str::to_owned)
        .collect();
    assert_eq!(endpoint_specs_from_file(text), expected);
}

fn field<'a>(j: &'a JsonValue, k: &str) -> Option<&'a JsonValue> {
    j.get(k)
}

#[test]
fn events_as_json() {
    let e = Event::Ready { http_port: 8080, osc_port: 9001 }.to_json();
    assert_eq!(field(&e, "event").and_then(|v| v.as_str()), Some("ready"));
    assert_eq!(field(&e, "http_port").and_then(|v| v.as_i64()), Some(8080));
    assert_eq!(field(&e, "osc_port").and_then(|v| v.as_i64()), Some(9001));
    let e = Event::ServiceLost { name: "n".into() }.to_json();
    assert_eq!(field(&e, "event").and_then(|v| v.as_str()), Some("service_lost"));
    assert_eq!(field(&e, "name").and_then(|v| v.as_str()), Some("n"));
    let e = Event::Error { message: "m".into() }.to_json();
    assert_eq!(field(&e, "event").and_then(|v| v.as_str()), Some("error"));
    assert_eq!(field(&e, "message").and_then(|v| v.as_str()), Some("m"));
}

#[test]
fn discoveries_report_found_then_lost() {
    let mut d = Discoveries::new();
    let own = d.on_service_found("MyApp", "MyApp._oscjson._tcp.local.".into(), "x".into(), None, 1);
    assert!(own.is_none());
    let found = d.on_service_found(
        "MyApp",
        "VRChat-Client-ABC123._oscjson._tcp.local.".into(),
        "VRChat-Client-ABC123._oscjson._tcp.local.".into(),
        None,
        9000,
    );
    match found {
        Some(Event::ServiceDiscovered { name, osc_ip, osc_port }) => {
            assert_eq!(name, "VRChat-Client-ABC123._oscjson._tcp.local.");
            assert_eq!(osc_ip, "127.0.0.1");
            assert_eq!(osc_port, 9000);
        }
        other => panic!("unexpected {:?}", other),
    }
    match d.on_service_lost("VRChat-Client-ABC123._oscjson._tcp.local.") {
        Some(Event::ServiceLost { name }) => assert_eq!(name, "VRChat-Client-ABC123._oscjson._tcp.local."),
        other => panic!("unexpected {:?}", other),
    }
    assert!(d.on_service_lost("VRChat-Client-ABC123._oscjson._tcp.local.").is_none());
    assert!(d.on_service_lost("MyApp._oscjson._tcp.local.").is_none());
}
