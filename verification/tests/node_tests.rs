use toq_rs::json::{JsonNumber, JsonValue};
use toq_rs::node::{osc_type_to_tags, tags_to_type_chars};
use toq_rs::{default_values_for_type_tags, OSCAccess, OSCHostInfo, OSCQueryNode, OscValue};

fn num(i: i64) -> JsonValue {
    JsonValue::Number(JsonNumber::from_i64(i))
}

fn text(j: Option<&JsonValue>) -> Option<&str> {
    j.and_then(|v| v.as_str())
}

#[test]
fn test_add_child_and_find_subnode() {
    let mut root = OSCQueryNode::new("/").with_description("root node");
    root.add_child_node(OSCQueryNode::new("/test/node/one"));
    root.add_child_node(OSCQueryNode::new("/test/node/two"));
    root.add_child_node(OSCQueryNode::new("/test/othernode/one"));

    assert!(root.find_subnode("/").is_some());
    assert!(root.find_subnode("/test").is_some());
    assert!(root.find_subnode("/test/node").is_some());
    assert!(root.find_subnode("/test/node/one").is_some());
    assert!(root.find_subnode("/test/node/two").is_some());
    assert!(root.find_subnode("/test/othernode").is_some());
    assert!(root.find_subnode("/test/othernode/one").is_some());
    assert!(root.find_subnode("/nonexistent").is_none());
}

#[test]
fn test_node_serialization() {
    let node = OSCQueryNode::new("/test")
        .with_access(OSCAccess::ReadWrite)
        .with_value(vec![OscValue::Int(42), OscValue::Float(3.14f32.to_bits())])
        .with_description("a test node");

    let json = node.to_json();
    assert_eq!(text(json.get("FULL_PATH")), Some("/test"));
    assert_eq!(text(json.get("TYPE")), Some("if"));
    assert_eq!(json.get("ACCESS").and_then(|v| v.as_i64()), Some(3));
    assert_eq!(json.get("VALUE").and_then(|v| v.at(0)).and_then(|v| v.as_i64()), Some(42));
    assert_eq!(text(json.get("DESCRIPTION")), Some("a test node"));
}

#[test]
fn test_node_json_round_trip() {
    let node = OSCQueryNode::new("/test/path")
        .with_access(OSCAccess::ReadOnly)
        .with_value(vec![OscValue::Bool(true), OscValue::String("hello".into())])
        .with_description("round trip test");

    let json = node.to_json();
    let deserialized = OSCQueryNode::from_json(&json).unwrap();

    assert_eq!(deserialized.full_path.as_deref(), Some("/test/path"));
    assert_eq!(deserialized.osc_type.as_deref(), Some("Ts"));
    assert_eq!(deserialized.access, Some(OSCAccess::ReadOnly));
    assert_eq!(
        deserialized.value,
        Some(vec![OscValue::Bool(true), OscValue::String("hello".into())])
    );
    assert_eq!(deserialized.description.as_deref(), Some("round trip test"));
}

#[test]
fn test_tree_serialization_with_contents() {
    let mut root = OSCQueryNode::new("/").with_description("root node");
    root.add_child_node(
        OSCQueryNode::new("/test")
            .with_access(OSCAccess::ReadWrite)
            .with_value(vec![OscValue::Int(1)]),
    );

    let json = root.to_json();
    let test = json.get("CONTENTS").and_then(|c| c.get("test"));
    assert!(test.map_or(false, |t| t.is_object()));
    assert_eq!(text(test.and_then(|t| t.get("FULL_PATH"))), Some("/test"));
}

#[test]
fn test_type_tag_conversion() {
    let values = vec![
        OscValue::Int(1),
        OscValue::Float(2.0f32.to_bits()),
        OscValue::Bool(true),
        OscValue::String("s".into()),
    ];
    assert_eq!(osc_type_to_tags(&values), "ifTs");
}

#[test]
fn test_tags_to_type_chars_skips_whitespace() {
    assert_eq!(tags_to_type_chars("i f T s"), vec!['i', 'f', 'T', 's']);
    assert_eq!(tags_to_type_chars("ifTs"), vec!['i', 'f', 'T', 's']);
}

#[test]
fn test_host_info_serialization() {
    let extensions = vec![
        ("ACCESS".to_owned(), JsonValue::Bool(true)),
        ("VALUE".to_owned(), JsonValue::Bool(true)),
    ];

    let hi = OSCHostInfo {
        name: "TestService".to_owned(),
        osc_ip: Some("127.0.0.1".to_owned()),
        osc_port: Some(9000),
        osc_transport: Some("UDP".to_owned()),
        extensions,
    };

    let json = hi.to_json();
    assert_eq!(text(json.get("NAME")), Some("TestService"));
    assert_eq!(text(json.get("OSC_IP")), Some("127.0.0.1"));
    assert_eq!(json.get("OSC_PORT").and_then(|v| v.as_i64()), Some(9000));
    assert_eq!(text(json.get("OSC_TRANSPORT")), Some("UDP"));
    assert_eq!(
        json.get("EXTENSIONS").and_then(|e| e.get("ACCESS")).and_then(|v| v.as_bool()),
        Some(true)
    );
}

#[test]
fn test_with_osc_type() {
    let node = OSCQueryNode::new("/test").with_osc_type("ff").with_access(OSCAccess::ReadWrite);
    assert_eq!(node.osc_type.as_deref(), Some("ff"));
    assert!(node.value.is_none());
}

#[test]
fn test_default_values_for_type_tags() {
    let vals = default_values_for_type_tags("ifTsd").unwrap();
    assert_eq!(vals.len(), 5);
    assert_eq!(vals[0], OscValue::Int(0));
    assert_eq!(vals[1], OscValue::Float(0.0f32.to_bits()));
    assert_eq!(vals[2], OscValue::Bool(false));
    assert_eq!(vals[3], OscValue::String(String::new()));
    assert_eq!(vals[4], OscValue::Double(0.0f64.to_bits()));
}

#[test]
fn test_default_values_for_unknown_tag() {
    let result = default_values_for_type_tags("x");
    assert!(result.is_err());
    assert!(result.unwrap_err().contains("Unknown OSC type tag"));
}

#[test]
fn test_host_info_round_trip() {
    let extensions = vec![("TYPE".to_owned(), JsonValue::Bool(true))];

    let info = OSCHostInfo {
        name: "Test".to_owned(),
        osc_ip: Some("192.168.1.1".to_owned()),
        osc_port: Some(8080),
        osc_transport: Some("TCP".to_owned()),
        extensions,
    };

    let json = info.to_json();
    let deserialized = OSCHostInfo::from_json(&json).unwrap();

    assert_eq!(deserialized.name, "Test");
    assert_eq!(deserialized.osc_ip.as_deref(), Some("192.168.1.1"));
    assert_eq!(deserialized.osc_port, Some(8080));
    assert_eq!(deserialized.osc_transport.as_deref(), Some("TCP"));
    assert!(matches!(deserialized.extension("TYPE"), Some(JsonValue::Bool(true))));
}

#[test]
fn access_codes_round_trip() {
    for a in [OSCAccess::NoValue, OSCAccess::ReadOnly, OSCAccess::WriteOnly, OSCAccess::ReadWrite] {
        assert_eq!(OSCAccess::from_u8(a.to_u8()), Some(a));
    }
    assert_eq!(OSCAccess::ReadWrite.to_u8(), 3);
    assert_eq!(OSCAccess::from_u8(4), None);
    assert_eq!(OSCAccess::from_u8(255), None);
}

#[test]
fn type_tags_of_every_value() {
    let values = vec![
        OscValue::Int(1),
        OscValue::Float(0),
        OscValue::Long(2),
        OscValue::Double(0),
        OscValue::Bool(false),
        OscValue::String("x".into()),
    ];
    assert_eq!(osc_type_to_tags(&values), "ifhdTs");
}

#[test]
fn default_values_cover_alias_tags() {
    let vals = default_values_for_type_tags("tFh").unwrap();
    assert_eq!(vals, vec![OscValue::Float(0), OscValue::Bool(false), OscValue::Long(0)]);
    assert_eq!(default_values_for_type_tags("").unwrap(), vec![]);
    assert_eq!(default_values_for_type_tags("iqz").unwrap_err(), "Unknown OSC type tag: 'q'");
}

#[test]
fn add_child_keeps_existing_and_finds_new() {
    let mut root = OSCQueryNode::new("/");
    root.add_child_node(OSCQueryNode::new("/a/b").with_description("first"));
    root.add_child_node(OSCQueryNode::new("/a/b/c"));
    root.add_child_node(OSCQueryNode::new("/x"));
    for p in ["/", "/a", "/a/b", "/a/b/c", "/x"] {
        assert!(root.find_subnode(p).is_some(), "{p}");
    }
    assert_eq!(
        root.find_subnode("/a/b").unwrap().description.as_deref(),
        Some("first")
    );
    // the intermediate node was created without fields
    assert!(root.find_subnode("/a").unwrap().description.is_none());
    assert_eq!(root.find_subnode("/a/b/c").unwrap().full_path.as_deref(), Some("/a/b/c"));
}

#[test]
fn add_child_without_path_or_parent_changes_nothing() {
    let mut root = OSCQueryNode::new("/");
    let mut no_path = OSCQueryNode::new("/ignored");
    no_path.full_path = None;
    assert!(root.can_add_child(&no_path));
    root.add_child_node(no_path);
    assert!(root.contents.is_none());
    let no_slash = OSCQueryNode::new("plain");
    assert!(root.can_add_child(&no_slash));
    root.add_child_node(no_slash);
    assert!(root.contents.is_none());
    // a child with the root's own path
    root.add_child_node(OSCQueryNode::new("/"));
    assert!(root.contents.is_none());
}

#[test]
fn can_add_child_refuses_unreachable_parents() {
    let root = OSCQueryNode::new("/");
    // parent "a" has no '/', so it can never be created
    assert!(!root.can_add_child(&OSCQueryNode::new("a/b")));
    // a root without "/" cannot take "/x": "/" is its own parent
    let other = OSCQueryNode::new("/top");
    assert!(!other.can_add_child(&OSCQueryNode::new("/x")));
    assert!(other.can_add_child(&OSCQueryNode::new("/top/x")));
    assert!(root.can_add_child(&OSCQueryNode::new("/deep/er/path")));
}

#[test]
fn find_subnode_mut_changes_the_found_node() {
    let mut root = OSCQueryNode::new("/");
    root.add_child_node(OSCQueryNode::new("/a/b"));
    {
        let n = root.find_subnode_mut("/a/b").unwrap();
        n.description = Some("changed".into());
    }
    assert_eq!(
        root.find_subnode("/a/b").unwrap().description.as_deref(),
        Some("changed")
    );
    assert!(root.find_subnode_mut("/none").is_none());
}

#[test]
fn node_value_decoding_under_type_tags() {
    // an untyped array of values, read under "i f s" with spaces
    let obj = JsonValue::Object(vec![
        ("TYPE".into(), JsonValue::String("i f s".into())),
        (
            "VALUE".into(),
            JsonValue::Array(vec![
                num(7),
                JsonValue::Number(JsonNumber { int: None, double: Some(0.5f64.to_bits()), single: Some(0.5f32.to_bits()) }),
                JsonValue::String("x".into()),
                num(9),
            ]),
        ),
    ]);
    let n = OSCQueryNode::from_json(&obj).unwrap();
    assert_eq!(
        n.value,
        Some(vec![OscValue::Int(7), OscValue::Float(0.5f32.to_bits()), OscValue::String("x".into())])
    );
    // an empty object among the values drops them all
    let obj = JsonValue::Object(vec![
        ("TYPE".into(), JsonValue::String("ii".into())),
        ("VALUE".into(), JsonValue::Array(vec![num(1), JsonValue::Object(vec![])])),
    ]);
    assert_eq!(OSCQueryNode::from_json(&obj).unwrap().value, None);
}

#[test]
fn node_value_decoding_without_type() {
    let obj = JsonValue::Object(vec![(
        "VALUE".into(),
        JsonValue::Array(vec![JsonValue::Bool(true), num(5_000_000_000), JsonValue::Null]),
    )]);
    let n = OSCQueryNode::from_json(&obj).unwrap();
    // 5_000_000_000 is truncated to 32 bits, as a cast does
    assert_eq!(n.value, Some(vec![OscValue::Bool(true), OscValue::Int(5_000_000_000i64 as i32)]));
}

#[test]
fn node_decoding_rejects_wrong_types() {
    assert!(OSCQueryNode::from_json(&JsonValue::Null).is_none());
    let bad_path = JsonValue::Object(vec![("FULL_PATH".into(), num(1))]);
    assert!(OSCQueryNode::from_json(&bad_path).is_none());
    let bad_access = JsonValue::Object(vec![("ACCESS".into(), num(256))]);
    assert!(OSCQueryNode::from_json(&bad_access).is_none());
    let high_access = JsonValue::Object(vec![("ACCESS".into(), num(7))]);
    assert_eq!(OSCQueryNode::from_json(&high_access).unwrap().access, None);
    let bad_child = JsonValue::Object(vec![(
        "CONTENTS".into(),
        JsonValue::Object(vec![("x".into(), JsonValue::Bool(false))]),
    )]);
    assert!(OSCQueryNode::from_json(&bad_child).is_none());
    let unknown = JsonValue::Object(vec![("OTHER".into(), JsonValue::Null)]);
    assert!(OSCQueryNode::from_json(&unknown).unwrap().full_path.is_none());
}

#[test]
fn later_entries_win() {
    let obj = JsonValue::Object(vec![
        ("DESCRIPTION".into(), JsonValue::String("one".into())),
        ("DESCRIPTION".into(), JsonValue::String("two".into())),
    ]);
    assert_eq!(obj.get("DESCRIPTION").and_then(|v| v.as_str()), Some("two"));
    assert_eq!(OSCQueryNode::from_json(&obj).unwrap().description.as_deref(), Some("two"));
}

#[test]
fn non_finite_floats_are_written_as_null() {
    let node = OSCQueryNode::new("/f").with_value(vec![
        OscValue::Float(f32::NAN.to_bits()),
        OscValue::Double(f64::INFINITY.to_bits()),
        OscValue::Double(1.5f64.to_bits()),
    ]);
    let json = node.to_json();
    let vals = json.get("VALUE").unwrap();
    assert!(matches!(vals.at(0), Some(JsonValue::Null)));
    assert!(matches!(vals.at(1), Some(JsonValue::Null)));
    assert!(matches!(vals.at(2), Some(JsonValue::Number(n)) if n.double == Some(1.5f64.to_bits())));
}

#[test]
fn tree_round_trips_through_json() {
    let mut root = OSCQueryNode::new("/").with_description("root node");
    root.add_child_node(
        OSCQueryNode::new("/a/b")
            .with_access(OSCAccess::WriteOnly)
            .with_value(vec![OscValue::Long(-4), OscValue::Double(2.25f64.to_bits())]),
    );
    let back = OSCQueryNode::from_json(&root.to_json()).unwrap();
    let b = back.find_subnode("/a/b").unwrap();
    assert_eq!(b.osc_type.as_deref(), Some("hd"));
    assert_eq!(b.value, Some(vec![OscValue::Long(-4), OscValue::Double(2.25f64.to_bits())]));
    assert_eq!(b.access, Some(OSCAccess::WriteOnly));
    assert!(back.find_subnode("/a").is_some());
}

#[test]
fn host_info_decoding_needs_a_name() {
    let no_name = JsonValue::Object(vec![("OSC_PORT".into(), num(1))]);
    assert!(OSCHostInfo::from_json(&no_name).is_none());
    let bad_port = JsonValue::Object(vec![
        ("NAME".into(), JsonValue::String("n".into())),
        ("OSC_PORT".into(), num(70000)),
    ]);
    assert!(OSCHostInfo::from_json(&bad_port).is_none());
    let minimal = JsonValue::Object(vec![("NAME".into(), JsonValue::String("n".into()))]);
    let h = OSCHostInfo::from_json(&minimal).unwrap();
    assert_eq!(h.name, "n");
    assert!(h.extensions.is_empty());
    assert!(h.name_contains("n"));
    assert!(!h.name_contains("m"));
}

/// The serde_json value of the library's JSON model (as the program writes it).
fn serde_of(j: &JsonValue) -> serde_json::Value {
    match j {
        JsonValue::Null => serde_json::Value::Null,
        JsonValue::Bool(b) => serde_json::Value::Bool(*b),
        JsonValue::Number(n) => match (n.int, n.double, n.single) {
            (Some(i), _, _) => serde_json::Value::from(i),
            (None, Some(d), _) => serde_json::Value::from(f64::from_bits(d)),
            (None, None, Some(s)) => serde_json::Value::from(f32::from_bits(s) as f64),
            (None, None, None) => serde_json::Value::Null,
        },
        JsonValue::String(s) => serde_json::Value::String(s.clone()),
        JsonValue::Array(a) => serde_json::Value::Array(a.iter().map(serde_of).collect()),
        JsonValue::Object(es) => {
            let mut m = serde_json::Map::new();
            for (k, v) in es {
                m.insert(k.clone(), serde_of(v));
            }
            serde_json::Value::Object(m)
        }
    }
}

/// The library's JSON model of a value parsed by serde_json.
fn model_of(v: &serde_json::Value) -> JsonValue {
    match v {
        serde_json::Value::Null => JsonValue::Null,
        serde_json::Value::Bool(b) => JsonValue::Bool(*b),
        serde_json::Value::Number(n) => JsonValue::Number(JsonNumber {
            int: n.as_i64(),
            double: n.as_f64().map(f64::to_bits),
            single: n.as_f64().map(|d| (d as f32).to_bits()),
        }),
        serde_json::Value::String(s) => JsonValue::String(s.clone()),
        serde_json::Value::Array(a) => JsonValue::Array(a.iter().map(model_of).collect()),
        serde_json::Value::Object(m) => {
            JsonValue::Object(m.iter().map(|(k, v)| (k.clone(), model_of(v))).collect())
        }
    }
}

#[test]
fn node_json_text_round_trip() {
    let mut root = OSCQueryNode::new("/").with_description("root node");
    root.add_child_node(
        OSCQueryNode::new("/a/b")
            .with_access(OSCAccess::ReadOnly)
            .with_value(vec![
                OscValue::Int(-7),
                OscValue::Float(0.25f32.to_bits()),
                OscValue::Long(1 << 40),
                OscValue::Double(2.5f64.to_bits()),
                OscValue::Bool(true),
                OscValue::String("x y".into()),
            ]),
    );
    let text = serde_json::to_string(&serde_of(&root.to_json())).unwrap();
    let back = OSCQueryNode::from_json(&model_of(&serde_json::from_str(&text).unwrap())).unwrap();

    assert_eq!(back.full_path.as_deref(), Some("/"));
    assert_eq!(back.description.as_deref(), Some("root node"));
    let b = back.find_subnode("/a/b").unwrap();
    assert_eq!(b.osc_type.as_deref(), Some("ifhdTs"));
    assert_eq!(b.access, Some(OSCAccess::ReadOnly));
    assert_eq!(
        b.value,
        Some(vec![
            OscValue::Int(-7),
            OscValue::Float(0.25f32.to_bits()),
            OscValue::Long(1 << 40),
            OscValue::Double(2.5f64.to_bits()),
            OscValue::Bool(true),
            OscValue::String("x y".into()),
        ])
    );
    assert!(back.find_subnode("/a").is_some());
}

#[test]
fn host_info_json_text_round_trip() {
    let info = OSCHostInfo {
        name: "Test".to_owned(),
        osc_ip: Some("192.168.1.1".to_owned()),
        osc_port: Some(8080),
        osc_transport: Some("TCP".to_owned()),
        extensions: vec![("TYPE".to_owned(), JsonValue::Bool(true))],
    };
    let text = serde_json::to_string(&serde_of(&info.to_json())).unwrap();
    let back = OSCHostInfo::from_json(&model_of(&serde_json::from_str(&text).unwrap())).unwrap();
    assert_eq!(back.name, "Test");
    assert_eq!(back.osc_ip.as_deref(), Some("192.168.1.1"));
    assert_eq!(back.osc_port, Some(8080));
    assert_eq!(back.osc_transport.as_deref(), Some("TCP"));
    assert!(matches!(back.extension("TYPE"), Some(JsonValue::Bool(true))));
}

fn path_object(p: &str) -> JsonValue {
    JsonValue::Object(vec![("FULL_PATH".to_owned(), JsonValue::String(p.to_owned()))])
}

#[test]
fn contents_read_as_a_map() {
    let j = JsonValue::Object(vec![
        ("FULL_PATH".to_owned(), JsonValue::String("/".to_owned())),
        (
            "CONTENTS".to_owned(),
            JsonValue::Object(vec![
                ("b".to_owned(), path_object("/b")),
                ("a".to_owned(), path_object("/a1")),
                ("a".to_owned(), path_object("/a2")),
            ]),
        ),
    ]);
    let n = OSCQueryNode::from_json(&j).unwrap();
    let paths: Vec<Option<String>> =
        n.contents.unwrap().into_iter().map(|c| c.full_path).collect();
    assert_eq!(paths, vec![Some("/a2".to_owned()), Some("/b".to_owned())]);
}

#[test]
fn written_numbers_read_under_other_tags() {
    use_readings();
}

fn use_readings() {
    let ints = toq_rs::codec::value_to_json(&OscValue::Int(42));
    assert_eq!(
        toq_rs::codec::parse_value_with_tag('d', &ints),
        Some(OscValue::Double(42.0f64.to_bits()))
    );
    assert_eq!(
        toq_rs::codec::parse_value_with_tag('f', &ints),
        Some(OscValue::Float(42.0f32.to_bits()))
    );
    let single = toq_rs::codec::value_to_json(&OscValue::Float(0.1f32.to_bits()));
    assert_eq!(
        toq_rs::codec::parse_value_with_tag('d', &single),
        Some(OscValue::Double((0.1f32 as f64).to_bits()))
    );
    assert_eq!(toq_rs::codec::parse_value_with_tag('i', &single), None);
    let double = toq_rs::codec::value_to_json(&OscValue::Double(0.1f64.to_bits()));
    assert_eq!(
        toq_rs::codec::parse_value_with_tag('f', &double),
        Some(OscValue::Float((0.1f64 as f32).to_bits()))
    );
}

#[test]
fn every_repeated_entry_is_read() {
    let j = JsonValue::Object(vec![
        ("FULL_PATH".to_owned(), num(1)),
        ("FULL_PATH".to_owned(), JsonValue::String("/a".to_owned())),
    ]);
    assert!(OSCQueryNode::from_json(&j).is_none());
    let k = JsonValue::Object(vec![
        ("FULL_PATH".to_owned(), JsonValue::String("/a".to_owned())),
        ("FULL_PATH".to_owned(), JsonValue::String("/b".to_owned())),
    ]);
    assert_eq!(OSCQueryNode::from_json(&k).unwrap().full_path.as_deref(), Some("/b"));
}
