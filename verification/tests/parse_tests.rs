use miio_device::device::Device;
use miio_device::DeviceError;

fn canonical() -> String {
    Device::from_parts(
        String::from("Yeelight"),
        String::from("ip"),
        String::from("t"),
        vec![1, 255],
        vec![(String::from("toggle"), String::from("sig"))],
    )
    .unwrap()
    .to_json()
}

fn is_parse_err(r: Result<Device, DeviceError>) -> bool {
    matches!(r, Err(DeviceError::Parse(_)))
}

#[test]
fn test_from_json_rejects_malformed_documents() {
    assert!(is_parse_err(Device::from_json("")));
    assert!(is_parse_err(Device::from_json("{}")));
    assert!(is_parse_err(Device::from_json("not json at all")));
    assert!(is_parse_err(Device::from_json("{\n  \"device_type\": \"x\"")));
}

#[test]
fn test_from_json_accepts_reordered_members() {
    let swapped = "{\n  \"token\": \"t\",\n  \"device_type\": \"x\",\n  \"callable_methods\": {\"a\": \"b\"},\n  \"ip\": \"ip\",\n  \"serialized_py_object\": [7]\n}";
    let d = Device::from_json(swapped).unwrap();
    assert_eq!(d.device_type(), "x");
    assert_eq!(d.ip(), "ip");
    assert_eq!(d.token(), "t");
    assert_eq!(d.serialized_py_object(), &vec![7u8]);
    assert_eq!(d.method_signature("a"), Some(&String::from("b")));
}

#[test]
fn test_from_json_accepts_compact_and_spaced_layouts() {
    let compact = "{\"device_type\":\"x\",\"ip\":\"ip\",\"token\":\"t\",\"serialized_py_object\":[1,20,255],\"callable_methods\":{\"a\":\"b\"}}";
    let d = Device::from_json(compact).unwrap();
    assert_eq!(d.device_type(), "x");
    assert_eq!(d.serialized_py_object(), &vec![1u8, 20, 255]);
    assert_eq!(d.method_signature("a"), Some(&String::from("b")));

    let spaced = "  {  \"ip\" : \"ip\" ,\n\t\"device_type\" : \"x\" ,\r\n \"token\" : \"t\" , \"serialized_py_object\" : [ ] , \"callable_methods\" : { } }  \n";
    let d2 = Device::from_json(spaced).unwrap();
    assert_eq!(d2.device_type(), "x");
    assert_eq!(d2.ip(), "ip");
    assert!(d2.serialized_py_object().is_empty());
    assert!(d2.callable_methods().is_empty());
}

#[test]
fn test_from_json_rejects_missing_repeated_or_unknown_members() {
    let missing = "{\"device_type\": \"x\", \"ip\": \"ip\", \"token\": \"t\", \"callable_methods\": {}}";
    assert!(is_parse_err(Device::from_json(missing)));
    let repeated = "{\"device_type\": \"x\", \"device_type\": \"y\", \"ip\": \"ip\", \"token\": \"t\", \"serialized_py_object\": [], \"callable_methods\": {}}";
    assert!(is_parse_err(Device::from_json(repeated)));
    let unknown = "{\"device_type\": \"x\", \"ip\": \"ip\", \"token\": \"t\", \"serialized_py_object\": [], \"callable_methods\": {}, \"extra\": \"z\"}";
    assert!(is_parse_err(Device::from_json(unknown)));
}

#[test]
fn test_from_json_rejects_mistyped_fields() {
    // The handle given as a string instead of a byte array.
    let mistyped = "{\n  \"device_type\": \"x\",\n  \"ip\": \"ip\",\n  \"token\": \"t\",\n  \"serialized_py_object\": \"AAEC\",\n  \"callable_methods\": {}\n}";
    assert!(is_parse_err(Device::from_json(mistyped)));
    // A byte out of range.
    let too_big = "{\n  \"device_type\": \"x\",\n  \"ip\": \"ip\",\n  \"token\": \"t\",\n  \"serialized_py_object\": [256],\n  \"callable_methods\": {}\n}";
    assert!(is_parse_err(Device::from_json(too_big)));
    // A leading zero, which JSON numbers never carry.
    let leading_zero = "{\n  \"device_type\": \"x\",\n  \"ip\": \"ip\",\n  \"token\": \"t\",\n  \"serialized_py_object\": [007],\n  \"callable_methods\": {}\n}";
    assert!(is_parse_err(Device::from_json(leading_zero)));
}

#[test]
fn test_from_json_trailing_text() {
    // Trailing whitespace is insignificant; trailing content is not.
    let mut with_ws = canonical();
    with_ws.push('\n');
    with_ws.push(' ');
    assert!(Device::from_json(&with_ws).is_ok());
    let mut with_text = canonical();
    with_text.push('x');
    assert!(is_parse_err(Device::from_json(&with_text)));
}

#[test]
fn test_from_json_rejects_bad_escapes() {
    let bad_escape = "{\"device_type\": \"a\\x\", \"ip\": \"ip\", \"token\": \"t\", \"serialized_py_object\": [], \"callable_methods\": {}}";
    assert!(is_parse_err(Device::from_json(bad_escape)));
    // A lone surrogate is not a Unicode scalar value.
    let surrogate = "{\"device_type\": \"\\ud800\", \"ip\": \"ip\", \"token\": \"t\", \"serialized_py_object\": [], \"callable_methods\": {}}";
    assert!(is_parse_err(Device::from_json(surrogate)));
}

#[test]
fn test_from_json_decodes_escapes() {
    let doc = "{\"device_type\": \"\\u0041\\u00e9\", \"ip\": \"\\u0001\", \"token\": \"\\/\\b\\f\\n\\r\\t\", \"serialized_py_object\": [], \"callable_methods\": {}}";
    let d = Device::from_json(doc).unwrap();
    assert_eq!(d.device_type(), "A\u{e9}");
    assert_eq!(d.ip(), "\u{1}");
    assert_eq!(d.token(), "/\u{8}\u{c}\n\r\t");
}

#[test]
fn test_from_json_rejects_raw_control_characters_in_strings() {
    let raw_newline = "{\n  \"device_type\": \"a\nb\",\n  \"ip\": \"ip\",\n  \"token\": \"t\",\n  \"serialized_py_object\": [],\n  \"callable_methods\": {}\n}";
    assert!(is_parse_err(Device::from_json(raw_newline)));
    let raw_ctl = "{\n  \"device_type\": \"a\u{1}b\",\n  \"ip\": \"ip\",\n  \"token\": \"t\",\n  \"serialized_py_object\": [],\n  \"callable_methods\": {}\n}";
    assert!(is_parse_err(Device::from_json(raw_ctl)));
}

#[test]
fn test_from_json_rejects_duplicate_method_names() {
    let dup = "{\n  \"device_type\": \"x\",\n  \"ip\": \"ip\",\n  \"token\": \"t\",\n  \"serialized_py_object\": [],\n  \"callable_methods\": {\"toggle\": \"a\", \"toggle\": \"b\"}\n}";
    assert!(is_parse_err(Device::from_json(dup)));
}

#[test]
fn test_from_json_accepts_canonical_document() {
    let d = Device::from_json(&canonical()).unwrap();
    assert_eq!(d.device_type(), "Yeelight");
    assert_eq!(d.serialized_py_object(), &vec![1u8, 255]);
    assert_eq!(d.method_signature("toggle"), Some(&String::from("sig")));
    // An accepted canonical document re-serializes to itself exactly.
    assert_eq!(d.to_json(), canonical());
}

#[test]
fn test_reads_what_an_independent_encoder_writes() {
    // serde_json's object keeps its keys sorted, so this also exercises an
    // order other than the canonical one, in compact layout.
    let mut table = serde_json::Map::new();
    table.insert(
        String::from("toggle"),
        serde_json::Value::String(String::from("(self)")),
    );
    let mut map = serde_json::Map::new();
    map.insert(
        String::from("device_type"),
        serde_json::Value::String(String::from("Yeelight")),
    );
    map.insert(
        String::from("ip"),
        serde_json::Value::String(String::from("192.168.0.25")),
    );
    map.insert(
        String::from("token"),
        serde_json::Value::String(String::from("to\nken\"here\\!")),
    );
    map.insert(
        String::from("serialized_py_object"),
        serde_json::Value::Array(vec![
            serde_json::Value::Number(serde_json::Number::from(0u64)),
            serde_json::Value::Number(serde_json::Number::from(128u64)),
            serde_json::Value::Number(serde_json::Number::from(255u64)),
        ]),
    );
    map.insert(String::from("callable_methods"), serde_json::Value::Object(table));
    let text = serde_json::to_string(&serde_json::Value::Object(map)).unwrap();
    let d = Device::from_json(&text).unwrap();
    assert_eq!(d.device_type(), "Yeelight");
    assert_eq!(d.ip(), "192.168.0.25");
    assert_eq!(d.token(), "to\nken\"here\\!");
    assert_eq!(d.serialized_py_object(), &vec![0u8, 128, 255]);
    assert_eq!(d.method_signature("toggle"), Some(&String::from("(self)")));
}

#[test]
fn test_stored_form_is_real_json() {
    // Cross-check the canonical rendering against an independent JSON parser,
    // escapes included.
    let d = Device::from_parts(
        String::from("Yee\"light\\x"),
        String::from("192.168.0.25"),
        String::from("to\nken\there\r!\u{1}\u{1f}"),
        vec![0, 128, 255],
        vec![
            (String::from("toggle"), String::from("(self)")),
            (String::from("set \"mode\""), String::from("a\\b")),
        ],
    )
    .unwrap();
    let text = d.to_json();
    let value: serde_json::Value = serde_json::from_str(&text).unwrap();
    assert_eq!(
        value.get("device_type").unwrap().as_str().unwrap(),
        "Yee\"light\\x"
    );
    assert_eq!(value.get("ip").unwrap().as_str().unwrap(), "192.168.0.25");
    assert_eq!(
        value.get("token").unwrap().as_str().unwrap(),
        "to\nken\there\r!\u{1}\u{1f}"
    );
    let bytes: Vec<u8> = value
        .get("serialized_py_object")
        .unwrap()
        .as_array()
        .unwrap()
        .iter()
        .map(|n| n.as_u64().unwrap() as u8)
        .collect();
    assert_eq!(bytes, vec![0u8, 128, 255]);
    let table = value.get("callable_methods").unwrap().as_object().unwrap();
    assert_eq!(table.len(), 2);
    assert_eq!(table.get("toggle").unwrap().as_str().unwrap(), "(self)");
    assert_eq!(table.get("set \"mode\"").unwrap().as_str().unwrap(), "a\\b");
}
