use miio_device::device::Device;
use miio_device::DeviceError;

fn sample_methods() -> Vec<(String, String)> {
    vec![
        (String::from("toggle"), String::from("(self)")),
        (String::from("set_power"), String::from("(self, on)")),
        (String::from("status"), String::from("(self)")),
    ]
}

fn sample_device() -> Device {
    Device::from_parts(
        String::from("Yeelight"),
        String::from("192.168.0.25"),
        String::from("00112233445566778899aabbccddeeff"),
        vec![0, 9, 10, 99, 100, 255, 128],
        sample_methods(),
    )
    .unwrap()
}

#[test]
fn test_from_parts_keeps_every_field() {
    let d = sample_device();
    assert_eq!(d.device_type(), "Yeelight");
    assert_eq!(d.ip(), "192.168.0.25");
    assert_eq!(d.token(), "00112233445566778899aabbccddeeff");
    assert_eq!(d.serialized_py_object(), &vec![0u8, 9, 10, 99, 100, 255, 128]);
    assert_eq!(d.callable_methods(), &sample_methods());
}

#[test]
fn test_from_parts_rejects_duplicate_method_names() {
    let r = Device::from_parts(
        String::from("Yeelight"),
        String::from("192.168.0.25"),
        String::from("token"),
        vec![1],
        vec![
            (String::from("toggle"), String::from("(self)")),
            (String::from("toggle"), String::from("(self, on)")),
        ],
    );
    assert!(matches!(r, Err(DeviceError::Creation(_))));
}

#[test]
fn test_method_signature_lookup() {
    let d = sample_device();
    assert_eq!(d.method_signature("toggle"), Some(&String::from("(self)")));
    assert_eq!(d.method_signature("set_power"), Some(&String::from("(self, on)")));
    assert_eq!(d.method_signature("togglee"), None);
    assert_eq!(d.method_signature(""), None);
}

#[test]
fn test_call_request_passes_through_unchanged() {
    let d = sample_device();
    let args = vec![String::from("warm"), String::from("75")];
    let r = d.call_request(String::from("set_power"), args.clone());
    assert_eq!(&r.serialized_py_object, d.serialized_py_object());
    assert_eq!(r.method_name, "set_power");
    assert_eq!(r.args, args);
    // An unknown method is not locally rejected; the external library decides.
    let r2 = d.call_request(String::from("no_such_method"), Vec::new());
    assert_eq!(&r2.serialized_py_object, d.serialized_py_object());
    assert_eq!(r2.method_name, "no_such_method");
    assert!(r2.args.is_empty());
}

#[test]
fn test_to_json_exact_text() {
    let d = Device::from_parts(
        String::from("Yeelight"),
        String::from("ip"),
        String::from("t"),
        vec![1, 255],
        vec![(String::from("toggle"), String::from("sig"))],
    )
    .unwrap();
    let expected = "{\n  \"device_type\": \"Yeelight\",\n  \"ip\": \"ip\",\n  \"token\": \"t\",\n  \"serialized_py_object\": [1, 255],\n  \"callable_methods\": {\"toggle\": \"sig\"}\n}";
    assert_eq!(d.to_json(), expected);
}

#[test]
fn test_to_json_exact_text_empty_collections() {
    let d = Device::from_parts(
        String::from("FanMiot"),
        String::from("10.0.0.1"),
        String::from("k"),
        Vec::new(),
        Vec::new(),
    )
    .unwrap();
    let expected = "{\n  \"device_type\": \"FanMiot\",\n  \"ip\": \"10.0.0.1\",\n  \"token\": \"k\",\n  \"serialized_py_object\": [],\n  \"callable_methods\": {}\n}";
    assert_eq!(d.to_json(), expected);
}

#[test]
fn test_serialize_deserialize_round_trip() {
    let d = sample_device();
    let text = d.to_json();
    let back = Device::from_json(&text).unwrap();
    assert_eq!(back.device_type(), d.device_type());
    assert_eq!(back.ip(), d.ip());
    assert_eq!(back.token(), d.token());
    assert_eq!(back.serialized_py_object(), d.serialized_py_object());
    assert_eq!(back.callable_methods(), d.callable_methods());
}

#[test]
fn test_round_trip_with_escaped_characters() {
    let d = Device::from_parts(
        String::from("Air\"Humidifier\\Miot"),
        String::from("line1\nline2"),
        String::from("tab\there\rret\u{1}\u{1f}"),
        vec![42],
        vec![(String::from("set \"name\""), String::from("sig\\with\nstuff"))],
    )
    .unwrap();
    let text = d.to_json();
    let back = Device::from_json(&text).unwrap();
    assert_eq!(back.device_type(), d.device_type());
    assert_eq!(back.ip(), d.ip());
    assert_eq!(back.token(), d.token());
    assert_eq!(back.serialized_py_object(), d.serialized_py_object());
    assert_eq!(back.callable_methods(), d.callable_methods());
}

#[test]
fn test_round_trip_every_byte_value() {
    let all: Vec<u8> = (0u8..=255u8).collect();
    let d = Device::from_parts(
        String::from("Yeelight"),
        String::from("ip"),
        String::from("t"),
        all.clone(),
        Vec::new(),
    )
    .unwrap();
    let back = Device::from_json(&d.to_json()).unwrap();
    assert_eq!(back.serialized_py_object(), &all);
}
