use rbx_dom::codec::{
    deserialize_binary_string, serialize_binary_string, EventIterator, XmlDecodeError, XmlEvent,
    XmlEventWriter,
};
use rbx_dom::variant::Variant;

fn encode(name: &str, value: &[u8]) -> Vec<XmlEvent> {
    let mut writer = XmlEventWriter::new();
    serialize_binary_string(&mut writer, name, value).unwrap();
    writer.into_events()
}

fn payload_of(events: &[XmlEvent]) -> String {
    match &events[1] {
        XmlEvent::Characters(t) => t.clone(),
        other => panic!("expected characters, found {:?}", other),
    }
}

fn events_with_payload(payload: &str) -> Vec<XmlEvent> {
    vec![
        XmlEvent::StartElement {
            name: "BinaryString".to_owned(),
            attributes: vec![("name".to_owned(), "foo".to_owned())],
        },
        XmlEvent::Characters(payload.to_owned()),
        XmlEvent::EndElement { name: "BinaryString".to_owned() },
    ]
}

fn decode(events: Vec<XmlEvent>) -> Result<Variant, XmlDecodeError> {
    let mut reader = EventIterator::from_events(events);
    deserialize_binary_string(&mut reader)
}

#[test]
fn round_trip_binary_string() {
    let test_value: &[u8] =
        b"\x00\x01hello,\n\x7Fworld, from a fairly sizable binary string literal.\n";

    let events = encode("foo", test_value);
    let value = decode(events).unwrap();

    assert_eq!(value, Variant::BinaryString(test_value.to_owned()));
}

#[test]
fn written_events_have_expected_shape() {
    let events = encode("foo", b"hello");
    assert_eq!(events.len(), 3);
    match &events[0] {
        XmlEvent::StartElement { name, attributes } => {
            assert_eq!(name, "BinaryString");
            assert_eq!(attributes, &vec![("name".to_owned(), "foo".to_owned())]);
        }
        other => panic!("unexpected {:?}", other),
    }
    assert_eq!(payload_of(&events), "aGVsbG8=");
    match &events[2] {
        XmlEvent::EndElement { name } => assert_eq!(name, "BinaryString"),
        other => panic!("unexpected {:?}", other),
    }
}

#[test]
fn round_trip_empty_blob() {
    let events = encode("empty", b"");
    assert_eq!(decode(events).unwrap(), Variant::BinaryString(Vec::new()));
}

#[test]
fn immediately_closed_element_is_empty_blob() {
    let events = vec![
        XmlEvent::StartElement { name: "BinaryString".to_owned(), attributes: Vec::new() },
        XmlEvent::EndElement { name: "BinaryString".to_owned() },
    ];
    assert_eq!(decode(events).unwrap(), Variant::BinaryString(Vec::new()));
}

#[test]
fn round_trip_with_injected_line_wraps() {
    let value: Vec<u8> = (0u8..=255).collect();
    let plain = payload_of(&encode("foo", &value));
    let mut wrapped = String::new();
    for (i, c) in plain.chars().enumerate() {
        if i > 0 && i % 72 == 0 {
            wrapped.push('\n');
        }
        wrapped.push(c);
    }
    wrapped.push_str("\r\n");
    assert!(wrapped.contains('\n'));
    assert_eq!(decode(events_with_payload(&wrapped)).unwrap(), Variant::BinaryString(value));
}

#[test]
fn malformed_base64_is_decode_error() {
    assert_eq!(decode(events_with_payload("not base64!!")), Err(XmlDecodeError::InvalidEncoding));
    assert_eq!(decode(events_with_payload("@@@@")), Err(XmlDecodeError::InvalidEncoding));
}

#[test]
fn wrong_tag_is_unexpected_event() {
    let events = vec![
        XmlEvent::StartElement { name: "String".to_owned(), attributes: Vec::new() },
        XmlEvent::EndElement { name: "String".to_owned() },
    ];
    assert_eq!(decode(events), Err(XmlDecodeError::UnexpectedEvent));
}

#[test]
fn mismatched_closing_tag_is_unexpected_event() {
    let events = vec![
        XmlEvent::StartElement { name: "BinaryString".to_owned(), attributes: Vec::new() },
        XmlEvent::EndElement { name: "Other".to_owned() },
    ];
    assert_eq!(decode(events), Err(XmlDecodeError::UnexpectedEvent));
}

#[test]
fn truncated_stream_is_unexpected_eof() {
    assert_eq!(decode(Vec::new()), Err(XmlDecodeError::UnexpectedEof));
    let events = vec![
        XmlEvent::StartElement { name: "BinaryString".to_owned(), attributes: Vec::new() },
        XmlEvent::Characters("aGk=".to_owned()),
    ];
    assert_eq!(decode(events), Err(XmlDecodeError::UnexpectedEof));
}
