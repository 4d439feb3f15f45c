use tora::schema::{conforms, decode_value, encode_value, Shape, Value};
use tora::stream::{ByteReader, Error, ErrorKind};
use tora::union::TagType;

fn message_shape() -> Shape {
    Shape::Record(vec![Shape::U8, Shape::Text, Shape::List(Box::new(Shape::U8))])
}

fn message() -> Value {
    Value::Record(vec![
        Value::U8(5),
        Value::Text("John".to_string()),
        Value::List(vec![Value::U8(1), Value::U8(2), Value::U8(3)]),
    ])
}

fn packet_shape() -> Shape {
    Shape::Union(
        "Packet".to_string(),
        TagType::I64,
        vec![
            Shape::Record(vec![]),
            Shape::Record(vec![Shape::U8, Shape::Optional(Box::new(Shape::Text))]),
            Shape::Record(vec![Shape::U8, message_shape()]),
        ],
    )
}

fn encoded(s: &Shape, v: &Value) -> Vec<u8> {
    let mut w = Vec::new();
    encode_value(s, v, &mut w);
    w
}

#[test]
fn record_encodes_fields_in_order() {
    let bytes = encoded(&message_shape(), &message());
    assert_eq!(
        bytes,
        vec![0x05, 0x4A, 0x6F, 0x68, 0x6E, 0x00, 0x03, 0x00, 0x00, 0x00, 0x01, 0x02, 0x03]
    );
    let mut r = ByteReader::new(bytes);
    assert_eq!(decode_value(&message_shape(), &mut r).unwrap(), message());
    assert_eq!(r.remaining(), 0);
}

#[test]
fn every_variant_round_trips() {
    let values = vec![
        Value::Variant(0, Box::new(Value::Record(vec![]))),
        Value::Variant(
            1,
            Box::new(Value::Record(vec![
                Value::U8(1),
                Value::Optional(Some(Box::new(Value::Text("Joseph".to_string())))),
            ])),
        ),
        Value::Variant(
            1,
            Box::new(Value::Record(vec![Value::U8(2), Value::Optional(None)])),
        ),
        Value::Variant(2, Box::new(Value::Record(vec![Value::U8(9), message()]))),
    ];
    for v in values {
        let bytes = encoded(&packet_shape(), &v);
        let mut r = ByteReader::new(bytes);
        assert_eq!(decode_value(&packet_shape(), &mut r).unwrap(), v);
        assert_eq!(r.remaining(), 0);
    }
}

#[test]
fn variant_tag_is_its_declaration_index() {
    let v = Value::Variant(
        1,
        Box::new(Value::Record(vec![Value::U8(7), Value::Optional(None)])),
    );
    assert_eq!(encoded(&packet_shape(), &v), vec![1, 0, 0, 0, 0, 0, 0, 0, 7, 0]);
    let unit = Value::Variant(0, Box::new(Value::Record(vec![])));
    assert_eq!(encoded(&packet_shape(), &unit), vec![0; 8]);
}

#[test]
fn unknown_variant_tag_decodes_to_nothing() {
    let mut r = ByteReader::new(vec![3, 0, 0, 0, 0, 0, 0, 0, 1, 2]);
    match decode_value(&packet_shape(), &mut r) {
        Err(Error::InvalidInput(name)) => assert_eq!(name, "Packet"),
        other => panic!("expected invalid input, got {:?}", other),
    }
    let mut r = ByteReader::new(vec![0xFF, 0xFF, 0xFF, 0xFF, 0xFF, 0xFF, 0xFF, 0xFF]);
    assert_eq!(
        decode_value(&packet_shape(), &mut r).unwrap_err().kind(),
        ErrorKind::InvalidInput
    );
}

#[test]
fn truncated_record_is_unexpected_eof() {
    let bytes = encoded(&message_shape(), &message());
    for k in 0..bytes.len() {
        let mut r = ByteReader::new(bytes[..k].to_vec());
        assert_eq!(
            decode_value(&message_shape(), &mut r).unwrap_err().kind(),
            ErrorKind::UnexpectedEof
        );
    }
}

#[test]
fn invalid_text_is_invalid_data() {
    let mut r = ByteReader::new(vec![5, 0xC3, 0x28, 0, 0, 0, 0, 0]);
    assert_eq!(
        decode_value(&message_shape(), &mut r).unwrap_err().kind(),
        ErrorKind::InvalidData
    );
}

#[test]
fn leaves_and_nesting_round_trip() {
    let shape = Shape::Record(vec![
        Shape::Bool,
        Shape::U16,
        Shape::U32,
        Shape::U64,
        Shape::I32,
        Shape::I64,
        Shape::Char,
        Shape::List(Box::new(Shape::Record(vec![Shape::Text, Shape::Bool]))),
    ]);
    let value = Value::Record(vec![
        Value::Bool(true),
        Value::U16(513),
        Value::U32(70000),
        Value::U64(1 << 40),
        Value::I32(-3),
        Value::I64(-4),
        Value::Char('\u{e9}'),
        Value::List(vec![
            Value::Record(vec![Value::Text("x".to_string()), Value::Bool(false)]),
            Value::Record(vec![Value::Text(String::new()), Value::Bool(true)]),
        ]),
    ]);
    let bytes = encoded(&shape, &value);
    assert_eq!(&bytes[..3], &[1, 1, 2]);
    let mut r = ByteReader::new(bytes);
    assert_eq!(decode_value(&shape, &mut r).unwrap(), value);
}

#[test]
fn conformance_is_checked() {
    assert!(conforms(&message_shape(), &message()));
    assert!(!conforms(&message_shape(), &Value::U8(5)));
    let with_nul = Value::Record(vec![
        Value::U8(5),
        Value::Text("a\0b".to_string()),
        Value::List(vec![]),
    ]);
    assert!(!conforms(&message_shape(), &with_nul));
    let short = Value::Record(vec![Value::U8(5)]);
    assert!(!conforms(&message_shape(), &short));
    let unknown = Value::Variant(3, Box::new(Value::Record(vec![])));
    assert!(!conforms(&packet_shape(), &unknown));
    let known = Value::Variant(0, Box::new(Value::Record(vec![])));
    assert!(conforms(&packet_shape(), &known));
    let wrong_item = Value::List(vec![Value::U8(1), Value::Bool(true)]);
    assert!(!conforms(&Shape::List(Box::new(Shape::U8)), &wrong_item));
}
