use serde_rosmsg::de::{from_slice, from_str};
use serde_rosmsg::error::Error;
use serde_rosmsg::value::{Shape, Value};
use std::collections::HashMap;

fn array_of_four_i16() -> Shape {
    Shape::Tuple(vec![Shape::I16, Shape::I16, Shape::I16, Shape::I16])
}

fn string_map(value: Value) -> HashMap<String, String> {
    match value {
        Value::StringMap(entries) => entries.into_iter().collect(),
        other => panic!("a map was expected, got: {:?}", other),
    }
}

fn text(value: Value) -> String {
    match value {
        Value::Text(text) => text,
        other => panic!("a text was expected, got: {:?}", other),
    }
}

#[test]
fn reads_u8() {
    let data = vec![1, 0, 0, 0, 150];
    assert_eq!(Value::U8(150u8), from_slice(&data, &Shape::U8).unwrap());
}

#[test]
fn reads_u16() {
    let data = vec![2, 0, 0, 0, 0x34, 0xA2];
    assert_eq!(Value::U16(0xA234u16), from_slice(&data, &Shape::U16).unwrap());
}

#[test]
fn reads_u32() {
    let data = vec![4, 0, 0, 0, 0x45, 0x23, 1, 0xCD];
    assert_eq!(Value::U32(0xCD012345u32), from_slice(&data, &Shape::U32).unwrap());
}

#[test]
fn reads_u64() {
    let data = vec![8, 0, 0, 0, 0xBB, 0xAA, 0x10, 0x32, 0x54, 0x76, 0x98, 0xAB];
    assert_eq!(Value::U64(0xAB9876543210AABBu64), from_slice(&data, &Shape::U64).unwrap());
}

#[test]
fn reads_i8() {
    let data = vec![1, 0, 0, 0, 156];
    assert_eq!(Value::I8(-100i8), from_slice(&data, &Shape::I8).unwrap());
}

#[test]
fn reads_i16() {
    let data = vec![2, 0, 0, 0, 0xD0, 0x8A];
    assert_eq!(Value::I16(-30000i16), from_slice(&data, &Shape::I16).unwrap());
}

#[test]
fn reads_i32() {
    let data = vec![4, 0, 0, 0, 0x00, 0x6C, 0xCA, 0x88];
    assert_eq!(Value::I32(-2000000000i32), from_slice(&data, &Shape::I32).unwrap());
}

#[test]
fn reads_i64() {
    let data = vec![8, 0, 0, 0, 0x00, 0x00, 0x7c, 0x1d, 0xaf, 0x93, 0x19, 0x83];
    assert_eq!(
        Value::I64(-9000000000000000000i64),
        from_slice(&data, &Shape::I64).unwrap()
    );
}

#[test]
fn reads_f32() {
    let data = vec![4, 0, 0, 0, 0x00, 0x70, 0x7b, 0x44];
    match from_slice(&data, &Shape::F32).unwrap() {
        Value::F32(bits) => assert_eq!(1005.75f32, f32::from_bits(bits)),
        other => panic!("a single was expected, got: {:?}", other),
    }
}

#[test]
fn reads_f64() {
    let data = vec![8, 0, 0, 0, 0x00, 0x00, 0x00, 0x00, 0x00, 0x6e, 0x8f, 0x40];
    match from_slice(&data, &Shape::F64).unwrap() {
        Value::F64(bits) => assert_eq!(1005.75f64, f64::from_bits(bits)),
        other => panic!("a double was expected, got: {:?}", other),
    }
}

#[test]
fn reads_bool() {
    let data = vec![1, 0, 0, 0, 1];
    assert_eq!(Value::Bool(true), from_slice(&data, &Shape::Bool).unwrap());
    let data = vec![1, 0, 0, 0, 0];
    assert_eq!(Value::Bool(false), from_slice(&data, &Shape::Bool).unwrap());
}

#[test]
fn reads_bool_from_string() {
    assert_eq!(Value::Bool(true), from_str("\x01\0\0\0\x01", &Shape::Bool).unwrap());
    assert_eq!(Value::Bool(false), from_str("\x01\0\0\0\x00", &Shape::Bool).unwrap());
}

#[test]
fn reads_string() {
    let data = vec![4, 0, 0, 0, 0, 0, 0, 0];
    assert_eq!("", text(from_slice(&data, &Shape::Text).unwrap()));
    let data = vec![
        17, 0, 0, 0, 13, 0, 0, 0, 72, 101, 108, 108, 111, 44, 32, 87, 111, 114, 108, 100, 33,
    ];
    assert_eq!("Hello, World!", text(from_slice(&data, &Shape::Text).unwrap()));
}

#[test]
fn reads_string_from_string() {
    assert_eq!("", text(from_str("\x04\0\0\0\0\0\0\0", &Shape::Text).unwrap()));
    assert_eq!(
        "Hello, World!",
        text(from_str("\x11\0\0\0\x0d\0\0\0Hello, World!", &Shape::Text).unwrap())
    );
}

#[test]
fn reads_array() {
    let data = vec![8, 0, 0, 0, 7, 0, 1, 4, 33, 0, 57, 0];
    assert_eq!(
        Value::Tuple(vec![Value::I16(7), Value::I16(1025), Value::I16(33), Value::I16(57)]),
        from_slice(&data, &array_of_four_i16()).unwrap()
    );
}

#[test]
fn reads_array_from_string() {
    assert_eq!(
        Value::Tuple(vec![Value::I16(7), Value::I16(1025), Value::I16(32), Value::I16(65)]),
        from_str("\x08\0\0\0\x07\0\x01\x04 \0A\0", &array_of_four_i16()).unwrap()
    );
}

#[test]
fn reads_array_struct() {
    // A structure of one field has the shape of that field.
    let data = vec![8, 0, 0, 0, 7, 0, 1, 4, 33, 0, 57, 0];
    assert_eq!(
        Value::Tuple(vec![Value::I16(7), Value::I16(1025), Value::I16(33), Value::I16(57)]),
        from_slice(&data, &array_of_four_i16()).unwrap()
    );
}

#[test]
fn reads_tuple_struct() {
    let shape = Shape::Tuple(vec![Shape::I16, Shape::Bool, Shape::U8, Shape::Text]);
    let data = vec![14, 0, 0, 0, 2, 8, 1, 7, 6, 0, 0, 0, 65, 66, 67, 48, 49, 50];
    assert_eq!(
        Value::Tuple(vec![
            Value::I16(2050),
            Value::Bool(true),
            Value::U8(7),
            Value::Text(String::from("ABC012")),
        ]),
        from_slice(&data, &shape).unwrap()
    );
}

#[test]
fn reads_vector() {
    let data = vec![12, 0, 0, 0, 4, 0, 0, 0, 7, 0, 1, 4, 33, 0, 57, 0];
    assert_eq!(
        Value::Sequence(vec![Value::I16(7), Value::I16(1025), Value::I16(33), Value::I16(57)]),
        from_slice(&data, &Shape::Sequence(Box::new(Shape::I16))).unwrap()
    );
}

#[test]
fn reads_simple_struct() {
    let shape = Shape::Tuple(vec![
        Shape::I16,
        Shape::Bool,
        Shape::U8,
        Shape::Text,
        Shape::Sequence(Box::new(Shape::Bool)),
    ]);
    let v = Value::Tuple(vec![
        Value::I16(2050i16),
        Value::Bool(true),
        Value::U8(7u8),
        Value::Text(String::from("ABC012")),
        Value::Sequence(vec![
            Value::Bool(true),
            Value::Bool(false),
            Value::Bool(false),
            Value::Bool(true),
        ]),
    ]);
    let data = vec![
        22, 0, 0, 0, 2, 8, 1, 7, 6, 0, 0, 0, 65, 66, 67, 48, 49, 50, 4, 0, 0, 0, 1, 0, 0, 1,
    ];
    assert_eq!(v, from_slice(&data, &shape).unwrap());
}

#[test]
fn reads_complex_struct() {
    let part = Shape::Tuple(vec![Shape::Text, Shape::Bool]);
    let shape = Shape::Tuple(vec![Shape::Sequence(Box::new(part)), Shape::Text]);
    let mut parts = Vec::new();
    parts.push(Value::Tuple(vec![Value::Text(String::from("ABC")), Value::Bool(true)]));
    parts.push(Value::Tuple(vec![Value::Text(String::from("1!!!!")), Value::Bool(true)]));
    parts.push(Value::Tuple(vec![Value::Text(String::from("234b")), Value::Bool(false)]));
    let v = Value::Tuple(vec![Value::Sequence(parts), Value::Text(String::from("EEe"))]);
    let data = vec![
        38, 0, 0, 0, 3, 0, 0, 0, 3, 0, 0, 0, 65, 66, 67, 1, 5, 0, 0, 0, 49, 33, 33, 33, 33, 1, 4,
        0, 0, 0, 50, 51, 52, 98, 0, 3, 0, 0, 0, 69, 69, 101,
    ];
    assert_eq!(v, from_slice(&data, &shape).unwrap());
}

#[test]
fn reads_empty_string_string_map() {
    let input = vec![0, 0, 0, 0];
    let data = string_map(from_slice(&input, &Shape::StringMap).unwrap());
    assert_eq!(0, data.len());
}

#[test]
fn reads_single_element_string_string_map() {
    let input = vec![11, 0, 0, 0, 7, 0, 0, 0, 97, 98, 99, 61, 49, 50, 51];
    let data = string_map(from_slice(&input, &Shape::StringMap).unwrap());
    assert_eq!(1, data.len());
    assert_eq!(Some(&String::from("123")), data.get("abc"));
}

#[test]
fn reads_typical_header() {
    let input = vec![
        0xb0, 0x00, 0x00, 0x00, 0x20, 0x00, 0x00, 0x00, 0x6d, 0x65, 0x73, 0x73, 0x61, 0x67, 0x65,
        0x5f, 0x64, 0x65, 0x66, 0x69, 0x6e, 0x69, 0x74, 0x69, 0x6f, 0x6e, 0x3d, 0x73, 0x74, 0x72,
        0x69, 0x6e, 0x67, 0x20, 0x64, 0x61, 0x74, 0x61, 0x0a, 0x0a, 0x25, 0x00, 0x00, 0x00, 0x63,
        0x61, 0x6c, 0x6c, 0x65, 0x72, 0x69, 0x64, 0x3d, 0x2f, 0x72, 0x6f, 0x73, 0x74, 0x6f, 0x70,
        0x69, 0x63, 0x5f, 0x34, 0x37, 0x36, 0x37, 0x5f, 0x31, 0x33, 0x31, 0x36, 0x39, 0x31, 0x32,
        0x37, 0x34, 0x31, 0x35, 0x35, 0x37, 0x0a, 0x00, 0x00, 0x00, 0x6c, 0x61, 0x74, 0x63, 0x68,
        0x69, 0x6e, 0x67, 0x3d, 0x31, 0x27, 0x00, 0x00, 0x00, 0x6d, 0x64, 0x35, 0x73, 0x75, 0x6d,
        0x3d, 0x39, 0x39, 0x32, 0x63, 0x65, 0x38, 0x61, 0x31, 0x36, 0x38, 0x37, 0x63, 0x65, 0x63,
        0x38, 0x63, 0x38, 0x62, 0x64, 0x38, 0x38, 0x33, 0x65, 0x63, 0x37, 0x33, 0x63, 0x61, 0x34,
        0x31, 0x64, 0x31, 0x0e, 0x00, 0x00, 0x00, 0x74, 0x6f, 0x70, 0x69, 0x63, 0x3d, 0x2f, 0x63,
        0x68, 0x61, 0x74, 0x74, 0x65, 0x72, 0x14, 0x00, 0x00, 0x00, 0x74, 0x79, 0x70, 0x65, 0x3d,
        0x73, 0x74, 0x64, 0x5f, 0x6d, 0x73, 0x67, 0x73, 0x2f, 0x53, 0x74, 0x72, 0x69, 0x6e, 0x67,
    ];
    let data = string_map(from_slice(&input, &Shape::StringMap).unwrap());
    assert_eq!(6, data.len());
    assert_eq!(
        Some(&String::from("string data\n\n")),
        data.get("message_definition")
    );
    assert_eq!(
        Some(&String::from("/rostopic_4767_1316912741557")),
        data.get("callerid")
    );
    assert_eq!(Some(&String::from("1")), data.get("latching"));
    assert_eq!(
        Some(&String::from("992ce8a1687cec8c8bd883ec73ca41d1")),
        data.get("md5sum")
    );
    assert_eq!(Some(&String::from("/chatter")), data.get("topic"));
    assert_eq!(Some(&String::from("std_msgs/String")), data.get("type"));
}

#[test]
fn reports_end_of_buffer() {
    let data = vec![4, 0, 0, 0, 0x45, 0x23, 1];
    let error = from_slice(&data, &Shape::U32).unwrap_err();
    match error {
        Error::EndOfBuffer => {}
        _ => panic!("End of buffer error expected, got: {:?}", error),
    }
}

#[test]
fn reports_attempt_to_read_beyond_prediction() {
    let data = vec![2, 0, 0, 0, 0x45, 0x23, 1, 0xCD];
    let error = from_slice(&data, &Shape::U32).unwrap_err();
    match error {
        Error::Overflow => {}
        _ => panic!("Overflow error expected, got: {:?}", error),
    }
}

#[test]
fn reports_failure_to_read_predicted_length() {
    let data = vec![5, 0, 0, 0, 0x45, 0x23, 1, 0xCD];
    let error = from_slice(&data, &Shape::U32).unwrap_err();
    match error {
        Error::Underflow => {}
        _ => panic!("Underflow error expected, got: {:?}", error),
    }
}

#[test]
fn requires_right_length_for_vector() {
    let shape = Shape::Sequence(Box::new(Shape::I16));
    let data = vec![12, 0, 0, 0, 3, 0, 0, 0, 7, 0, 1, 4, 33, 0, 57, 0];
    from_slice(&data, &shape).unwrap_err();
    let data = vec![12, 0, 0, 0, 5, 0, 0, 0, 7, 0, 1, 4, 33, 0, 57, 0];
    from_slice(&data, &shape).unwrap_err();
}
