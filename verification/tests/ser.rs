use serde_rosmsg::error::Error;
use serde_rosmsg::ser::{frame, to_vec, Serializer};
use serde_rosmsg::value::Value;

#[test]
fn writes_u8() {
    assert_eq!(vec![1, 0, 0, 0, 150], to_vec(&Value::U8(150)).unwrap());
}

#[test]
fn writes_u16() {
    assert_eq!(vec![2, 0, 0, 0, 0x34, 0xA2], to_vec(&Value::U16(0xA234)).unwrap());
}

#[test]
fn writes_u32() {
    assert_eq!(
        vec![4, 0, 0, 0, 0x45, 0x23, 1, 0xCD],
        to_vec(&Value::U32(0xCD012345)).unwrap()
    );
}

#[test]
fn writes_u64() {
    assert_eq!(
        vec![8, 0, 0, 0, 0xBB, 0xAA, 0x10, 0x32, 0x54, 0x76, 0x98, 0xAB],
        to_vec(&Value::U64(0xAB9876543210AABB)).unwrap()
    );
}

#[test]
fn writes_i8() {
    assert_eq!(vec![1, 0, 0, 0, 156], to_vec(&Value::I8(-100)).unwrap());
}

#[test]
fn writes_i16() {
    assert_eq!(vec![2, 0, 0, 0, 0xD0, 0x8A], to_vec(&Value::I16(-30000)).unwrap());
}

#[test]
fn writes_i32() {
    assert_eq!(
        vec![4, 0, 0, 0, 0x00, 0x6C, 0xCA, 0x88],
        to_vec(&Value::I32(-2000000000)).unwrap()
    );
}

#[test]
fn writes_i64() {
    assert_eq!(
        vec![8, 0, 0, 0, 0x00, 0x00, 0x7c, 0x1d, 0xaf, 0x93, 0x19, 0x83],
        to_vec(&Value::I64(-9000000000000000000)).unwrap()
    );
}

#[test]
fn writes_f32() {
    assert_eq!(
        vec![4, 0, 0, 0, 0x00, 0x70, 0x7b, 0x44],
        to_vec(&Value::F32(1005.75f32.to_bits())).unwrap()
    );
}

#[test]
fn writes_f64() {
    assert_eq!(
        vec![8, 0, 0, 0, 0x00, 0x00, 0x00, 0x00, 0x00, 0x6e, 0x8f, 0x40],
        to_vec(&Value::F64(1005.75f64.to_bits())).unwrap()
    );
}

#[test]
fn writes_bool() {
    assert_eq!(vec![1, 0, 0, 0, 1], to_vec(&Value::Bool(true)).unwrap());
    assert_eq!(vec![1, 0, 0, 0, 0], to_vec(&Value::Bool(false)).unwrap());
}

#[test]
fn writes_unit() {
    assert_eq!(vec![0, 0, 0, 0], to_vec(&Value::Unit).unwrap());
}

#[test]
fn writes_string() {
    assert_eq!(
        vec![4, 0, 0, 0, 0, 0, 0, 0],
        to_vec(&Value::Text(String::new())).unwrap()
    );
    assert_eq!(
        vec![17, 0, 0, 0, 13, 0, 0, 0, 72, 101, 108, 108, 111, 44, 32, 87, 111, 114, 108, 100, 33],
        to_vec(&Value::Text(String::from("Hello, World!"))).unwrap()
    );
}

#[test]
fn writes_string_that_is_not_ascii() {
    // Two characters, five bytes of UTF-8.
    assert_eq!(
        vec![9, 0, 0, 0, 5, 0, 0, 0, 0xC3, 0xA9, 0xE2, 0x82, 0xAC],
        to_vec(&Value::Text(String::from("\u{e9}\u{20ac}"))).unwrap()
    );
}

#[test]
fn writes_bytes() {
    assert_eq!(
        vec![7, 0, 0, 0, 3, 0, 0, 0, 255, 0, 128],
        to_vec(&Value::Bytes(vec![255, 0, 128])).unwrap()
    );
}

#[test]
fn writes_tuple() {
    assert_eq!(
        vec![4, 0, 0, 0, 2, 4, 8, 16],
        to_vec(&Value::Tuple(vec![Value::U16(1026), Value::U16(4104)])).unwrap()
    );
}

#[test]
fn writes_vector() {
    assert_eq!(
        vec![12, 0, 0, 0, 4, 0, 0, 0, 7, 0, 1, 4, 33, 0, 57, 0],
        to_vec(&Value::Sequence(vec![
            Value::I16(7),
            Value::I16(1025),
            Value::I16(33),
            Value::I16(57),
        ]))
        .unwrap()
    );
}

#[test]
fn writes_empty_vector() {
    assert_eq!(vec![4, 0, 0, 0, 0, 0, 0, 0], to_vec(&Value::Sequence(vec![])).unwrap());
}

#[test]
fn writes_complex_struct() {
    let mut parts = Vec::new();
    parts.push(Value::Tuple(vec![Value::Text(String::from("ABC")), Value::Bool(true)]));
    parts.push(Value::Tuple(vec![Value::Text(String::from("1!!!!")), Value::Bool(true)]));
    parts.push(Value::Tuple(vec![Value::Text(String::from("234b")), Value::Bool(false)]));
    let v = Value::Tuple(vec![Value::Sequence(parts), Value::Text(String::from("EEe"))]);
    let data = vec![
        38, 0, 0, 0, 3, 0, 0, 0, 3, 0, 0, 0, 65, 66, 67, 1, 5, 0, 0, 0, 49, 33, 33, 33, 33, 1, 4,
        0, 0, 0, 50, 51, 52, 98, 0, 3, 0, 0, 0, 69, 69, 101,
    ];
    assert_eq!(data, to_vec(&v).unwrap());
}

#[test]
fn writes_empty_string_string_map() {
    assert_eq!(vec![0, 0, 0, 0], to_vec(&Value::StringMap(vec![])).unwrap());
}

#[test]
fn writes_single_element_string_string_map() {
    let map = Value::StringMap(vec![(String::from("abc"), String::from("123"))]);
    assert_eq!(
        vec![11, 0, 0, 0, 7, 0, 0, 0, 97, 98, 99, 61, 49, 50, 51],
        to_vec(&map).unwrap()
    );
}

#[test]
fn writes_map_entries_in_their_order() {
    let map = Value::StringMap(vec![
        (String::from("b"), String::from("")),
        (String::from("a"), String::from("x=y")),
    ]);
    assert_eq!(
        vec![
            15, 0, 0, 0, 2, 0, 0, 0, 98, 61, 5, 0, 0, 0, 97, 61, 120, 61, 121,
        ],
        to_vec(&map).unwrap()
    );
}

#[test]
fn serializer_appends_without_a_frame() {
    let mut serializer = Serializer::new(vec![9]);
    serializer.serialize_u16(1026);
    serializer.serialize_bool(true);
    serializer.serialize_i8(-1);
    serializer.serialize_str("AB").unwrap();
    serializer.serialize_bytes(&[7, 8]).unwrap();
    serializer.write_size(3).unwrap();
    serializer.serialize(&Value::Tuple(vec![Value::U8(1), Value::Unit, Value::I32(-2)])).unwrap();
    assert_eq!(
        vec![
            9, 2, 4, 1, 255, 2, 0, 0, 0, 65, 66, 2, 0, 0, 0, 7, 8, 3, 0, 0, 0, 1, 254, 255, 255,
            255,
        ],
        serializer.into_inner()
    );
}

#[test]
fn serializer_writes_each_scalar() {
    let mut serializer = Serializer::new(Vec::new());
    serializer.serialize_u8(200);
    serializer.serialize_i16(-2);
    serializer.serialize_u32(0x01020304);
    serializer.serialize_i32(-3);
    serializer.serialize_u64(0x0102030405060708);
    serializer.serialize_i64(-4);
    serializer.serialize_f32(1.0f32.to_bits());
    serializer.serialize_f64(1.0f64.to_bits());
    assert_eq!(
        vec![
            200, 0xFE, 0xFF, 4, 3, 2, 1, 0xFD, 0xFF, 0xFF, 0xFF, 8, 7, 6, 5, 4, 3, 2, 1, 0xFC,
            0xFF, 0xFF, 0xFF, 0xFF, 0xFF, 0xFF, 0xFF, 0, 0, 0x80, 0x3F, 0, 0, 0, 0, 0, 0, 0xF0,
            0x3F,
        ],
        serializer.into_inner()
    );
}

#[test]
fn refuses_a_size_that_four_bytes_cannot_hold() {
    if usize::BITS > 32 {
        let mut serializer = Serializer::new(vec![1, 2]);
        let too_long = u32::MAX as usize + 1;
        assert_eq!(Err(Error::Overflow), serializer.write_size(too_long));
        assert_eq!(vec![1, 2], serializer.into_inner());
    }
    let mut serializer = Serializer::new(Vec::new());
    serializer.write_size(u32::MAX as usize).unwrap();
    assert_eq!(vec![255, 255, 255, 255], serializer.into_inner());
}

#[test]
fn serializer_writes_a_map_entry() {
    let mut serializer = Serializer::new(Vec::new());
    serializer.serialize_entry("abc", "123").unwrap();
    serializer.serialize_entry("", "").unwrap();
    serializer.serialize_entry("\u{e9}", "=").unwrap();
    assert_eq!(
        vec![
            7, 0, 0, 0, 97, 98, 99, 61, 49, 50, 51, 1, 0, 0, 0, 61, 4, 0, 0, 0, 0xC3, 0xA9, 61,
            61,
        ],
        serializer.into_inner()
    );
}

#[test]
fn frames_bytes_as_a_message() {
    assert_eq!(vec![0, 0, 0, 0], frame(&[]).unwrap());
    assert_eq!(vec![3, 0, 0, 0, 9, 8, 7], frame(&[9, 8, 7]).unwrap());
    let body = vec![5u8; 300];
    let framed = frame(&body).unwrap();
    assert_eq!(&[44, 1, 0, 0], &framed[..4]);
    assert_eq!(&body[..], &framed[4..]);
}
