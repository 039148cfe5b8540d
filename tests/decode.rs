use serde_protobuf::descriptor::{Descriptors, FieldDescriptor, FieldType, MessageDescriptor};
use serde_protobuf::error::{CompatError, Error, StreamError};
use serde_protobuf::value::{decode_zig_zag_32, decode_zig_zag_64, Field, Message, Value};
use serde_protobuf::wire::{Reader, WireType};

fn fd(number: i32, repeated: bool, field_type: FieldType) -> FieldDescriptor {
    FieldDescriptor {
        name: format!("f{}", number),
        number,
        repeated,
        field_type,
        default_value: None,
    }
}

fn one(fields: Vec<FieldDescriptor>) -> Descriptors {
    Descriptors {
        messages: vec![MessageDescriptor { name: "M".to_string(), fields }],
    }
}

fn decode(ds: &Descriptors, index: usize, bytes: Vec<u8>) -> (Message, Result<(), Error>) {
    let md = &ds.messages[index];
    let mut m = Message::new(md);
    let mut r = Reader::new(bytes);
    let res = m.merge_from(ds, md, &mut r);
    (m, res)
}

fn repeated(m: &Message, n: i32) -> &Vec<Value> {
    match m.fields.get(&n) {
        Some(Field::Repeated(v)) => v,
        other => panic!("not repeated: {:?}", other),
    }
}

fn singular(m: &Message, n: i32) -> &Option<Value> {
    match m.fields.get(&n) {
        Some(Field::Singular(v)) => v,
        other => panic!("not singular: {:?}", other),
    }
}

#[test]
fn int32_and_repeated_strings() {
    let ds = one(vec![fd(1, false, FieldType::Int32), fd(2, true, FieldType::String)]);
    let (m, res) = decode(&ds, 0, vec![0x08, 0x96, 0x01, 0x12, 0x01, b'a', 0x12, 0x01, b'b']);
    assert!(res.is_ok());
    assert!(matches!(singular(&m, 1), Some(Value::I32(150))));
    let v = repeated(&m, 2);
    assert_eq!(v.len(), 2);
    assert!(matches!(&v[0], Value::String(s) if s == "a"));
    assert!(matches!(&v[1], Value::String(s) if s == "b"));
}

#[test]
fn unknown_length_delimited_kept() {
    let ds = one(vec![fd(1, false, FieldType::Int32)]);
    // field 99, length-delimited, three bytes
    let (m, res) = decode(&ds, 0, vec![0x9A, 0x06, 0x03, b'x', b'y', b'z']);
    assert!(res.is_ok());
    assert!(matches!(singular(&m, 1), None));
    assert_eq!(m.fields.len(), 1);
    let u = m.unknown.get(99).expect("field 99 kept");
    assert_eq!(u.length_delimited, vec![b"xyz".to_vec()]);
}

#[test]
fn unknown_fixed_and_varint_kept() {
    let ds = one(vec![]);
    // field 5 varint 7; field 6 fixed32; field 7 fixed64
    let (m, res) = decode(
        &ds,
        0,
        vec![0x28, 0x07, 0x35, 1, 0, 0, 0, 0x39, 2, 0, 0, 0, 0, 0, 0, 0],
    );
    assert!(res.is_ok());
    assert_eq!(m.unknown.get(5).unwrap().varint, vec![7]);
    assert_eq!(m.unknown.get(6).unwrap().fixed32, vec![1]);
    assert_eq!(m.unknown.get(7).unwrap().fixed64, vec![2]);
}

#[test]
fn packed_equals_unpacked() {
    let ds = one(vec![fd(3, true, FieldType::Int32)]);
    let (packed, r1) = decode(&ds, 0, vec![0x1A, 0x03, 0x01, 0x02, 0x03]);
    let (unpacked, r2) = decode(&ds, 0, vec![0x18, 0x01, 0x18, 0x02, 0x18, 0x03]);
    assert!(r1.is_ok() && r2.is_ok());
    let a: Vec<i32> = repeated(&packed, 3)
        .iter()
        .map(|v| match v {
            Value::I32(x) => *x,
            _ => panic!(),
        })
        .collect();
    let b: Vec<i32> = repeated(&unpacked, 3)
        .iter()
        .map(|v| match v {
            Value::I32(x) => *x,
            _ => panic!(),
        })
        .collect();
    assert_eq!(a, vec![1, 2, 3]);
    assert_eq!(a, b);
}

#[test]
fn packed_and_unpacked_mixed_concatenate() {
    let ds = one(vec![fd(3, true, FieldType::UInt32)]);
    let (m, res) = decode(&ds, 0, vec![0x18, 0x05, 0x1A, 0x02, 0x06, 0x07, 0x18, 0x08]);
    assert!(res.is_ok());
    let got: Vec<u32> = repeated(&m, 3)
        .iter()
        .map(|v| match v {
            Value::U32(x) => *x,
            _ => panic!(),
        })
        .collect();
    assert_eq!(got, vec![5, 6, 7, 8]);
}

#[test]
fn singular_last_wins() {
    let ds = one(vec![fd(1, false, FieldType::Int64)]);
    let (m, res) = decode(&ds, 0, vec![0x08, 0x01, 0x08, 0x02]);
    assert!(res.is_ok());
    assert!(matches!(singular(&m, 1), Some(Value::I64(2))));
}

#[test]
fn embedded_messages_merge() {
    // message 0: field 1 = message 1; message 1: fields 1, 2 = int32, 3 = repeated int32
    let ds = Descriptors {
        messages: vec![
            MessageDescriptor {
                name: "Outer".to_string(),
                fields: vec![fd(1, false, FieldType::Message(1))],
            },
            MessageDescriptor {
                name: "Inner".to_string(),
                fields: vec![
                    fd(1, false, FieldType::Int32),
                    fd(2, false, FieldType::Int32),
                    fd(3, true, FieldType::Int32),
                ],
            },
        ],
    };
    // first: {1: 5, 3: [1]}; second: {2: 6, 3: [2]}
    let bytes = vec![
        0x0A, 0x04, 0x08, 0x05, 0x18, 0x01, 0x0A, 0x04, 0x10, 0x06, 0x18, 0x02,
    ];
    let (m, res) = decode(&ds, 0, bytes);
    assert!(res.is_ok());
    let inner = match singular(&m, 1) {
        Some(Value::Message(i)) => i,
        other => panic!("{:?}", other),
    };
    assert!(matches!(singular(inner, 1), Some(Value::I32(5))));
    assert!(matches!(singular(inner, 2), Some(Value::I32(6))));
    let r = repeated(inner, 3);
    assert_eq!(r.len(), 2);
    assert!(matches!(r[0], Value::I32(1)));
    assert!(matches!(r[1], Value::I32(2)));
}

#[test]
fn repeated_embedded_messages_append() {
    let ds = Descriptors {
        messages: vec![
            MessageDescriptor {
                name: "Outer".to_string(),
                fields: vec![fd(1, true, FieldType::Message(1))],
            },
            MessageDescriptor {
                name: "Inner".to_string(),
                fields: vec![fd(1, false, FieldType::Int32)],
            },
        ],
    };
    let (m, res) = decode(&ds, 0, vec![0x0A, 0x02, 0x08, 0x01, 0x0A, 0x00]);
    assert!(res.is_ok());
    let r = repeated(&m, 1);
    assert_eq!(r.len(), 2);
    match &r[1] {
        Value::Message(i) => assert!(matches!(singular(i, 1), None)),
        other => panic!("{:?}", other),
    }
}

#[test]
fn bad_wire_type_reports_actual() {
    let ds = one(vec![fd(1, false, FieldType::Fixed32)]);
    let (_, res) = decode(&ds, 0, vec![0x08, 0x01]);
    assert_eq!(res, Err(Error::BadWireType { wire_type: WireType::Varint }));
    let ds = one(vec![fd(1, false, FieldType::String)]);
    let (_, res) = decode(&ds, 0, vec![0x08, 0x01]);
    assert_eq!(res, Err(Error::BadWireType { wire_type: WireType::Varint }));
    let ds = one(vec![fd(1, false, FieldType::Enum("E".to_string()))]);
    let (_, res) = decode(&ds, 0, vec![0x0D, 0, 0, 0, 0]);
    assert_eq!(res, Err(Error::BadWireType { wire_type: WireType::Fixed32 }));
}

#[test]
fn group_not_implemented() {
    let ds = one(vec![fd(1, false, FieldType::Group)]);
    let (_, res) = decode(&ds, 0, vec![0x0B, 0x0C]);
    assert_eq!(res, Err(Error::Unimplemented));
}

#[test]
fn unresolved_types_fail() {
    let ds = one(vec![fd(1, false, FieldType::UnresolvedEnum("pkg.E".to_string()))]);
    let (_, res) = decode(&ds, 0, vec![0x08, 0x01]);
    assert_eq!(res, Err(Error::UnknownEnum { name: "pkg.E".to_string() }));
    let ds = one(vec![fd(1, false, FieldType::UnresolvedMessage("pkg.M".to_string()))]);
    let (_, res) = decode(&ds, 0, vec![0x0A, 0x00]);
    assert_eq!(res, Err(Error::UnknownMessage { name: "pkg.M".to_string() }));
}

#[test]
fn enum_keeps_raw_number() {
    let ds = one(vec![fd(1, false, FieldType::Enum("E".to_string()))]);
    let (m, res) = decode(&ds, 0, vec![0x08, 0x2A]);
    assert!(res.is_ok());
    assert!(matches!(singular(&m, 1), Some(Value::Enum(42))));
}

#[test]
fn scalar_encodings() {
    let ds = one(vec![
        fd(1, false, FieldType::SInt32),
        fd(2, false, FieldType::SInt64),
        fd(3, false, FieldType::Bool),
        fd(4, false, FieldType::SFixed32),
        fd(5, false, FieldType::Fixed64),
        fd(6, false, FieldType::Float),
        fd(7, false, FieldType::Double),
        fd(8, false, FieldType::Bytes),
        fd(9, false, FieldType::Int32),
    ]);
    let mut bytes = vec![0x08, 0x03, 0x10, 0x04, 0x18, 0x01, 0x25, 0xFE, 0xFF, 0xFF, 0xFF];
    bytes.extend_from_slice(&[0x29, 1, 2, 0, 0, 0, 0, 0, 0]);
    bytes.push(0x35);
    bytes.extend_from_slice(&1.5f32.to_le_bytes());
    bytes.push(0x39);
    bytes.extend_from_slice(&(-2.25f64).to_le_bytes());
    bytes.extend_from_slice(&[0x42, 0x02, 0xDE, 0xAD]);
    // int32 -1 takes ten bytes
    bytes.extend_from_slice(&[0x48, 0xFF, 0xFF, 0xFF, 0xFF, 0xFF, 0xFF, 0xFF, 0xFF, 0xFF, 0x01]);
    let (m, res) = decode(&ds, 0, bytes);
    assert!(res.is_ok());
    assert!(matches!(singular(&m, 1), Some(Value::I32(-2))));
    assert!(matches!(singular(&m, 2), Some(Value::I64(2))));
    assert!(matches!(singular(&m, 3), Some(Value::Bool(true))));
    assert!(matches!(singular(&m, 4), Some(Value::I32(-2))));
    assert!(matches!(singular(&m, 5), Some(Value::U64(0x0201))));
    match singular(&m, 6) {
        Some(Value::F32(b)) => assert_eq!(f32::from_bits(*b), 1.5),
        other => panic!("{:?}", other),
    }
    match singular(&m, 7) {
        Some(Value::F64(b)) => assert_eq!(f64::from_bits(*b), -2.25),
        other => panic!("{:?}", other),
    }
    assert!(matches!(singular(&m, 8), Some(Value::Bytes(b)) if b == &vec![0xDE, 0xAD]));
    assert!(matches!(singular(&m, 9), Some(Value::I32(-1))));
}

#[test]
fn zig_zag_values() {
    assert_eq!(decode_zig_zag_32(0), 0);
    assert_eq!(decode_zig_zag_32(1), -1);
    assert_eq!(decode_zig_zag_32(2), 1);
    assert_eq!(decode_zig_zag_32(u32::MAX), i32::MIN);
    assert_eq!(decode_zig_zag_32(u32::MAX - 1), i32::MAX);
    assert_eq!(decode_zig_zag_64(3), -2);
    assert_eq!(decode_zig_zag_64(u64::MAX), i64::MIN);
}

#[test]
fn stream_errors() {
    let ds = one(vec![fd(1, false, FieldType::Int32), fd(2, false, FieldType::String)]);
    let (_, res) = decode(&ds, 0, vec![0x08]);
    assert_eq!(res, Err(Error::Stream(StreamError::Truncated)));
    let (_, res) = decode(&ds, 0, vec![0x08, 0x80, 0x80, 0x80, 0x80, 0x80, 0x80, 0x80, 0x80, 0x80, 0x80]);
    assert_eq!(res, Err(Error::Stream(StreamError::IncorrectVarint)));
    let (_, res) = decode(&ds, 0, vec![0x12, 0x02, 0xFF, 0xFE]);
    assert_eq!(res, Err(Error::Stream(StreamError::Utf8)));
    let (_, res) = decode(&ds, 0, vec![0x12, 0x05, b'a']);
    assert_eq!(res, Err(Error::Stream(StreamError::Truncated)));
    // wire type 7 does not exist
    let (_, res) = decode(&ds, 0, vec![0x0F]);
    assert_eq!(res, Err(Error::Stream(StreamError::IncorrectTag(0x0F))));
    // field number zero
    let (_, res) = decode(&ds, 0, vec![0x00]);
    assert_eq!(res, Err(Error::Stream(StreamError::IncorrectTag(0))));
}

#[test]
fn packed_length_past_end() {
    let ds = one(vec![fd(1, true, FieldType::Int32)]);
    let (_, res) = decode(&ds, 0, vec![0x0A, 0x05, 0x01]);
    assert_eq!(res, Err(Error::Stream(StreamError::LimitOverrun)));
    // a fixed32 run cut short by its own length
    let ds = one(vec![fd(1, true, FieldType::Fixed32)]);
    let (_, res) = decode(&ds, 0, vec![0x0A, 0x02, 0x01, 0x02]);
    assert_eq!(res, Err(Error::Stream(StreamError::Truncated)));
}

#[test]
fn new_message_has_defaults() {
    let mut f1 = fd(1, false, FieldType::Int32);
    f1.default_value = Some(Value::I32(7));
    let mut f3 = fd(3, false, FieldType::String);
    f3.default_value = Some(Value::String("d".to_string()));
    let ds = one(vec![f1, fd(2, true, FieldType::Int32), f3, fd(4, false, FieldType::Bool)]);
    let m = Message::new(&ds.messages[0]);
    let keys: Vec<i32> = m.fields.keys().cloned().collect();
    assert_eq!(keys, vec![1, 2, 3, 4]);
    assert!(matches!(singular(&m, 1), Some(Value::I32(7))));
    assert!(repeated(&m, 2).is_empty());
    assert!(matches!(singular(&m, 3), Some(Value::String(s)) if s == "d"));
    assert!(matches!(singular(&m, 4), None));
    assert!(m.unknown.get(1).is_none());
}

#[test]
fn empty_stream_leaves_defaults() {
    let mut f1 = fd(1, false, FieldType::UInt64);
    f1.default_value = Some(Value::U64(9));
    let ds = one(vec![f1]);
    let (m, res) = decode(&ds, 0, vec![]);
    assert!(res.is_ok());
    assert!(matches!(singular(&m, 1), Some(Value::U64(9))));
}

#[test]
fn field_new_and_put() {
    let f = fd(1, true, FieldType::Int32);
    let mut r = Field::new(&f);
    r.put(Value::I32(1));
    r.put(Value::I32(2));
    assert!(matches!(&r, Field::Repeated(v) if v.len() == 2));
    let mut s = Field::new(&fd(2, false, FieldType::Int32));
    s.put(Value::I32(1));
    s.put(Value::I32(2));
    assert!(matches!(&s, Field::Singular(Some(Value::I32(2)))));
}

#[test]
fn reader_limits() {
    let mut r = Reader::new(vec![0x01, 0x02, 0x03]);
    let old = r.push_limit(2).unwrap();
    assert_eq!(old, 3);
    assert_eq!(r.read_raw_varint64(), Ok(1));
    assert_eq!(r.read_raw_varint64(), Ok(2));
    assert!(r.eof());
    r.pop_limit(old);
    assert!(!r.eof());
    assert_eq!(r.push_limit(5), Err(StreamError::LimitOverrun));
    assert_eq!(r.read_raw_varint64(), Ok(3));
    assert_eq!(r.position(), 3);
}

#[test]
fn compat_error_round_trip() {
    let e = CompatError::from_error(Error::EndOfStream);
    assert_eq!(e.into_error(), Error::EndOfStream);
    let c = CompatError::custom("boom".to_string());
    assert_eq!(c.into_error(), Error::Custom { message: "boom".to_string() });
}

#[test]
fn descriptor_well_formedness() {
    let ok = Descriptors {
        messages: vec![
            MessageDescriptor {
                name: "A".to_string(),
                fields: vec![fd(1, false, FieldType::Message(1)), fd(2, true, FieldType::Int32)],
            },
            MessageDescriptor { name: "B".to_string(), fields: vec![] },
        ],
    };
    assert!(ok.is_well_formed());
    assert!(ok.messages[0].is_well_formed());
    let dup = one(vec![fd(1, false, FieldType::Int32), fd(1, true, FieldType::Bool)]);
    assert!(!dup.messages[0].is_well_formed());
    assert!(!dup.is_well_formed());
    let dangling = one(vec![fd(1, false, FieldType::Message(3))]);
    assert!(dangling.messages[0].is_well_formed());
    assert!(!dangling.is_well_formed());
    let mut f = fd(1, false, FieldType::Message(0));
    f.default_value = Some(Value::Message(Message::new(&MessageDescriptor {
        name: "E".to_string(),
        fields: vec![],
    })));
    assert!(!f.is_well_formed());
    assert!(fd(2, false, FieldType::Int32).is_well_formed());
}

#[test]
fn field_lookup_by_number() {
    let ds = one(vec![fd(4, false, FieldType::Int32), fd(9, true, FieldType::Bytes)]);
    let md = &ds.messages[0];
    assert_eq!(md.field_by_number(9).map(|f| f.number()), Some(9));
    assert!(md.field_by_number(9).unwrap().is_repeated());
    assert!(md.field_by_number(5).is_none());
}

#[test]
fn reader_primitives() {
    let mut r = Reader::new(vec![
        0x9A, 0x06, 0x78, 0x56, 0x34, 0x12, 1, 0, 0, 0, 0, 0, 0, 0x80, 0x02, b'h', b'i', 0x01, 0xFF,
    ]);
    assert_eq!(r.read_tag(), Ok((99, WireType::LengthDelimited)));
    assert_eq!(r.read_fixed32(), Ok(0x1234_5678));
    assert_eq!(r.read_fixed64(), Ok(0x8000_0000_0000_0001));
    assert_eq!(r.read_raw_varint32(), Ok(2));
    r.pop_limit(19);
    let mut s = Reader::new(vec![0x02, b'h', b'i', 0x01, 0xFF]);
    assert_eq!(s.read_string(), Ok("hi".to_string()));
    assert_eq!(s.read_bytes(), Ok(vec![0xFF]));
    assert!(s.eof());
    assert_eq!(s.read_fixed32(), Err(StreamError::Truncated));
    assert_eq!(WireType::new(5), Some(WireType::Fixed32));
    assert_eq!(WireType::new(6), None);
}

#[test]
fn unknown_group_kept() {
    let ds = one(vec![fd(1, false, FieldType::Int32)]);
    // field 5 as a group holding field 1 = 7 and field 2 = "ab", then field 1 = 3
    let (m, res) = decode(
        &ds,
        0,
        vec![0x2B, 0x08, 0x07, 0x12, 0x02, b'a', b'b', 0x2C, 0x08, 0x03],
    );
    assert!(res.is_ok());
    assert!(matches!(singular(&m, 1), Some(Value::I32(3))));
    let u = m.unknown.get(5).expect("group 5 kept");
    assert_eq!(u.length_delimited, vec![vec![0x08, 0x07, 0x12, 0x02, b'a', b'b', 0x2C]]);
}

#[test]
fn unknown_group_errors() {
    let ds = one(vec![]);
    // a group nested in a skipped group cannot be skipped
    let (_, res) = decode(&ds, 0, vec![0x2B, 0x33, 0x34, 0x2C]);
    assert_eq!(res, Err(Error::BadWireType { wire_type: WireType::StartGroup }));
    // an end-group tag outside any group
    let (_, res) = decode(&ds, 0, vec![0x2C]);
    assert_eq!(res, Err(Error::BadWireType { wire_type: WireType::EndGroup }));
    // a group that never ends
    let (_, res) = decode(&ds, 0, vec![0x2B, 0x08, 0x01]);
    assert_eq!(res, Err(Error::Stream(StreamError::Truncated)));
}

#[test]
fn rejected_occurrence_leaves_field_and_reader() {
    let f = fd(1, true, FieldType::Fixed32);
    let ds = one(vec![]);
    let mut slot = Field::Repeated(vec![Value::U32(9)]);
    let mut r = Reader::new(vec![0x01, 0x02]);
    let res = slot.merge_from(&ds, &f, &mut r, WireType::Varint);
    assert_eq!(res, Err(Error::BadWireType { wire_type: WireType::Varint }));
    assert_eq!(r.position(), 0);
    assert!(matches!(&slot, Field::Repeated(v) if v.len() == 1));
}

#[test]
fn empty_packed_run_leaves_field() {
    let ds = one(vec![fd(3, true, FieldType::Int32)]);
    let (m, res) = decode(&ds, 0, vec![0x18, 0x04, 0x1A, 0x00]);
    assert!(res.is_ok());
    let v = repeated(&m, 3);
    assert_eq!(v.len(), 1);
    assert!(matches!(v[0], Value::I32(4)));
}

#[test]
fn two_step_decoding_matches_joined_stream() {
    let ds = one(vec![fd(1, false, FieldType::Int32), fd(2, true, FieldType::String)]);
    let md = &ds.messages[0];
    let mut a = Message::new(md);
    assert!(a.merge_from(&ds, md, &mut Reader::new(vec![0x08, 0x01, 0x12, 0x01, b'a'])).is_ok());
    assert!(a.merge_from(&ds, md, &mut Reader::new(vec![0x12, 0x01, b'b', 0x08, 0x02])).is_ok());
    let (b, res) = decode(
        &ds,
        0,
        vec![0x08, 0x01, 0x12, 0x01, b'a', 0x12, 0x01, b'b', 0x08, 0x02],
    );
    assert!(res.is_ok());
    assert!(matches!(singular(&a, 1), Some(Value::I32(2))));
    assert!(matches!(singular(&b, 1), Some(Value::I32(2))));
    assert_eq!(repeated(&a, 2).len(), 2);
    assert_eq!(repeated(&b, 2).len(), 2);
}

#[test]
fn error_keeps_earlier_records() {
    let ds = one(vec![fd(1, false, FieldType::Int32), fd(2, false, FieldType::Fixed32)]);
    let (m, res) = decode(&ds, 0, vec![0x08, 0x05, 0x10, 0x01, 0x08, 0x06]);
    assert_eq!(res, Err(Error::BadWireType { wire_type: WireType::Varint }));
    assert!(matches!(singular(&m, 1), Some(Value::I32(5))));
}
