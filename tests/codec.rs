use serde_bser::de::{from_slice, from_slice_in, Deserializer, Number, Shape, Variant};
use serde_bser::error::{Error, IoError};
use serde_bser::order::{read_int, write_int, Endian};
use serde_bser::read::{IoRead, Read, Reference, SliceRead, Stream};
use serde_bser::ser::{to_vec, to_vec_in, Serializer};
use serde_bser::tag::Tag;
use serde_bser::value::Value;

fn bytes(s: &str) -> Value {
    Value::Bytes(s.as_bytes().to_vec())
}

fn entry(k: &str, v: Value) -> (Vec<u8>, Value) {
    (k.as_bytes().to_vec(), v)
}

fn concat(parts: &[&[u8]]) -> Vec<u8> {
    let mut out = Vec::new();
    for p in parts {
        out.extend_from_slice(p);
    }
    out
}

fn basic_object_bytes() -> Vec<u8> {
    concat(&[
        &[0x01, 0x03, 0x03],
        &[0x02, 0x03, 0x04],
        b"name",
        &[0x02, 0x03, 0x08],
        b"John Doe",
        &[0x02, 0x03, 0x03],
        b"age",
        &[0x03, 43],
        &[0x02, 0x03, 0x04],
        b"year",
        &[0x04],
        &1976i16.to_le_bytes(),
    ])
}

#[test]
fn basic_object() {
    let mut ser = Serializer::new(Endian::Little);
    ser.serialize_map(Some(3)).unwrap();
    ser.serialize_str("name").unwrap();
    ser.serialize_str("John Doe").unwrap();
    ser.serialize_str("age").unwrap();
    ser.serialize_i32(43);
    ser.serialize_str("year").unwrap();
    ser.serialize_i32(1976);
    assert_eq!(ser.into_inner(), basic_object_bytes());
}

#[test]
fn basic_object_as_value() {
    let value = Value::Object(vec![
        entry("name", bytes("John Doe")),
        entry("age", Value::Int(43)),
        entry("year", Value::Int(1976)),
    ]);
    let encoded = to_vec_in(&value, Endian::Little).unwrap();
    assert_eq!(encoded, basic_object_bytes());
    assert_eq!(from_slice_in(&encoded, Endian::Little).unwrap(), value);
}

fn map_test_bytes() -> Vec<u8> {
    concat(&[
        &[0x01, 0x03, 0x04],
        &[0x02, 0x03, 0x03],
        b"aaa",
        &[0x03, 10],
        &[0x02, 0x03, 0x03],
        b"bbb",
        &[0x03, 20],
        &[0x02, 0x03, 0x03],
        b"ccc",
        &[0x06],
        &0xdeadbeef_i64.to_le_bytes(),
        &[0x02, 0x03, 0x03],
        b"ddd",
        &[0x04],
        &(-300i16).to_le_bytes(),
    ])
}

#[test]
fn map_test() {
    let value = Value::Object(vec![
        entry("aaa", Value::Int(10)),
        entry("bbb", Value::Int(20)),
        entry("ccc", Value::Int(0xdeadbeef)),
        entry("ddd", Value::Int(-300)),
    ]);
    let encoded = to_vec_in(&value, Endian::Little).unwrap();
    assert_eq!(encoded, map_test_bytes());
    assert_eq!(from_slice_in(&encoded, Endian::Little).unwrap(), value);
}

#[test]
fn bool_null_and_option() {
    let mut ser = Serializer::new(Endian::Little);
    ser.serialize_bool(true);
    assert_eq!(ser.output(), &[0x08]);
    let mut ser = Serializer::new(Endian::Little);
    ser.serialize_bool(false);
    assert_eq!(ser.output(), &[0x09]);
    let mut ser = Serializer::new(Endian::Little);
    ser.serialize_unit();
    assert_eq!(ser.output(), &[0x0a]);

    let input = [0x0a];
    let mut de = Deserializer::new(SliceRead::new(&input), Endian::Little);
    assert_eq!(de.next_is_null(), Ok(true));
    assert_eq!(de.end(), Ok(()));

    let input = [0x08];
    let mut de = Deserializer::new(SliceRead::new(&input), Endian::Little);
    assert_eq!(de.next_is_null(), Ok(false));
    assert_eq!(de.read_bool(), Ok(true));
    assert_eq!(de.end(), Ok(()));
}

fn templated_bytes() -> Vec<u8> {
    concat(&[
        &[0x0b, 0x00, 0x03, 0x02],
        &[0x02, 0x03, 0x01],
        b"a",
        &[0x02, 0x03, 0x01],
        b"b",
        &[0x03, 0x02],
        &[0x03, 0x01, 0x03, 0x02],
        &[0x03, 0x03, 0x0c],
    ])
}

#[test]
fn templated_expansion() {
    let expected = Value::Array(vec![
        Value::Object(vec![entry("a", Value::Int(1)), entry("b", Value::Int(2))]),
        Value::Object(vec![entry("a", Value::Int(3))]),
    ]);
    assert_eq!(from_slice_in(&templated_bytes(), Endian::Little).unwrap(), expected);
    assert_eq!(from_slice(&templated_bytes()).unwrap(), expected);
}

#[test]
fn templated_keys_and_rows_step_by_step() {
    let input = templated_bytes();
    let mut de = Deserializer::new(SliceRead::new(&input), Endian::Little);
    let shape = de.begin_seq().unwrap();
    let (keys, rows) = match shape {
        Shape::Templated(keys, rows) => (keys, rows),
        _ => panic!("expected a templated array"),
    };
    assert_eq!(rows, 2);
    assert_eq!(keys.len(), 2);
    assert_eq!(keys[0].as_slice(), b"a");
    assert_eq!(keys[1].as_slice(), b"b");

    assert_eq!(de.next_template_key(0, 2), Ok(Some(0)));
    assert_eq!(de.read_number(), Ok(Number::Int(1)));
    assert_eq!(de.next_template_key(1, 2), Ok(Some(1)));
    assert_eq!(de.read_number(), Ok(Number::Int(2)));
    assert_eq!(de.next_template_key(2, 2), Ok(None));

    assert_eq!(de.next_template_key(0, 2), Ok(Some(0)));
    assert_eq!(de.read_number(), Ok(Number::Int(3)));
    assert_eq!(de.next_template_key(1, 2), Ok(None));
    assert_eq!(de.end(), Ok(()));
}

#[test]
fn templated_row_of_missing_cells_takes_one_byte_per_key() {
    let input = concat(&[
        &[0x0b, 0x00, 0x03, 0x02],
        &[0x02, 0x03, 0x01],
        b"a",
        &[0x02, 0x03, 0x01],
        b"b",
        &[0x03, 0x02],
        &[0x0c, 0x0c],
        &[0x0c, 0x03, 0x07],
    ]);
    let expected = Value::Array(vec![
        Value::Object(vec![]),
        Value::Object(vec![entry("b", Value::Int(7))]),
    ]);
    assert_eq!(from_slice_in(&input, Endian::Little).unwrap(), expected);
}

#[test]
fn templated_keys_must_be_an_array() {
    let input = [0x0b, 0x01, 0x03, 0x00, 0x03, 0x00];
    assert_eq!(from_slice_in(&input, Endian::Little), Err(Error::InvalidType(Tag::Object)));
}

#[test]
fn malformed_tag() {
    assert_eq!(from_slice_in(&[0x0d], Endian::Little), Err(Error::MalformedTag));
    assert_eq!(from_slice_in(&[0xff], Endian::Big), Err(Error::MalformedTag));
}

#[test]
fn trailing_bytes() {
    let input = [0x08, 0x00];
    let mut de = Deserializer::new(SliceRead::new(&input), Endian::Little);
    assert_eq!(de.decode_value(), Ok(Value::Bool(true)));
    assert_eq!(de.end(), Err(Error::TrailingBytes));
    assert_eq!(from_slice_in(&input, Endian::Little), Err(Error::TrailingBytes));
}

#[test]
fn trailing_bytes_after_any_value() {
    let value = Value::Array(vec![Value::Int(1), bytes("x")]);
    for extra in [0x00u8, 0x0c, 0xff] {
        let mut encoded = to_vec_in(&value, Endian::Big).unwrap();
        encoded.push(extra);
        assert_eq!(from_slice_in(&encoded, Endian::Big), Err(Error::TrailingBytes));
    }
}

#[test]
fn trailing_bytes_after_templated_payload() {
    for extra in [0x08u8, 0x0c, 0x0d] {
        let mut input = templated_bytes();
        input.push(extra);
        assert_eq!(from_slice_in(&input, Endian::Little), Err(Error::TrailingBytes));
    }
}

#[test]
fn non_string_key_writes_nothing() {
    let mut ser = Serializer::new(Endian::Little);
    ser.serialize_map(Some(1)).unwrap();
    let header = ser.output().to_vec();
    assert_eq!(ser.reject_key(), Err(Error::NonStringKey));
    assert_eq!(ser.output(), &header[..]);
    assert_eq!(header, vec![0x01, 0x03, 0x01]);
}

#[test]
fn length_required() {
    let mut ser = Serializer::new(Endian::Little);
    assert_eq!(ser.serialize_seq(None), Err(Error::LengthRequired));
    assert_eq!(ser.serialize_map(None), Err(Error::LengthRequired));
    assert!(ser.output().is_empty());
}

#[test]
fn u64_above_i64_max_overflows() {
    let mut ser = Serializer::new(Endian::Little);
    assert_eq!(ser.serialize_u64(i64::MAX as u64 + 1), Err(Error::IntegerOverflow));
    assert_eq!(ser.serialize_u64(u64::MAX), Err(Error::IntegerOverflow));
    assert!(ser.output().is_empty());
    assert_eq!(ser.serialize_u64(i64::MAX as u64), Ok(()));
    let mut expected = vec![0x06];
    expected.extend_from_slice(&i64::MAX.to_le_bytes());
    assert_eq!(ser.output(), &expected[..]);
}

fn int_bytes(v: i64, endian: Endian) -> Vec<u8> {
    let mut ser = Serializer::new(endian);
    ser.serialize_i64(v);
    ser.into_inner()
}

#[test]
fn integer_width_selection() {
    assert_eq!(int_bytes(0, Endian::Little), vec![0x03, 0x00]);
    assert_eq!(int_bytes(127, Endian::Little), vec![0x03, 0x7f]);
    assert_eq!(int_bytes(-128, Endian::Little), vec![0x03, 0x80]);
    assert_eq!(int_bytes(128, Endian::Little), vec![0x04, 0x80, 0x00]);
    assert_eq!(int_bytes(-129, Endian::Little), vec![0x04, 0x7f, 0xff]);
    assert_eq!(int_bytes(32767, Endian::Big), vec![0x04, 0x7f, 0xff]);
    assert_eq!(int_bytes(32768, Endian::Big), vec![0x05, 0x00, 0x00, 0x80, 0x00]);
    assert_eq!(int_bytes(-32769, Endian::Little), vec![0x05, 0xff, 0x7f, 0xff, 0xff]);
    assert_eq!(int_bytes(2147483647, Endian::Little)[0], 0x05);
    assert_eq!(int_bytes(2147483648, Endian::Little)[0], 0x06);
    assert_eq!(int_bytes(-2147483649, Endian::Little)[0], 0x06);
    assert_eq!(int_bytes(i64::MIN, Endian::Big), vec![0x06, 0x80, 0, 0, 0, 0, 0, 0, 0]);
}

#[test]
fn round_trip_of_values() {
    let values = vec![
        Value::Null,
        Value::Bool(false),
        Value::Int(i64::MIN),
        Value::Int(-1),
        Value::Int(70000),
        Value::Real(1.5f64.to_bits()),
        Value::Real((-0.0f64).to_bits()),
        bytes(""),
        bytes("héllo"),
        Value::Array(vec![]),
        Value::Array(vec![Value::Array(vec![Value::Null]), Value::Int(300)]),
        Value::Object(vec![entry("k", Value::Object(vec![])), entry("", Value::Bool(true))]),
    ];
    for endian in [Endian::Little, Endian::Big] {
        for v in &values {
            let encoded = to_vec_in(v, endian).unwrap();
            assert!(encoded[0] <= 0x0c);
            assert_ne!(encoded[0], 0x0c);
            assert_eq!(&from_slice_in(&encoded, endian).unwrap(), v);
        }
    }
    for v in &values {
        let encoded = to_vec(v).unwrap();
        assert_eq!(&from_slice(&encoded).unwrap(), v);
    }
}

#[test]
fn real_numbers() {
    let mut ser = Serializer::new(Endian::Big);
    ser.serialize_f64_bits(1.0f64.to_bits());
    assert_eq!(ser.output(), &[0x07, 0x3f, 0xf0, 0, 0, 0, 0, 0, 0]);
    let input = ser.into_inner();
    let mut de = Deserializer::new(SliceRead::new(&input), Endian::Big);
    assert_eq!(de.read_number(), Ok(Number::Real(1.0f64.to_bits())));
}

#[test]
fn integer_keys_are_decimal_text() {
    let mut ser = Serializer::new(Endian::Little);
    ser.serialize_key_int(-42);
    let mut expected = vec![0x02, 0x03, 0x03];
    expected.extend_from_slice(b"-42");
    assert_eq!(ser.output(), &expected[..]);

    let mut ser = Serializer::new(Endian::Little);
    ser.serialize_key_int(u64::MAX as i128);
    let mut expected = vec![0x02, 0x03, 20];
    expected.extend_from_slice(b"18446744073709551615");
    assert_eq!(ser.output(), &expected[..]);
}

#[test]
fn characters_are_utf8_strings() {
    let mut ser = Serializer::new(Endian::Little);
    ser.serialize_char('é');
    assert_eq!(ser.output(), &[0x02, 0x03, 0x02, 0xc3, 0xa9]);
    let mut ser = Serializer::new(Endian::Little);
    ser.serialize_char('a');
    assert_eq!(ser.output(), &[0x02, 0x03, 0x01, b'a']);
}

#[test]
fn enum_variants() {
    let mut ser = Serializer::new(Endian::Little);
    ser.serialize_unit_variant("Plain").unwrap();
    let unit = ser.into_inner();
    let mut de = Deserializer::new(SliceRead::new(&unit), Endian::Little);
    match de.read_variant().unwrap() {
        Variant::Unit(name) => assert_eq!(name.deref(), b"Plain"),
        Variant::Data(_) => panic!("expected a unit variant"),
    }

    let mut ser = Serializer::new(Endian::Little);
    ser.serialize_newtype_variant("Wrapped").unwrap();
    ser.serialize_i8(5);
    let data = ser.into_inner();
    assert_eq!(&data[..3], &[0x01, 0x03, 0x01]);
    let mut de = Deserializer::new(SliceRead::new(&data), Endian::Little);
    match de.read_variant().unwrap() {
        Variant::Data(name) => assert_eq!(name.deref(), b"Wrapped"),
        Variant::Unit(_) => panic!("expected a data variant"),
    }
    assert_eq!(de.read_number(), Ok(Number::Int(5)));
    assert_eq!(de.end(), Ok(()));

    let input = [0x03, 0x01];
    let mut de = Deserializer::new(SliceRead::new(&input), Endian::Little);
    assert!(matches!(de.read_variant(), Err(Error::InvalidType(Tag::Int8))));
}

#[test]
fn invalid_types() {
    let input = [0x0c];
    assert_eq!(from_slice_in(&input, Endian::Little), Err(Error::InvalidType(Tag::Missing)));
    let input = [0x08];
    let mut de = Deserializer::new(SliceRead::new(&input), Endian::Little);
    assert_eq!(de.begin_map(), Err(Error::InvalidType(Tag::True)));
    let input = [0x02, 0x03, 0x00];
    let mut de = Deserializer::new(SliceRead::new(&input), Endian::Little);
    assert_eq!(de.read_bool(), Err(Error::InvalidType(Tag::String)));
    let input = [0x01, 0x03, 0x00];
    let mut de = Deserializer::new(SliceRead::new(&input), Endian::Little);
    assert_eq!(de.begin_seq().err(), Some(Error::InvalidType(Tag::Object)));
    let mut de = Deserializer::new(SliceRead::new(&input), Endian::Little);
    assert!(matches!(de.begin_struct(), Ok(Shape::Object(0))));
}

#[test]
fn negative_length_overflows() {
    let input = [0x00, 0x03, 0xff];
    assert_eq!(from_slice_in(&input, Endian::Little), Err(Error::IntegerOverflow));
}

#[test]
fn short_input_is_unexpected_eof() {
    let eof = Err(Error::Io(IoError::UnexpectedEof));
    assert_eq!(from_slice_in(&[], Endian::Little), eof);
    assert_eq!(from_slice_in(&[0x04, 0x01], Endian::Little), eof);
    assert_eq!(from_slice_in(&[0x02, 0x03, 0x05, b'a'], Endian::Little), eof);
    assert_eq!(from_slice_in(&[0x00, 0x03, 0x02, 0x0a], Endian::Little), eof);
}

#[test]
fn slice_views_are_borrowed() {
    let input = [0x02, 0x03, 0x02, b'h', b'i'];
    let mut de = Deserializer::new(SliceRead::new(&input), Endian::Little);
    de.expect_tag(Tag::String).unwrap();
    let view = de.read_bytes().unwrap();
    assert_eq!(view.deref(), b"hi");
    match view {
        Reference::Borrowed(s) => assert!(std::ptr::eq(s.as_ptr(), input[3..].as_ptr())),
        Reference::Copied(_) => panic!("a slice source hands out borrowed views"),
    }
}

struct Bytes {
    data: Vec<u8>,
    at: usize,
}

impl Stream for Bytes {
    fn next_byte(&mut self) -> Result<Option<u8>, String> {
        let b = self.data.get(self.at).copied();
        self.at += 1;
        Ok(b)
    }
}

#[test]
fn stream_views_are_copied() {
    let mut source = IoRead::new(Bytes { data: vec![1, 2, 3, 4], at: 0 });
    let mut scratch = Vec::new();
    assert_eq!(source.next(), Ok(Some(1)));
    let view = source.read_ref(2, &mut scratch).unwrap();
    assert_eq!(view.deref(), &[2, 3]);
    assert!(matches!(view, Reference::Copied(_)));
    assert_eq!(
        source.read_ref(2, &mut scratch).err(),
        Some(Error::Io(IoError::UnexpectedEof))
    );
}

#[test]
fn stream_read_of_nothing_succeeds() {
    let mut source = IoRead::new(Bytes { data: vec![], at: 0 });
    let mut scratch = vec![9, 9];
    let view = source.read_ref(0, &mut scratch).unwrap();
    assert!(view.deref().is_empty());
    assert!(matches!(view, Reference::Copied(_)));
    assert_eq!(source.next(), Ok(None));
}

#[test]
fn slice_read_leaves_scratch_alone() {
    let input = [1u8, 2, 3];
    let mut source = SliceRead::new(&input);
    let mut scratch = vec![7u8];
    let view = source.read_ref(2, &mut scratch).unwrap();
    assert_eq!(view.deref(), &[1, 2]);
    assert_eq!(scratch, vec![7u8]);
}

#[test]
fn stream_byte_strings_are_copied_views() {
    let input = vec![0x02, 0x03, 0x02, b'h', b'i', 0x0a, 0x08];
    let mut de = Deserializer::new(IoRead::new(Bytes { data: input, at: 0 }), Endian::Little);
    let view = de.read_key().unwrap();
    assert_eq!(view.deref(), b"hi");
    assert!(matches!(view, Reference::Copied(_)));
    assert_eq!(de.next_is_null(), Ok(true));
    assert_eq!(de.next_is_null(), Ok(false));
    assert_eq!(de.peeked_tag(), Some(Tag::True));
    assert_eq!(de.read_bool(), Ok(true));
    assert_eq!(de.end(), Ok(()));
}

#[test]
fn stream_templated_header() {
    let mut de = Deserializer::new(IoRead::new(Bytes { data: templated_bytes(), at: 0 }), Endian::Little);
    match de.begin_seq().unwrap() {
        Shape::Templated(keys, rows) => {
            assert_eq!(rows, 2);
            assert_eq!(keys[0].as_slice(), b"a");
            assert_eq!(keys[1].as_slice(), b"b");
        }
        _ => panic!("expected a templated array"),
    }
    assert_eq!(de.next_template_key(0, 2), Ok(Some(0)));
    assert_eq!(de.read_number(), Ok(Number::Int(1)));
}

#[test]
fn stream_decoding_step_by_step() {
    let mut de = Deserializer::from_reader(Bytes { data: map_test_bytes(), at: 0 });
    if de.endian() != Endian::Little {
        return;
    }
    assert_eq!(de.begin_map(), Ok(4));
    let key = de.read_key().unwrap();
    assert_eq!(key.deref(), b"aaa");
    assert_eq!(de.read_number(), Ok(Number::Int(10)));
}

struct Failing;

impl Stream for Failing {
    fn next_byte(&mut self) -> Result<Option<u8>, String> {
        Err("broken pipe".to_string())
    }
}

#[test]
fn stream_errors_carry_the_message() {
    let mut de = Deserializer::from_reader(Failing);
    assert_eq!(
        de.peek_tag(),
        Err(Error::Io(IoError::Reader("broken pipe".to_string())))
    );
}

#[test]
fn byte_order_payloads() {
    assert_eq!(write_int(-2, 2, Endian::Little), vec![0xfe, 0xff]);
    assert_eq!(write_int(0x0102, 2, Endian::Big), vec![0x01, 0x02]);
    assert_eq!(write_int(0x01020304, 4, Endian::Little), vec![4, 3, 2, 1]);
    assert_eq!(read_int(&[0xfe, 0xff], Endian::Little), -2);
    assert_eq!(read_int(&[0x01, 0x02], Endian::Big), 0x0102);
    assert_eq!(read_int(&[0x80], Endian::Big), -128);
    let native = Endian::native();
    assert_eq!(native, Endian::native());
    let expected = if u16::from_ne_bytes([1, 0]) == 1 { Endian::Little } else { Endian::Big };
    assert_eq!(native, expected);
}

#[test]
fn error_texts() {
    assert_eq!(Error::TrailingBytes.to_string(), "trailing bytes");
    assert_eq!(Error::IntegerOverflow.to_string(), "integer overflow");
    assert_eq!(Error::LengthRequired.to_string(), "length required");
    assert_eq!(Error::NonStringKey.to_string(), "non string key");
    assert_eq!(Error::MalformedTag.to_string(), "malformed tag");
    assert_eq!(Error::Message("custom".to_string()).to_string(), "custom");
    assert_eq!(Error::Io(IoError::Reader("x".to_string())).to_string(), "x");
}

#[test]
fn tags_round_trip() {
    for b in 0u8..=0x0c {
        assert_eq!(Tag::from_byte(b).unwrap().to_byte(), b);
    }
    assert_eq!(Tag::from_byte(0x0d), None);
}
