use bounded_json::ser::{to_string, to_vec, Error, Serializer, FLOAT_TEXT_MAX};
use bounded_json::value::{Field, Shape, Value};

fn field(name: &str, value: Value) -> Field {
    Field { name: String::from(name), value }
}

fn sample() -> Value {
    Value::Struct(vec![
        field("id", Value::U32(42)),
        field("tags", Value::Sequence(vec![Value::Str(String::from("a")), Value::Absent])),
        field("ok", Value::Bool(false)),
    ])
}

const SAMPLE: &str = r#"{"id":42,"tags":["a",null],"ok":false}"#;

#[test]
fn true_needs_four_bytes() {
    assert_eq!(to_string(&Value::Bool(true), 3), Err(Error::BufferFull));
    assert_eq!(to_string(&Value::Bool(true), 4).unwrap(), "true");
}

#[test]
fn false_needs_five_bytes() {
    assert_eq!(to_vec(&Value::Bool(false), 4), Err(Error::BufferFull));
    assert_eq!(to_vec(&Value::Bool(false), 5).unwrap(), b"false");
}

#[test]
fn exact_capacity_is_enough() {
    assert_eq!(to_string(&sample(), SAMPLE.len()).unwrap(), SAMPLE);
    assert_eq!(to_vec(&sample(), SAMPLE.len()).unwrap(), SAMPLE.as_bytes());
}

#[test]
fn one_byte_short_is_not_enough() {
    assert_eq!(to_string(&sample(), SAMPLE.len() - 1), Err(Error::BufferFull));
    assert_eq!(to_vec(&sample(), SAMPLE.len() - 1), Err(Error::BufferFull));
}

#[test]
fn every_smaller_capacity_fails() {
    for capacity in 0..SAMPLE.len() {
        assert_eq!(to_vec(&sample(), capacity), Err(Error::BufferFull));
    }
    for capacity in SAMPLE.len()..SAMPLE.len() + 4 {
        assert_eq!(to_string(&sample(), capacity).unwrap(), SAMPLE);
    }
}

#[test]
fn no_capacity_holds_the_empty_text_only() {
    assert_eq!(to_string(&Value::Float(String::new()), 0).unwrap(), "");
    assert_eq!(to_string(&Value::U8(0), 0), Err(Error::BufferFull));
}

#[test]
fn failed_string_leaves_what_fitted() {
    let mut ser = Serializer::new(3);
    assert_eq!(ser.serialize_str("abc"), Err(Error::BufferFull));
    assert_eq!(ser.as_slice(), b"\"");

    let mut ser = Serializer::new(4);
    assert_eq!(ser.serialize_str("abc"), Err(Error::BufferFull));
    assert_eq!(ser.as_slice(), b"\"abc");

    let mut ser = Serializer::new(0);
    assert_eq!(ser.serialize_str("abc"), Err(Error::BufferFull));
    assert_eq!(ser.as_slice(), b"");
}

#[test]
fn failed_number_leaves_nothing() {
    let mut ser = Serializer::new(3);
    assert_eq!(ser.serialize_i8(-128), Err(Error::BufferFull));
    assert_eq!(ser.len(), 0);
    assert_eq!(ser.serialize_u64(1234), Err(Error::BufferFull));
    assert_eq!(ser.len(), 0);
    assert_eq!(ser.serialize_bool(true), Err(Error::BufferFull));
    assert_eq!(ser.serialize_none(), Err(Error::BufferFull));
    assert_eq!(ser.len(), 0);
    assert_eq!(ser.capacity(), 3);
    assert!(ser.is_wf());
    assert_eq!(ser.serialize_u8(255), Ok(()));
    assert!(ser.is_wf());
    assert_eq!(ser.into_vec(), b"255");
}

#[test]
fn unsupported_shapes_write_nothing() {
    let shapes = [
        Shape::Bytes,
        Shape::Unit,
        Shape::UnitStruct,
        Shape::NewtypeStruct,
        Shape::NewtypeVariant,
        Shape::TupleStruct,
        Shape::TupleVariant,
        Shape::Mapping,
        Shape::StructVariant,
        Shape::Display,
    ];
    for shape in shapes {
        let mut ser = Serializer::new(16);
        ser.serialize_bool(true).unwrap();
        assert_eq!(ser.serialize_other(shape), Err(Error::Unsupported));
        assert_eq!(ser.as_slice(), b"true");
        assert_eq!(to_string(&Value::Other(shape), 16), Err(Error::Unsupported));
        assert_eq!(to_vec(&Value::Other(shape), 0), Err(Error::Unsupported));
    }
}

#[test]
fn unsupported_inside_fails_the_whole() {
    let value = Value::Sequence(vec![Value::U8(1), Value::Other(Shape::Unit), Value::U8(3)]);
    assert_eq!(to_string(&value, 64), Err(Error::Unsupported));
    let value = Value::Struct(vec![field("a", Value::Present(Box::new(Value::Other(Shape::Mapping))))]);
    assert_eq!(to_string(&value, 64), Err(Error::Unsupported));
}

#[test]
fn lack_of_room_comes_before_a_later_failure() {
    let value = Value::Sequence(vec![Value::U8(1), Value::Other(Shape::Unit)]);
    // "[1," is written before the unsupported element is met
    assert_eq!(to_string(&value, 2), Err(Error::BufferFull));
    assert_eq!(to_string(&value, 3), Err(Error::Unsupported));
    let value = Value::Sequence(vec![Value::Other(Shape::Unit), Value::U64(u64::MAX)]);
    assert_eq!(to_string(&value, 0), Err(Error::BufferFull));
    assert_eq!(to_string(&value, 1), Err(Error::Unsupported));
}

#[test]
fn float_text_goes_out_as_it_is() {
    assert_eq!(to_string(&Value::Float(String::from("1.5")), 8).unwrap(), "1.5");
    assert_eq!(to_string(&Value::Float(format!("{}", -0.25f64)), 8).unwrap(), "-0.25");
    assert_eq!(to_string(&Value::Float(format!("{}", 1e21f64)), 32).unwrap(), "1000000000000000000000");
    assert_eq!(to_string(&Value::Float(String::from("1.5")), 2), Err(Error::BufferFull));
}

#[test]
fn float_text_is_bounded_by_the_scratch() {
    assert_eq!(FLOAT_TEXT_MAX, 41);
    let longest = "1".repeat(41);
    assert_eq!(to_string(&Value::Float(longest.clone()), 64).unwrap(), longest);
    let too_long = "1".repeat(42);
    assert_eq!(to_string(&Value::Float(too_long.clone()), 64), Err(Error::FormatError));
    assert_eq!(to_string(&Value::Float(too_long), 0), Err(Error::FormatError));
    // the bound is on bytes, not on characters
    let wide = "é".repeat(21);
    assert_eq!(to_string(&Value::Float(wide), 64), Err(Error::FormatError));
    let wide = "é".repeat(20);
    assert_eq!(to_string(&Value::Float(wide.clone()), 64).unwrap(), wide);

    let mut ser = Serializer::new(64);
    ser.serialize_u8(1).unwrap();
    assert_eq!(ser.serialize_float_text(&"9".repeat(42)), Err(Error::FormatError));
    assert_eq!(ser.as_slice(), b"1");
    assert_eq!(ser.serialize_float_text(&format!("{}", f64::MAX)), Err(Error::FormatError));
    assert_eq!(ser.serialize_float_text("0.5"), Ok(()));
    assert_eq!(ser.as_slice(), b"10.5");
}
