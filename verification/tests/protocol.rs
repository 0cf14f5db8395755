use bounded_json::ser::{to_string, Error, Serializer};
use bounded_json::value::{Field, Value};

fn field(name: &str, value: Value) -> Field {
    Field { name: String::from(name), value }
}

fn written(ser: &Serializer) -> &str {
    std::str::from_utf8(ser.as_slice()).unwrap()
}

#[test]
fn sequence_of_u8() {
    let value = Value::Sequence(vec![Value::U8(0), Value::U8(1), Value::U8(2)]);
    assert_eq!(to_string(&value, 128).unwrap(), "[0,1,2]");
}

#[test]
fn empty_sequence_and_tuple() {
    assert_eq!(to_string(&Value::Sequence(vec![]), 2).unwrap(), "[]");
    assert_eq!(to_string(&Value::Tuple(vec![]), 2).unwrap(), "[]");
    assert_eq!(to_string(&Value::Sequence(vec![]), 1), Err(Error::BufferFull));
}

#[test]
fn one_element_has_no_separator() {
    assert_eq!(to_string(&Value::Sequence(vec![Value::Bool(true)]), 6).unwrap(), "[true]");
    assert_eq!(to_string(&Value::Tuple(vec![Value::I8(-1)]), 4).unwrap(), "[-1]");
}

#[test]
fn separators_are_one_fewer_than_elements() {
    for n in 0..20usize {
        let items: Vec<Value> = (0..n).map(|_| Value::U8(7)).collect();
        let text = to_string(&Value::Sequence(items), 64).unwrap();
        assert_eq!(text.matches(',').count(), n.saturating_sub(1));
        assert_eq!(text.matches('7').count(), n);
        assert!(text.starts_with('[') && text.ends_with(']'));
        assert_eq!(text.len(), 2 + n + n.saturating_sub(1));
    }
}

#[test]
fn nested_sequences() {
    let value = Value::Sequence(vec![
        Value::Sequence(vec![]),
        Value::Tuple(vec![Value::U8(1), Value::Sequence(vec![Value::U8(2)])]),
        Value::Struct(vec![]),
    ]);
    assert_eq!(to_string(&value, 64).unwrap(), "[[],[1,[2]],{}]");
}

#[test]
fn fields_come_in_call_order() {
    let value = Value::Struct(vec![
        field("z", Value::U8(1)),
        field("a", Value::U8(2)),
        field("m", Value::Struct(vec![field("k", Value::Absent)])),
    ]);
    assert_eq!(to_string(&value, 64).unwrap(), r#"{"z":1,"a":2,"m":{"k":null}}"#);
}

#[test]
fn absent_field_is_null() {
    let value = Value::Struct(vec![field("a", Value::Absent), field("b", Value::Absent)]);
    assert_eq!(to_string(&value, 64).unwrap(), r#"{"a":null,"b":null}"#);
    assert_eq!(to_string(&Value::Absent, 4).unwrap(), "null");
}

#[test]
fn present_value_has_no_wrapper() {
    let value = Value::Present(Box::new(Value::Present(Box::new(Value::U16(300)))));
    assert_eq!(to_string(&value, 3).unwrap(), "300");
}

#[test]
fn unit_variant_ignores_its_position() {
    for index in [0u32, 1, 7, u32::MAX] {
        let value = Value::UnitVariant { index, label: String::from("boolean") };
        assert_eq!(to_string(&value, 16).unwrap(), r#""boolean""#);
    }
    let mut ser = Serializer::new(16);
    ser.serialize_unit_variant("Type", 3, "number").unwrap();
    assert_eq!(written(&ser), r#""number""#);
}

#[test]
fn multi_byte_characters_are_one_string() {
    for (c, bytes) in [('a', 1usize), ('é', 2), ('❤', 3), ('💖', 4)] {
        let text = to_string(&Value::Char(c), 6).unwrap();
        assert_eq!(text, format!("\"{}\"", c));
        assert_eq!(text.len(), bytes + 2);
    }
    assert_eq!(to_string(&Value::Char('💖'), 5), Err(Error::BufferFull));
}

#[test]
fn strings_are_not_escaped() {
    let value = Value::Str(String::from("a\"b\\c\n"));
    assert_eq!(to_string(&value, 16).unwrap(), "\"a\"b\\c\n\"");
    assert_eq!(to_string(&Value::Str(String::new()), 2).unwrap(), "\"\"");
    assert_eq!(to_string(&Value::Char('"'), 3).unwrap(), "\"\"\"");
}

#[test]
fn streamed_sequence() {
    let mut ser = Serializer::new(32);
    let mut elements = ser.serialize_seq(Some(3)).unwrap();
    elements.begin_element(&mut ser).unwrap();
    ser.serialize_u8(1).unwrap();
    elements.serialize_element(&mut ser, &Value::Bool(false)).unwrap();
    elements.begin_element(&mut ser).unwrap();
    ser.serialize_str("x").unwrap();
    elements.end(&mut ser).unwrap();
    assert_eq!(written(&ser), r#"[1,false,"x"]"#);
}

#[test]
fn streamed_tuple_is_a_sequence() {
    let mut ser = Serializer::new(32);
    let mut elements = ser.serialize_tuple(2).unwrap();
    elements.serialize_element(&mut ser, &Value::I32(-5)).unwrap();
    elements.serialize_element(&mut ser, &Value::Char('c')).unwrap();
    elements.end(&mut ser).unwrap();
    assert_eq!(written(&ser), r#"[-5,"c"]"#);
}

#[test]
fn streamed_structure() {
    let mut ser = Serializer::new(64);
    let mut fields = ser.serialize_struct("Point", 2).unwrap();
    fields.begin_field(&mut ser, "x").unwrap();
    ser.serialize_i16(-3).unwrap();
    fields.serialize_field(&mut ser, "y", &Value::Absent).unwrap();
    fields.begin_field(&mut ser, "inner").unwrap();
    let inner = ser.serialize_seq(None).unwrap();
    inner.end(&mut ser).unwrap();
    fields.end(&mut ser).unwrap();
    assert_eq!(written(&ser), r#"{"x":-3,"y":null,"inner":[]}"#);
}

#[test]
fn streamed_some_writes_the_value() {
    let mut ser = Serializer::new(8);
    ser.serialize_some(&Value::U8(9)).unwrap();
    assert_eq!(written(&ser), "9");
}

#[test]
fn opening_needs_room() {
    let mut ser = Serializer::new(0);
    assert!(matches!(ser.serialize_seq(None), Err(Error::BufferFull)));
    assert!(matches!(ser.serialize_tuple(0), Err(Error::BufferFull)));
    assert!(matches!(ser.serialize_struct("S", 0), Err(Error::BufferFull)));
    assert_eq!(ser.len(), 0);
}

#[test]
fn separator_needs_room() {
    let mut ser = Serializer::new(3);
    let mut elements = ser.serialize_seq(None).unwrap();
    elements.serialize_element(&mut ser, &Value::U8(10)).unwrap();
    assert_eq!(elements.begin_element(&mut ser), Err(Error::BufferFull));
    assert_eq!(written(&ser), "[10");
    assert_eq!(elements.end(&mut ser), Err(Error::BufferFull));

    let mut ser = Serializer::new(5);
    let mut fields = ser.serialize_struct("S", 1).unwrap();
    assert_eq!(fields.begin_field(&mut ser, "key"), Err(Error::BufferFull));
    assert_eq!(written(&ser), "{\"key");
}

#[test]
fn closing_needs_room() {
    let value = Value::Sequence(vec![Value::U8(1)]);
    assert_eq!(to_string(&value, 2), Err(Error::BufferFull));
    let value = Value::Struct(vec![field("a", Value::U8(1))]);
    assert_eq!(to_string(&value, 6), Err(Error::BufferFull));
    assert_eq!(to_string(&value, 7).unwrap(), r#"{"a":1}"#);
}
