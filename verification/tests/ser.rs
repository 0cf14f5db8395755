use bounded_json::ser::to_string;
use bounded_json::value::{Field, Value};

const N: usize = 128;

fn field(name: &str, value: Value) -> Field {
    Field { name: String::from(name), value }
}

fn text(s: &str) -> Value {
    Value::Str(String::from(s))
}

fn float32(v: f32) -> Value {
    Value::Float(format!("{}", v))
}

fn float64(v: f64) -> Value {
    Value::Float(format!("{}", v))
}

#[test]
fn array() {
    let value = Value::Tuple(vec![Value::I32(0), Value::I32(1), Value::I32(2)]);
    assert_eq!(&*to_string(&value, N).unwrap(), "[0,1,2]");
}

#[test]
fn bool() {
    assert_eq!(&*to_string(&Value::Bool(true), N).unwrap(), "true");
}

#[test]
fn enum_() {
    let boolean = Value::UnitVariant { index: 0, label: String::from("boolean") };
    let number = Value::UnitVariant { index: 1, label: String::from("number") };

    assert_eq!(&*to_string(&boolean, N).unwrap(), r#""boolean""#);

    assert_eq!(&*to_string(&number, N).unwrap(), r#""number""#);
}

#[test]
fn str() {
    assert_eq!(&*to_string(&text("hello"), N).unwrap(), r#""hello""#);
}

#[test]
fn struct_bool() {
    let led = Value::Struct(vec![field("led", Value::Bool(true))]);

    assert_eq!(&*to_string(&led, N).unwrap(), r#"{"led":true}"#);
}

#[test]
fn struct_i8() {
    fn temperature(v: i8) -> Value {
        Value::Struct(vec![field("temperature", Value::I8(v))])
    }

    assert_eq!(&*to_string(&temperature(127), N).unwrap(), r#"{"temperature":127}"#);

    assert_eq!(&*to_string(&temperature(20), N).unwrap(), r#"{"temperature":20}"#);

    assert_eq!(&*to_string(&temperature(-17), N).unwrap(), r#"{"temperature":-17}"#);

    assert_eq!(&*to_string(&temperature(-128), N).unwrap(), r#"{"temperature":-128}"#);
}

#[test]
fn struct_option() {
    let present = Value::Struct(vec![field(
        "description",
        Value::Present(Box::new(text("An ambient temperature sensor"))),
    )]);
    let absent = Value::Struct(vec![field("description", Value::Absent)]);

    assert_eq!(
        to_string(&present, N).unwrap(),
        r#"{"description":"An ambient temperature sensor"}"#
    );

    assert_eq!(to_string(&absent, N).unwrap(), r#"{"description":null}"#);
}

#[test]
fn struct_u8() {
    let temperature = Value::Struct(vec![field("temperature", Value::U8(20))]);

    assert_eq!(&*to_string(&temperature, N).unwrap(), r#"{"temperature":20}"#);
}

#[test]
fn struct_() {
    let empty = Value::Struct(vec![]);

    assert_eq!(&*to_string(&empty, N).unwrap(), r#"{}"#);

    let tuple = Value::Struct(vec![field("a", Value::Bool(true)), field("b", Value::Bool(false))]);

    assert_eq!(&*to_string(&tuple, N).unwrap(), r#"{"a":true,"b":false}"#);
}

#[test]
fn struct_char() {
    let value = Value::Struct(vec![field("value", Value::Char('❤'))]);

    assert_eq!(&*to_string(&value, N).unwrap(), r#"{"value":"❤"}"#);
}

#[test]
fn struct_f32() {
    let value = Value::Struct(vec![field("value", float32(12345.678912_f32))]);

    assert_eq!(&*to_string(&value, N).unwrap(), r#"{"value":12345.679}"#);
}

#[test]
fn struct_f64() {
    let value = Value::Struct(vec![field("value", float64(12345.678912))]);

    assert_eq!(&*to_string(&value, N).unwrap(), r#"{"value":12345.678912}"#);
}

#[test]
fn struct_vec() {
    let value = Value::Struct(vec![field(
        "value",
        Value::Sequence(vec![Value::U8(1), Value::U8(2), Value::U8(3)]),
    )]);

    assert_eq!(&*to_string(&value, N).unwrap(), r#"{"value":[1,2,3]}"#);
}

#[test]
fn struct_string() {
    let value = Value::Struct(vec![field("value", text("hello"))]);

    assert_eq!(&*to_string(&value, N).unwrap(), r#"{"value":"hello"}"#);
}
