use bounded_json::number::{
    write_i16, write_i32, write_i64, write_i8, write_u16, write_u32, write_u64, write_u8,
};
use bounded_json::ser::{to_string, Serializer};
use bounded_json::value::Value;

fn written(ser: &Serializer) -> &str {
    std::str::from_utf8(ser.as_slice()).unwrap()
}

#[test]
fn u8_boundaries() {
    for (v, expected) in [(0u8, "0"), (9, "9"), (10, "10"), (99, "99"), (100, "100"), (255, "255")] {
        assert_eq!(to_string(&Value::U8(v), 3).unwrap(), expected);
    }
}

#[test]
fn u16_boundaries() {
    for (v, expected) in [(0u16, "0"), (256, "256"), (9999, "9999"), (10000, "10000"), (65535, "65535")] {
        assert_eq!(to_string(&Value::U16(v), 5).unwrap(), expected);
    }
}

#[test]
fn u32_boundaries() {
    for (v, expected) in [(0u32, "0"), (65536, "65536"), (1000000000, "1000000000"), (u32::MAX, "4294967295")] {
        assert_eq!(to_string(&Value::U32(v), 10).unwrap(), expected);
    }
}

#[test]
fn u64_boundaries() {
    for (v, expected) in [
        (0u64, "0"),
        (4294967296, "4294967296"),
        (9999999999999999999, "9999999999999999999"),
        (10000000000000000000, "10000000000000000000"),
        (u64::MAX, "18446744073709551615"),
    ] {
        assert_eq!(to_string(&Value::U64(v), 20).unwrap(), expected);
    }
}

#[test]
fn i8_boundaries() {
    for (v, expected) in [(i8::MIN, "-128"), (-127, "-127"), (-1, "-1"), (0, "0"), (1, "1"), (i8::MAX, "127")] {
        assert_eq!(to_string(&Value::I8(v), 4).unwrap(), expected);
    }
}

#[test]
fn i16_boundaries() {
    for (v, expected) in [(i16::MIN, "-32768"), (-10, "-10"), (0, "0"), (100, "100"), (i16::MAX, "32767")] {
        assert_eq!(to_string(&Value::I16(v), 6).unwrap(), expected);
    }
}

#[test]
fn i32_boundaries() {
    for (v, expected) in [(i32::MIN, "-2147483648"), (-1, "-1"), (0, "0"), (i32::MAX, "2147483647")] {
        assert_eq!(to_string(&Value::I32(v), 11).unwrap(), expected);
    }
}

#[test]
fn i64_boundaries() {
    for (v, expected) in [
        (i64::MIN, "-9223372036854775808"),
        (-9223372036854775807, "-9223372036854775807"),
        (-1, "-1"),
        (0, "0"),
        (i64::MAX, "9223372036854775807"),
    ] {
        assert_eq!(to_string(&Value::I64(v), 20).unwrap(), expected);
    }
}

#[test]
fn every_u8_matches_std() {
    for v in 0..=u8::MAX {
        assert_eq!(to_string(&Value::U8(v), 3).unwrap(), format!("{}", v));
    }
}

#[test]
fn every_i8_matches_std() {
    for v in i8::MIN..=i8::MAX {
        assert_eq!(to_string(&Value::I8(v), 4).unwrap(), format!("{}", v));
    }
}

#[test]
fn powers_of_ten_match_std() {
    let mut v: u64 = 1;
    for _ in 0..19 {
        assert_eq!(to_string(&Value::U64(v), 20).unwrap(), format!("{}", v));
        assert_eq!(to_string(&Value::U64(v - 1), 20).unwrap(), format!("{}", v - 1));
        let s = v as i64;
        assert_eq!(to_string(&Value::I64(-s), 20).unwrap(), format!("{}", -s));
        v *= 10;
    }
    assert_eq!(to_string(&Value::U64(v), 20).unwrap(), format!("{}", v));
}

#[test]
fn writers_fill_the_end_of_the_scratch() {
    let mut b3 = [0u8; 3];
    let start = write_u8(7, &mut b3);
    assert_eq!(start, 2);
    assert_eq!(&b3[start..], b"7");
    let start = write_u8(255, &mut b3);
    assert_eq!(start, 0);
    assert_eq!(&b3[start..], b"255");

    let mut b5 = [0u8; 5];
    let start = write_u16(65535, &mut b5);
    assert_eq!((start, &b5[start..]), (0, &b"65535"[..]));

    let mut b10 = [0u8; 10];
    let start = write_u32(42, &mut b10);
    assert_eq!((start, &b10[start..]), (8, &b"42"[..]));

    let mut b20 = [0u8; 20];
    let start = write_u64(u64::MAX, &mut b20);
    assert_eq!((start, &b20[start..]), (0, &b"18446744073709551615"[..]));
}

#[test]
fn signed_writers_place_the_sign() {
    let mut b4 = [0u8; 4];
    let start = write_i8(-128, &mut b4);
    assert_eq!((start, &b4[start..]), (0, &b"-128"[..]));
    let start = write_i8(127, &mut b4);
    assert_eq!((start, &b4[start..]), (1, &b"127"[..]));
    let start = write_i8(0, &mut b4);
    assert_eq!((start, &b4[start..]), (3, &b"0"[..]));
    let start = write_i8(-5, &mut b4);
    assert_eq!((start, &b4[start..]), (2, &b"-5"[..]));

    let mut b6 = [0u8; 6];
    let start = write_i16(i16::MIN, &mut b6);
    assert_eq!((start, &b6[start..]), (0, &b"-32768"[..]));

    let mut b11 = [0u8; 11];
    let start = write_i32(i32::MIN, &mut b11);
    assert_eq!((start, &b11[start..]), (0, &b"-2147483648"[..]));

    let mut b20 = [0u8; 20];
    let start = write_i64(i64::MIN, &mut b20);
    assert_eq!((start, &b20[start..]), (0, &b"-9223372036854775808"[..]));
    let start = write_i64(i64::MAX, &mut b20);
    assert_eq!((start, &b20[start..]), (1, &b"9223372036854775807"[..]));
}

#[test]
fn numbers_follow_each_other_in_the_output() {
    let mut ser = Serializer::new(32);
    ser.serialize_u8(0).unwrap();
    ser.serialize_i16(-300).unwrap();
    ser.serialize_u32(70000).unwrap();
    ser.serialize_i64(-1).unwrap();
    ser.serialize_u64(12).unwrap();
    ser.serialize_i32(5).unwrap();
    ser.serialize_u16(600).unwrap();
    ser.serialize_i8(-7).unwrap();
    assert_eq!(written(&ser), "0-30070000-1125600-7");
}
