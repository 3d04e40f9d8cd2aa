use minicbor::Encoder;
use minicbor::data::{Tag, Type};

#[test]
fn decode_error_display_end_of_input() {
    let e = minicbor::decode::Error::end_of_input();
    assert!(e.to_string().contains("end of input"));

    let e2 = minicbor::decode::Error::end_of_input().at(5);
    let s2 = e2.to_string();
    assert!(s2.contains("end of input"));
    assert!(s2.contains("5"));

    let e3 = minicbor::decode::Error::end_of_input().with_message("ctx");
    let s3 = e3.to_string();
    assert!(s3.contains("ctx"));

    let e4 = minicbor::decode::Error::end_of_input().at(5).with_message("ctx");
    let s4 = e4.to_string();
    assert!(s4.contains("5"));
    assert!(s4.contains("ctx"));
}

#[test]
fn decode_error_display_type_mismatch() {
    let e = minicbor::decode::Error::type_mismatch(Type::Bool);
    assert!(e.to_string().contains("unexpected type"));

    let e2 = minicbor::decode::Error::type_mismatch(Type::Bool).at(3);
    assert!(e2.to_string().contains("position 3"));

    let e3 = minicbor::decode::Error::type_mismatch(Type::Bool).with_message("ctx");
    assert!(e3.to_string().contains("ctx"));

    let e4 = minicbor::decode::Error::type_mismatch(Type::Bool).at(3).with_message("ctx");
    let s4 = e4.to_string();
    assert!(s4.contains("position 3"));
    assert!(s4.contains("ctx"));
}

#[test]
fn decode_error_display_tag_mismatch() {
    let e = minicbor::decode::Error::tag_mismatch(Tag::new(99));
    assert!(e.to_string().contains("unexpected tag"));

    let e2 = e.at(7).with_message("m");
    let s = e2.to_string();
    assert!(s.contains("position 7"));
    assert!(s.contains("m"));
}

#[test]
fn decode_error_display_unknown_variant() {
    let e = minicbor::decode::Error::unknown_variant(42);
    assert!(e.to_string().contains("unknown enum variant"));

    let e2 = e.at(1).with_message("x");
    let s = e2.to_string();
    assert!(s.contains("position 1"));
    assert!(s.contains("x"));
}

#[test]
fn decode_error_display_missing_value() {
    let e = minicbor::decode::Error::missing_value(5);
    assert!(e.to_string().contains("missing value"));

    let e2 = minicbor::decode::Error::missing_value(5).at(10).with_message("field");
    let s = e2.to_string();
    assert!(s.contains("position") || s.contains("10"));
    assert!(s.contains("field"));
}

#[test]
fn decode_error_display_message() {
    let e = minicbor::decode::Error::message("custom msg");
    let s = e.to_string();
    assert!(s.contains("custom msg"));

    let e2 = minicbor::decode::Error::message("custom msg").at(2);
    let s2 = e2.to_string();
    assert!(s2.contains("position 2"));
}

#[test]
fn decode_error_display_invalid_char() {
    let mut buf = Vec::new();
    Encoder::new(&mut buf).u32(0xD800).unwrap();
    let err = minicbor::decode::<char>(&buf).unwrap_err();
    let s = err.to_string();
    assert!(s.contains("invalid char"));
}

#[test]
fn decode_error_display_overflow() {
    let mut buf = Vec::new();
    Encoder::new(&mut buf).u64(u64::MAX).unwrap();
    let err = minicbor::decode::<u32>(&buf).unwrap_err();
    let s = err.to_string();
    assert!(s.contains("overflow"));
}

#[test]
fn decode_error_display_utf8() {
    let mut buf = Vec::new();
    Encoder::new(&mut buf).str_len(2).unwrap();
    buf.extend_from_slice(&[0xff, 0xfe]);
    let err = minicbor::decode::<&str>(&buf).unwrap_err();
    let s = err.to_string();
    assert!(s.contains("utf-8"));
}

#[test]
fn decode_error_invalid_char_with_message() {
    let mut buf = Vec::new();
    Encoder::new(&mut buf).u32(0xD800).unwrap();
    let err = minicbor::decode::<char>(&buf).unwrap_err().with_message("ctx");
    let s = err.to_string();
    assert!(s.contains("invalid char"));
    assert!(s.contains("ctx"));
}

#[test]
fn decode_error_invalid_char_at_position() {
    let mut buf = Vec::new();
    Encoder::new(&mut buf).u32(0xD800).unwrap();
    let err = minicbor::decode::<char>(&buf).unwrap_err();
    let s = err.to_string();
    assert!(s.contains("invalid char"));
}

#[test]
fn decode_error_utf8_with_message() {
    let e = minicbor::decode::Error::end_of_input();
    let _ = e.to_string();
    let mut buf = Vec::new();
    Encoder::new(&mut buf).str_len(2).unwrap();
    buf.extend_from_slice(&[0xff, 0xfe]);
    let err = minicbor::decode::<&str>(&buf).unwrap_err().with_message("ctx");
    let s = err.to_string();
    assert!(s.contains("utf-8") && s.contains("ctx"));
}

#[test]
fn decode_error_utf8_at_position_with_message() {
    let mut buf = Vec::new();
    Encoder::new(&mut buf).str_len(2).unwrap();
    buf.extend_from_slice(&[0xff, 0xfe]);
    let err = minicbor::decode::<&str>(&buf).unwrap_err().at(5).with_message("ctx");
    let s = err.to_string();
    assert!(s.contains("utf-8") && s.contains("ctx") && s.contains("5"));
}

#[test]
fn decode_error_overflow_at_position() {
    let mut buf = Vec::new();
    Encoder::new(&mut buf).u64(u64::MAX).unwrap();
    let err = minicbor::decode::<u32>(&buf).unwrap_err();
    let s = err.to_string();
    assert!(s.contains("overflow"));
}

#[test]
fn decode_error_overflow_with_message() {
    let mut buf = Vec::new();
    Encoder::new(&mut buf).u64(u64::MAX).unwrap();
    let err = minicbor::decode::<u32>(&buf).unwrap_err().with_message("ctx");
    let s = err.to_string();
    assert!(s.contains("overflow") && s.contains("ctx"));
}

#[test]
fn decode_error_overflow_at_position_with_message() {
    let mut buf = Vec::new();
    Encoder::new(&mut buf).u64(u64::MAX).unwrap();
    let err = minicbor::decode::<u32>(&buf).unwrap_err().at(3).with_message("ctx");
    let s = err.to_string();
    assert!(s.contains("overflow") && s.contains("ctx") && s.contains("3"));
}

#[test]
fn decode_error_tag_mismatch_at_position() {
    let e = minicbor::decode::Error::tag_mismatch(Tag::new(1)).at(5);
    let s = e.to_string();
    assert!(s.contains("unexpected tag") && s.contains("5"));
}

#[test]
fn decode_error_tag_mismatch_with_message_no_pos() {
    let e = minicbor::decode::Error::tag_mismatch(Tag::new(1)).with_message("ctx");
    let s = e.to_string();
    assert!(s.contains("unexpected tag") && s.contains("ctx"));
}

#[test]
fn decode_error_unknown_variant_with_message_no_pos() {
    let e = minicbor::decode::Error::unknown_variant(7).with_message("ctx");
    let s = e.to_string();
    assert!(s.contains("unknown enum variant") && s.contains("ctx"));
}

#[test]
fn decode_error_missing_value_at_pos() {
    let e = minicbor::decode::Error::missing_value(3).at(10);
    let s = e.to_string();
    assert!(s.contains("missing value") && s.contains("10"));
}

#[test]
fn decode_error_missing_value_with_message_no_pos() {
    let e = minicbor::decode::Error::missing_value(3).with_message("field");
    let s = e.to_string();
    assert!(s.contains("missing value") && s.contains("field"));
}

#[test]
fn decode_error_invalid_char_msg_no_pos() {
    let mut buf = Vec::new();
    Encoder::new(&mut buf).u32(0xD800).unwrap();
    let err = minicbor::decode::<char>(&buf).unwrap_err();
    let err2 = err.with_message("ctx");
    let s = err2.to_string();
    assert!(s.contains("invalid char") && s.contains("ctx"));
}

#[test]
fn decode_error_utf8_msg_no_pos() {
    let mut buf = Vec::new();
    Encoder::new(&mut buf).str_len(2).unwrap();
    buf.extend_from_slice(&[0xff, 0xfe]);
    let mut err = minicbor::decode::<&str>(&buf).unwrap_err();
    err = err.with_message("ctx");
    let s = err.to_string();
    assert!(s.contains("utf-8") && s.contains("ctx"));
}

#[test]
fn decode_error_overflow_at_pos_no_msg() {
    let mut buf = Vec::new();
    Encoder::new(&mut buf).u64(u64::MAX).unwrap();
    let err = minicbor::decode::<u32>(&buf).unwrap_err();
    let s = err.to_string();
    assert!(s.contains("overflow"));
}

#[test]
fn decode_error_overflow_at_pos_only() {
    let mut buf = Vec::new();
    Encoder::new(&mut buf).u64(u64::MAX).unwrap();
    let err = minicbor::decode::<u8>(&buf).unwrap_err();
    let s = err.to_string();
    assert!(s.contains("overflow") && s.contains("position"));
}

#[test]
fn decode_error_constructors_and_queries() {
    let e = minicbor::decode::Error::message("hello");
    assert!(e.is_message());
    assert!(e.position().is_none());

    let e2 = e.at(10);
    assert_eq!(e2.position(), Some(10));

    let e3 = minicbor::decode::Error::type_mismatch(Type::Bool);
    assert!(e3.is_type_mismatch());

    let e4 = minicbor::decode::Error::tag_mismatch(Tag::new(1));
    assert!(e4.is_tag_mismatch());

    let e5 = minicbor::decode::Error::missing_value(3);
    assert!(e5.is_missing_value());

    let custom = std::io::Error::new(std::io::ErrorKind::Other, "c");
    let e6 = minicbor::decode::Error::custom(custom);
    assert!(e6.is_custom());
}

#[test]
fn decode_error_display_custom() {
    let custom = std::io::Error::new(std::io::ErrorKind::Other, "inner");
    let e = minicbor::decode::Error::custom(custom);
    let s = e.to_string();
    assert!(s.contains("decode error"));

    let custom2 = std::io::Error::new(std::io::ErrorKind::Other, "inner2");
    let e2 = minicbor::decode::Error::custom(custom2).at(4).with_message("m");
    let s2 = e2.to_string();
    assert!(s2.contains("position 4"));
}

#[test]
fn decode_error_custom_at_pos_no_msg() {
    let custom = std::io::Error::new(std::io::ErrorKind::Other, "inner");
    let e = minicbor::decode::Error::custom(custom).at(4);
    let s = e.to_string();
    assert!(s.contains("decode error") && s.contains("4"));
}

#[test]
fn decode_error_custom_with_msg_no_pos() {
    let custom = std::io::Error::new(std::io::ErrorKind::Other, "inner");
    let e = minicbor::decode::Error::custom(custom).with_message("extra");
    let s = e.to_string();
    assert!(s.contains("decode error") && s.contains("extra"));
}
