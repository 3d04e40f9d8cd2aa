use minicbor::{Encoder, Decoder};
use minicbor::data::{Type, Tag};

#[test]
fn decoder_set_position_and_input() {
    let buf = [0x01, 0x02];
    let mut d = Decoder::new(&buf);
    assert_eq!(d.input(), &buf);
    d.set_position(1);
    assert_eq!(d.position(), 1);
}

#[test]
fn decoder_end_of_input() {
    let mut d = Decoder::new(&[]);
    let err = d.u8().unwrap_err();
    assert!(err.to_string().contains("end of input"));
}

#[test]
fn decoder_bool_type_mismatch() {
    let mut d = Decoder::new(&[0x01]);
    assert!(d.bool().unwrap_err().is_type_mismatch());
}

#[test]
fn decoder_u16_type_mismatch() {
    let mut d = Decoder::new(&[0x61, 0x61]);
    assert!(d.u16().unwrap_err().is_type_mismatch());
}

#[test]
fn decoder_u32_type_mismatch() {
    let mut d = Decoder::new(&[0x61, 0x61]);
    assert!(d.u32().unwrap_err().is_type_mismatch());
}

#[test]
fn decoder_i8_type_mismatch() {
    let mut d = Decoder::new(&[0x61, 0x61]);
    assert!(d.i8().unwrap_err().is_type_mismatch());
}

#[test]
fn decoder_i16_type_mismatch() {
    let mut d = Decoder::new(&[0x61, 0x61]);
    assert!(d.i16().unwrap_err().is_type_mismatch());
}

#[test]
fn decoder_i16_negative_small() {
    let mut buf = Vec::new();
    Encoder::new(&mut buf).i16(-5).unwrap();
    let mut d = Decoder::new(&buf);
    assert_eq!(d.i16().unwrap(), -5);
}

#[test]
fn decoder_i32_type_mismatch() {
    let mut d = Decoder::new(&[0x61, 0x61]);
    assert!(d.i32().unwrap_err().is_type_mismatch());
}

#[test]
fn decoder_i32_negative_small() {
    let mut buf = Vec::new();
    Encoder::new(&mut buf).i32(-5).unwrap();
    let mut d = Decoder::new(&buf);
    assert_eq!(d.i32().unwrap(), -5);
}

#[test]
fn decoder_i64_type_mismatch() {
    let mut d = Decoder::new(&[0x61, 0x61]);
    assert!(d.i64().unwrap_err().is_type_mismatch());
}

#[test]
fn decoder_int_type_mismatch() {
    let mut d = Decoder::new(&[0x61, 0x61]);
    assert!(d.integer().unwrap_err().is_type_mismatch());
}

#[test]
fn decoder_bytes_indef_type_mismatch() {
    let mut d = Decoder::new(&[0x01]);
    let err = d.bytes_iter().unwrap_err();
    assert!(err.is_type_mismatch());
}

#[test]
fn decoder_str_indef_type_mismatch() {
    let mut d = Decoder::new(&[0x01]);
    let err = d.str_iter().unwrap_err();
    assert!(err.is_type_mismatch());
}

#[test]
fn decoder_skip_unknown_type() {
    let buf = &[0xfc];
    let mut d = Decoder::new(buf);
    let err = d.skip().unwrap_err();
    assert!(err.to_string().contains("unknown type"));
}

#[test]
fn decoder_u64_type_mismatch() {
    let mut buf = Vec::new();
    Encoder::new(&mut buf).str("nope").unwrap();
    let mut d = Decoder::new(&buf);
    assert!(d.u64().unwrap_err().is_type_mismatch());
}

#[test]
fn decoder_type_of_special_bytes() {
    let cases: &[(u8, Type)] = &[
        (0xe0, Type::Simple),
        (0xf8, Type::Simple),
        (0xf9, Type::F16),
        (0xfa, Type::F32),
        (0xfc, Type::Unknown(0xfc)),
    ];
    for &(byte, expected) in cases {
        let buf = &[byte];
        let d = Decoder::new(buf);
        let ty = d.datatype().unwrap_or(Type::Unknown(0));
        assert_eq!(ty, expected, "byte {byte:#x}");
    }
}

#[test]
fn decoder_bool_read_error() {
    let mut d = Decoder::new(&[]);
    let err = d.bool().unwrap_err();
    assert!(err.to_string().contains("end of input"));
}

#[test]
fn decoder_bool_type_of_error() {
    let mut d = Decoder::new(&[0x38]);
    let err = d.bool().unwrap_err();
    assert!(err.to_string().contains("end of input"));
}

#[test]
fn decoder_u8_type_of_error() {
    let mut d = Decoder::new(&[0x38]);
    let err = d.u8().unwrap_err();
    assert!(err.to_string().contains("end of input"));
}

#[test]
fn decoder_u16_type_of_error() {
    let mut d = Decoder::new(&[0x38]);
    let err = d.u16().unwrap_err();
    assert!(err.to_string().contains("end of input"));
}

#[test]
fn decoder_u16_read_error() {
    let mut d = Decoder::new(&[]);
    let err = d.u16().unwrap_err();
    assert!(err.to_string().contains("end of input"));
}

#[test]
fn decoder_u32_type_of_error() {
    let mut d = Decoder::new(&[0x38]);
    let err = d.u32().unwrap_err();
    assert!(err.to_string().contains("end of input"));
}

#[test]
fn decoder_i8_read_error() {
    let mut d = Decoder::new(&[]);
    let err = d.i8().unwrap_err();
    assert!(err.to_string().contains("end of input"));
}

#[test]
fn decoder_u64_read_error() {
    let mut d = Decoder::new(&[]);
    let err = d.u64().unwrap_err();
    assert!(err.to_string().contains("end of input"));
}

#[test]
fn decoder_i16_read_error() {
    let mut d = Decoder::new(&[]);
    let err = d.i16().unwrap_err();
    assert!(err.to_string().contains("end of input"));
}

#[test]
fn decoder_i32_read_error() {
    let mut d = Decoder::new(&[]);
    let err = d.i32().unwrap_err();
    assert!(err.to_string().contains("end of input"));
}

#[test]
fn decoder_i64_read_error() {
    let mut d = Decoder::new(&[]);
    let err = d.i64().unwrap_err();
    assert!(err.to_string().contains("end of input"));
}

#[test]
fn decoder_int_read_error() {
    let mut d = Decoder::new(&[]);
    let err = d.integer().unwrap_err();
    assert!(err.to_string().contains("end of input"));
}

#[test]
fn decoder_char_u32_error() {
    let mut d = Decoder::new(&[]);
    let err = d.char().unwrap_err();
    assert!(err.to_string().contains("end of input"));
}

#[test]
fn decoder_bytes_read_error() {
    let mut d = Decoder::new(&[]);
    let err = d.bytes().unwrap_err();
    assert!(err.to_string().contains("end of input"));
}

#[test]
fn decoder_bytes_type_of_error() {
    let mut d = Decoder::new(&[0x38]);
    let err = d.bytes().unwrap_err();
    assert!(err.to_string().contains("end of input"));
}

#[test]
fn decoder_bytes_unsigned_error() {
    let mut d = Decoder::new(&[0x59]);
    let err = d.bytes().unwrap_err();
    assert!(err.to_string().contains("end of input"));
}

#[test]
fn decoder_str_read_error() {
    let mut d = Decoder::new(&[]);
    let err = d.str().unwrap_err();
    assert!(err.to_string().contains("end of input"));
}

#[test]
fn decoder_str_type_of_error() {
    let mut d = Decoder::new(&[0x38]);
    let err = d.str().unwrap_err();
    assert!(err.to_string().contains("end of input"));
}

#[test]
fn decoder_str_unsigned_error() {
    let mut d = Decoder::new(&[0x79]);
    let err = d.str().unwrap_err();
    assert!(err.to_string().contains("end of input"));
}

#[test]
fn decoder_str_read_slice_error() {
    let mut d = Decoder::new(&[0x65, b'h', b'e']);
    let err = d.str().unwrap_err();
    assert!(err.to_string().contains("end of input"));
}

#[test]
fn decoder_str_utf8_error() {
    let mut d = Decoder::new(&[0x62, 0xff, 0xfe]);
    let err = d.str().unwrap_err();
    assert!(err.to_string().contains("invalid utf-8"));
}

#[test]
fn decoder_str_indefinite_rejected() {
    let mut d = Decoder::new(&[0x7f]);
    let err = d.str().unwrap_err();
    assert!(err.is_type_mismatch());
}

#[test]
fn decoder_array_read_error() {
    let mut d = Decoder::new(&[]);
    let err = d.array().unwrap_err();
    assert!(err.to_string().contains("end of input"));
}

#[test]
fn decoder_array_type_of_error() {
    let mut d = Decoder::new(&[0x38]);
    let err = d.array().unwrap_err();
    assert!(err.to_string().contains("end of input"));
}

#[test]
fn decoder_array_unsigned_error() {
    let mut d = Decoder::new(&[0x99]);
    let err = d.array().unwrap_err();
    assert!(err.to_string().contains("end of input"));
}

#[test]
fn decoder_array_indefinite() {
    let mut d = Decoder::new(&[0x9f, 0xff]);
    let len = d.array().unwrap();
    assert!(len.is_none());
}

#[test]
fn decoder_array_definite() {
    let mut d = Decoder::new(&[0x82, 0x01, 0x02]);
    let len = d.array().unwrap();
    assert_eq!(len, Some(2));
}

#[test]
fn decoder_map_read_error() {
    let mut d = Decoder::new(&[]);
    let err = d.map().unwrap_err();
    assert!(err.to_string().contains("end of input"));
}

#[test]
fn decoder_map_type_of_error() {
    let mut d = Decoder::new(&[0x38]);
    let err = d.map().unwrap_err();
    assert!(err.to_string().contains("end of input"));
}

#[test]
fn decoder_map_unsigned_error() {
    let mut d = Decoder::new(&[0xb9]);
    let err = d.map().unwrap_err();
    assert!(err.to_string().contains("end of input"));
}

#[test]
fn decoder_map_indefinite() {
    let mut d = Decoder::new(&[0xbf, 0xff]);
    let len = d.map().unwrap();
    assert!(len.is_none());
}

#[test]
fn decoder_map_definite() {
    let mut buf = Vec::new();
    let mut enc = Encoder::new(&mut buf);
    enc.map(1).unwrap();
    enc.u32(1).unwrap();
    enc.u32(2).unwrap();
    let mut d = Decoder::new(&buf);
    let len = d.map().unwrap();
    assert_eq!(len, Some(1));
}

#[test]
fn decoder_tag_read_error() {
    let mut d = Decoder::new(&[]);
    let err = d.tag().unwrap_err();
    assert!(err.to_string().contains("end of input"));
}

#[test]
fn decoder_tag_type_of_error() {
    let mut d = Decoder::new(&[0x38]);
    let err = d.tag().unwrap_err();
    assert!(err.to_string().contains("end of input"));
}

#[test]
fn decoder_tag_unsigned_error() {
    let mut d = Decoder::new(&[0xd9]);
    let err = d.tag().unwrap_err();
    assert!(err.to_string().contains("end of input"));
}

#[test]
fn decoder_tag_success() {
    let mut d = Decoder::new(&[0xc1]);
    assert_eq!(d.tag().unwrap(), Tag::new(1));

    let mut d = Decoder::new(&[0xd9, 0x01, 0x00]);
    assert_eq!(d.tag().unwrap(), Tag::new(256));
}

#[test]
fn decoder_null_read_error() {
    let mut d = Decoder::new(&[]);
    let err = d.null().unwrap_err();
    assert!(err.to_string().contains("end of input"));
}

#[test]
fn decoder_null_type_of_error() {
    let mut d = Decoder::new(&[0x38]);
    let err = d.null().unwrap_err();
    assert!(err.to_string().contains("end of input"));
}

#[test]
fn decoder_null_type_mismatch() {
    let mut d = Decoder::new(&[0x01]);
    let err = d.null().unwrap_err();
    assert!(err.is_type_mismatch());
}

#[test]
fn decoder_null_success() {
    let mut d = Decoder::new(&[0xf6]);
    d.null().unwrap();
}

#[test]
fn decoder_undefined_read_error() {
    let mut d = Decoder::new(&[]);
    let err = d.undefined().unwrap_err();
    assert!(err.to_string().contains("end of input"));
}

#[test]
fn decoder_undefined_type_of_error() {
    let mut d = Decoder::new(&[0x38]);
    let err = d.undefined().unwrap_err();
    assert!(err.to_string().contains("end of input"));
}

#[test]
fn decoder_undefined_type_mismatch() {
    let mut d = Decoder::new(&[0x01]);
    let err = d.undefined().unwrap_err();
    assert!(err.is_type_mismatch());
}

#[test]
fn decoder_undefined_success() {
    let mut d = Decoder::new(&[0xf7]);
    d.undefined().unwrap();
}

#[test]
fn decoder_simple_read_error() {
    let mut d = Decoder::new(&[]);
    let err = d.simple().unwrap_err();
    assert!(err.to_string().contains("end of input"));
}

#[test]
fn decoder_simple_type_of_error() {
    let mut d = Decoder::new(&[0x38]);
    let err = d.simple().unwrap_err();
    assert!(err.to_string().contains("end of input"));
}

#[test]
fn decoder_simple_type_mismatch() {
    let mut d = Decoder::new(&[0x01]);
    let err = d.simple().unwrap_err();
    assert!(err.is_type_mismatch());
}

#[test]
fn decoder_simple_inline() {
    let mut d = Decoder::new(&[0xe0]);
    assert_eq!(d.simple().unwrap(), 0);
    let mut d = Decoder::new(&[0xf3]);
    assert_eq!(d.simple().unwrap(), 19);
}

#[test]
fn decoder_simple_two_byte() {
    let mut d = Decoder::new(&[0xf8, 0xff]);
    assert_eq!(d.simple().unwrap(), 255);
}

#[test]
fn decoder_simple_two_byte_truncated() {
    let mut d = Decoder::new(&[0xf8]);
    let err = d.simple().unwrap_err();
    assert!(err.to_string().contains("end of input"));
}

#[test]
fn decoder_datatype_empty() {
    let d = Decoder::new(&[]);
    let err = d.datatype().unwrap_err();
    assert!(err.to_string().contains("end of input"));
}

#[test]
fn decoder_datatype_peek_error() {
    let d = Decoder::new(&[0x38]);
    let err = d.datatype().unwrap_err();
    assert!(err.to_string().contains("end of input"));
}

#[test]
fn decoder_datatype_success() {
    let d = Decoder::new(&[0x01]);
    assert_eq!(d.datatype().unwrap(), Type::U8);

    let d = Decoder::new(&[0xf6]);
    assert_eq!(d.datatype().unwrap(), Type::Null);

    let d = Decoder::new(&[0x82]);
    assert_eq!(d.datatype().unwrap(), Type::Array);
}

#[test]
fn decoder_skip_empty() {
    let mut d = Decoder::new(&[]);
    let err = d.skip().unwrap_err();
    assert!(err.to_string().contains("end of input"));
}

#[test]
fn decoder_skip_unsigned() {
    let mut d = Decoder::new(&[0x05, 0x01]);
    d.skip().unwrap();
    assert_eq!(d.position(), 1);
}

#[test]
fn decoder_skip_signed() {
    let mut d = Decoder::new(&[0x20]);
    d.skip().unwrap();
    assert_eq!(d.position(), 1);
}

#[test]
fn decoder_skip_bytes() {
    let mut d = Decoder::new(&[0x42, 0xaa, 0xbb]);
    d.skip().unwrap();
    assert_eq!(d.position(), 3);
}

#[test]
fn decoder_skip_text() {
    let mut d = Decoder::new(&[0x63, b'a', b'b', b'c']);
    d.skip().unwrap();
    assert_eq!(d.position(), 4);
}

#[test]
fn decoder_type_mismatch_errors() {
    let test_cases: &[(&[u8], &str)] = &[
        (&[0x61, 0x61], "u8"),     // string "a" decoded as u8
        (&[0x01], "str"),          // u8 1 decoded as str
        (&[0x01], "bytes"),        // u8 1 decoded as bytes
        (&[0x01], "array"),        // u8 1 decoded as array
        (&[0x01], "map"),          // u8 1 decoded as map
        (&[0x01], "tag"),          // u8 1 decoded as tag
        (&[0x01], "null"),         // u8 1 decoded as null
        (&[0x01], "undefined"),    // u8 1 decoded as undefined
        (&[0x01], "simple"),       // u8 1 decoded as simple
    ];

    for (buf, method) in test_cases {
        let mut d = Decoder::new(buf);
        let err = match *method {
            "u8"        => d.u8().unwrap_err(),
            "str"       => d.str().unwrap_err(),
            "bytes"     => d.bytes().unwrap_err(),
            "array"     => d.array().unwrap_err(),
            "map"       => d.map().unwrap_err(),
            "tag"       => d.tag().unwrap_err(),
            "null"      => d.null().unwrap_err(),
            "undefined" => d.undefined().unwrap_err(),
            "simple"    => d.simple().unwrap_err(),
            _ => unreachable!()
        };
        assert!(err.is_type_mismatch(), "expected type mismatch for {}: {}", method, err.to_string());
    }
}
