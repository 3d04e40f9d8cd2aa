use minicbor::{Encode, Decode, CborLen, Encoder, Decoder};
use std::borrow::Cow;
use minicbor::encode::write::{Cursor, EndOfSlice, EndOfArray, Write};
use minicbor::data::{Type, Tag, IanaTag, Tagged, Int, max_int};
use minicbor::decode::info::Size;

#[test]
fn encoder_encode_error() {
    let mut buf = [0u8; 0];
    let mut enc = Encoder::new(&mut buf[..]);
    let err = enc.encode(42u32);
    assert!(err.is_err());
}

#[test]
fn encoder_encode_with_error() {
    let mut buf = [0u8; 0];
    let mut enc = Encoder::new(&mut buf[..]);
    let err = enc.encode_with(42u32, &mut ());
    assert!(err.is_err());
}

#[test]
fn lib_encode_ok_u32() {
    let mut buf = [0u8; 8];
    assert!(minicbor::encode(42u32, &mut buf[..]).is_ok());
}

#[test]
fn lib_encode_error_u32() {
    let mut buf = [0u8; 0];
    assert!(minicbor::encode(42u32, &mut buf[..]).is_err());
}

#[test]
fn lib_encode_ok_u8() {
    let mut buf = [0u8; 8];
    assert!(minicbor::encode(42u8, &mut buf[..]).is_ok());
}

#[test]
fn lib_encode_error_u8() {
    let mut buf = [0u8; 0];
    assert!(minicbor::encode(42u8, &mut buf[..]).is_err());
}

#[test]
fn lib_encode_ok_i64() {
    let mut buf = [0u8; 16];
    assert!(minicbor::encode(42i64, &mut buf[..]).is_ok());
}

#[test]
fn lib_encode_error_i64() {
    let mut buf = [0u8; 0];
    assert!(minicbor::encode(42i64, &mut buf[..]).is_err());
}

#[test]
fn lib_encode_with_ok_u32() {
    let mut buf = [0u8; 8];
    assert!(minicbor::encode_with(42u32, &mut buf[..], &mut ()).is_ok());
}

#[test]
fn lib_encode_with_error_u32() {
    let mut buf = [0u8; 0];
    assert!(minicbor::encode_with(42u32, &mut buf[..], &mut ()).is_err());
}

#[test]
fn lib_encode_with_ok_ref_u32() {
    let mut buf = [0u8; 8];
    assert!(minicbor::encode_with(&42u32, &mut buf[..], &mut ()).is_ok());
}

#[test]
fn lib_encode_with_error_ref_u32() {
    let mut buf = [0u8; 0];
    assert!(minicbor::encode_with(&42u32, &mut buf[..], &mut ()).is_err());
}

#[test]
fn to_vec_and_len() {
    let val: u32 = 42;
    let bytes = minicbor::to_vec(&val).unwrap();
    let len = minicbor::len(&val);
    assert_eq!(bytes.len(), len);

    let decoded: u32 = minicbor::decode(&bytes).unwrap();
    assert_eq!(decoded, 42);
}

#[test]
fn to_vec_with_and_len_with() {
    let val: u32 = 42;
    let bytes = minicbor::to_vec_with(&val, &mut ()).unwrap();
    let len = minicbor::len_with(&val, &mut ());
    assert_eq!(bytes.len(), len);
}

#[test]
fn encode_decode_with() {
    let val: u32 = 100;
    let mut buf = [0u8; 16];
    minicbor::encode_with(&val, &mut buf[..], &mut ()).unwrap();
    let decoded: u32 = minicbor::decode_with(&buf, &mut ()).unwrap();
    assert_eq!(decoded, 100);
}

#[test]
fn encode_via_mut_ref() {
    let mut val: u32 = 10;
    let mut buf = Vec::new();
    <&mut u32 as Encode<()>>::encode(&&mut val, &mut Encoder::new(&mut buf), &mut ()).unwrap();
    let decoded: u32 = minicbor::decode(&buf).unwrap();
    assert_eq!(decoded, 10);
    let len = <&mut u32 as CborLen<()>>::cbor_len(&&mut val, &mut ());
    assert_eq!(buf.len(), len);
}

#[test]
fn encode_isize() {
    let val: isize = -42;
    let bytes = minicbor::to_vec(&val).unwrap();
    let len = minicbor::len(&val);
    assert_eq!(bytes.len(), len);
    let decoded: isize = minicbor::decode(&bytes).unwrap();
    assert_eq!(decoded, -42);
}

#[test]
fn encode_tag_and_iana_tag() {
    let t = Tag::new(1);
    let bytes = minicbor::to_vec(&t).unwrap();
    let len = minicbor::len(&t);
    assert_eq!(bytes.len(), len);

    let iana = IanaTag::DateTime;
    let bytes2 = minicbor::to_vec(&iana).unwrap();
    let len2 = minicbor::len(&iana);
    assert_eq!(bytes2.len(), len2);
}

#[test]
fn encode_tagged() {
    let tagged: Tagged<1, u32> = Tagged::new(42);
    let bytes = minicbor::to_vec(&tagged).unwrap();
    let len = minicbor::len(&tagged);
    assert_eq!(bytes.len(), len);

    let decoded: Tagged<1, u32> = minicbor::decode(&bytes).unwrap();
    assert_eq!(*decoded.value(), 42);
}

#[test]
fn decode_isize() {
    let bytes = minicbor::to_vec(&(-42i64)).unwrap();
    let decoded: isize = minicbor::decode(&bytes).unwrap();
    assert_eq!(decoded, -42);
}

#[test]
fn decode_tag() {
    let mut buf = Vec::new();
    Encoder::new(&mut buf).tag(Tag::new(1)).unwrap().u32(42).unwrap();
    let mut d = Decoder::new(&buf);
    let t: Tag = d.decode().unwrap();
    assert_eq!(t.as_u64(), 1);
}

#[test]
fn decode_tagged() {
    let tagged: Tagged<1, u32> = Tagged::new(42);
    let bytes = minicbor::to_vec(&tagged).unwrap();
    let decoded: Tagged<1, u32> = minicbor::decode(&bytes).unwrap();
    assert_eq!(*decoded.value(), 42);
}

#[test]
fn decode_tagged_wrong_tag() {
    let tagged: Tagged<1, u32> = Tagged::new(42);
    let bytes = minicbor::to_vec(&tagged).unwrap();
    let err = minicbor::decode::<Tagged<99, u32>>(&bytes).unwrap_err();
    assert!(err.is_tag_mismatch());
}

#[test]
fn decode_result_err() {
    let val: Result<u32, u32> = Err(99);
    let bytes = minicbor::to_vec(&val).unwrap();
    let decoded: Result<u32, u32> = minicbor::decode(&bytes).unwrap();
    assert_eq!(decoded, Err(99));
}

#[test]
fn decoder_array_iter_without_ctx() {
    let bytes = minicbor::to_vec(&[1u32, 2, 3]).unwrap();
    let mut d = Decoder::new(&bytes);
    let iter = d.array_iter::<u32>().unwrap();
    let mut iter = iter;
    let mut vals: Vec<u32> = Vec::new();
    while let Some(r) = iter.next() {
        vals.push(r.unwrap());
    }
    assert_eq!(vals, vec![1, 2, 3]);
}

#[test]
fn encoder_vec_result_ok_branch() {
    Encoder::new(Vec::new()).encode(Ok::<u32, u32>(42)).unwrap();
}

#[test]
fn decoder_definite_array_iter_size_hint() {
    let bytes = minicbor::to_vec(&[1u32, 2, 3]).unwrap();
    let mut d = Decoder::new(&bytes);
    let iter = d.array_iter::<u32>().unwrap();
    assert_eq!(iter.size_hint(), (3, Some(3)));
}

#[test]
fn decoder_skip_definite_array() {
    let mut buf = Vec::new();
    let mut enc = Encoder::new(&mut buf);
    enc.array(2).unwrap();
    enc.u32(1).unwrap();
    enc.u32(2).unwrap();
    let mut d = Decoder::new(&buf);
    d.skip().unwrap();
    assert_eq!(d.position(), buf.len());
}

#[test]
fn decoder_skip_empty_array() {
    let mut d = Decoder::new(&[0x80]);
    d.skip().unwrap();
    assert_eq!(d.position(), 1);
}

#[test]
fn decoder_skip_definite_map() {
    let mut buf = Vec::new();
    let mut enc = Encoder::new(&mut buf);
    enc.map(1).unwrap();
    enc.u32(1).unwrap();
    enc.u32(2).unwrap();
    let mut d = Decoder::new(&buf);
    d.skip().unwrap();
    assert_eq!(d.position(), buf.len());
}

#[test]
fn decoder_skip_empty_map() {
    let mut d = Decoder::new(&[0xa0]);
    d.skip().unwrap();
    assert_eq!(d.position(), 1);
}

#[test]
fn decoder_skip_tagged() {
    let mut d = Decoder::new(&[0xc1, 0x01]);
    d.skip().unwrap();
    assert_eq!(d.position(), 2);
}

#[test]
fn decoder_skip_simple_value() {
    let mut d = Decoder::new(&[0xf4]);
    d.skip().unwrap();
    assert_eq!(d.position(), 1);
}

#[test]
fn decoder_skip_null_value() {
    let mut d = Decoder::new(&[0xf6]);
    d.skip().unwrap();
    assert_eq!(d.position(), 1);
}

#[test]
fn decoder_skip_indef_array() {
    let mut d = Decoder::new(&[0x9f, 0x01, 0x02, 0xff]);
    d.skip().unwrap();
    assert_eq!(d.position(), 4);
}

#[test]
fn decoder_skip_indef_map() {
    let mut d = Decoder::new(&[0xbf, 0x01, 0x02, 0xff]);
    d.skip().unwrap();
    assert_eq!(d.position(), 4);
}

#[test]
fn decoder_skip_indef_bytes() {
    let mut d = Decoder::new(&[0x5f, 0x41, 0xaa, 0xff]);
    d.skip().unwrap();
    assert_eq!(d.position(), 4);
}

#[test]
fn decoder_skip_indef_text() {
    let mut d = Decoder::new(&[0x7f, 0x61, b'a', 0xff]);
    d.skip().unwrap();
    assert_eq!(d.position(), 4);
}

#[test]
fn decoder_skip_nested_array() {
    let mut buf = Vec::new();
    let mut enc = Encoder::new(&mut buf);
    enc.array(1).unwrap();
    enc.array(1).unwrap();
    enc.u32(42).unwrap();
    let mut d = Decoder::new(&buf);
    d.skip().unwrap();
    assert_eq!(d.position(), buf.len());
}

#[test]
fn decoder_skip_unknown_type_2() {
    let mut d = Decoder::new(&[0x1c]);
    let err = d.skip().unwrap_err();
    assert!(err.is_type_mismatch());
}

#[test]
fn decoder_type_of_0x38_peek_error() {
    let d = Decoder::new(&[0x38]);
    let err = d.datatype().unwrap_err();
    assert!(err.to_string().contains("end of input"));
}

#[test]
fn decoder_type_of_0x38_i8() {
    let d = Decoder::new(&[0x38, 0x7f]);
    assert_eq!(d.datatype().unwrap(), Type::I8);
}

#[test]
fn decoder_type_of_0x38_i16() {
    let d = Decoder::new(&[0x38, 0x80]);
    assert_eq!(d.datatype().unwrap(), Type::I16);
}

#[test]
fn decoder_type_of_0x39_i16() {
    let d = Decoder::new(&[0x39, 0x7f]);
    assert_eq!(d.datatype().unwrap(), Type::I16);
}

#[test]
fn decoder_type_of_0x39_i32() {
    let d = Decoder::new(&[0x39, 0x80]);
    assert_eq!(d.datatype().unwrap(), Type::I32);
}

#[test]
fn decoder_type_of_0x3a_i32() {
    let d = Decoder::new(&[0x3a, 0x7f]);
    assert_eq!(d.datatype().unwrap(), Type::I32);
}

#[test]
fn decoder_type_of_0x3a_i64() {
    let d = Decoder::new(&[0x3a, 0x80]);
    assert_eq!(d.datatype().unwrap(), Type::I64);
}

#[test]
fn decoder_type_of_0x3b_i64() {
    let d = Decoder::new(&[0x3b, 0x7f]);
    assert_eq!(d.datatype().unwrap(), Type::I64);
}

#[test]
fn decoder_type_of_0x3b_int() {
    let d = Decoder::new(&[0x3b, 0x80]);
    assert_eq!(d.datatype().unwrap(), Type::Int);
}

#[test]
fn decoder_type_of_unknown() {
    let d = Decoder::new(&[0x1c]);
    assert_eq!(d.datatype().unwrap(), Type::Unknown(0x1c));
}

#[test]
fn decoder_type_of_various() {
    assert_eq!(Decoder::new(&[0x40]).datatype().unwrap(), Type::Bytes);
    assert_eq!(Decoder::new(&[0x5f]).datatype().unwrap(), Type::BytesIndef);
    assert_eq!(Decoder::new(&[0x60]).datatype().unwrap(), Type::String);
    assert_eq!(Decoder::new(&[0x7f]).datatype().unwrap(), Type::StringIndef);
    assert_eq!(Decoder::new(&[0x9f]).datatype().unwrap(), Type::ArrayIndef);
    assert_eq!(Decoder::new(&[0xbf]).datatype().unwrap(), Type::MapIndef);
    assert_eq!(Decoder::new(&[0xc0]).datatype().unwrap(), Type::Tag);
    assert_eq!(Decoder::new(&[0xf4]).datatype().unwrap(), Type::Bool);
    assert_eq!(Decoder::new(&[0xf5]).datatype().unwrap(), Type::Bool);
    assert_eq!(Decoder::new(&[0xf7]).datatype().unwrap(), Type::Undefined);
    assert_eq!(Decoder::new(&[0xf9]).datatype().unwrap(), Type::F16);
    assert_eq!(Decoder::new(&[0xfa]).datatype().unwrap(), Type::F32);
    assert_eq!(Decoder::new(&[0xfb]).datatype().unwrap(), Type::F64);
    assert_eq!(Decoder::new(&[0xff]).datatype().unwrap(), Type::Break);
    assert_eq!(Decoder::new(&[0xe0]).datatype().unwrap(), Type::Simple);
    assert_eq!(Decoder::new(&[0xf8]).datatype().unwrap(), Type::Simple);
}

#[test]
fn decoder_char_surrogate() {
    let mut buf = Vec::new();
    let mut enc = Encoder::new(&mut buf);
    enc.u32(0xD800).unwrap();
    let mut d = Decoder::new(&buf);
    let err = d.char().unwrap_err();
    assert!(err.to_string().contains("invalid char"));
}

#[test]
fn decoder_char_above_max() {
    let mut buf = Vec::new();
    let mut enc = Encoder::new(&mut buf);
    enc.u32(0x110000).unwrap();
    let mut d = Decoder::new(&buf);
    let err = d.char().unwrap_err();
    assert!(err.to_string().contains("invalid char"));
}

#[test]
fn decoder_char_valid() {
    let mut buf = Vec::new();
    let mut enc = Encoder::new(&mut buf);
    enc.u32(0x41).unwrap();
    let mut d = Decoder::new(&buf);
    assert_eq!(d.char().unwrap(), 'A');
}

#[test]
fn decoder_char_max_valid() {
    let mut buf = Vec::new();
    let mut enc = Encoder::new(&mut buf);
    enc.u32(0x10FFFF).unwrap();
    let mut d = Decoder::new(&buf);
    assert_eq!(d.char().unwrap(), '\u{10FFFF}');
}

#[test]
fn decoder_char_below_surrogate() {
    let mut buf = Vec::new();
    let mut enc = Encoder::new(&mut buf);
    enc.u32(0xD7FF).unwrap();
    let mut d = Decoder::new(&buf);
    assert_eq!(d.char().unwrap(), '\u{D7FF}');
}

#[test]
fn decoder_char_above_surrogate() {
    let mut buf = Vec::new();
    let mut enc = Encoder::new(&mut buf);
    enc.u32(0xE000).unwrap();
    let mut d = Decoder::new(&buf);
    assert_eq!(d.char().unwrap(), '\u{E000}');
}

#[test]
fn decoder_bytes_iter_definite() {
    let mut d = Decoder::new(&[0x42, 0xaa, 0xbb]);
    let mut iter = d.bytes_iter().unwrap();
    assert_eq!(iter.next().unwrap().unwrap(), &[0xaa, 0xbb]);
    assert!(iter.next().is_none());
}

#[test]
fn decoder_bytes_iter_indefinite() {
    let mut d = Decoder::new(&[0x5f, 0x41, 0xaa, 0xff]);
    let mut iter = d.bytes_iter().unwrap();
    assert_eq!(iter.next().unwrap().unwrap(), &[0xaa]);
    assert!(iter.next().is_none());
}

#[test]
fn decoder_bytes_iter_indef_current_error() {
    let mut d = Decoder::new(&[0x5f]);
    let mut iter = d.bytes_iter().unwrap();
    let err = iter.next().unwrap().unwrap_err();
    assert!(err.to_string().contains("end of input"));
}

#[test]
fn decoder_bytes_iter_size_hint() {
    let mut d = Decoder::new(&[0x42, 0xaa, 0xbb]);
    let iter = d.bytes_iter().unwrap();
    assert_eq!(iter.size_hint(), (1, Some(1)));

    let mut d = Decoder::new(&[0x5f, 0xff]);
    let mut iter = d.bytes_iter().unwrap();
    assert_eq!(iter.size_hint(), (0, None));
    iter.next();
    assert_eq!(iter.size_hint(), (0, Some(0)));
}

#[test]
fn decoder_read_slice_overflow() {
    let mut d = Decoder::new(&[0x01, 0x02]);
    d.set_position(usize::MAX);
    let err = d.str().unwrap_err();
    assert!(err.to_string().contains("end of input"));
}

#[test]
fn decoder_try_as_u8_to_i8_overflow() {
    let mut d = Decoder::new(&[0x18, 0x80]);
    let err = d.i8().unwrap_err();
    assert!(err.to_string().contains("overflow"));
}

#[test]
fn decoder_try_as_u16_to_u8_overflow() {
    let mut d = Decoder::new(&[0x19, 0x01, 0x00]);
    let err = d.u8().unwrap_err();
    assert!(err.to_string().contains("overflow"));
}

#[test]
fn decoder_try_as_u16_to_i8_overflow() {
    let mut d = Decoder::new(&[0x19, 0x01, 0x00]);
    let err = d.i8().unwrap_err();
    assert!(err.to_string().contains("overflow"));
}

#[test]
fn decoder_try_as_u16_to_i16_overflow() {
    let mut d = Decoder::new(&[0x19, 0x80, 0x00]);
    let err = d.i16().unwrap_err();
    assert!(err.to_string().contains("overflow"));
}

#[test]
fn decoder_try_as_u32_to_u8_overflow() {
    let mut d = Decoder::new(&[0x1a, 0x00, 0x01, 0x00, 0x00]);
    let err = d.u8().unwrap_err();
    assert!(err.to_string().contains("overflow"));
}

#[test]
fn decoder_try_as_u32_to_u16_overflow() {
    let mut d = Decoder::new(&[0x1a, 0x00, 0x01, 0x00, 0x00]);
    let err = d.u16().unwrap_err();
    assert!(err.to_string().contains("overflow"));
}

#[test]
fn decoder_try_as_u32_to_i8_overflow() {
    let mut d = Decoder::new(&[0x1a, 0x00, 0x01, 0x00, 0x00]);
    let err = d.i8().unwrap_err();
    assert!(err.to_string().contains("overflow"));
}

#[test]
fn decoder_try_as_u32_to_i16_overflow() {
    let mut d = Decoder::new(&[0x1a, 0x00, 0x01, 0x00, 0x00]);
    let err = d.i16().unwrap_err();
    assert!(err.to_string().contains("overflow"));
}

#[test]
fn decoder_try_as_u32_to_i32_overflow() {
    let mut d = Decoder::new(&[0x1a, 0x80, 0x00, 0x00, 0x00]);
    let err = d.i32().unwrap_err();
    assert!(err.to_string().contains("overflow"));
}

#[test]
fn decoder_try_as_u64_to_u8_overflow() {
    let mut d = Decoder::new(&[0x1b, 0x00, 0x00, 0x00, 0x01, 0x00, 0x00, 0x00, 0x00]);
    let err = d.u8().unwrap_err();
    assert!(err.to_string().contains("overflow"));
}

#[test]
fn decoder_try_as_u64_to_u16_overflow() {
    let mut d = Decoder::new(&[0x1b, 0x00, 0x00, 0x00, 0x01, 0x00, 0x00, 0x00, 0x00]);
    let err = d.u16().unwrap_err();
    assert!(err.to_string().contains("overflow"));
}

#[test]
fn decoder_try_as_u64_to_u32_overflow() {
    let mut d = Decoder::new(&[0x1b, 0x00, 0x00, 0x00, 0x01, 0x00, 0x00, 0x00, 0x00]);
    let err = d.u32().unwrap_err();
    assert!(err.to_string().contains("overflow"));
}

#[test]
fn decoder_try_as_u64_to_i8_overflow() {
    let mut d = Decoder::new(&[0x1b, 0x00, 0x00, 0x00, 0x01, 0x00, 0x00, 0x00, 0x00]);
    let err = d.i8().unwrap_err();
    assert!(err.to_string().contains("overflow"));
}

#[test]
fn decoder_try_as_u64_to_i16_overflow() {
    let mut d = Decoder::new(&[0x1b, 0x00, 0x00, 0x00, 0x01, 0x00, 0x00, 0x00, 0x00]);
    let err = d.i16().unwrap_err();
    assert!(err.to_string().contains("overflow"));
}

#[test]
fn decoder_try_as_u64_to_i32_overflow() {
    let mut d = Decoder::new(&[0x1b, 0x00, 0x00, 0x00, 0x01, 0x00, 0x00, 0x00, 0x00]);
    let err = d.i32().unwrap_err();
    assert!(err.to_string().contains("overflow"));
}

#[test]
fn decoder_try_as_u64_to_i64_overflow() {
    let mut d = Decoder::new(&[0x1b, 0x80, 0x00, 0x00, 0x00, 0x00, 0x00, 0x00, 0x00]);
    let err = d.i64().unwrap_err();
    assert!(err.to_string().contains("overflow"));
}

#[test]
fn decoder_try_as_neg_u16_to_i8_overflow() {
    let mut d = Decoder::new(&[0x39, 0x01, 0x00]);
    let err = d.i8().unwrap_err();
    assert!(err.to_string().contains("overflow"));
}

#[test]
fn decoder_try_as_neg_u32_to_i8_overflow() {
    let mut d = Decoder::new(&[0x3a, 0x00, 0x01, 0x00, 0x00]);
    let err = d.i8().unwrap_err();
    assert!(err.to_string().contains("overflow"));
}

#[test]
fn decoder_try_as_neg_u64_to_i8_overflow() {
    let mut d = Decoder::new(&[0x3b, 0x00, 0x00, 0x00, 0x00, 0x00, 0x00, 0x01, 0x00]);
    let err = d.i8().unwrap_err();
    assert!(err.to_string().contains("overflow"));
}

#[test]
fn decoder_try_as_neg_u16_to_i16_overflow() {
    let mut d = Decoder::new(&[0x39, 0x80, 0x00]);
    let err = d.i16().unwrap_err();
    assert!(err.to_string().contains("overflow"));
}

#[test]
fn decoder_try_as_neg_u32_to_i16_overflow() {
    let mut d = Decoder::new(&[0x3a, 0x00, 0x01, 0x00, 0x00]);
    let err = d.i16().unwrap_err();
    assert!(err.to_string().contains("overflow"));
}

#[test]
fn decoder_try_as_neg_u64_to_i16_overflow() {
    let mut d = Decoder::new(&[0x3b, 0x00, 0x00, 0x00, 0x00, 0x00, 0x00, 0x80, 0x00]);
    let err = d.i16().unwrap_err();
    assert!(err.to_string().contains("overflow"));
}

#[test]
fn decoder_try_as_neg_u32_to_i32_overflow() {
    let mut d = Decoder::new(&[0x3a, 0x80, 0x00, 0x00, 0x00]);
    let err = d.i32().unwrap_err();
    assert!(err.to_string().contains("overflow"));
}

#[test]
fn decoder_try_as_neg_u64_to_i32_overflow() {
    let mut d = Decoder::new(&[0x3b, 0x00, 0x00, 0x00, 0x00, 0x80, 0x00, 0x00, 0x00]);
    let err = d.i32().unwrap_err();
    assert!(err.to_string().contains("overflow"));
}

#[test]
fn decoder_try_as_neg_u64_to_i64_overflow() {
    let mut d = Decoder::new(&[0x3b, 0x80, 0x00, 0x00, 0x00, 0x00, 0x00, 0x00, 0x00]);
    let err = d.i64().unwrap_err();
    assert!(err.to_string().contains("overflow"));
}

#[test]
fn decoder_u8_0x18_truncated() {
    let mut d = Decoder::new(&[0x18]);
    let err = d.u8().unwrap_err();
    assert!(err.to_string().contains("end of input"));
}

#[test]
fn decoder_u8_0x1a_truncated() {
    let mut d = Decoder::new(&[0x1a, 0x00]);
    let err = d.u8().unwrap_err();
    assert!(err.to_string().contains("end of input"));
}

#[test]
fn decoder_u8_0x1b_truncated() {
    let mut d = Decoder::new(&[0x1b, 0x00]);
    let err = d.u8().unwrap_err();
    assert!(err.to_string().contains("end of input"));
}

#[test]
fn decoder_u16_0x1a_truncated() {
    let mut d = Decoder::new(&[0x1a, 0x00]);
    let err = d.u16().unwrap_err();
    assert!(err.to_string().contains("end of input"));
}

#[test]
fn decoder_u16_0x1b_truncated() {
    let mut d = Decoder::new(&[0x1b, 0x00]);
    let err = d.u16().unwrap_err();
    assert!(err.to_string().contains("end of input"));
}

#[test]
fn decoder_u32_0x1b_truncated() {
    let mut d = Decoder::new(&[0x1b, 0x00]);
    let err = d.u32().unwrap_err();
    assert!(err.to_string().contains("end of input"));
}

#[test]
fn decoder_i8_0x18_truncated() {
    let mut d = Decoder::new(&[0x18]);
    let err = d.i8().unwrap_err();
    assert!(err.to_string().contains("end of input"));
}

#[test]
fn decoder_i8_0x19_truncated() {
    let mut d = Decoder::new(&[0x19]);
    let err = d.i8().unwrap_err();
    assert!(err.to_string().contains("end of input"));
}

#[test]
fn decoder_i8_0x1a_truncated() {
    let mut d = Decoder::new(&[0x1a]);
    let err = d.i8().unwrap_err();
    assert!(err.to_string().contains("end of input"));
}

#[test]
fn decoder_i8_0x1b_truncated() {
    let mut d = Decoder::new(&[0x1b]);
    let err = d.i8().unwrap_err();
    assert!(err.to_string().contains("end of input"));
}

#[test]
fn decoder_i8_0x38_truncated() {
    let mut d = Decoder::new(&[0x38]);
    let err = d.i8().unwrap_err();
    assert!(err.to_string().contains("end of input"));
}

#[test]
fn decoder_i8_0x39_truncated() {
    let mut d = Decoder::new(&[0x39]);
    let err = d.i8().unwrap_err();
    assert!(err.to_string().contains("end of input"));
}

#[test]
fn decoder_i8_0x3a_truncated() {
    let mut d = Decoder::new(&[0x3a]);
    let err = d.i8().unwrap_err();
    assert!(err.to_string().contains("end of input"));
}

#[test]
fn decoder_i8_0x3b_truncated() {
    let mut d = Decoder::new(&[0x3b]);
    let err = d.i8().unwrap_err();
    assert!(err.to_string().contains("end of input"));
}

#[test]
fn decoder_i16_0x19_truncated() {
    let mut d = Decoder::new(&[0x19]);
    assert!(d.i16().is_err());
}

#[test]
fn decoder_i16_0x1a_truncated() {
    let mut d = Decoder::new(&[0x1a]);
    assert!(d.i16().is_err());
}

#[test]
fn decoder_i16_0x1b_truncated() {
    let mut d = Decoder::new(&[0x1b]);
    assert!(d.i16().is_err());
}

#[test]
fn decoder_i16_0x39_truncated() {
    let mut d = Decoder::new(&[0x39]);
    assert!(d.i16().is_err());
}

#[test]
fn decoder_i16_0x3a_truncated() {
    let mut d = Decoder::new(&[0x3a]);
    assert!(d.i16().is_err());
}

#[test]
fn decoder_i16_0x3b_truncated() {
    let mut d = Decoder::new(&[0x3b]);
    assert!(d.i16().is_err());
}

#[test]
fn decoder_i32_0x1a_truncated() {
    let mut d = Decoder::new(&[0x1a]);
    assert!(d.i32().is_err());
}

#[test]
fn decoder_i32_0x1b_truncated() {
    let mut d = Decoder::new(&[0x1b]);
    assert!(d.i32().is_err());
}

#[test]
fn decoder_i32_0x3a_truncated() {
    let mut d = Decoder::new(&[0x3a]);
    assert!(d.i32().is_err());
}

#[test]
fn decoder_i32_0x3b_truncated() {
    let mut d = Decoder::new(&[0x3b]);
    assert!(d.i32().is_err());
}

#[test]
fn decoder_i64_0x1b_truncated() {
    let mut d = Decoder::new(&[0x1b]);
    assert!(d.i64().is_err());
}

#[test]
fn decoder_i64_0x3b_truncated() {
    let mut d = Decoder::new(&[0x3b]);
    assert!(d.i64().is_err());
}

#[test]
fn encode_str_error() {
    let mut buf = [0u8; 0];
    let mut enc = Encoder::new(&mut buf[..]);
    let err = enc.encode("hello");
    assert!(err.is_err());
}

#[test]
fn encode_option_some_error() {
    let mut buf = [0u8; 0];
    let mut enc = Encoder::new(&mut buf[..]);
    let err = enc.encode(Some(42u32));
    assert!(err.is_err());
}

#[test]
fn encode_option_none_error() {
    let mut buf = [0u8; 0];
    let mut enc = Encoder::new(&mut buf[..]);
    let err = enc.encode(None::<u32>);
    assert!(err.is_err());
}

#[test]
fn encode_result_ok_error() {
    let mut buf = [0u8; 0];
    let mut enc = Encoder::new(&mut buf[..]);
    let val: Result<u32, u32> = Ok(42);
    let err = enc.encode(val);
    assert!(err.is_err());
}

#[test]
fn encode_result_ok_discriminant_error() {
    let mut buf = [0u8; 1];
    let mut enc = Encoder::new(&mut buf[..]);
    let val: Result<u32, u32> = Ok(0x100);
    assert!(enc.encode(val).is_err());
}

#[test]
fn encode_result_ok_value_error() {
    let mut buf = [0u8; 2];
    let mut enc = Encoder::new(&mut buf[..]);
    let val: Result<u32, u32> = Ok(0x100);
    assert!(enc.encode(val).is_err());
}

#[test]
fn encode_result_err_discriminant_error() {
    let mut buf = [0u8; 1];
    let mut enc = Encoder::new(&mut buf[..]);
    let val: Result<u32, u32> = Err(42);
    assert!(enc.encode(val).is_err());
}

#[test]
fn encode_result_err_value_error() {
    let mut buf = [0u8; 2];
    let mut enc = Encoder::new(&mut buf[..]);
    let val: Result<u32, u32> = Err(0x100);
    assert!(enc.encode(val).is_err());
}

#[test]
fn encode_phantom_data_error() {
    let mut buf = [0u8; 0];
    let mut enc = Encoder::new(&mut buf[..]);
    let err = enc.encode(core::marker::PhantomData::<u32>);
    assert!(err.is_err());
}

#[test]
fn encode_unit_error() {
    let mut buf = [0u8; 0];
    let mut enc = Encoder::new(&mut buf[..]);
    let err = enc.encode(());
    assert!(err.is_err());
}

#[test]
fn encode_basic_u8_error() {
    let mut buf = [0u8; 0];
    let mut enc = Encoder::new(&mut buf[..]);
    assert!(enc.encode(42u8).is_err());
}

#[test]
fn encode_basic_i8_error() {
    let mut buf = [0u8; 0];
    let mut enc = Encoder::new(&mut buf[..]);
    assert!(enc.encode(42i8).is_err());
}

#[test]
fn encode_basic_u16_error() {
    let mut buf = [0u8; 0];
    let mut enc = Encoder::new(&mut buf[..]);
    assert!(enc.encode(42u16).is_err());
}

#[test]
fn encode_basic_i16_error() {
    let mut buf = [0u8; 0];
    let mut enc = Encoder::new(&mut buf[..]);
    assert!(enc.encode(42i16).is_err());
}

#[test]
fn encode_basic_u32_error() {
    let mut buf = [0u8; 0];
    let mut enc = Encoder::new(&mut buf[..]);
    assert!(enc.encode(42u32).is_err());
}

#[test]
fn encode_basic_i32_error() {
    let mut buf = [0u8; 0];
    let mut enc = Encoder::new(&mut buf[..]);
    assert!(enc.encode(42i32).is_err());
}

#[test]
fn encode_basic_u64_error() {
    let mut buf = [0u8; 0];
    let mut enc = Encoder::new(&mut buf[..]);
    assert!(enc.encode(42u64).is_err());
}

#[test]
fn encode_basic_i64_error() {
    let mut buf = [0u8; 0];
    let mut enc = Encoder::new(&mut buf[..]);
    assert!(enc.encode(42i64).is_err());
}

#[test]
fn encode_basic_bool_error() {
    let mut buf = [0u8; 0];
    let mut enc = Encoder::new(&mut buf[..]);
    assert!(enc.encode(true).is_err());
}

#[test]
fn encode_basic_char_error() {
    let mut buf = [0u8; 0];
    let mut enc = Encoder::new(&mut buf[..]);
    assert!(enc.encode('A').is_err());
}

#[test]
fn encode_int_error() {
    let mut buf = [0u8; 0];
    let mut enc = Encoder::new(&mut buf[..]);
    assert!(enc.encode(Int::from(42i32)).is_err());
}

#[test]
fn encode_tag_error() {
    let mut buf = [0u8; 0];
    let mut enc = Encoder::new(&mut buf[..]);
    assert!(enc.encode(Tag::new(1)).is_err());
}

#[test]
fn encode_iana_tag_error() {
    let mut buf = [0u8; 0];
    let mut enc = Encoder::new(&mut buf[..]);
    assert!(enc.encode(IanaTag::DateTime).is_err());
}

#[test]
fn encode_tagged_error() {
    let mut buf = [0u8; 0];
    let mut enc = Encoder::new(&mut buf[..]);
    let tagged = Tagged::<1, u32>::new(42);
    assert!(enc.encode(tagged).is_err());
}

#[test]
fn encode_tagged_value_error() {
    let mut buf = [0u8; 1];
    let mut enc = Encoder::new(&mut buf[..]);
    let tagged = Tagged::<1, u32>::new(0x100);
    assert!(enc.encode(tagged).is_err());
}

#[test]
fn encode_fixed_array_error() {
    let mut buf = [0u8; 0];
    let mut enc = Encoder::new(&mut buf[..]);
    assert!(enc.encode([1u32, 2, 3]).is_err());
}

#[test]
fn encode_fixed_array_element_error() {
    let mut buf = [0u8; 1];
    let mut enc = Encoder::new(&mut buf[..]);
    assert!(enc.encode([1u32, 2, 3]).is_err());
}

#[test]
fn encode_slice_error() {
    let mut buf = [0u8; 0];
    let mut enc = Encoder::new(&mut buf[..]);
    let slice: &[u32] = &[1, 2, 3];
    assert!(enc.encode(slice).is_err());
}

#[test]
fn encode_slice_element_error() {
    let mut buf = [0u8; 1];
    let mut enc = Encoder::new(&mut buf[..]);
    let slice: &[u32] = &[1, 2, 3];
    assert!(enc.encode(slice).is_err());
}

#[test]
fn encode_tuple_error() {
    let mut buf = [0u8; 0];
    let mut enc = Encoder::new(&mut buf[..]);
    assert!(enc.encode((1u32, 2u32)).is_err());
}

#[test]
fn encode_tuple_element_error() {
    let mut buf = [0u8; 1];
    let mut enc = Encoder::new(&mut buf[..]);
    assert!(enc.encode((1u32, 2u32)).is_err());
}

#[test]
fn encode_ref_error() {
    let mut buf = [0u8; 0];
    let mut enc = Encoder::new(&mut buf[..]);
    let val = 42u32;
    assert!(enc.encode(&val).is_err());
}

#[test]
fn encode_mut_ref_error() {
    let mut buf = [0u8; 0];
    let mut enc = Encoder::new(&mut buf[..]);
    let mut val = 42u32;
    assert!(enc.encode(&mut val).is_err());
}

#[test]
fn encode_usize_error() {
    let mut buf = [0u8; 0];
    let mut enc = Encoder::new(&mut buf[..]);
    assert!(enc.encode(42usize).is_err());
}

#[test]
fn encode_isize_error() {
    let mut buf = [0u8; 0];
    let mut enc = Encoder::new(&mut buf[..]);
    assert!(enc.encode(42isize).is_err());
}

#[test]
fn cbor_len_str() {
    assert_eq!(CborLen::<()>::cbor_len("hello", &mut ()), 1 + 5);
}

#[test]
fn cbor_len_option() {
    assert_eq!(CborLen::<()>::cbor_len(&Some(1u8), &mut ()), 1);
    assert_eq!(CborLen::<()>::cbor_len(&None::<u8>, &mut ()), 1);
}

#[test]
fn cbor_len_result() {
    let ok: Result<u8, u8> = Ok(1);
    let err: Result<u8, u8> = Err(1);
    assert_eq!(CborLen::<()>::cbor_len(&ok, &mut ()), 1 + 1 + 1);
    assert_eq!(CborLen::<()>::cbor_len(&err, &mut ()), 1 + 1 + 1);
}

#[test]
fn cbor_len_unsigned_ranges() {
    assert_eq!(CborLen::<()>::cbor_len(&0u8, &mut ()), 1);
    assert_eq!(CborLen::<()>::cbor_len(&0x18u8, &mut ()), 2);

    assert_eq!(CborLen::<()>::cbor_len(&0u16, &mut ()), 1);
    assert_eq!(CborLen::<()>::cbor_len(&0x18u16, &mut ()), 2);
    assert_eq!(CborLen::<()>::cbor_len(&0x100u16, &mut ()), 3);

    assert_eq!(CborLen::<()>::cbor_len(&0u32, &mut ()), 1);
    assert_eq!(CborLen::<()>::cbor_len(&0x18u32, &mut ()), 2);
    assert_eq!(CborLen::<()>::cbor_len(&0x100u32, &mut ()), 3);
    assert_eq!(CborLen::<()>::cbor_len(&0x1_0000u32, &mut ()), 5);

    assert_eq!(CborLen::<()>::cbor_len(&0u64, &mut ()), 1);
    assert_eq!(CborLen::<()>::cbor_len(&0x18u64, &mut ()), 2);
    assert_eq!(CborLen::<()>::cbor_len(&0x100u64, &mut ()), 3);
    assert_eq!(CborLen::<()>::cbor_len(&0x1_0000u64, &mut ()), 5);
    assert_eq!(CborLen::<()>::cbor_len(&0x1_0000_0000u64, &mut ()), 9);
}

#[test]
fn cbor_len_phantom_and_unit() {
    assert_eq!(CborLen::<()>::cbor_len(&core::marker::PhantomData::<u32>, &mut ()), 1);
    assert_eq!(CborLen::<()>::cbor_len(&(), &mut ()), 1);
}

#[test]
fn cbor_len_tag_types() {
    assert_eq!(CborLen::<()>::cbor_len(&Tag::new(1), &mut ()), 1);
    assert_eq!(CborLen::<()>::cbor_len(&IanaTag::DateTime, &mut ()), 1);
    let tagged = Tagged::<1, u32>::new(42);
    assert_eq!(CborLen::<()>::cbor_len(&tagged, &mut ()), 1 + 2);
}

#[test]
fn cbor_len_arrays() {
    assert_eq!(CborLen::<()>::cbor_len(&[1u32, 2, 3], &mut ()), 1 + 3);
    let slice: &[u32] = &[1, 2, 3];
    assert_eq!(CborLen::<()>::cbor_len(slice, &mut ()), 1 + 3);
}

#[test]
fn cbor_len_int() {
    assert_eq!(CborLen::<()>::cbor_len(&Int::from(1i32), &mut ()), 1);
}

#[test]
fn cbor_len_tuple() {
    assert_eq!(CborLen::<()>::cbor_len(&(1u32, 2u32), &mut ()), 1 + 1 + 1);
}

#[test]
fn decoder_type_of_0x39_peek_error() {
    let d = Decoder::new(&[0x39]);
    let err = d.datatype().unwrap_err();
    assert!(err.to_string().contains("end of input"));
}

#[test]
fn decoder_type_of_0x3a_peek_error() {
    let d = Decoder::new(&[0x3a]);
    let err = d.datatype().unwrap_err();
    assert!(err.to_string().contains("end of input"));
}

#[test]
fn decoder_type_of_0x3b_peek_error() {
    let d = Decoder::new(&[0x3b]);
    let err = d.datatype().unwrap_err();
    assert!(err.to_string().contains("end of input"));
}

#[test]
fn decoder_map_iter_value_decode_error() {
    let mut buf = Vec::new();
    let mut enc = Encoder::new(&mut buf);
    enc.map(1).unwrap();
    enc.u32(1).unwrap();
    enc.str("not_u32").unwrap();
    let mut d = Decoder::new(&buf);
    let mut iter = d.map_iter::<u32, u32>().unwrap();
    let err = iter.next().unwrap().unwrap_err();
    assert!(err.is_type_mismatch());
}

#[test]
fn decoder_map_iter_with_value_decode_error() {
    let mut buf = Vec::new();
    let mut enc = Encoder::new(&mut buf);
    enc.map(1).unwrap();
    enc.u32(1).unwrap();
    enc.str("not_u32").unwrap();
    let mut d = Decoder::new(&buf);
    let mut ctx = ();
    let mut iter = d.map_iter_with::<(), u32, u32>(&mut ctx).unwrap();
    let err = iter.next().unwrap().unwrap_err();
    assert!(err.is_type_mismatch());
}

#[test]
fn decode_error_is_end_of_input_false() {
    let mut d = Decoder::new(&[0x01]);
    let err = d.null().unwrap_err();
    assert!(!err.is_end_of_input());
}

#[test]
fn decode_error_is_type_mismatch_false() {
    let mut d = Decoder::new(&[]);
    let err = d.u8().unwrap_err();
    assert!(!err.is_type_mismatch());
}

#[test]
fn decode_error_is_tag_mismatch_false() {
    let mut d = Decoder::new(&[]);
    let err = d.u8().unwrap_err();
    assert!(!err.is_tag_mismatch());
}

#[test]
fn decode_error_is_message_false() {
    let mut d = Decoder::new(&[]);
    let err = d.u8().unwrap_err();
    assert!(!err.is_message());
}

#[test]
fn decode_error_is_unknown_variant_false() {
    let mut d = Decoder::new(&[]);
    let err = d.u8().unwrap_err();
    assert!(!err.is_unknown_variant());
}

#[test]
fn decode_error_is_missing_value_false() {
    let mut d = Decoder::new(&[]);
    let err = d.u8().unwrap_err();
    assert!(!err.is_missing_value());
}

#[test]
fn encode_tuple_last_element_error() {
    let mut buf = [0u8; 2];
    let mut enc = Encoder::new(&mut buf[..]);
    assert!(enc.encode((1u32, 0x100u32)).is_err());
}

#[test]
fn encode_tuple3_array_error() {
    let mut buf = [0u8; 0];
    assert!(Encoder::new(&mut buf[..]).encode((1u32, 2u32, 3u32)).is_err());
}

#[test]
fn encode_tuple3_last_element_error() {
    let mut buf = [0u8; 3];
    let mut enc = Encoder::new(&mut buf[..]);
    assert!(enc.encode((1u32, 2u32, 0x100u32)).is_err());
}

#[test]
fn info_size_head_inline() {
    assert_eq!(Size::head(0x00).unwrap(), 1);
    assert_eq!(Size::head(0x17).unwrap(), 1);
}

#[test]
fn info_size_head_extended() {
    assert_eq!(Size::head(0x18).unwrap(), 2);
    assert_eq!(Size::head(0x19).unwrap(), 3);
    assert_eq!(Size::head(0x1a).unwrap(), 5);
    assert_eq!(Size::head(0x1b).unwrap(), 9);
}

#[test]
fn info_size_head_indefinite() {
    assert_eq!(Size::head(0x5f).unwrap(), 1);
    assert_eq!(Size::head(0x7f).unwrap(), 1);
    assert_eq!(Size::head(0x9f).unwrap(), 1);
    assert_eq!(Size::head(0xbf).unwrap(), 1);
    assert_eq!(Size::head(0xff).unwrap(), 1);
}

#[test]
fn info_size_head_invalid() {
    assert!(Size::head(0x1c).is_err());
    assert!(Size::head(0x1d).is_err());
    assert!(Size::head(0x1e).is_err());
    assert!(Size::head(0xdf).is_err());
}

#[test]
fn info_size_tail_unsigned() {
    assert_eq!(Size::tail(&[0x00]).unwrap(), Size::Head);
    assert_eq!(Size::tail(&[0x18, 0x19]).unwrap(), Size::Head);
    assert_eq!(Size::tail(&[0x19, 0x01, 0x00]).unwrap(), Size::Head);
}

#[test]
fn info_size_tail_signed() {
    assert_eq!(Size::tail(&[0x20]).unwrap(), Size::Head);
    assert_eq!(Size::tail(&[0x38, 0x18]).unwrap(), Size::Head);
}

#[test]
fn info_size_tail_bytes() {
    assert_eq!(Size::tail(&[0x45]).unwrap(), Size::Bytes(5));
    assert_eq!(Size::tail(&[0x58, 0x18]).unwrap(), Size::Bytes(24));
    assert_eq!(Size::tail(&[0x5f]).unwrap(), Size::Indef);
}

#[test]
fn info_size_tail_text() {
    assert_eq!(Size::tail(&[0x63]).unwrap(), Size::Bytes(3));
    assert_eq!(Size::tail(&[0x7f]).unwrap(), Size::Indef);
}

#[test]
fn info_size_tail_array() {
    assert_eq!(Size::tail(&[0x83]).unwrap(), Size::Items(3));
    assert_eq!(Size::tail(&[0x98, 0x19]).unwrap(), Size::Items(25));
    assert_eq!(Size::tail(&[0x9f]).unwrap(), Size::Indef);
}

#[test]
fn info_size_tail_map() {
    assert_eq!(Size::tail(&[0xa2]).unwrap(), Size::Items(2));
    assert_eq!(Size::tail(&[0xbf]).unwrap(), Size::Indef);
}

#[test]
fn info_size_tail_tagged() {
    assert_eq!(Size::tail(&[0xc0]).unwrap(), Size::Head);
}

#[test]
fn info_size_tail_simple() {
    assert_eq!(Size::tail(&[0xf5]).unwrap(), Size::Head);
}

#[test]
fn info_size_tail_empty() {
    assert!(Size::tail(&[]).is_err());
}

#[test]
fn info_size_tail_bytes_truncated_head() {
    assert!(Size::tail(&[0x58]).is_err());
    assert!(Size::tail(&[0x59, 0x01]).is_err());
}

#[test]
fn info_size_tail_array_truncated_head() {
    assert!(Size::tail(&[0x98]).is_err());
    assert!(Size::tail(&[0x99, 0x00]).is_err());
}

#[test]
fn info_size_tail_unknown_type() {
    assert_eq!(Size::tail(&[0x59, 0x01, 0x00]).unwrap(), Size::Bytes(256));
    assert_eq!(Size::tail(&[0x99, 0x00, 0x0a]).unwrap(), Size::Items(10));
}

#[test]
fn decode_array_wrong_size() {
    let bytes = minicbor::to_vec(&[1u32, 2, 3]).unwrap();
    let err = minicbor::decode::<[u32; 2]>(&bytes).unwrap_err();
    assert!(err.to_string().contains("too many") || err.to_string().contains("more than"));

    let bytes2 = minicbor::to_vec(&[1u32]).unwrap();
    let err2 = minicbor::decode::<[u32; 3]>(&bytes2).unwrap_err();
    assert!(err2.to_string().contains("too few") || err2.to_string().contains("less than"));
}

#[test]
fn nil_values_of_option_and_box() {
    assert_eq!(<Option<u8> as Decode<()>>::nil(), Some(None));
    assert_eq!(<u8 as Decode<()>>::nil(), None);
    assert_eq!(<Box<Option<u8>> as Decode<()>>::nil(), Some(Box::new(None)));
    assert_eq!(<Box<u8> as Decode<()>>::nil(), None);
}

#[test]
fn is_nil_only_for_missing_values() {
    assert!(<Option<u8> as Encode<()>>::is_nil(&None));
    assert!(!<Option<u8> as Encode<()>>::is_nil(&Some(0)));
    assert!(!<u8 as Encode<()>>::is_nil(&0));
    assert!(<&Option<u8> as Encode<()>>::is_nil(&&None));
    assert!(!<Box<Option<u8>> as Encode<()>>::is_nil(&Box::new(Some(1))));
}

#[test]
fn slice_sink_holds_the_encoding() {
    let mut buf = [0xaau8; 6];
    minicbor::encode((1u8, 0x100u32), &mut buf[..]).unwrap();
    assert_eq!(buf, [0x82, 0x01, 0x19, 0x01, 0x00, 0xaa]);
}

#[test]
fn slice_fits_exactly_at_len() {
    let n = minicbor::len(0x100u32);
    assert_eq!(n, 3);
    let mut short = [0u8; 2];
    assert!(minicbor::encode(0x100u32, &mut short[..]).unwrap_err().is_write());
    let mut exact = [0u8; 3];
    assert!(minicbor::encode(0x100u32, &mut exact[..]).is_ok());
    assert_eq!(minicbor::to_vec(0x100u32).unwrap().len(), n);
    assert_eq!(minicbor::len_with(0x100u32, &mut ()), n);
    assert_eq!(minicbor::len(&&0x100u32), n);
}

#[test]
fn decode_with_unit_agrees_with_decode() {
    let b = [0x83u8, 0x01, 0x02, 0x03];
    let x: [u8; 3] = minicbor::decode(&b).unwrap();
    let y: [u8; 3] = minicbor::decode_with(&b, &mut ()).unwrap();
    assert_eq!(x, y);
    let e1 = minicbor::decode::<(u8, u8)>(&b).unwrap_err();
    let e2 = minicbor::decode_with::<(), (u8, u8)>(&b, &mut ()).unwrap_err();
    assert_eq!(e1.to_string(), e2.to_string());
}

#[test]
fn encode_cow_cbor_len() {
    let s: Cow<str> = Cow::Borrowed("hello");
    let len = minicbor::len(&s);
    let bytes = minicbor::to_vec(&s).unwrap();
    assert_eq!(bytes.len(), len);
    assert!(!<Cow<str> as Encode<()>>::is_nil(&s));
}

#[test]
fn cow_text_roundtrip() {
    let owned: Cow<str> = Cow::Owned(String::from("héllo"));
    let bytes = minicbor::to_vec(&owned).unwrap();
    assert_eq!(bytes, minicbor::to_vec("héllo").unwrap());
    let back: Cow<str> = minicbor::decode(&bytes).unwrap();
    assert_eq!(back, owned);
    assert!(matches!(back, Cow::Owned(_)));
}

#[test]
fn boxed_text_roundtrip() {
    let b: Box<str> = Box::from("tag é");
    let bytes = minicbor::to_vec(&b).unwrap();
    assert_eq!(bytes[0], 0x66);
    assert_eq!(minicbor::len(&b), bytes.len());
    let back: Box<str> = minicbor::decode(&bytes).unwrap();
    assert_eq!(back, b);
    assert!(minicbor::decode::<Box<str>>(&bytes[..3]).is_err());
}

#[test]
fn cut_items_fail_for_want_of_input() {
    assert!(minicbor::decode::<Tagged<1, u32>>(&[0xc1]).unwrap_err().is_end_of_input());
    assert!(minicbor::decode::<Option<u32>>(&[]).unwrap_err().is_end_of_input());
    assert!(minicbor::decode::<Vec<u32>>(&[0x82, 0x01]).unwrap_err().is_end_of_input());
    assert!(minicbor::decode::<Vec<u32>>(&[0x9f, 0x01]).unwrap_err().is_end_of_input());
    assert!(minicbor::decode::<(u8, String)>(&[0x82, 0x01, 0x62, 0x61]).unwrap_err().is_end_of_input());
    assert!(minicbor::decode::<Option<i16>>(&[0x38]).unwrap_err().is_end_of_input());
}

#[test]
fn fixed_array_cut_before_break_reports_too_many() {
    let err = minicbor::decode::<[u8; 1]>(&[0x9f, 0x01]).unwrap_err();
    assert!(!err.is_end_of_input());
    assert!(err.to_string().contains("more than the expected number"));
}
