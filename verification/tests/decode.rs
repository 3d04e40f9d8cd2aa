use minicbor::{Encode, Decode, Encoder};
use minicbor::data::{Tag, Tagged};

#[test]
fn decode_result_unknown_variant() {
    let mut buf = Vec::new();
    Encoder::new(&mut buf).array(2).unwrap().i64(5).unwrap().u32(0).unwrap();
    let err = minicbor::decode::<Result<u32, u32>>(&buf).unwrap_err();
    assert!(err.to_string().contains("unknown"));
}

#[test]
fn decode_phantom_data_error() {
    let mut buf = Vec::new();
    Encoder::new(&mut buf).array(1).unwrap().u32(0).unwrap();
    let err = minicbor::decode::<std::marker::PhantomData<u32>>(&buf).unwrap_err();
    assert!(err.to_string().contains("phantom") || err.to_string().contains("empty array"));
}

#[test]
fn decode_unit_error() {
    let mut buf = Vec::new();
    Encoder::new(&mut buf).array(1).unwrap().u32(0).unwrap();
    let err = minicbor::decode::<()>(&buf).unwrap_err();
    assert!(err.to_string().contains("unit") || err.to_string().contains("empty array"));
}

#[test]
fn decode_tuple_wrong_length() {
    let mut buf = Vec::new();
    Encoder::new(&mut buf).array(1).unwrap().u32(1).unwrap();
    let err = minicbor::decode::<(u32, u32, u32)>(&buf).unwrap_err();
    assert!(err.to_string().contains("tuple"));
}

#[test]
fn decode_result_wrong_array_length() {
    let mut buf = Vec::new();
    Encoder::new(&mut buf).array(3).unwrap().i64(0).unwrap().u32(1).unwrap().u32(2).unwrap();
    let err = minicbor::decode::<Result<u32, u32>>(&buf).unwrap_err();
    assert!(err.to_string().contains("expected enum") || err.to_string().contains("2-element"));
}

#[test]
fn encode_mut_ref_is_nil() {
    let mut val: Option<u32> = None;
    assert!(<&mut Option<u32> as Encode<()>>::is_nil(&&mut val));
}

#[test]
fn encode_box_is_nil() {
    let val: Box<Option<u32>> = Box::new(None);
    assert!(<Box<Option<u32>> as Encode<()>>::is_nil(&val));
}

#[test]
fn decode_option_datatype_error() {
    let err = minicbor::decode::<Option<u32>>(&[]).unwrap_err();
    assert!(err.to_string().contains("end of input"));
}

#[test]
fn decode_result_array_error() {
    let mut buf = Vec::new();
    Encoder::new(&mut buf).u32(42).unwrap();
    let err = minicbor::decode::<Result<u32, u32>>(&buf).unwrap_err();
    assert!(err.is_type_mismatch());
}

#[test]
fn decode_phantom_data_array_error() {
    let err = minicbor::decode::<core::marker::PhantomData<u32>>(&[]).unwrap_err();
    assert!(err.to_string().contains("end of input"));
}

#[test]
fn decode_unit_array_error() {
    let err = minicbor::decode::<()>(&[]).unwrap_err();
    assert!(err.to_string().contains("end of input"));
}

#[test]
fn decode_tagged_tag_error() {
    let err = minicbor::decode::<Tagged<1, u32>>(&[]).unwrap_err();
    assert!(err.to_string().contains("end of input"));
}

#[test]
fn decode_tagged_value_error() {
    let mut buf = Vec::new();
    Encoder::new(&mut buf).tag(Tag::new(1)).unwrap();
    let err = minicbor::decode::<Tagged<1, u32>>(&buf).unwrap_err();
    assert!(err.to_string().contains("end of input"));
}

#[test]
fn decode_result_i64_error() {
    let mut buf = Vec::new();
    Encoder::new(&mut buf).array(2).unwrap();
    let err = minicbor::decode::<Result<u32, u32>>(&buf).unwrap_err();
    assert!(err.to_string().contains("end of input"));
}

#[test]
fn decode_tuple_array_error() {
    let mut buf = Vec::new();
    Encoder::new(&mut buf).u32(42).unwrap();
    let err = minicbor::decode::<(u32, u32)>(&buf).unwrap_err();
    assert!(err.is_type_mismatch());
}

#[test]
fn decode_tuple_element_error() {
    let mut buf = Vec::new();
    let mut enc = Encoder::new(&mut buf);
    enc.array(2).unwrap();
    enc.u32(1).unwrap();
    enc.str("not a u32").unwrap();
    let err = minicbor::decode::<(u32, u32)>(&buf).unwrap_err();
    assert!(err.is_type_mismatch());
}

#[test]
fn decode_fixed_array_not_an_array() {
    let mut buf = Vec::new();
    Encoder::new(&mut buf).u32(42).unwrap();
    let err = minicbor::decode::<[u32; 3]>(&buf).unwrap_err();
    assert!(err.is_type_mismatch());
}

#[test]
fn decode_fixed_array_element_error() {
    let mut buf = Vec::new();
    let mut enc = Encoder::new(&mut buf);
    enc.array(3).unwrap();
    enc.u32(1).unwrap();
    enc.str("not a u32").unwrap();
    enc.u32(3).unwrap();
    let err = minicbor::decode::<[u32; 3]>(&buf).unwrap_err();
    assert!(err.is_type_mismatch());
}
