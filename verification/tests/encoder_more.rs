use minicbor::Encoder;
use minicbor::data::Int;

#[test]
fn encoder_vec_u8_large() {
    let mut buf = Vec::new();
    Encoder::new(&mut buf).u8(0x18).unwrap();
}

#[test]
fn encoder_owned_vec_u64_all_arms() {
    Encoder::new(Vec::new()).u64(0x100).unwrap();
    Encoder::new(Vec::new()).u64(0x1_0000).unwrap();
    Encoder::new(Vec::new()).u64(0x1_0000_0000).unwrap();
}

#[test]
fn encoder_owned_vec_i64_all_arms() {
    Encoder::new(Vec::new()).i64(1).unwrap();
    Encoder::new(Vec::new()).i64(-257).unwrap();
    Encoder::new(Vec::new()).i64(-0x1_0001).unwrap();
    Encoder::new(Vec::new()).i64(-0x1_0000_0001).unwrap();
}

#[test]
fn encoder_ref_vec_int_all_arms() {
    let mut buf = Vec::new();
    Encoder::new(&mut buf).integer(Int::from(-1i32)).unwrap();
    buf.clear();
    Encoder::new(&mut buf).integer(Int::from(-25i32)).unwrap();
    buf.clear();
    Encoder::new(&mut buf).integer(Int::from(-257i32)).unwrap();
    buf.clear();
    Encoder::new(&mut buf).integer(Int::from(-0x1_0001i64)).unwrap();
    buf.clear();
    Encoder::new(&mut buf).integer(Int::from(-0x1_0000_0001i64)).unwrap();
}

#[test]
fn encoder_type_len_0x18_arm() {
    let mut buf = [0u8; 512];
    Encoder::new(&mut buf[..]).array(0x18).unwrap();

    let mut vec = Vec::new();
    Encoder::new(&mut vec).array(0x18).unwrap();
    vec.clear();
    Encoder::new(&mut vec).array(0x100).unwrap();
}

#[test]
fn encoder_bool_false() {
    let mut buf = [0u8; 16];
    Encoder::new(&mut buf[..]).bool(false).unwrap();
    let mut vec = Vec::new();
    Encoder::new(&mut vec).bool(false).unwrap();
    Encoder::new(Vec::new()).bool(false).unwrap();
}

#[test]
fn encoder_slice_int_small_negative() {
    let mut buf = [0u8; 16];
    Encoder::new(&mut buf[..]).integer(Int::from(-1i32)).unwrap();
}

#[test]
fn encoder_ref_vec_i64_middle_arms() {
    let mut buf = Vec::new();
    Encoder::new(&mut buf).i64(-257).unwrap();
    buf.clear();
    Encoder::new(&mut buf).i64(-0x1_0001).unwrap();
}

#[test]
fn encoder_i64_small_negative() {
    let mut buf = [0u8; 16];
    Encoder::new(&mut buf[..]).i64(-1).unwrap();

    let mut vec = Vec::new();
    Encoder::new(&mut vec).i64(-1).unwrap();

    Encoder::new(Vec::new()).i64(-1).unwrap();
}

#[test]
fn encoder_ref_vec_u64_0x100_arm() {
    let mut buf = Vec::new();
    Encoder::new(&mut buf).u64(0x100).unwrap();
}

#[test]
fn encoder_ref_vec_i32_all_arms() {
    let mut buf = Vec::new();
    Encoder::new(&mut buf).i32(1).unwrap();
    buf.clear();
    Encoder::new(&mut buf).i32(-25).unwrap();
    buf.clear();
    Encoder::new(&mut buf).i32(-257).unwrap();
    buf.clear();
    Encoder::new(&mut buf).i32(-0x1_0001).unwrap();
}

#[test]
fn encoder_owned_vec_type_len_all_arms() {
    Encoder::new(Vec::new()).array(0x18).unwrap();
    Encoder::new(Vec::new()).array(0x100).unwrap();
    Encoder::new(Vec::new()).array(0x1_0000).unwrap();
    Encoder::new(Vec::new()).array(0x1_0000_0000).unwrap();
}

#[test]
fn encoder_owned_vec_u32_all_arms() {
    Encoder::new(Vec::new()).u32(0x100).unwrap();
    Encoder::new(Vec::new()).u32(0x1_0000).unwrap();
}

#[test]
fn encoder_vec_u16_all_arms() {
    let mut buf = Vec::new();
    Encoder::new(&mut buf).u16(0x18).unwrap();
    buf.clear();
    Encoder::new(&mut buf).u16(0x100).unwrap();
}

#[test]
fn encoder_vec_i8_all_arms() {
    let mut buf = Vec::new();
    Encoder::new(&mut buf).i8(1).unwrap();
    buf.clear();
    Encoder::new(&mut buf).i8(-1).unwrap();
    buf.clear();
    Encoder::new(&mut buf).i8(-25).unwrap();
}

#[test]
fn encoder_slice_i16_0x17_arm_error() {
    let mut buf = [0u8; 0];
    assert!(Encoder::new(&mut buf[..]).i16(-1).is_err());
}

#[test]
fn encoder_slice_i16_0xff_arm_error() {
    let mut buf = [0u8; 0];
    assert!(Encoder::new(&mut buf[..]).i16(-25).is_err());
}

#[test]
fn encoder_slice_i8_negative_arms() {
    let mut buf = [0u8; 16];
    Encoder::new(&mut buf[..]).i8(-1).unwrap();
    Encoder::new(&mut buf[..]).i8(-25).unwrap();
}

#[test]
fn encoder_vec_i16_all_arms() {
    let mut buf = Vec::new();
    Encoder::new(&mut buf).i16(5).unwrap();
    buf.clear();
    Encoder::new(&mut buf).i16(-25).unwrap();
    buf.clear();
    Encoder::new(&mut buf).i16(-257).unwrap();
}
