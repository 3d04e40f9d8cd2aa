use minicbor::Encoder;
use minicbor::data::Int;
use minicbor::encode::write::Write;

#[test]
fn encoder_u16_first_put_error() {
    let mut buf = [0u8; 0];
    let mut enc = Encoder::new(&mut buf[..]);
    assert!(enc.u16(0x100).is_err());
}

#[test]
fn encoder_u16_second_put_error() {
    let mut buf = [0u8; 1];
    let mut enc = Encoder::new(&mut buf[..]);
    assert!(enc.u16(0x100).is_err());
}

#[test]
fn encoder_i16_first_put_error() {
    let mut buf = [0u8; 0];
    let mut enc = Encoder::new(&mut buf[..]);
    assert!(enc.i16(-257).is_err());
}

#[test]
fn encoder_i16_second_put_error() {
    let mut buf = [0u8; 1];
    let mut enc = Encoder::new(&mut buf[..]);
    assert!(enc.i16(-257).is_err());
}

#[test]
fn encoder_u32_first_put_u16_error() {
    let mut buf = [0u8; 0];
    let mut enc = Encoder::new(&mut buf[..]);
    assert!(enc.u32(0x100).is_err());
}

#[test]
fn encoder_u32_second_put_u16_error() {
    let mut buf = [0u8; 1];
    let mut enc = Encoder::new(&mut buf[..]);
    assert!(enc.u32(0x100).is_err());
}

#[test]
fn encoder_u32_first_put_u32_error() {
    let mut buf = [0u8; 0];
    let mut enc = Encoder::new(&mut buf[..]);
    assert!(enc.u32(0x1_0000).is_err());
}

#[test]
fn encoder_u32_second_put_u32_error() {
    let mut buf = [0u8; 1];
    let mut enc = Encoder::new(&mut buf[..]);
    assert!(enc.u32(0x1_0000).is_err());
}

#[test]
fn encoder_i32_0x18_arm_success() {
    let mut buf = [0u8; 16];
    let mut enc = Encoder::new(&mut buf[..]);
    assert!(enc.i32(-25).is_ok());
}

#[test]
fn encoder_i32_0x18_arm_error() {
    let mut buf = [0u8; 0];
    let mut enc = Encoder::new(&mut buf[..]);
    assert!(enc.i32(-25).is_err());
}

#[test]
fn encoder_i32_0x17_arm_error() {
    let mut buf = [0u8; 0];
    assert!(Encoder::new(&mut buf[..]).i32(-1).is_err());
}

#[test]
fn encoder_i32_first_put_u16_error() {
    let mut buf = [0u8; 0];
    let mut enc = Encoder::new(&mut buf[..]);
    assert!(enc.i32(-257).is_err());
}

#[test]
fn encoder_i32_second_put_u16_error() {
    let mut buf = [0u8; 1];
    let mut enc = Encoder::new(&mut buf[..]);
    assert!(enc.i32(-257).is_err());
}

#[test]
fn encoder_i32_first_put_u32_error() {
    let mut buf = [0u8; 0];
    let mut enc = Encoder::new(&mut buf[..]);
    assert!(enc.i32(-0x1_0001).is_err());
}

#[test]
fn encoder_i32_second_put_u32_error() {
    let mut buf = [0u8; 1];
    let mut enc = Encoder::new(&mut buf[..]);
    assert!(enc.i32(-0x1_0001).is_err());
}

#[test]
fn encoder_u64_first_put_u16_error() {
    let mut buf = [0u8; 0];
    let mut enc = Encoder::new(&mut buf[..]);
    assert!(enc.u64(0x100).is_err());
}

#[test]
fn encoder_u64_second_put_u16_error() {
    let mut buf = [0u8; 1];
    let mut enc = Encoder::new(&mut buf[..]);
    assert!(enc.u64(0x100).is_err());
}

#[test]
fn encoder_u64_first_put_u32_error() {
    let mut buf = [0u8; 0];
    let mut enc = Encoder::new(&mut buf[..]);
    assert!(enc.u64(0x1_0000).is_err());
}

#[test]
fn encoder_u64_second_put_u32_error() {
    let mut buf = [0u8; 1];
    let mut enc = Encoder::new(&mut buf[..]);
    assert!(enc.u64(0x1_0000).is_err());
}

#[test]
fn encoder_u64_first_put_u64_error() {
    let mut buf = [0u8; 0];
    let mut enc = Encoder::new(&mut buf[..]);
    assert!(enc.u64(0x1_0000_0000).is_err());
}

#[test]
fn encoder_u64_second_put_u64_error() {
    let mut buf = [0u8; 1];
    let mut enc = Encoder::new(&mut buf[..]);
    assert!(enc.u64(0x1_0000_0000).is_err());
}

#[test]
fn encoder_i64_0x18_arm_success() {
    let mut buf = [0u8; 16];
    let mut enc = Encoder::new(&mut buf[..]);
    assert!(enc.i64(-25).is_ok());
}

#[test]
fn encoder_i64_0x18_arm_error() {
    let mut buf = [0u8; 0];
    let mut enc = Encoder::new(&mut buf[..]);
    assert!(enc.i64(-25).is_err());
}

#[test]
fn encoder_i64_0x10000_arm_success() {
    let mut buf = [0u8; 16];
    let mut enc = Encoder::new(&mut buf[..]);
    assert!(enc.i64(-0x1_0001).is_ok());
}

#[test]
fn encoder_i64_first_put_u16_error() {
    let mut buf = [0u8; 0];
    let mut enc = Encoder::new(&mut buf[..]);
    assert!(enc.i64(-257).is_err());
}

#[test]
fn encoder_i64_second_put_u16_error() {
    let mut buf = [0u8; 1];
    let mut enc = Encoder::new(&mut buf[..]);
    assert!(enc.i64(-257).is_err());
}

#[test]
fn encoder_i64_first_put_u32_error() {
    let mut buf = [0u8; 0];
    let mut enc = Encoder::new(&mut buf[..]);
    assert!(enc.i64(-0x1_0001).is_err());
}

#[test]
fn encoder_i64_second_put_u32_error() {
    let mut buf = [0u8; 1];
    let mut enc = Encoder::new(&mut buf[..]);
    assert!(enc.i64(-0x1_0001).is_err());
}

#[test]
fn encoder_i64_first_put_u64_error() {
    let mut buf = [0u8; 0];
    let mut enc = Encoder::new(&mut buf[..]);
    assert!(enc.i64(-0x1_0000_0001).is_err());
}

#[test]
fn encoder_i64_second_put_u64_error() {
    let mut buf = [0u8; 1];
    let mut enc = Encoder::new(&mut buf[..]);
    assert!(enc.i64(-0x1_0000_0001).is_err());
}

#[test]
fn encoder_int_neg_0x18_arm_success() {
    let mut buf = [0u8; 16];
    let mut enc = Encoder::new(&mut buf[..]);
    assert!(enc.integer(Int::from(-25i32)).is_ok());
}

#[test]
fn encoder_int_neg_0x18_arm_error() {
    let mut buf = [0u8; 0];
    let mut enc = Encoder::new(&mut buf[..]);
    assert!(enc.integer(Int::from(-25i32)).is_err());
}

#[test]
fn encoder_int_neg_0x10000_arm_success() {
    let mut buf = [0u8; 16];
    let mut enc = Encoder::new(&mut buf[..]);
    assert!(enc.integer(Int::from(-0x10001i64)).is_ok());
}

#[test]
fn encoder_int_neg_first_put_u16_error() {
    let mut buf = [0u8; 0];
    let mut enc = Encoder::new(&mut buf[..]);
    assert!(enc.integer(Int::from(-257i32)).is_err());
}

#[test]
fn encoder_int_neg_second_put_u16_error() {
    let mut buf = [0u8; 1];
    let mut enc = Encoder::new(&mut buf[..]);
    assert!(enc.integer(Int::from(-257i32)).is_err());
}

#[test]
fn encoder_int_neg_first_put_u32_error() {
    let mut buf = [0u8; 0];
    let mut enc = Encoder::new(&mut buf[..]);
    assert!(enc.integer(Int::from(-0x10001i64)).is_err());
}

#[test]
fn encoder_int_neg_second_put_u32_error() {
    let mut buf = [0u8; 1];
    let mut enc = Encoder::new(&mut buf[..]);
    assert!(enc.integer(Int::from(-0x10001i64)).is_err());
}

#[test]
fn encoder_int_neg_first_put_u64_error() {
    let mut buf = [0u8; 0];
    let mut enc = Encoder::new(&mut buf[..]);
    assert!(enc.integer(Int::from(-0x1_0000_0001i64)).is_err());
}

#[test]
fn encoder_int_neg_second_put_u64_error() {
    let mut buf = [0u8; 1];
    let mut enc = Encoder::new(&mut buf[..]);
    assert!(enc.integer(Int::from(-0x1_0000_0001i64)).is_err());
}

#[test]
fn encoder_bytes_second_put_error() {
    let mut buf = [0u8; 1];
    let mut enc = Encoder::new(&mut buf[..]);
    let err = enc.bytes(&[0xaa]);
    assert!(err.is_err());
}

#[test]
fn encoder_str_second_put_error() {
    let mut buf = [0u8; 1];
    let mut enc = Encoder::new(&mut buf[..]);
    let err = enc.str("a");
    assert!(err.is_err());
}

#[test]
fn encoder_type_len_u16_first_put_error() {
    let mut buf = [0u8; 0];
    let mut enc = Encoder::new(&mut buf[..]);
    assert!(enc.array(0x100).is_err());
}

#[test]
fn encoder_type_len_u16_second_put_error() {
    let mut buf = [0u8; 1];
    let mut enc = Encoder::new(&mut buf[..]);
    assert!(enc.array(0x100).is_err());
}

#[test]
fn encoder_type_len_u32_first_put_error() {
    let mut buf = [0u8; 0];
    let mut enc = Encoder::new(&mut buf[..]);
    assert!(enc.array(0x1_0000).is_err());
}

#[test]
fn encoder_type_len_u32_second_put_error() {
    let mut buf = [0u8; 1];
    let mut enc = Encoder::new(&mut buf[..]);
    assert!(enc.array(0x1_0000).is_err());
}

#[test]
fn encoder_type_len_u64_first_put_error() {
    let mut buf = [0u8; 0];
    let mut enc = Encoder::new(&mut buf[..]);
    assert!(enc.array(0x1_0000_0000).is_err());
}

#[test]
fn encoder_type_len_u64_second_put_error() {
    let mut buf = [0u8; 1];
    let mut enc = Encoder::new(&mut buf[..]);
    assert!(enc.array(0x1_0000_0000).is_err());
}

#[test]
fn encoder_writer_mut() {
    let mut buf = [0u8; 64];
    let mut enc = Encoder::new(&mut buf[..]);
    let _w: &mut &mut [u8] = enc.writer_mut();
}

#[test]
fn encoder_str_len() {
    let mut buf = [0u8; 64];
    let mut enc = Encoder::new(&mut buf[..]);
    enc.str_len(5).unwrap();
    enc.writer_mut().write_all(b"hello").unwrap();
}

#[test]
fn encoder_type_len_large_values() {
    let mut buf = Vec::new();
    let mut enc = Encoder::new(&mut buf);
    enc.array(0x1_0000).unwrap();

    let mut buf2 = Vec::new();
    let mut enc2 = Encoder::new(&mut buf2);
    enc2.array(0x1_0000_0000).unwrap();
}

// Range::encode: e.array(2)? fails
#[test]
fn encode_range_error() {
    let mut buf = [0u8; 0];
    let mut enc = Encoder::new(&mut buf[..]);
    assert!(enc.encode(0u32..10u32).is_err());
}

// Range::encode: .encode_with(&self.start)? fails
#[test]
fn encode_range_start_error() {
    let mut buf = [0u8; 1]; // room for array(2) only
    let mut enc = Encoder::new(&mut buf[..]);
    assert!(enc.encode(0x100u32..0x200u32).is_err());
}

// Range::encode: .encode_with(&self.end)? fails
#[test]
fn encode_range_end_error() {
    let mut buf = [0u8; 2]; // room for array(2) + start(0) but not end
    let mut enc = Encoder::new(&mut buf[..]);
    assert!(enc.encode(0u32..0x100u32).is_err());
}

#[test]
fn range_encodes_as_start_and_end() {
    assert_eq!(minicbor::to_vec(1u32..0x100u32).unwrap(), vec![0x82, 0x01, 0x19, 0x01, 0x00]);
    assert_eq!(minicbor::len(0u32..10u32), 3);
}
