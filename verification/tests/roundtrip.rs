use minicbor::{Decoder, Encoder};
use minicbor::data::{Int, Tag, Tagged, max_int, min_int};

fn unsigned_edges() -> Vec<u64> {
    vec![0, 1, 23, 24, 255, 256, 65535, 65536, 0xffff_ffff, 0x1_0000_0000, u64::MAX]
}

fn signed_edges() -> Vec<i64> {
    vec![0, 1, -1, 23, -24, 24, -25, 255, -256, -257, 65535, -65536, -65537, i32::MAX as i64, i32::MIN as i64, i64::MAX, i64::MIN]
}

#[test]
fn roundtrip_u64_edges() {
    for x in unsigned_edges() {
        let bytes = minicbor::to_vec(x).unwrap();
        assert_eq!(bytes.len(), minicbor::len(x));
        let back: u64 = minicbor::decode(&bytes).unwrap();
        assert_eq!(back, x);
    }
}

#[test]
fn roundtrip_small_unsigned() {
    for x in [0u8, 23, 24, 255] {
        let bytes = minicbor::to_vec(x).unwrap();
        assert_eq!(minicbor::decode::<u8>(&bytes).unwrap(), x);
    }
    for x in [0u16, 255, 256, 65535] {
        let bytes = minicbor::to_vec(x).unwrap();
        assert_eq!(minicbor::decode::<u16>(&bytes).unwrap(), x);
    }
    for x in [0u32, 65535, 65536, u32::MAX] {
        let bytes = minicbor::to_vec(x).unwrap();
        assert_eq!(minicbor::decode::<u32>(&bytes).unwrap(), x);
    }
}

#[test]
fn roundtrip_i64_edges() {
    for x in signed_edges() {
        let bytes = minicbor::to_vec(x).unwrap();
        assert_eq!(bytes.len(), minicbor::len(x));
        let back: i64 = minicbor::decode(&bytes).unwrap();
        assert_eq!(back, x);
    }
}

#[test]
fn roundtrip_small_signed() {
    for x in [i8::MIN, -25, -24, -1, 0, 23, 24, i8::MAX] {
        let bytes = minicbor::to_vec(x).unwrap();
        assert_eq!(minicbor::decode::<i8>(&bytes).unwrap(), x);
    }
    for x in [i16::MIN, -257, -256, -1, 0, 256, i16::MAX] {
        let bytes = minicbor::to_vec(x).unwrap();
        assert_eq!(minicbor::decode::<i16>(&bytes).unwrap(), x);
    }
    for x in [i32::MIN, -65537, -65536, 0, 65536, i32::MAX] {
        let bytes = minicbor::to_vec(x).unwrap();
        assert_eq!(minicbor::decode::<i32>(&bytes).unwrap(), x);
    }
}

#[test]
fn roundtrip_int_extremes() {
    for i in [max_int(), min_int(), Int::from(0u8), Int::from(-1i8)] {
        let bytes = minicbor::to_vec(i).unwrap();
        assert_eq!(bytes.len(), minicbor::len(i));
        let back: Int = minicbor::decode(&bytes).unwrap();
        assert_eq!(back, i);
    }
    assert_eq!(minicbor::to_vec(min_int()).unwrap(), vec![0x3b, 0xff, 0xff, 0xff, 0xff, 0xff, 0xff, 0xff, 0xff]);
}

#[test]
fn roundtrip_bool_char_unit() {
    for b in [false, true] {
        let bytes = minicbor::to_vec(b).unwrap();
        assert_eq!(minicbor::decode::<bool>(&bytes).unwrap(), b);
    }
    for c in ['A', '\u{0}', '\u{d7ff}', '\u{e000}', '\u{10ffff}'] {
        let bytes = minicbor::to_vec(c).unwrap();
        assert_eq!(minicbor::decode::<char>(&bytes).unwrap(), c);
    }
    let bytes = minicbor::to_vec(()).unwrap();
    assert_eq!(bytes, vec![0x80]);
    minicbor::decode::<()>(&bytes).unwrap();
}

#[test]
fn roundtrip_str() {
    for s in ["", "a", "hello", "\u{1f600} smile", "twenty-four characters!!"] {
        let bytes = minicbor::to_vec(s).unwrap();
        assert_eq!(bytes.len(), minicbor::len(s));
        let back: &str = minicbor::decode(&bytes).unwrap();
        assert_eq!(back, s);
    }
}

#[test]
fn roundtrip_tag_and_tagged() {
    let t = Tag::new(0x1_0000);
    let bytes = minicbor::to_vec(t).unwrap();
    assert_eq!(bytes, vec![0xda, 0x00, 0x01, 0x00, 0x00]);
    assert_eq!(minicbor::decode::<Tag>(&bytes).unwrap(), t);

    let v: Tagged<24, u32> = Tagged::new(7);
    let bytes = minicbor::to_vec(&v).unwrap();
    assert_eq!(bytes, vec![0xd8, 0x18, 0x07]);
    let back: Tagged<24, u32> = minicbor::decode(&bytes).unwrap();
    assert_eq!(*back.value(), 7);
}

#[test]
fn roundtrip_pair_option_result() {
    let p = (300u32, "x");
    let bytes = minicbor::to_vec(p).unwrap();
    assert_eq!(bytes.len(), minicbor::len(p));
    let back: (u32, &str) = minicbor::decode(&bytes).unwrap();
    assert_eq!(back, p);

    let none: Option<u8> = None;
    let bytes = minicbor::to_vec(none).unwrap();
    assert_eq!(bytes, vec![0xf6]);
    assert_eq!(minicbor::decode::<Option<u8>>(&bytes).unwrap(), None);
    let some: Option<u8> = Some(9);
    let bytes = minicbor::to_vec(some).unwrap();
    assert_eq!(minicbor::decode::<Option<u8>>(&bytes).unwrap(), Some(9));

    let ok: Result<u8, bool> = Ok(1);
    let bytes = minicbor::to_vec(ok).unwrap();
    assert_eq!(bytes, vec![0x82, 0x00, 0x01]);
    assert_eq!(minicbor::decode::<Result<u8, bool>>(&bytes).unwrap(), ok);
    let err: Result<u8, bool> = Err(true);
    let bytes = minicbor::to_vec(err).unwrap();
    assert_eq!(minicbor::decode::<Result<u8, bool>>(&bytes).unwrap(), err);

    let triple = (1u8, -2i16, true);
    let bytes = minicbor::to_vec(triple).unwrap();
    assert_eq!(minicbor::decode::<(u8, i16, bool)>(&bytes).unwrap(), triple);
}

#[test]
fn nested_option_none_reads_as_outer_none() {
    let v: Option<Option<u8>> = Some(None);
    let bytes = minicbor::to_vec(v).unwrap();
    assert_eq!(minicbor::decode::<Option<Option<u8>>>(&bytes).unwrap(), None);
}

#[test]
fn head_encodings_exact() {
    let cases: Vec<(u64, Vec<u8>)> = vec![
        (0, vec![0x00]),
        (23, vec![0x17]),
        (24, vec![0x18, 0x18]),
        (0x100, vec![0x19, 0x01, 0x00]),
        (0x1_0000, vec![0x1a, 0x00, 0x01, 0x00, 0x00]),
        (0x1_0000_0000, vec![0x1b, 0x00, 0x00, 0x00, 0x01, 0x00, 0x00, 0x00, 0x00]),
    ];
    for (x, expected) in cases {
        let mut buf = Vec::new();
        Encoder::new(&mut buf).u64(x).unwrap();
        assert_eq!(buf, expected);
    }
    let mut buf = Vec::new();
    Encoder::new(&mut buf).i64(-500).unwrap();
    assert_eq!(buf, vec![0x39, 0x01, 0xf3]);
    let mut buf = Vec::new();
    Encoder::new(&mut buf).simple(0x20).unwrap().simple(0x13).unwrap();
    assert_eq!(buf, vec![0xf8, 0x20, 0xf3]);
}

#[test]
fn sequence_roundtrip() {
    let v: Vec<u32> = vec![1, 300, 70000];
    let bytes = minicbor::to_vec(&v).unwrap();
    assert_eq!(bytes, vec![0x83, 0x01, 0x19, 0x01, 0x2c, 0x1a, 0x00, 0x01, 0x11, 0x70]);
    assert_eq!(minicbor::len(&v), bytes.len());
    let mut d = Decoder::new(&bytes);
    let mut it = d.array_iter::<u32>().unwrap();
    let mut out = Vec::new();
    while let Some(x) = it.next() {
        out.push(x.unwrap());
    }
    assert_eq!(out, v);
    let arr = [5u8, 6];
    assert_eq!(minicbor::to_vec(arr).unwrap(), vec![0x82, 0x05, 0x06]);
    assert_eq!(minicbor::len(arr), 3);
}

#[test]
fn skip_passes_over_whole_items() {
    let mut buf = Vec::new();
    let mut e = Encoder::new(&mut buf);
    e.array(2).unwrap().map(1).unwrap().str("k").unwrap().begin_array().unwrap();
    e.tag(Tag::new(1)).unwrap().u64(u64::MAX).unwrap().end().unwrap();
    e.bytes(&[1, 2, 3]).unwrap();
    e.u8(7).unwrap();
    let mut d = Decoder::new(&buf);
    d.skip().unwrap();
    assert_eq!(d.position(), buf.len() - 1);
    assert_eq!(d.u8().unwrap(), 7);
}

#[test]
fn skip_errors() {
    let mut d = Decoder::new(&[0xff]);
    let e = d.skip().unwrap_err();
    assert!(e.is_type_mismatch());
    assert!(e.to_string().contains("unexpected break"));
    let mut d = Decoder::new(&[0x82, 0x01]);
    assert!(d.skip().unwrap_err().is_end_of_input());
    let mut d = Decoder::new(&[0x62, 0xff, 0xfe]);
    assert!(d.skip().unwrap_err().is_utf8());
    let mut d = Decoder::new(&[0x7f, 0x61, 0x61, 0x41, 0x00, 0xff]);
    assert!(d.skip().unwrap_err().is_type_mismatch());
}

#[test]
fn error_variants_from_inputs() {
    assert!(minicbor::decode::<u8>(&[]).unwrap_err().is_end_of_input());
    assert!(minicbor::decode::<char>(&[0x19, 0xd8, 0x00]).unwrap_err().is_invalid_char());
    assert!(minicbor::decode::<&str>(&[0x61, 0xff]).unwrap_err().is_utf8());
    let e = minicbor::decode::<u8>(&[0x19, 0x01, 0x00]).unwrap_err();
    assert!(e.is_overflow());
    assert_eq!(e.to_string(), "256 overflows target type at position 0: when converting u16 to u8");
    let e = minicbor::decode::<u8>(&[0x61, 0x61]).unwrap_err();
    assert_eq!(e.to_string(), "unexpected type string at position 0: expected u8");
    assert!(minicbor::decode::<Result<u8, u8>>(&[0x82, 0x05, 0x00]).unwrap_err().is_unknown_variant());
    assert!(minicbor::decode::<(u8, u8)>(&[0x81, 0x00]).unwrap_err().is_message());
    assert!(minicbor::decode::<Tagged<2, u8>>(&[0xc1, 0x00]).unwrap_err().is_tag_mismatch());
    assert!(minicbor::decode::Error::missing_value(1).is_missing_value());
    assert!(minicbor::decode::Error::custom(()).is_custom());
    let e = minicbor::decode::<char>(&[0x19, 0xd8, 0x00]).unwrap_err();
    assert_eq!(e.to_string(), "invalid char: 0xd800 at position 0");
}

#[test]
fn usize_isize_decoding() {
    assert_eq!(minicbor::decode::<usize>(&[0x19, 0x01, 0x00]).unwrap(), 256);
    assert_eq!(minicbor::decode::<isize>(&[0x38, 0x63]).unwrap(), -100);
    assert_eq!(minicbor::to_vec(-100isize).unwrap(), vec![0x38, 0x63]);
    assert_eq!(minicbor::len(300usize), 3);
}

#[test]
fn display_texts() {
    assert_eq!(Tag::new(42).to_string(), "42");
    assert_eq!(min_int().to_string(), "-18446744073709551616");
    assert_eq!(max_int().to_string(), "18446744073709551615");
    let e = minicbor::encode::Error::<()>::custom(()).with_message("m");
    assert_eq!(e.to_string(), "encode error: m");
}

#[test]
fn slice_sink_keeps_what_fits() {
    let mut buf = [0u8; 2];
    let r = minicbor::encode(0x100u32, &mut buf[..]);
    assert!(r.is_err());
    let mut buf = [0u8; 3];
    minicbor::encode(0x100u32, &mut buf[..]).unwrap();
    assert_eq!(buf, [0x19, 0x01, 0x00]);
    let mut v = Vec::new();
    minicbor::encode_with("ab", &mut v, &mut ()).unwrap();
    assert_eq!(v, vec![0x62, b'a', b'b']);
}

#[test]
fn vec_and_array_decoding() {
    let v: Vec<u32> = minicbor::decode(&[0x83, 0x01, 0x02, 0x03]).unwrap();
    assert_eq!(v, vec![1, 2, 3]);
    let v: Vec<u32> = minicbor::decode(&[0x9f, 0x01, 0x18, 0x20, 0xff]).unwrap();
    assert_eq!(v, vec![1, 32]);
    let v: Vec<u32> = minicbor::decode(&[0x80]).unwrap();
    assert!(v.is_empty());
    assert!(minicbor::decode::<Vec<u32>>(&[0x82, 0x01]).unwrap_err().is_end_of_input());
    assert!(minicbor::decode::<Vec<u32>>(&[0x9f, 0x01]).unwrap_err().is_end_of_input());
    assert!(minicbor::decode::<Vec<u32>>(&[0x82, 0x01, 0x61, 0x61]).unwrap_err().is_type_mismatch());
    let a: [u8; 2] = minicbor::decode(&[0x9f, 0x05, 0x06, 0xff]).unwrap();
    assert_eq!(a, [5, 6]);
    let e = minicbor::decode::<[u8; 2]>(&[0x83, 0x05, 0x06, 0x07]).unwrap_err();
    assert_eq!(e.to_string(), "array has more than the expected number of elements at position 0");
    let e = minicbor::decode::<[u8; 2]>(&[0x9f, 0x05, 0xff]).unwrap_err();
    assert_eq!(e.to_string(), "array has less than the expected number of elements at position 0");
    let nested: Vec<Vec<u8>> = vec![vec![1], vec![], vec![2, 3]];
    let bytes = minicbor::to_vec(&nested).unwrap();
    assert_eq!(bytes.len(), minicbor::len(&nested));
    let back: Vec<Vec<u8>> = minicbor::decode(&bytes).unwrap();
    assert_eq!(back, nested);
}

#[test]
fn string_and_box_roundtrip() {
    let s = String::from("grüße");
    let bytes = minicbor::to_vec(&s).unwrap();
    assert_eq!(bytes.len(), minicbor::len(&s));
    let back: String = minicbor::decode(&bytes).unwrap();
    assert_eq!(back, s);
    let b: Box<u16> = minicbor::decode(&[0x19, 0x12, 0x34]).unwrap();
    assert_eq!(*b, 0x1234);
    assert!(minicbor::decode::<String>(&[0x62, 0xc3, 0x28]).unwrap_err().is_utf8());
    let boxed: Box<u32> = Box::new(5);
    assert_eq!(minicbor::to_vec(&boxed).unwrap(), vec![0x05]);
}
