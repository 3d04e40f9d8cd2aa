use minicbor::{Encoder, Decoder};
use minicbor::data::{Int, max_int};

#[test]
fn decoder_bytes_iter() {
    let mut buf = Vec::new();
    let mut enc = Encoder::new(&mut buf);
    enc.begin_bytes().unwrap();
    enc.bytes(b"he").unwrap();
    enc.bytes(b"llo").unwrap();
    enc.end().unwrap();
    let mut d = Decoder::new(&buf);
    let iter = d.bytes_iter().unwrap();
    let mut iter = iter;
    let mut chunks: Vec<&[u8]> = Vec::new();
    while let Some(r) = iter.next() {
        chunks.push(r.unwrap());
    }
    assert_eq!(chunks, vec![b"he".as_ref(), b"llo".as_ref()]);
}

#[test]
fn decoder_str_iter() {
    let mut buf = Vec::new();
    let mut enc = Encoder::new(&mut buf);
    enc.begin_str().unwrap();
    enc.str("he").unwrap();
    enc.str("llo").unwrap();
    enc.end().unwrap();
    let mut d = Decoder::new(&buf);
    let iter = d.str_iter().unwrap();
    let mut iter = iter;
    let mut chunks: Vec<&str> = Vec::new();
    while let Some(r) = iter.next() {
        chunks.push(r.unwrap());
    }
    assert_eq!(chunks, vec!["he", "llo"]);
}

#[test]
fn decoder_indef_array_iter() {
    let mut buf = Vec::new();
    Encoder::new(&mut buf).begin_array().unwrap();
    Encoder::new(&mut buf).u32(1).unwrap();
    Encoder::new(&mut buf).u32(2).unwrap();
    Encoder::new(&mut buf).end().unwrap();

    let mut d = Decoder::new(&buf);
    let iter = d.array_iter::<u32>().unwrap();
    let hint = iter.size_hint();
    assert_eq!(hint, (0, None));
    let mut iter = iter;
    let mut vals: Vec<u32> = Vec::new();
    while let Some(r) = iter.next() {
        vals.push(r.unwrap());
    }
    assert_eq!(vals, vec![1, 2]);
}

#[test]
fn decoder_indef_map_iter() {
    let mut buf = Vec::new();
    let mut enc = Encoder::new(&mut buf);
    enc.begin_map().unwrap();
    enc.u32(1).unwrap().u32(10).unwrap();
    enc.u32(2).unwrap().u32(20).unwrap();
    enc.end().unwrap();

    let mut d = Decoder::new(&buf);
    let iter = d.map_iter::<u32, u32>().unwrap();
    let hint = iter.size_hint();
    assert_eq!(hint, (0, None));
    let mut iter = iter;
    let mut pairs: Vec<(u32, u32)> = Vec::new();
    while let Some(r) = iter.next() {
        pairs.push(r.unwrap());
    }
    assert_eq!(pairs, vec![(1, 10), (2, 20)]);
}

#[test]
fn decoder_definite_bytes_iter_size_hint() {
    let mut buf = Vec::new();
    Encoder::new(&mut buf).bytes(b"hello").unwrap();
    let mut d = Decoder::new(&buf);
    let iter = d.bytes_iter().unwrap();
    assert_eq!(iter.size_hint(), (1, Some(1)));
}

#[test]
fn decoder_definite_str_iter_size_hint() {
    let mut buf = Vec::new();
    Encoder::new(&mut buf).str("hello").unwrap();
    let mut d = Decoder::new(&buf);
    let iter = d.str_iter().unwrap();
    assert_eq!(iter.size_hint(), (1, Some(1)));
}

#[test]
fn decoder_exhausted_iter_size_hint() {
    let bytes = minicbor::to_vec::<[u32; 0]>([]).unwrap();
    let mut d = Decoder::new(&bytes);
    let mut iter = d.array_iter::<u32>().unwrap();
    assert!(iter.next().is_none());
    assert_eq!(iter.size_hint(), (0, Some(0)));
}

#[test]
fn decoder_bytes_iter_error_on_corrupt() {
    let buf = [0x5f, 0xff, 0x01];
    let mut d = Decoder::new(&buf);
    let mut iter = d.bytes_iter().unwrap();
    let _first = iter.next();
    assert_eq!(iter.size_hint(), (0, Some(0)));
}

#[test]
fn decoder_str_iter_end_size_hint() {
    let mut buf = Vec::new();
    Encoder::new(&mut buf).str("hello").unwrap();
    let mut d = Decoder::new(&buf);
    let mut iter = d.str_iter().unwrap();
    let _ = iter.next();
    assert_eq!(iter.size_hint(), (0, Some(0)));
}

#[test]
fn decoder_array_iter_without_ctx_indef_size_hint() {
    let mut buf = Vec::new();
    Encoder::new(&mut buf).begin_array().unwrap();
    Encoder::new(&mut buf).u32(1).unwrap();
    Encoder::new(&mut buf).end().unwrap();
    let mut d = Decoder::new(&buf);
    let iter = d.array_iter::<u32>().unwrap();
    let hint = iter.size_hint();
    assert_eq!(hint, (0, None));
}

#[test]
fn decoder_map_iter_indef_size_hint_and_ctx() {
    let mut buf = Vec::new();
    let mut enc = Encoder::new(&mut buf);
    enc.begin_map().unwrap();
    enc.u32(1).unwrap().u32(10).unwrap();
    enc.end().unwrap();

    let mut d = Decoder::new(&buf);
    let mut ctx = ();
    let iter = d.map_iter_with::<(), u32, u32>(&mut ctx).unwrap();
    let hint = iter.size_hint();
    assert_eq!(hint, (0, None));
}

#[test]
fn decoder_into_size_hint_overflow() {
    let mut buf = Vec::new();
    let mut enc = Encoder::new(&mut buf);
    enc.integer(max_int()).unwrap();
}

#[test]
fn decoder_bytes_iter_current_error() {
    let buf = [0x5f];
    let mut d = Decoder::new(&buf);
    let mut iter = d.bytes_iter().unwrap();
    let item = iter.next().unwrap();
    assert!(item.is_err());
}

#[test]
fn decoder_str_iter_current_error() {
    let buf = [0x7f];
    let mut d = Decoder::new(&buf);
    let mut iter = d.str_iter().unwrap();
    let item = iter.next().unwrap();
    assert!(item.is_err());
}

#[test]
fn decoder_array_iter_current_error() {
    let buf = [0x9f];
    let mut d = Decoder::new(&buf);
    let mut iter = d.array_iter::<u32>().unwrap();
    let item = iter.next().unwrap();
    assert!(item.is_err());
}

#[test]
fn decoder_map_iter_current_error() {
    let buf = [0xbf];
    let mut d = Decoder::new(&buf);
    let mut iter = d.map_iter::<u32, u32>().unwrap();
    let item = iter.next().unwrap();
    assert!(item.is_err());
}

#[test]
fn decoder_map_iter_with_ctx_current_error() {
    let buf = [0xbf];
    let mut d = Decoder::new(&buf);
    let mut ctx = ();
    let mut iter = d.map_iter_with::<(), u32, u32>(&mut ctx).unwrap();
    let item = iter.next().unwrap();
    assert!(item.is_err());
}

#[test]
fn decoder_array_iter_with_ctx_current_error() {
    let buf = [0x9f];
    let mut d = Decoder::new(&buf);
    let mut ctx = ();
    let mut iter = d.array_iter_with::<(), u32>(&mut ctx).unwrap();
    let item = iter.next().unwrap();
    assert!(item.is_err());
}

#[test]
fn decoder_array_iter_indef_size_hint() {
    let mut buf = Vec::new();
    Encoder::new(&mut buf).begin_array().unwrap();
    Encoder::new(&mut buf).u32(1).unwrap();
    Encoder::new(&mut buf).end().unwrap();

    let mut d = Decoder::new(&buf);
    let iter = d.array_iter::<u32>().unwrap();
    assert_eq!(iter.size_hint(), (0, None));
}

#[test]
fn decoder_into_size_hint_end_state() {
    let bytes = minicbor::to_vec::<[u32; 0]>([]).unwrap();
    let mut d = Decoder::new(&bytes);
    let mut iter = d.array_iter::<u32>().unwrap();
    let _ = iter.next();
    assert_eq!(iter.size_hint(), (0, Some(0)));
}

#[test]
fn decoder_array_iter_with_ctx_size_hint() {
    let mut buf = Vec::new();
    Encoder::new(&mut buf).begin_array().unwrap();
    Encoder::new(&mut buf).u32(1).unwrap();
    Encoder::new(&mut buf).end().unwrap();

    let mut d = Decoder::new(&buf);
    let mut ctx = ();
    let iter = d.array_iter_with::<(), u32>(&mut ctx).unwrap();
    assert_eq!(iter.size_hint(), (0, None));
}

#[test]
fn decoder_indef_array_iter_exhausted_size_hint() {
    let mut buf = Vec::new();
    Encoder::new(&mut buf).begin_array().unwrap();
    Encoder::new(&mut buf).end().unwrap();

    let mut d = Decoder::new(&buf);
    let mut iter = d.array_iter::<u32>().unwrap();
    assert!(iter.next().is_none());
    assert_eq!(iter.size_hint(), (0, Some(0)));
}

#[test]
fn decoder_indef_map_iter_exhausted_size_hint() {
    let mut buf = Vec::new();
    let mut enc = Encoder::new(&mut buf);
    enc.begin_map().unwrap();
    enc.end().unwrap();

    let mut d = Decoder::new(&buf);
    let mut iter = d.map_iter::<u32, u32>().unwrap();
    assert!(iter.next().is_none());
    assert_eq!(iter.size_hint(), (0, Some(0)));
}

#[test]
fn decoder_indef_array_iter_with_ctx_exhausted_size_hint() {
    let mut buf = Vec::new();
    Encoder::new(&mut buf).begin_array().unwrap();
    Encoder::new(&mut buf).end().unwrap();

    let mut d = Decoder::new(&buf);
    let mut ctx = ();
    let mut iter = d.array_iter_with::<(), u32>(&mut ctx).unwrap();
    assert!(iter.next().is_none());
    assert_eq!(iter.size_hint(), (0, Some(0)));
}

#[test]
fn decoder_indef_map_iter_with_ctx_exhausted_size_hint() {
    let mut buf = Vec::new();
    let mut enc = Encoder::new(&mut buf);
    enc.begin_map().unwrap();
    enc.end().unwrap();

    let mut d = Decoder::new(&buf);
    let mut ctx = ();
    let mut iter = d.map_iter_with::<(), u32, u32>(&mut ctx).unwrap();
    assert!(iter.next().is_none());
    assert_eq!(iter.size_hint(), (0, Some(0)));
}

#[test]
fn decoder_bytes_iter_read_error() {
    let mut d = Decoder::new(&[]);
    let err = d.bytes_iter().unwrap_err();
    assert!(err.to_string().contains("end of input"));
}

#[test]
fn decoder_bytes_iter_type_of_error() {
    let mut d = Decoder::new(&[0x38]);
    let err = d.bytes_iter().unwrap_err();
    assert!(err.to_string().contains("end of input"));
}

#[test]
fn decoder_bytes_iter_unsigned_error() {
    let mut d = Decoder::new(&[0x59]);
    let err = d.bytes_iter().unwrap_err();
    assert!(err.to_string().contains("end of input"));
}

#[test]
fn decoder_str_iter_read_error() {
    let mut d = Decoder::new(&[]);
    let err = d.str_iter().unwrap_err();
    assert!(err.to_string().contains("end of input"));
}

#[test]
fn decoder_str_iter_type_of_error() {
    let mut d = Decoder::new(&[0x38]);
    let err = d.str_iter().unwrap_err();
    assert!(err.to_string().contains("end of input"));
}

#[test]
fn decoder_str_iter_unsigned_error() {
    let mut d = Decoder::new(&[0x79]);
    let err = d.str_iter().unwrap_err();
    assert!(err.to_string().contains("end of input"));
}

#[test]
fn decoder_str_iter_definite() {
    let mut d = Decoder::new(&[0x65, b'h', b'e', b'l', b'l', b'o']);
    let mut iter = d.str_iter().unwrap();
    let s = iter.next().unwrap().unwrap();
    assert_eq!(s, "hello");
    assert!(iter.next().is_none());
}

#[test]
fn decoder_str_iter_indefinite() {
    let mut d = Decoder::new(&[0x7f, 0x62, b'a', b'b', 0x63, b'c', b'd', b'e', 0xff]);
    let mut iter = d.str_iter().unwrap();
    assert_eq!(iter.next().unwrap().unwrap(), "ab");
    assert_eq!(iter.next().unwrap().unwrap(), "cde");
    assert!(iter.next().is_none());
}

#[test]
fn decoder_str_iter_utf8_error() {
    let mut d = Decoder::new(&[0x62, 0xff, 0xfe]);
    let mut iter = d.str_iter().unwrap();
    let err = iter.next().unwrap().unwrap_err();
    assert!(err.to_string().contains("invalid utf-8"));
}

#[test]
fn decoder_str_iter_size_hint() {
    let mut d = Decoder::new(&[0x65, b'h', b'e', b'l', b'l', b'o']);
    let iter = d.str_iter().unwrap();
    assert_eq!(iter.size_hint(), (1, Some(1)));

    let mut d = Decoder::new(&[0x7f, 0xff]);
    let mut iter = d.str_iter().unwrap();
    assert_eq!(iter.size_hint(), (0, None));
    assert!(iter.next().is_none());
    assert_eq!(iter.size_hint(), (0, Some(0)));
}

#[test]
fn decoder_str_iter_indef_current_error() {
    let mut d = Decoder::new(&[0x7f]);
    let mut iter = d.str_iter().unwrap();
    let err = iter.next().unwrap().unwrap_err();
    assert!(err.to_string().contains("end of input"));
}

#[test]
fn decoder_array_iter_error() {
    let mut d = Decoder::new(&[0x01]);
    let err = d.array_iter::<u32>().unwrap_err();
    assert!(err.is_type_mismatch());
}

#[test]
fn decoder_array_iter_with_error() {
    let mut d = Decoder::new(&[0x01]);
    let err = d.array_iter_with::<(), u32>(&mut ()).unwrap_err();
    assert!(err.is_type_mismatch());
}

#[test]
fn decoder_array_iter_with_definite() {
    let mut buf = Vec::new();
    let mut enc = Encoder::new(&mut buf);
    enc.array(2).unwrap();
    enc.u32(10).unwrap();
    enc.u32(20).unwrap();
    let mut d = Decoder::new(&buf);
    let mut ctx = ();
    let mut it = d.array_iter_with(&mut ctx).unwrap();
    let mut items: Vec<u32> = Vec::new();
    while let Some(r) = it.next() {
        items.push(r.unwrap());
    }
    assert_eq!(items, vec![10, 20]);
}

#[test]
fn decoder_array_iter_with_indefinite() {
    let mut d = Decoder::new(&[0x9f, 0x01, 0x02, 0xff]);
    let mut ctx = ();
    let mut it = d.array_iter_with(&mut ctx).unwrap();
    let mut items: Vec<u32> = Vec::new();
    while let Some(r) = it.next() {
        items.push(r.unwrap());
    }
    assert_eq!(items, vec![1, 2]);
}

#[test]
fn decoder_array_iter_with_element_error() {
    let mut buf = Vec::new();
    let mut enc = Encoder::new(&mut buf);
    enc.array(2).unwrap();
    enc.u32(1).unwrap();
    enc.str("oops").unwrap();
    let mut d = Decoder::new(&buf);
    let mut ctx = ();
    let mut iter = d.array_iter_with::<(), u32>(&mut ctx).unwrap();
    assert!(iter.next().unwrap().is_ok());
    assert!(iter.next().unwrap().is_err());
}

#[test]
fn decoder_array_iter_with_empty() {
    let mut d = Decoder::new(&[0x80]);
    let mut ctx = ();
    let mut iter = d.array_iter_with::<(), u32>(&mut ctx).unwrap();
    assert!(iter.next().is_none());
}

#[test]
fn decoder_array_iter_with_size_hint() {
    let mut d = Decoder::new(&[0x82, 0x01, 0x02]);
    let mut ctx = ();
    let iter = d.array_iter_with::<(), u32>(&mut ctx).unwrap();
    assert_eq!(iter.size_hint(), (2, Some(2)));
}

#[test]
fn decoder_array_iter_with_indef_current_error() {
    let mut d = Decoder::new(&[0x9f]);
    let mut ctx = ();
    let mut iter = d.array_iter_with::<(), u32>(&mut ctx).unwrap();
    let err = iter.next().unwrap().unwrap_err();
    assert!(err.to_string().contains("end of input"));
}

#[test]
fn decoder_map_iter_error() {
    let mut d = Decoder::new(&[0x01]);
    let err = d.map_iter::<u32, u32>().unwrap_err();
    assert!(err.is_type_mismatch());
}

#[test]
fn decoder_map_iter_definite() {
    let mut buf = Vec::new();
    let mut enc = Encoder::new(&mut buf);
    enc.map(2).unwrap();
    enc.u32(1).unwrap();
    enc.u32(10).unwrap();
    enc.u32(2).unwrap();
    enc.u32(20).unwrap();
    let mut d = Decoder::new(&buf);
    let mut it = d.map_iter().unwrap();
    let mut items: Vec<(u32, u32)> = Vec::new();
    while let Some(r) = it.next() {
        items.push(r.unwrap());
    }
    assert_eq!(items, vec![(1, 10), (2, 20)]);
}

#[test]
fn decoder_map_iter_indefinite() {
    let mut d = Decoder::new(&[0xbf, 0x01, 0x0a, 0xff]);
    let mut it = d.map_iter().unwrap();
    let mut items: Vec<(u32, u32)> = Vec::new();
    while let Some(r) = it.next() {
        items.push(r.unwrap());
    }
    assert_eq!(items, vec![(1, 10)]);
}

#[test]
fn decoder_map_iter_empty() {
    let mut d = Decoder::new(&[0xa0]);
    let mut iter = d.map_iter::<u32, u32>().unwrap();
    assert!(iter.next().is_none());
}

#[test]
fn decoder_map_iter_element_error() {
    let mut buf = Vec::new();
    let mut enc = Encoder::new(&mut buf);
    enc.map(1).unwrap();
    enc.u32(1).unwrap();
    enc.str("not_u32").unwrap();
    let mut d = Decoder::new(&buf);
    let mut iter = d.map_iter::<u32, u32>().unwrap();
    assert!(iter.next().unwrap().is_err());
}

#[test]
fn decoder_map_iter_size_hint() {
    let mut buf = Vec::new();
    let mut enc = Encoder::new(&mut buf);
    enc.map(3).unwrap();
    for _ in 0..3 { enc.u32(0).unwrap(); enc.u32(0).unwrap(); }
    let mut d = Decoder::new(&buf);
    let iter = d.map_iter::<u32, u32>().unwrap();
    assert_eq!(iter.size_hint(), (3, Some(3)));
}

#[test]
fn decoder_map_iter_indef_current_error() {
    let mut d = Decoder::new(&[0xbf]);
    let mut iter = d.map_iter::<u32, u32>().unwrap();
    let err = iter.next().unwrap().unwrap_err();
    assert!(err.to_string().contains("end of input"));
}

#[test]
fn decoder_map_iter_with_error() {
    let mut d = Decoder::new(&[0x01]);
    let err = d.map_iter_with::<(), u32, u32>(&mut ()).unwrap_err();
    assert!(err.is_type_mismatch());
}

#[test]
fn decoder_map_iter_with_definite() {
    let mut buf = Vec::new();
    let mut enc = Encoder::new(&mut buf);
    enc.map(1).unwrap();
    enc.u32(5).unwrap();
    enc.u32(50).unwrap();
    let mut d = Decoder::new(&buf);
    let mut ctx = ();
    let mut it = d.map_iter_with(&mut ctx).unwrap();
    let mut items: Vec<(u32, u32)> = Vec::new();
    while let Some(r) = it.next() {
        items.push(r.unwrap());
    }
    assert_eq!(items, vec![(5, 50)]);
}

#[test]
fn decoder_map_iter_with_indefinite() {
    let mut d = Decoder::new(&[0xbf, 0x01, 0x02, 0xff]);
    let mut ctx = ();
    let mut it = d.map_iter_with(&mut ctx).unwrap();
    let mut items: Vec<(u32, u32)> = Vec::new();
    while let Some(r) = it.next() {
        items.push(r.unwrap());
    }
    assert_eq!(items, vec![(1, 2)]);
}

#[test]
fn decoder_map_iter_with_element_error() {
    let mut buf = Vec::new();
    let mut enc = Encoder::new(&mut buf);
    enc.map(1).unwrap();
    enc.str("key").unwrap();
    enc.u32(1).unwrap();
    let mut d = Decoder::new(&buf);
    let mut ctx = ();
    let mut iter = d.map_iter_with::<(), u32, u32>(&mut ctx).unwrap();
    assert!(iter.next().unwrap().is_err());
}

#[test]
fn decoder_map_iter_with_size_hint() {
    let mut d = Decoder::new(&[0xa1, 0x01, 0x02]);
    let mut ctx = ();
    let iter = d.map_iter_with::<(), u32, u32>(&mut ctx).unwrap();
    assert_eq!(iter.size_hint(), (1, Some(1)));
}

#[test]
fn decoder_map_iter_with_indef_current_error() {
    let mut d = Decoder::new(&[0xbf]);
    let mut ctx = ();
    let mut iter = d.map_iter_with::<(), u32, u32>(&mut ctx).unwrap();
    let err = iter.next().unwrap().unwrap_err();
    assert!(err.to_string().contains("end of input"));
}
