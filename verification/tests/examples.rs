use minicbor::{Decoder, Encoder};
use minicbor::data::IanaTag;

#[test]
fn generic_encoding_and_decoding() {
    let input = ["hello", "world"];
    let mut buffer = [0u8; 128];

    minicbor::encode(&input, buffer.as_mut()).unwrap();
    let output: [&str; 2] = minicbor::decode(buffer.as_ref()).unwrap();
    assert_eq!(input, output);
}

#[test]
fn ad_hoc_encoding() {
    let mut buffer = [0u8; 128];
    let mut encoder = Encoder::new(&mut buffer[..]);

    encoder.begin_map().unwrap()
        .str("hello").unwrap().str("world").unwrap()
        .str("submap").unwrap().map(2).unwrap()
            .u8(1).unwrap().bool(true).unwrap()
            .u8(2).unwrap().bool(false).unwrap()
        .u16(34234).unwrap().array(3).unwrap().u8(1).unwrap().u8(2).unwrap().u8(3).unwrap()
        .bool(true).unwrap().null().unwrap()
    .end().unwrap();

    let mut d = Decoder::new(&buffer);
    d.skip().unwrap();
    assert_eq!(buffer[0], 0xbf);
    assert_eq!(buffer[d.position() - 1], 0xff);
}

#[test]
fn ad_hoc_decoding() {
    let input = [
        0xc0, 0x74, 0x32, 0x30, 0x31, 0x33, 0x2d, 0x30,
        0x33, 0x2d, 0x32, 0x31, 0x54, 0x32, 0x30, 0x3a,
        0x30, 0x34, 0x3a, 0x30, 0x30, 0x5a
    ];

    let mut decoder = Decoder::new(&input);
    assert_eq!(IanaTag::DateTime.tag(), decoder.tag().unwrap());
    assert_eq!("2013-03-21T20:04:00Z", decoder.str().unwrap());
}
