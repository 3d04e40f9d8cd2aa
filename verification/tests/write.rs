use minicbor::encode::write::{Cursor, Write};

#[test]
fn write_through_mut_ref() {
    let mut buf = Vec::new();
    let w: &mut Vec<u8> = &mut buf;
    w.write_all(b"hello").unwrap();
    assert_eq!(buf, b"hello");
}

#[test]
fn write_slice_end_of_slice() {
    let mut buf = [0u8; 2];
    let mut slice: &mut [u8] = &mut buf;
    let err = slice.write_all(b"too long").unwrap_err();
    assert_eq!(err.to_string(), "end of slice");
}

#[test]
fn cursor_set_position() {
    let mut buf = [0u8; 16];
    let mut c = Cursor::new(&mut buf[..]);
    c.write_all(&[1, 2, 3]).unwrap();
    assert_eq!(c.position(), 3);
    c.set_position(1);
    assert_eq!(c.position(), 1);
}

#[test]
fn cursor_get_mut_and_into_inner() {
    let mut c = Cursor::new([0u8; 8]);
    c.write_all(&[1, 2]).unwrap();
    c.get_mut()[0] = 99;
    assert_eq!(c.get_ref()[0], 99);
    let arr = c.into_inner();
    assert_eq!(arr[0], 99);
}

#[test]
fn cursor_slice_overflow() {
    let mut buf = [0u8; 2];
    let mut c = Cursor::new(&mut buf[..]);
    let err = c.write_all(b"too long").unwrap_err();
    assert_eq!(err.to_string(), "end of slice");
}

#[test]
fn cursor_array_overflow() {
    let mut c = Cursor::new([0u8; 2]);
    let err = c.write_all(b"too long").unwrap_err();
    assert_eq!(err.to_string(), "end of array");
}

#[test]
fn cursor_array_0_success() {
    let mut c = Cursor::new([0u8; 0]);
    c.write_all(&[]).unwrap();
    assert_eq!(c.position(), 0);
}

#[test]
fn cursor_array_2_success() {
    let mut c = Cursor::new([0u8; 2]);
    c.write_all(&[1]).unwrap();
    assert_eq!(c.position(), 1);
}

#[test]
fn cursor_array_8_overflow() {
    let mut c = Cursor::new([0u8; 8]);
    c.write_all(b"too long!").unwrap_err();
}

#[test]
fn cursor_box_overflow() {
    let mut c = Cursor::new(vec![0u8; 2].into_boxed_slice());
    let err = c.write_all(b"too long").unwrap_err();
    assert_eq!(err.to_string(), "end of slice");
}
