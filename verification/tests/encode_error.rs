
#[test]
fn encode_error_message() {
    let e = minicbor::encode::Error::<std::io::Error>::message("test msg");
    assert!(e.is_message());
    assert!(!e.is_write());
    assert_eq!(e.to_string(), "test msg");
}

#[test]
fn encode_error_write() {
    let io_err = std::io::Error::new(std::io::ErrorKind::Other, "io fail");
    let e = minicbor::encode::Error::write(io_err);
    assert!(e.is_write());
    assert!(!e.is_message());
    assert!(e.as_write().is_some());
    let w = e.into_write().unwrap();
    assert_eq!(w.to_string(), "io fail");
}

#[test]
fn encode_error_write_display_with_message() {
    let io_err = std::io::Error::new(std::io::ErrorKind::Other, "io fail");
    let e = minicbor::encode::Error::write(io_err).with_message("extra");
    let s = e.to_string();
    assert!(s.contains("write error"));
    assert!(s.contains("extra"));
}

#[test]
fn encode_error_write_display_without_message() {
    let io_err = std::io::Error::new(std::io::ErrorKind::Other, "io fail");
    let e = minicbor::encode::Error::write(io_err);
    let s = e.to_string();
    assert!(s.contains("write error"));
}

#[test]
fn encode_error_into_write_none() {
    let e = minicbor::encode::Error::<std::io::Error>::message("not a write");
    assert!(e.into_write().is_none());
}

#[test]
fn encode_error_as_write_none() {
    let e = minicbor::encode::Error::<std::io::Error>::message("not write");
    assert!(e.as_write().is_none());
}

#[test]
fn encode_error_custom() {
    let custom = std::io::Error::new(std::io::ErrorKind::Other, "custom");
    let e = minicbor::encode::Error::<std::io::Error>::custom(custom);
    assert!(e.is_custom());
    let s = e.to_string();
    assert!(s.contains("encode error"));
}

#[test]
fn encode_error_custom_with_message() {
    let custom = std::io::Error::new(std::io::ErrorKind::Other, "custom");
    let e = minicbor::encode::Error::<std::io::Error>::custom(custom).with_message("ctx");
    let s = e.to_string();
    assert!(s.contains("encode error"));
    assert!(s.contains("ctx"));
}
