use mystic_draw::{convert_to_asc, Buffer, SaveOptions};

fn gentle(data: &[u8]) -> String {
    let b: Vec<u8> = data.iter().map(|&x| if x == 27 { b'x' } else { x }).collect();
    String::from_utf8_lossy(b.as_slice()).to_string()
}

fn test_ascii(data: &[u8]) {
    let buf = Buffer::from_bytes("test.ans", data).unwrap();
    let converted = convert_to_asc(&buf, &SaveOptions::new()).unwrap();
    assert_eq!(gentle(data), gentle(&converted));
}

#[test]
fn test_full_line_height() {
    let mut vec = Vec::new();
    vec.resize(80, b'-');
    let buf = Buffer::from_bytes("test.asc", &vec).unwrap();
    assert_eq!(1, buf.height);
    vec.push(b'-');
    let buf = Buffer::from_bytes("test.asc", &vec).unwrap();
    assert_eq!(2, buf.height);
}

#[test]
fn test_emptylastline_height() {
    let mut vec = Vec::new();
    vec.resize(80, b'-');
    vec.resize(80 * 2, b' ');
    let buf = Buffer::from_bytes("test.asc", &vec).unwrap();
    assert_eq!(2, buf.height);
}

#[test]
fn test_emptylastline_roundtrip() {
    let mut vec = Vec::new();
    vec.resize(80, b'-');
    vec.resize(80 * 2, b' ');
    let buf = Buffer::from_bytes("test.asc", &vec).unwrap();
    assert_eq!(2, buf.height);
    let vec2 = buf.to_bytes("asc", &SaveOptions::new(), &[]).unwrap();
    let buf2 = Buffer::from_bytes("test.asc", &vec2).unwrap();
    assert_eq!(2, buf2.height);
}

#[test]
fn test_eol() {
    let buf = Buffer::from_bytes("test.asc", b"foo\r\n").unwrap();
    assert_eq!(2, buf.height);
}

#[test]
fn test_ws_skip() {
    test_ascii(b"123456789012345678901234567890123456789012345678901234567890123456789012345678902ndline");
}

#[test]
fn test_ws_skip_empty_line() {
    test_ascii(b"12345678901234567890123456789012345678901234567890123456789012345678901234567890\r\n\r\n2ndline");
}

#[test]
fn test_eol_start() {
    test_ascii(b"\r\n2ndline");
}
