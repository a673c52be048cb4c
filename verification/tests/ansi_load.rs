use mystic_draw::{Buffer, Position};

fn load(name: &str, data: &[u8]) -> Buffer {
    Buffer::from_bytes(name, data).unwrap()
}

fn attr(buf: &Buffer, x: usize) -> u8 {
    buf.layers[0].lines[0].chars[x].attribute.as_u8()
}

fn code(buf: &Buffer, x: usize) -> u8 {
    buf.layers[0].lines[0].chars[x].char_code
}

#[test]
fn buffer_test_ansi_sequence() {
    let buf = load("test", b"\x1B[0;40;37mFoo-\x1B[1mB\x1B[0ma\x1B[35mr");
    assert_eq!(1, buf.height);
    assert_eq!(7, buf.width);
    assert_eq!(b'F', code(&buf, 0));
    assert_eq!(7, attr(&buf, 0));
    assert_eq!(b'o', code(&buf, 1));
    assert_eq!(7, attr(&buf, 1));
    assert_eq!(b'o', code(&buf, 2));
    assert_eq!(7, attr(&buf, 2));
    assert_eq!(b'-', code(&buf, 3));
    assert_eq!(7, attr(&buf, 3));
    assert_eq!(b'B', code(&buf, 4));
    assert_eq!(15, attr(&buf, 4));
    assert_eq!(b'a', code(&buf, 5));
    assert_eq!(7, attr(&buf, 5));
    assert_eq!(b'r', code(&buf, 6));
    assert_eq!(5, attr(&buf, 6));
}

#[test]
fn buffer_test_ansi_30() {
    let buf = load("test", b"\x1B[1;35mA\x1B[30mB\x1B[0mC");
    assert_eq!(b'A', code(&buf, 0));
    assert_eq!(13, attr(&buf, 0));
    assert_eq!(b'B', code(&buf, 1));
    assert_eq!(8, attr(&buf, 1));
    assert_eq!(b'C', code(&buf, 2));
    assert_eq!(7, attr(&buf, 2));
}

#[test]
fn buffer_test_bg_colorrsequence() {
    let buf = load("test", b"\x1B[1;30m1\x1B[0;34m2\x1B[33m3\x1B[1;41m4\x1B[40m5\x1B[43m6\x1B[40m7");
    assert_eq!(b'1', code(&buf, 0));
    assert_eq!(8, attr(&buf, 0));
    assert_eq!(b'2', code(&buf, 1));
    assert_eq!(1, attr(&buf, 1));
    assert_eq!(b'3', code(&buf, 2));
    assert_eq!(6, attr(&buf, 2));
    assert_eq!(b'4', code(&buf, 3));
    assert_eq!(14 + (4 << 4), attr(&buf, 3));
    assert_eq!(b'5', code(&buf, 4));
    assert_eq!(14, attr(&buf, 4));
    assert_eq!(b'6', code(&buf, 5));
    assert_eq!(14 + (6 << 4), attr(&buf, 5));
    assert_eq!(b'7', code(&buf, 6));
    assert_eq!(14, attr(&buf, 6));
}

#[test]
fn ansi_test_ansi_sequence() {
    let buf = load("test.ans", b"\x1B[0;40;37mFoo-\x1B[1mB\x1B[0ma\x1B[35mr");
    assert_eq!(1, buf.height);
    assert_eq!(7, buf.width);
    assert_eq!(b'F', code(&buf, 0));
    assert_eq!(7, attr(&buf, 0));
    assert_eq!(b'o', code(&buf, 1));
    assert_eq!(7, attr(&buf, 1));
    assert_eq!(b'o', code(&buf, 2));
    assert_eq!(7, attr(&buf, 2));
    assert_eq!(b'-', code(&buf, 3));
    assert_eq!(7, attr(&buf, 3));
    assert_eq!(b'B', code(&buf, 4));
    assert_eq!(15, attr(&buf, 4));
    assert_eq!(b'a', code(&buf, 5));
    assert_eq!(7, attr(&buf, 5));
    assert_eq!(b'r', code(&buf, 6));
    assert_eq!(5, attr(&buf, 6));
}

#[test]
fn ansi_test_ansi_30() {
    let buf = load("test.ans", b"\x1B[1;35mA\x1B[30mB\x1B[0mC");
    assert_eq!(b'A', code(&buf, 0));
    assert_eq!(13, attr(&buf, 0));
    assert_eq!(b'B', code(&buf, 1));
    assert_eq!(8, attr(&buf, 1));
    assert_eq!(b'C', code(&buf, 2));
    assert_eq!(7, attr(&buf, 2));
}

#[test]
fn ansi_test_bg_colorrsequence() {
    let buf = load("test.ans", b"\x1B[1;30m1\x1B[0;34m2\x1B[33m3\x1B[1;41m4\x1B[40m5\x1B[43m6\x1B[40m7");
    assert_eq!(b'1', code(&buf, 0));
    assert_eq!(8, attr(&buf, 0));
    assert_eq!(b'2', code(&buf, 1));
    assert_eq!(1, attr(&buf, 1));
    assert_eq!(b'3', code(&buf, 2));
    assert_eq!(6, attr(&buf, 2));
    assert_eq!(b'4', code(&buf, 3));
    assert_eq!(14 + (4 << 4), attr(&buf, 3));
    assert_eq!(b'5', code(&buf, 4));
    assert_eq!(14, attr(&buf, 4));
    assert_eq!(b'6', code(&buf, 5));
    assert_eq!(14 + (6 << 4), attr(&buf, 5));
    assert_eq!(b'7', code(&buf, 6));
    assert_eq!(14, attr(&buf, 6));
}

#[test]
fn ansi_test_linebreak_bug() {
    let buf = load("test", b"X\x16X");
    assert_eq!(3, buf.width);
    assert_eq!(0x16, buf.get_char(Position { x: 1, y: 0 }).char_code);
    let buf = load("test.ans", b"X\x16X");
    assert_eq!(0x16, buf.get_char(Position { x: 1, y: 0 }).char_code);
}

#[test]
fn ansi_test_char_missing_bug() {
    let buf = load("test.ans", b"\x1B[1;35mA\x1B[30mB\x1B[0mC");
    assert_eq!(b'A', code(&buf, 0));
    assert_eq!(13, attr(&buf, 0));
    assert_eq!(b'B', code(&buf, 1));
    assert_eq!(8, attr(&buf, 1));
    assert_eq!(b'C', code(&buf, 2));
    assert_eq!(7, attr(&buf, 2));
}

#[test]
fn test_cursor_forward() {
    let buf = load("test.ans", b"\x1B[70Ctest_me\x1B[20CF");
    assert_eq!(b'F', buf.layers[0].lines[0].chars[79].char_code);
}

#[test]
fn test_cursor_forward_at_eol() {
    let buf = load("test.ans", b"\x1B[75CTEST_\x1B[2CF");
    assert_eq!(b'F', buf.layers[0].lines[1].chars[2].char_code);
}

#[test]
fn test_char0_bug() {
    let buf = load("test.ans", b"\x00A");
    assert_eq!(b'A', buf.layers[0].lines[0].chars[1].char_code);
}
