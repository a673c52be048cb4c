use mystic_draw::{convert_to_avt, display_avt, AvtReadState, Buffer, BufferType, ParseStates, Position};

fn load(data: &[u8]) -> Buffer {
    Buffer::from_bytes("test.avt", data).unwrap()
}

#[test]
fn avatar_test_clear() {
    let buf = load(&[b'X', 12, b'X']);
    assert_eq!(1, buf.height);
    assert_eq!(1, buf.width);
}

#[test]
fn avatar_test_repeat() {
    let buf = load(&[b'X', 25, b'b', 3, b'X']);
    assert_eq!(1, buf.height);
    assert_eq!(5, buf.width);
    assert_eq!(b'X', buf.get_char(Position::from(0, 0)).char_code);
    assert_eq!(b'b', buf.get_char(Position::from(1, 0)).char_code);
    assert_eq!(b'b', buf.get_char(Position::from(2, 0)).char_code);
    assert_eq!(b'b', buf.get_char(Position::from(3, 0)).char_code);
    assert_eq!(b'X', buf.get_char(Position::from(4, 0)).char_code);
}

#[test]
fn avatar_test_zero_repeat() {
    let buf = load(&[25, b'b', 0]);
    assert_eq!(0, buf.height);
    assert_eq!(0, buf.width);
}

#[test]
fn avatar_test_linebreak_bug() {
    let buf = load(&[
        12, 22, 1, 8, 32, 88, 22, 1, 15, 88, 25, 32, 4, 88, 22, 1, 8, 88, 32, 32, 32, 22, 1, 3, 88, 88, 22, 1, 57, 88,
        88, 88, 25, 88, 7, 22, 1, 9, 25, 88, 4, 22, 1, 25, 88, 88, 88, 88, 88, 88, 22, 1, 1, 25, 88, 13,
    ]);
    assert_eq!(1, buf.height);
    assert_eq!(47, buf.width);
}

fn output_avt(data: &[u8]) -> Vec<u8> {
    let mut result = Vec::new();
    let mut prev = 0;
    for d in data {
        match d {
            12 => result.extend_from_slice(b"^L"),
            25 => result.extend_from_slice(b"^Y"),
            22 => result.extend_from_slice(b"^V"),
            _ => {
                if prev == 22 {
                    match d {
                        1 => result.extend_from_slice(b"<SET_COLOR>"),
                        2 => result.extend_from_slice(b"<BLINK_ON>"),
                        3 => result.extend_from_slice(b"<MOVE_UP>"),
                        4 => result.extend_from_slice(b"<MOVE_DOWN>"),
                        5 => result.extend_from_slice(b"<MOVE_RIGHT"),
                        6 => result.extend_from_slice(b"<MOVE_LEFT>"),
                        7 => result.extend_from_slice(b"<CLR_EOL>"),
                        8 => result.extend_from_slice(b"<GOTO_XY>"),
                        _ => result.extend_from_slice(b"<UNKNOWN_CMD>"),
                    }
                    prev = *d;
                    continue;
                }
                result.push(*d);
            }
        }
        prev = *d;
    }
    result
}

#[test]
fn avatar_test_char_compression() {
    let data = b"\x16\x01\x07A-A--A---A\x19-\x04A\x19-\x05A\x19-\x06A\x19-\x07A";
    let buf = load(data);
    let converted = convert_to_avt(&buf).unwrap();
    let converted = String::from_utf8_lossy(&output_avt(&converted)).to_string();
    let expected = String::from_utf8_lossy(&output_avt(data)).to_string();
    assert_eq!(expected, converted);
}

#[test]
fn avatar_zero_count_repeat_sends_nothing() {
    let mut data = ParseStates::new();
    assert_eq!(Ok((None, false)), display_avt(&mut data, BufferType::LegacyDos, 25));
    assert_eq!(Ok((None, false)), display_avt(&mut data, BufferType::LegacyDos, b'b'));
    assert_eq!(Ok((None, true)), display_avt(&mut data, BufferType::LegacyDos, 0));
    assert_eq!(Ok((None, false)), display_avt(&mut data, BufferType::LegacyDos, 0));
    assert!(data.avt_state == AvtReadState::Chars);
    assert_eq!(Ok((Some(b'X'), false)), display_avt(&mut data, BufferType::LegacyDos, b'X'));
}
