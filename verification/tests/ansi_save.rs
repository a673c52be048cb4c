use mystic_draw::{convert_to_ans, Buffer, SaveOptions};

fn gentle(data: &[u8]) -> String {
    let b: Vec<u8> = data.iter().map(|&x| if x == 27 { b'x' } else { x }).collect();
    String::from_utf8_lossy(b.as_slice()).to_string()
}

fn test_ansi(data: &[u8]) {
    let buf = Buffer::from_bytes("test.ans", data).unwrap();
    let converted = convert_to_ans(&buf, &SaveOptions::new()).unwrap();
    assert_eq!(gentle(data), gentle(&converted));
}

const SPACES: &[u8] = b"\x1B[0mA A  A   A    A\x1B[5CA\x1B[6CA\x1B[8CA";
const FG: &[u8] = b"\x1B[0ma\x1B[32ma\x1B[33ma\x1B[1ma\x1B[35ma\x1B[0;35ma\x1B[1;32ma\x1B[0;36ma";
const BG: &[u8] = b"\x1B[0mA\x1B[44mA\x1B[45mA\x1B[31;40mA\x1B[42mA\x1B[40mA\x1B[1;46mA\x1B[0mA\x1B[1;47mA\x1B[0;47mA";
const BLINK: &[u8] = b"\x1B[0mA\x1B[5mA\x1B[0mA\x1B[1;5;42mA\x1B[0;1;42mA\x1B[0;5mA\x1B[0;36mA\x1B[5;33mA\x1B[0;1mA";
const EOL: &[u8] = b"\x1B[0;1m\x1B[79Cdd";

fn first_char_color() {
    test_ansi(b"\x1B[0;1;36mA");
    test_ansi(b"\x1B[0;31mA");
    test_ansi(b"\x1B[0;33;45mA");
    test_ansi(b"\x1B[0;1;33;45mA");
}

#[test]
fn ansi_test_space_compression() {
    test_ansi(SPACES);
}

#[test]
fn ansi_test_fg_color_change() {
    test_ansi(FG);
}

#[test]
fn ansi_test_bg_color_change() {
    test_ansi(BG);
}

#[test]
fn ansi_test_blink_change() {
    test_ansi(BLINK);
}

#[test]
fn ansi_test_eol_skip() {
    test_ansi(EOL);
}

#[test]
fn ansi_test_first_char_color() {
    first_char_color();
}

#[test]
fn mod_test_space_compression() {
    test_ansi(SPACES);
}

#[test]
fn mod_test_fg_color_change() {
    test_ansi(FG);
}

#[test]
fn mod_test_bg_color_change() {
    test_ansi(BG);
}

#[test]
fn mod_test_blink_change() {
    test_ansi(BLINK);
}

#[test]
fn mod_test_eol_skip() {
    test_ansi(EOL);
}

#[test]
fn mod_test_first_char_color() {
    first_char_color();
}

#[test]
fn ansi_colors_fit_only_dark_backgrounds() {
    let mut buf = mystic_draw::Buffer::create(4, 2);
    assert!(mystic_draw::ans_colors_fit(&buf));
    assert!(mystic_draw::pcb_colors_fit(&buf));
    buf.set_char(0, mystic_draw::Position::from(1, 1), mystic_draw::DosChar {
        char_code: b'A',
        attribute: mystic_draw::TextAttribute::from_color(7, 9),
    });
    assert!(!mystic_draw::ans_colors_fit(&buf));
    assert!(mystic_draw::pcb_colors_fit(&buf));
}
