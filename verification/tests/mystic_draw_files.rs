use mystic_draw::{
    convert_to_mdf, read_mdf, BitFont, Buffer, BufferType, Color, DosChar, Layer, LoadError, Position, SauceString, SaveError,
    SaveOptions, Size, TextAttribute,
};

fn picture(w: u16, h: u16) -> Buffer {
    let mut b = Buffer::create(w, h);
    let text = b"Mystic Draw layers";
    for y in 0..h as i32 {
        for x in 0..w as i32 {
            let c = text[((x + 3 * y) as usize) % text.len()];
            let fg = ((x + y) % 16) as u8;
            let bg = ((2 * x + y) % 8) as u8;
            b.layers[0].set_char(Position::from(x, y), DosChar { char_code: c, attribute: TextAttribute::from_color(fg, bg) });
        }
    }
    b
}

fn shown_cells_equal(a: &Layer, b: &Layer, w: i32, h: i32) {
    for y in 0..h {
        for x in 0..w {
            let ca = a.get_char(Position::from(x, y));
            let cb = b.get_char(Position::from(x, y));
            assert_eq!(ca.char_code, cb.char_code, "char at {},{}", x, y);
            assert_eq!(ca.attribute.get_foreground(), cb.attribute.get_foreground(), "fg at {},{}", x, y);
            assert_eq!(ca.attribute.get_background(), cb.attribute.get_background(), "bg at {},{}", x, y);
        }
    }
}

fn with_checksum(mut bytes: Vec<u8>) -> Vec<u8> {
    let crc = crc32fast::hash(&bytes[8..]).to_be_bytes();
    bytes[4..8].copy_from_slice(&crc);
    bytes
}

fn header(width: u16, height: u16, flags: u16) -> Vec<u8> {
    let mut v = vec![b'M', b'D', b'f', 0x1A, 0, 0, 0, 0, 0, 0];
    v.extend(std::iter::repeat(b' ').take(35 + 20 + 20));
    v.extend(width.to_be_bytes());
    v.extend(height.to_be_bytes());
    v.extend(flags.to_be_bytes());
    v
}

#[test]
fn mdf_roundtrip_gives_the_picture_back() {
    let mut b = picture(17, 5);
    b.title = SauceString::from("Title");
    b.author = SauceString::from("Author");
    b.group = SauceString::from("Group");
    b.comments.push(SauceString::from("first comment"));
    b.comments.push(SauceString::from("second"));
    let bytes = b.to_bytes("mdf", &SaveOptions::new(), &[]).unwrap();
    assert_eq!(b"MDf\x1a".to_vec(), bytes[0..4].to_vec());
    assert_eq!(crc32fast::hash(&bytes[8..]).to_be_bytes().to_vec(), bytes[4..8].to_vec());
    let back = Buffer::from_bytes("pic.mdf", &bytes).unwrap();
    assert_eq!(17, back.width);
    assert_eq!(5, back.height);
    assert_eq!("Title", back.title.to_string());
    assert_eq!("Author", back.author.to_string());
    assert_eq!("Group", back.group.to_string());
    assert_eq!(2, back.comments.len());
    assert_eq!("first comment", back.comments[0].to_string());
    assert_eq!("second", back.comments[1].to_string());
    assert_eq!(1, back.layers.len());
    assert_eq!("Background", back.layers[0].name);
    assert!(back.layers[0].is_visible);
    shown_cells_equal(&b.layers[0], &back.layers[0], 17, 5);
    assert!(back.font.is_none());
    assert_eq!("IBM VGA", back.font_name.unwrap().to_string());
}

#[test]
fn mdf_roundtrip_keeps_layers_palette_and_font() {
    let mut b = picture(9, 3);
    let mut top = Layer::new();
    top.name = "Top ünïcode".to_string();
    top.is_visible = false;
    top.set_char(Position::from(4, 1), DosChar { char_code: b'X', attribute: TextAttribute::from_color(14, 1) });
    b.layers.push(top);
    b.palette.colors[3] = Color::new(1, 2, 3);
    let mut data = Vec::new();
    for k in 0..256 * 16 {
        data.push((k % 256) as u32);
    }
    b.font = Some(BitFont { name: SauceString::from("Custom"), size: Size { width: 8, height: 16 }, data: data.clone() });
    b.buffer_type = BufferType::LegacyIce;
    let bytes = convert_to_mdf(&b).unwrap();
    let back = Buffer::from_bytes("pic.MDF", &bytes).unwrap();
    assert_eq!(BufferType::LegacyIce, back.buffer_type);
    assert_eq!(2, back.layers.len());
    assert_eq!("Top ünïcode", back.layers[1].name);
    assert!(!back.layers[1].is_visible);
    shown_cells_equal(&b.layers[0], &back.layers[0], 9, 3);
    shown_cells_equal(&b.layers[1], &back.layers[1], 9, 3);
    assert_eq!(b' ', back.layers[1].get_char(Position::from(0, 0)).char_code);
    assert_eq!(b'X', back.layers[1].get_char(Position::from(4, 1)).char_code);
    assert_eq!(16, back.palette.colors.len());
    assert_eq!((1, 2, 3), back.palette.colors[3].get_rgb());
    let font = back.font.unwrap();
    assert_eq!("Custom", font.name.to_string());
    assert_eq!(8, font.size.width);
    assert_eq!(16, font.size.height);
    assert_eq!(data, font.data);
}

#[test]
fn mdf_wide_palette_keeps_colors() {
    let mut b = picture(4, 2);
    for k in 0..40u8 {
        b.palette.colors.push(Color::new(k, k, k));
    }
    b.layers[0].set_char(Position::from(1, 1), DosChar { char_code: b'#', attribute: TextAttribute::from_color(40, 33) });
    let bytes = convert_to_mdf(&b).unwrap();
    let back = Buffer::from_bytes("wide.mdf", &bytes).unwrap();
    assert_eq!(56, back.palette.colors.len());
    let c = back.layers[0].get_char(Position::from(1, 1));
    assert_eq!(b'#', c.char_code);
    assert_eq!(40, c.attribute.get_foreground());
    assert_eq!(33, c.attribute.get_background());
}

#[test]
fn mdf_compresses_repeated_cells() {
    let mut b = Buffer::create(80, 2);
    for x in 0..80 {
        b.layers[0].set_char(Position::from(x, 0), DosChar { char_code: b'=', attribute: TextAttribute::from_color(7, 1) });
    }
    let bytes = convert_to_mdf(&b).unwrap();
    assert!(bytes.len() < 91 + 23 + 40 + 80);
    let back = Buffer::from_bytes("r.mdf", &bytes).unwrap();
    shown_cells_equal(&b.layers[0], &back.layers[0], 80, 2);
}

#[test]
fn mdf_refuses_too_many_comments() {
    let mut b = picture(2, 2);
    for _ in 0..256 {
        b.comments.push(SauceString::from("c"));
    }
    assert!(matches!(convert_to_mdf(&b), Err(SaveError::MdfTooManyComments)));
}

#[test]
fn mdf_too_short() {
    let r = Buffer::from_bytes("x.mdf", &[b'M', b'D', b'f']);
    assert!(matches!(r, Err(LoadError::MdfTooShort)));
}

#[test]
fn mdf_invalid_header() {
    let mut v = header(80, 25, 0);
    v[0] = b'X';
    let r = Buffer::from_bytes("x.mdf", &with_checksum(v));
    assert!(matches!(r, Err(LoadError::MdfInvalidHeader)));
}

#[test]
fn mdf_checksum_mismatch() {
    let mut v = with_checksum(header(80, 25, 0));
    v[50] ^= 1;
    let r = Buffer::from_bytes("x.mdf", &v);
    assert!(matches!(r, Err(LoadError::MdfCrcMismatch)));
}

#[test]
fn mdf_invalid_buffer_type() {
    let r = Buffer::from_bytes("x.mdf", &with_checksum(header(80, 25, 5)));
    assert!(matches!(r, Err(LoadError::MdfInvalidBufferType)));
}

#[test]
fn mdf_unsupported_block() {
    let mut v = header(80, 25, 0);
    v.push(9);
    let r = Buffer::from_bytes("x.mdf", &with_checksum(v));
    assert!(matches!(r, Err(LoadError::MdfUnsupportedBlock(9))));
}

#[test]
fn mdf_truncated_block() {
    let mut v = header(80, 25, 0);
    v.extend([2u8, 0, 0, 0, 5, 1, 2, 3]);
    let r = Buffer::from_bytes("x.mdf", &with_checksum(v));
    assert!(matches!(r, Err(LoadError::MdfTruncated)));
}

#[test]
fn mdf_header_only_is_empty_picture() {
    let mut b = Buffer::new();
    let bytes = with_checksum(header(40, 12, 1));
    let r = read_mdf(&mut b, &bytes);
    assert!(matches!(r, Ok(true)));
    assert_eq!(40, b.width);
    assert_eq!(12, b.height);
    assert_eq!(BufferType::LegacyIce, b.buffer_type);
    assert_eq!(0, b.layers.len());
}

#[test]
fn mdf_reads_uncompressed_and_empty_runs() {
    let mut v = header(4, 2, 0);
    v.push(5);
    v.extend(2u16.to_be_bytes());
    v.extend(b"L1");
    v.push(0);
    v.extend((0x20u16 | 0).to_be_bytes());
    v.extend([0u8; 8]);
    v.extend(4u16.to_be_bytes());
    v.extend((0x8000u16 | 5).to_be_bytes());
    v.extend(2u16.to_be_bytes());
    v.extend([b'A', 0x1F, b'B', 0x2E]);
    v.extend(0u16.to_be_bytes());
    let back = Buffer::from_bytes("x.mdf", &with_checksum(v)).unwrap();
    assert_eq!(1, back.layers.len());
    assert_eq!("L1", back.layers[0].name);
    assert!(back.layers[0].is_visible);
    let a = back.layers[0].get_char(Position::from(1, 1));
    assert_eq!(b'A', a.char_code);
    assert_eq!(15, a.attribute.get_foreground());
    assert_eq!(1, a.attribute.get_background());
    let c = back.layers[0].get_char(Position::from(2, 1));
    assert_eq!(b'B', c.char_code);
    assert_eq!(14, c.attribute.get_foreground());
    assert_eq!(2, c.attribute.get_background());
    assert_eq!(b' ', back.layers[0].get_char(Position::from(0, 0)).char_code);
}

fn crc_bitwise(data: &[u8]) -> u32 {
    let mut c: u32 = 0xFFFF_FFFF;
    for &b in data {
        c ^= b as u32;
        for _ in 0..8 {
            c = if c & 1 == 1 { (c >> 1) ^ 0xEDB8_8320 } else { c >> 1 };
        }
    }
    !c
}

#[test]
fn mdf_checksum_is_bitwise_crc32() {
    assert_eq!(0xCBF4_3926, crc_bitwise(b"123456789"));
    assert_eq!(crc32fast::hash(b"123456789"), crc_bitwise(b"123456789"));
    let buf = mystic_draw::Buffer::create(3, 2);
    let out = mystic_draw::convert_to_mdf(&buf).unwrap();
    let stored = u32::from_be_bytes([out[4], out[5], out[6], out[7]]);
    assert_eq!(crc_bitwise(&out[8..]), stored);
}

#[test]
fn mdf_header_errors_leave_the_buffer() {
    let mut buf = Buffer::create(7, 3);
    buf.title = SauceString::from("kept");
    let mut bytes = convert_to_mdf(&Buffer::create(2, 2)).unwrap();
    bytes[9] ^= 1;
    assert!(read_mdf(&mut buf, &bytes).is_err());
    assert_eq!("kept", buf.title.to_string());
    assert_eq!(7, buf.width);
    assert_eq!(1, buf.layers.len());
    assert!(read_mdf(&mut buf, b"MDf\x1A\x00\x00\x00\x00").is_err());
    assert_eq!(7, buf.width);
}
