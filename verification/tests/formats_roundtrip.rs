use mystic_draw::{
    convert_to_binary, convert_to_tnd, convert_to_xb, BitFont, Buffer, DosChar, LoadError, Position, SauceError, SauceString,
    SaveError, SaveOptions, Size, TextAttribute,
};

fn picture(w: u16, h: u16) -> Buffer {
    let mut b = Buffer::create(w, h);
    let text = b"Hello, world! ANSI art";
    for y in 0..h as i32 {
        for x in 0..w as i32 {
            let c = text[((x + y) as usize) % text.len()];
            let fg = ((x + 2 * y) % 16) as u8;
            let bg = ((x + y) % 8) as u8;
            b.layers[0].set_char(Position::from(x, y), DosChar { char_code: c, attribute: TextAttribute::from_color(fg, bg) });
        }
    }
    b
}

fn same_cells(a: &Buffer, b: &Buffer, w: i32, h: i32) {
    for y in 0..h {
        for x in 0..w {
            let ca = a.get_char(Position::from(x, y));
            let cb = b.get_char(Position::from(x, y));
            assert_eq!(ca.char_code, cb.char_code, "char at {},{}", x, y);
            assert_eq!(ca.attribute.as_u8(), cb.attribute.as_u8(), "attribute at {},{}", x, y);
        }
    }
}

#[test]
fn xbin_roundtrip_gives_the_cells_back() {
    let b = picture(13, 4);
    let bytes = convert_to_xb(&b).unwrap();
    assert_eq!(b"XBIN\x1a".to_vec(), bytes[0..5].to_vec());
    let back = Buffer::from_bytes("pic.xb", &bytes).unwrap();
    assert_eq!(13, back.width);
    assert_eq!(4, back.height);
    same_cells(&b, &back, 13, 4);
}

#[test]
fn xbin_compresses_runs() {
    let mut b = Buffer::create(64, 1);
    for x in 0..64 {
        b.layers[0].set_char(Position::from(x, 0), DosChar { char_code: b'=', attribute: TextAttribute::from_color(7, 0) });
    }
    let bytes = convert_to_xb(&b).unwrap();
    // header, then one run of 64 equal cells
    assert_eq!(11 + 3, bytes.len());
    assert_eq!(0xC0 | 63, bytes[11]);
    let back = Buffer::from_bytes("pic.xb", &bytes).unwrap();
    same_cells(&b, &back, 64, 1);
}

#[test]
fn xbin_refuses_a_wide_font() {
    let mut b = picture(4, 2);
    b.font = Some(BitFont { name: SauceString::new(), size: Size::from(9, 16), data: Vec::new() });
    assert_eq!(Err(SaveError::UnsupportedFont), convert_to_xb(&b).map(|_| ()));
}

#[test]
fn bin_roundtrip_gives_the_cells_back() {
    let b = picture(160, 3);
    let bytes = convert_to_binary(&b, &SaveOptions::new()).unwrap();
    assert_eq!(2 * 160 * 3, bytes.len());
    let back = Buffer::from_bytes("pic.bin", &bytes).unwrap();
    same_cells(&b, &back, 160, 3);
}

#[test]
fn bin_with_odd_length_is_refused() {
    assert_eq!(Err(LoadError::BinOddLength), Buffer::from_bytes("pic.bin", &[65, 7, 66]).map(|_| ()));
}

#[test]
fn bin_too_wide_for_a_record() {
    let b = picture(600, 1);
    let mut options = SaveOptions::new();
    options.save_sauce = true;
    assert_eq!(Err(SauceError::BinTooWide), convert_to_binary(&b, &options).map(|_| ()));
}

#[test]
fn xbin_errors() {
    assert_eq!(Err(LoadError::XbTooShort), Buffer::from_bytes("pic.xb", b"XBIN").map(|_| ()));
    assert_eq!(Err(LoadError::XbInvalidId), Buffer::from_bytes("pic.xb", b"XBIM\x1a\x01\x00\x01\x00\x10\x00").map(|_| ()));
}

#[test]
fn tundra_roundtrip_gives_the_characters_back() {
    let b = picture(80, 2);
    let bytes = convert_to_tnd(&b).unwrap();
    assert_eq!(b"\x18TUNDRA24".to_vec(), bytes[0..9].to_vec());
    let back = Buffer::from_bytes("pic.tnd", &bytes).unwrap();
    for y in 0..2 {
        for x in 0..80 {
            let p = Position::from(x, y);
            assert_eq!(b.get_char(p).char_code, back.get_char(p).char_code);
            let ca = b.get_char(p).attribute;
            let cb = back.get_char(p).attribute;
            assert_eq!(b.palette.colors[ca.get_foreground() as usize].get_rgb(), back.palette.colors[cb.get_foreground() as usize].get_rgb());
            assert_eq!(b.palette.colors[ca.get_background() as usize].get_rgb(), back.palette.colors[cb.get_background() as usize].get_rgb());
        }
    }
}

#[test]
fn tundra_errors() {
    assert_eq!(Err(LoadError::TndTooShort), Buffer::from_bytes("pic.tnd", b"\x18TUN").map(|_| ()));
    assert_eq!(Err(LoadError::TndInvalidId), Buffer::from_bytes("pic.tnd", b"\x18TUNDRA25abc").map(|_| ()));
}

#[test]
fn to_bytes_picks_the_writer() {
    let b = picture(80, 2);
    let options = SaveOptions::new();
    let font = vec![0u8; 4096];
    assert_eq!(convert_to_binary(&b, &options).unwrap(), b.to_bytes("bin", &options, &font).unwrap());
    assert_eq!(convert_to_xb(&b).unwrap(), b.to_bytes("xb", &options, &font).unwrap());
    assert_eq!(convert_to_tnd(&b).unwrap(), b.to_bytes("tnd", &options, &font).unwrap());
    let ans = b.to_bytes("ans", &options, &font).unwrap();
    assert_eq!(ans, b.to_bytes("ice", &options, &font).unwrap());
    let asc = b.to_bytes("whatever", &options, &font).unwrap();
    assert_eq!(b"Hello, world! ANSI art".to_vec(), asc[0..22].to_vec());
    let adf = b.to_bytes("adf", &options, &font).unwrap();
    assert_eq!(1 + 192 + 4096 + 2 * 80 * 2, adf.len());
}

#[test]
fn ansi_roundtrip_via_to_bytes() {
    let b = picture(80, 3);
    let bytes = b.to_bytes("ans", &SaveOptions::new(), &[]).unwrap();
    let back = Buffer::from_bytes("pic.ans", &bytes).unwrap();
    for y in 0..3 {
        for x in 0..80 {
            let p = Position::from(x, y);
            assert_eq!(b.get_char(p).char_code, back.get_char(p).char_code, "char at {},{}", x, y);
        }
    }
}

#[test]
fn sauce_record_roundtrip() {
    let mut b = picture(80, 2);
    b.title = SauceString::from("My title");
    b.author = SauceString::from("Me");
    b.comments.push(SauceString::from("first comment"));
    let mut options = SaveOptions::new();
    options.save_sauce = true;
    let bytes = b.to_bytes("asc", &options, &[]).unwrap();
    let back = Buffer::from_bytes("pic.asc", &bytes).unwrap();
    assert_eq!("My title", back.title.to_string());
    assert_eq!("Me", back.author.to_string());
    assert_eq!(1, back.comments.len());
    assert_eq!("first comment", back.comments[0].to_string());
    assert_eq!(80, back.width);
    assert_eq!(2, back.height);
}

#[test]
fn too_many_comments_are_refused() {
    let mut b = picture(80, 1);
    for _ in 0..256 {
        b.comments.push(SauceString::from("c"));
    }
    let mut options = SaveOptions::new();
    options.save_sauce = true;
    assert!(b.to_bytes("asc", &options, &[]).is_err());
}

#[test]
fn save_sauce_defaults() {
    let b = picture(80, 1);
    assert_eq!((false, String::new()), b.get_save_sauce_default("ans"));
    assert_eq!((true, "width != 160".to_string()), b.get_save_sauce_default("bin"));
    let w = picture(100, 1);
    assert_eq!((true, "width != 80".to_string()), w.get_save_sauce_default("pcb"));
}
