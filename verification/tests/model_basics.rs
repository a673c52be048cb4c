use mystic_draw::{
    get_color, file_ext, BufferType, DosChar, FileExt, Layer, OverlayLayer, Position, TextAttribute, TheDrawFont,
    TheDrawFontType,
};

#[test]
fn attribute_byte_roundtrip() {
    for b in 0..=255u8 {
        assert_eq!(b, TextAttribute::from_u8(b, BufferType::LegacyIce).as_u8());
    }
    let a = TextAttribute::from_color(12, 5);
    assert_eq!(0x5C, a.as_u8());
    assert!(a.is_bold());
}

#[test]
fn layer_read_after_write() {
    let mut l = Layer::new();
    let c = DosChar { char_code: b'@', attribute: TextAttribute::from_color(2, 1) };
    l.set_char(Position::from(5, 3), c);
    assert_eq!(b'@', l.get_char(Position::from(5, 3)).char_code);
    assert_eq!(b' ', l.get_char(Position::from(4, 3)).char_code);
    l.set_char(Position::from(-1, 0), c);
    assert_eq!(4, l.lines.len());
}

#[test]
fn join_puts_visible_cells_on_top() {
    let mut a = Layer::new();
    let mut b = Layer::new();
    a.set_char(Position::from(0, 0), DosChar { char_code: b'a', attribute: TextAttribute::from_color(7, 0) });
    a.set_char(Position::from(1, 0), DosChar { char_code: b'b', attribute: TextAttribute::from_color(7, 0) });
    b.set_char(Position::from(1, 0), DosChar { char_code: b'X', attribute: TextAttribute::from_color(7, 0) });
    b.set_char(Position::from(0, 0), DosChar::new());
    a.join(&b);
    assert_eq!(b'a', a.get_char(Position::from(0, 0)).char_code);
    assert_eq!(b'X', a.get_char(Position::from(1, 0)).char_code);
    let mut o = OverlayLayer::new();
    o.set_char(Position::from(0, 0), DosChar { char_code: b'O', attribute: TextAttribute::from_color(7, 0) });
    a.join_overlay(&o);
    assert_eq!(b'O', a.get_char(Position::from(0, 0)).char_code);
}

#[test]
fn positions_in_reading_order() {
    assert!(Position::from(5, 0) < Position::from(0, 1));
    assert!(Position::from(1, 2) > Position::from(0, 2));
    assert_eq!(Position::from(3, 4), Position::from(3, 4));
}

#[test]
fn color_names() {
    assert_eq!("Black", get_color(0));
    assert_eq!("Light Gray", get_color(7));
    assert_eq!("White", get_color(15));
    assert_eq!("Unknown", get_color(16));
}

#[test]
fn file_extensions() {
    assert!(file_ext("a/b/pic.XB") == FileExt::Xb);
    assert!(file_ext("pic.ans") == FileExt::Ans);
    assert!(file_ext(".ans") == FileExt::Other);
    assert!(file_ext("noext") == FileExt::Other);
    assert!(file_ext("dir.bin/file") == FileExt::Other);
}

fn font_file() -> Vec<u8> {
    let mut d = vec![0u8; 233];
    d[0] = 19;
    d[1..19].copy_from_slice(b"TheDraw FONTS file");
    d[24] = 4;
    d[25..29].copy_from_slice(b"Te\0t");
    d[41] = 1;
    d[42] = 1;
    let glyph = [2u8, 1, b'#', b'#', 13, b'#', 0];
    d[43] = glyph.len() as u8;
    for i in 0..94 {
        d[45 + 2 * i] = 0xFF;
        d[46 + 2 * i] = 0xFF;
    }
    // 'A' is character 65: entry 32
    d[45 + 2 * 32] = 0;
    d[46 + 2 * 32] = 0;
    d.extend_from_slice(&glyph);
    d
}

#[test]
fn thedraw_font_reads_and_renders() {
    let f = TheDrawFont::from_bytes(&font_file()).unwrap();
    assert_eq!("Te", f.name);
    assert!(f.font_type == TheDrawFontType::Block);
    assert_eq!(1, f.get_font_height());
    assert!(f.has_char(b'A'));
    assert!(!f.has_char(b'B'));
    let mut e = mystic_draw::Editor::new(0, mystic_draw::Buffer::create(10, 5));
    let size = f.render(&mut e, Position::from(1, 1), TextAttribute::from_color(7, 0), b'A', 0).unwrap();
    assert_eq!(2, size.width);
    assert_eq!(2, size.height);
    assert_eq!(b'#', e.get_char(Position::from(1, 1)).char_code);
    assert_eq!(b'#', e.get_char(Position::from(2, 1)).char_code);
    assert_eq!(b'#', e.get_char(Position::from(1, 2)).char_code);
    assert!(f.render(&mut e, Position::from(1, 1), TextAttribute::from_color(7, 0), b'B', 0).is_none());
    let mut bad = font_file();
    bad[1] = b'X';
    assert!(TheDrawFont::from_bytes(&bad).is_none());
}

#[test]
fn outline_transform() {
    assert_eq!(0xC4, TheDrawFont::transform_outline(0, b'A'));
    assert_eq!(0xDF, TheDrawFont::transform_outline(18, b'A'));
    assert_eq!(b' ', TheDrawFont::transform_outline(3, b'z'));
}

#[test]
fn caret_starts_at_origin_in_default_colors() {
    let c = mystic_draw::Caret::default();
    assert_eq!(Position::from(0, 0), c.get_position());
    assert_eq!(7, c.get_attribute().foreground_color);
    assert_eq!(0, c.get_attribute().background_color);
    assert!(!c.insert_mode);
    let mut d = mystic_draw::Caret::default();
    d.insert_mode = true;
    assert!(c == d);
}

#[test]
fn ega_cycle_twice_gives_the_palette_back() {
    let bytes: Vec<u8> = (0..192u32).map(|i| (i % 64) as u8).collect();
    let p = mystic_draw::Palette::from(&bytes);
    let q = p.cycle_ega_colors();
    assert_eq!(p.colors[6].get_rgb(), q.colors[20].get_rgb());
    assert_eq!(p.colors[56].get_rgb(), q.colors[8].get_rgb());
    let r = q.cycle_ega_colors();
    for i in 0..64 {
        assert_eq!(p.colors[i].get_rgb(), r.colors[i].get_rgb());
    }
}

#[test]
fn sixteen_color_vec_reads_back() {
    let v = mystic_draw::Palette::new().to_16color_vec();
    assert_eq!(48, v.len());
    assert!(mystic_draw::Palette::from(&v).is_default());
}
