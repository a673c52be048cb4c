use vstd::prelude::*;

use crate::editor::{group_inv, layer_index, same_props, same_state, Editor};
use crate::position::{Position, Size};
use crate::text_attribute::{BufferType, TextAttribute};
use crate::dos_char::DosChar;
use crate::layer::{grid_get, lemma_layer_read_after_write, shown};
use crate::undo::{lstate, set_cell, LState, UndoOperation};

verus! {

/// How a TheDraw font draws its characters: with outline characters
/// chosen by the outline style, with block characters in one color, or
/// with block characters that carry their own colors.
#[derive(Clone, Copy, Debug, PartialEq, Eq, Structural)]
pub enum TheDrawFontType {
    Outline,
    Block,
    Color,
}

/// A TheDraw font: its name, kind, the spacing between characters, the
/// offset of each character's glyph in the glyph data (`0xFFFF` for a
/// missing one), for the characters `!` to `~`, and the glyph data.
pub struct TheDrawFont {
    pub name: String,
    pub font_type: TheDrawFontType,
    pub spaces: i32,
    pub char_table: Vec<u16>,
    pub font_data: Vec<u8>,
}

/// The outline characters, slot by slot: entry `19 * k + s` is what the
/// outline letter `k` (`A` is slot 0) is drawn as in outline style `s`.
pub open spec fn outline_char_set() -> Seq<u8> {
    seq![
        0xC4u8, 0xCDu8, 0xC4u8, 0xCDu8, 0xC4u8, 0xCDu8, 0xC4u8, 0xCDu8, 0xC4u8, 0xCDu8, 0xC4u8, 0xCDu8, 0xC4u8, 0xCDu8, 0xC4u8, 0xCDu8, 0xDCu8, 0xDFu8, 0xDFu8,
        0xC4u8, 0xC4u8, 0xCDu8, 0xCDu8, 0xC4u8, 0xC4u8, 0xCDu8, 0xCDu8, 0xC4u8, 0xC4u8, 0xCDu8, 0xCDu8, 0xC4u8, 0xC4u8, 0xCDu8, 0xCDu8, 0xDCu8, 0xDFu8, 0xDCu8,
        0xB3u8, 0xB3u8, 0xB3u8, 0xB3u8, 0xBAu8, 0xBAu8, 0xBAu8, 0xBAu8, 0xB3u8, 0xB3u8, 0xB3u8, 0xB3u8, 0xBAu8, 0xBAu8, 0xBAu8, 0xBAu8, 0xDBu8, 0xDBu8, 0xDEu8,
        0xB3u8, 0xB3u8, 0xB3u8, 0xB3u8, 0xB3u8, 0xB3u8, 0xB3u8, 0xB3u8, 0xBAu8, 0xBAu8, 0xBAu8, 0xBAu8, 0xBAu8, 0xBAu8, 0xBAu8, 0xBAu8, 0xDBu8, 0xDBu8, 0xDDu8,
        0xDAu8, 0xD5u8, 0xDAu8, 0xD5u8, 0xD6u8, 0xC9u8, 0xD6u8, 0xC9u8, 0xDAu8, 0xD5u8, 0xDAu8, 0xD5u8, 0xD6u8, 0xC9u8, 0xD6u8, 0xC9u8, 0xDCu8, 0xDBu8, 0xDEu8,
        0xBFu8, 0xB8u8, 0xBFu8, 0xB8u8, 0xBFu8, 0xB8u8, 0xBFu8, 0xB8u8, 0xB7u8, 0xBBu8, 0xB7u8, 0xBBu8, 0xB7u8, 0xBBu8, 0xB7u8, 0xBBu8, 0xDCu8, 0xDBu8, 0xDDu8,
        0xDAu8, 0xDAu8, 0xD5u8, 0xD5u8, 0xDAu8, 0xDAu8, 0xD5u8, 0xD5u8, 0xD6u8, 0xD6u8, 0xC9u8, 0xC9u8, 0xD6u8, 0xD6u8, 0xC9u8, 0xC9u8, 0xDCu8, 0xDBu8, 0xDCu8,
        0xBFu8, 0xBFu8, 0xB8u8, 0xB8u8, 0xB7u8, 0xB7u8, 0xBBu8, 0xBBu8, 0xBFu8, 0xBFu8, 0xB8u8, 0xB8u8, 0xB7u8, 0xB7u8, 0xBBu8, 0xBBu8, 0xDCu8, 0xDBu8, 0xDCu8,
        0xC0u8, 0xD4u8, 0xC0u8, 0xD4u8, 0xC0u8, 0xD4u8, 0xC0u8, 0xD4u8, 0xD3u8, 0xC8u8, 0xD3u8, 0xC8u8, 0xD3u8, 0xC8u8, 0xD3u8, 0xC8u8, 0xDBu8, 0xDFu8, 0xDFu8,
        0xD9u8, 0xBEu8, 0xD9u8, 0xBEu8, 0xBDu8, 0xBCu8, 0xBDu8, 0xBCu8, 0xD9u8, 0xBEu8, 0xD9u8, 0xBEu8, 0xBDu8, 0xBCu8, 0xBDu8, 0xBCu8, 0xDBu8, 0xDFu8, 0xDFu8,
        0xC0u8, 0xC0u8, 0xD4u8, 0xD4u8, 0xD3u8, 0xD3u8, 0xC8u8, 0xC8u8, 0xC0u8, 0xC0u8, 0xD4u8, 0xD4u8, 0xD3u8, 0xD3u8, 0xC8u8, 0xC8u8, 0xDBu8, 0xDFu8, 0xDEu8,
        0xD9u8, 0xD9u8, 0xBEu8, 0xBEu8, 0xD9u8, 0xD9u8, 0xBEu8, 0xBEu8, 0xBDu8, 0xBDu8, 0xBCu8, 0xBCu8, 0xBDu8, 0xBDu8, 0xBCu8, 0xBCu8, 0xDBu8, 0xDFu8, 0xDDu8,
        0xB4u8, 0xB5u8, 0xB4u8, 0xB5u8, 0xB6u8, 0xB9u8, 0xB6u8, 0xB9u8, 0xB4u8, 0xB5u8, 0xB4u8, 0xB5u8, 0xB6u8, 0xB9u8, 0xB6u8, 0xB9u8, 0xDBu8, 0xDBu8, 0xDBu8,
        0xC3u8, 0xC3u8, 0xC6u8, 0xC6u8, 0xC3u8, 0xC3u8, 0xC6u8, 0xC6u8, 0xC7u8, 0xC7u8, 0xCCu8, 0xCCu8, 0xC7u8, 0xC7u8, 0xCCu8, 0xCCu8, 0xDBu8, 0xDBu8, 0xDBu8,
        0x20u8, 0x20u8, 0x20u8, 0x20u8, 0x20u8, 0x20u8, 0x20u8, 0x20u8, 0x20u8, 0x20u8, 0x20u8, 0x20u8, 0x20u8, 0x20u8, 0x20u8, 0x20u8, 0x20u8, 0x20u8, 0x20u8,
        0x20u8, 0x20u8, 0x20u8, 0x20u8, 0x20u8, 0x20u8, 0x20u8, 0x20u8, 0x20u8, 0x20u8, 0x20u8, 0x20u8, 0x20u8, 0x20u8, 0x20u8, 0x20u8, 0x20u8, 0x20u8, 0x20u8,
        0x20u8, 0x20u8, 0x20u8, 0x20u8, 0x20u8, 0x20u8, 0x20u8, 0x20u8, 0x20u8, 0x20u8, 0x20u8, 0x20u8, 0x20u8, 0x20u8, 0x20u8, 0x20u8, 0x20u8, 0x20u8, 0x20u8,
    ]
}

fn outline_char_array() -> (t: [u8; 323])
    ensures
        t@ == outline_char_set(),
{
    let t: [u8; 323] = [
        0xC4, 0xCD, 0xC4, 0xCD, 0xC4, 0xCD, 0xC4, 0xCD, 0xC4, 0xCD, 0xC4, 0xCD, 0xC4, 0xCD, 0xC4, 0xCD, 0xDC, 0xDF, 0xDF,
        0xC4, 0xC4, 0xCD, 0xCD, 0xC4, 0xC4, 0xCD, 0xCD, 0xC4, 0xC4, 0xCD, 0xCD, 0xC4, 0xC4, 0xCD, 0xCD, 0xDC, 0xDF, 0xDC,
        0xB3, 0xB3, 0xB3, 0xB3, 0xBA, 0xBA, 0xBA, 0xBA, 0xB3, 0xB3, 0xB3, 0xB3, 0xBA, 0xBA, 0xBA, 0xBA, 0xDB, 0xDB, 0xDE,
        0xB3, 0xB3, 0xB3, 0xB3, 0xB3, 0xB3, 0xB3, 0xB3, 0xBA, 0xBA, 0xBA, 0xBA, 0xBA, 0xBA, 0xBA, 0xBA, 0xDB, 0xDB, 0xDD,
        0xDA, 0xD5, 0xDA, 0xD5, 0xD6, 0xC9, 0xD6, 0xC9, 0xDA, 0xD5, 0xDA, 0xD5, 0xD6, 0xC9, 0xD6, 0xC9, 0xDC, 0xDB, 0xDE,
        0xBF, 0xB8, 0xBF, 0xB8, 0xBF, 0xB8, 0xBF, 0xB8, 0xB7, 0xBB, 0xB7, 0xBB, 0xB7, 0xBB, 0xB7, 0xBB, 0xDC, 0xDB, 0xDD,
        0xDA, 0xDA, 0xD5, 0xD5, 0xDA, 0xDA, 0xD5, 0xD5, 0xD6, 0xD6, 0xC9, 0xC9, 0xD6, 0xD6, 0xC9, 0xC9, 0xDC, 0xDB, 0xDC,
        0xBF, 0xBF, 0xB8, 0xB8, 0xB7, 0xB7, 0xBB, 0xBB, 0xBF, 0xBF, 0xB8, 0xB8, 0xB7, 0xB7, 0xBB, 0xBB, 0xDC, 0xDB, 0xDC,
        0xC0, 0xD4, 0xC0, 0xD4, 0xC0, 0xD4, 0xC0, 0xD4, 0xD3, 0xC8, 0xD3, 0xC8, 0xD3, 0xC8, 0xD3, 0xC8, 0xDB, 0xDF, 0xDF,
        0xD9, 0xBE, 0xD9, 0xBE, 0xBD, 0xBC, 0xBD, 0xBC, 0xD9, 0xBE, 0xD9, 0xBE, 0xBD, 0xBC, 0xBD, 0xBC, 0xDB, 0xDF, 0xDF,
        0xC0, 0xC0, 0xD4, 0xD4, 0xD3, 0xD3, 0xC8, 0xC8, 0xC0, 0xC0, 0xD4, 0xD4, 0xD3, 0xD3, 0xC8, 0xC8, 0xDB, 0xDF, 0xDE,
        0xD9, 0xD9, 0xBE, 0xBE, 0xD9, 0xD9, 0xBE, 0xBE, 0xBD, 0xBD, 0xBC, 0xBC, 0xBD, 0xBD, 0xBC, 0xBC, 0xDB, 0xDF, 0xDD,
        0xB4, 0xB5, 0xB4, 0xB5, 0xB6, 0xB9, 0xB6, 0xB9, 0xB4, 0xB5, 0xB4, 0xB5, 0xB6, 0xB9, 0xB6, 0xB9, 0xDB, 0xDB, 0xDB,
        0xC3, 0xC3, 0xC6, 0xC6, 0xC3, 0xC3, 0xC6, 0xC6, 0xC7, 0xC7, 0xCC, 0xCC, 0xC7, 0xC7, 0xCC, 0xCC, 0xDB, 0xDB, 0xDB,
        0x20, 0x20, 0x20, 0x20, 0x20, 0x20, 0x20, 0x20, 0x20, 0x20, 0x20, 0x20, 0x20, 0x20, 0x20, 0x20, 0x20, 0x20, 0x20,
        0x20, 0x20, 0x20, 0x20, 0x20, 0x20, 0x20, 0x20, 0x20, 0x20, 0x20, 0x20, 0x20, 0x20, 0x20, 0x20, 0x20, 0x20, 0x20,
        0x20, 0x20, 0x20, 0x20, 0x20, 0x20, 0x20, 0x20, 0x20, 0x20, 0x20, 0x20, 0x20, 0x20, 0x20, 0x20, 0x20, 0x20, 0x20,
    ];
    assert(t@ =~= outline_char_set());
    t
}

/// Outline letter `ch` (`A` to `Q`) as drawn in outline style `outline`;
/// any other character is drawn as a space.
pub open spec fn spec_transform_outline(outline: int, ch: u8) -> u8 {
    if 64 < ch && ch - 64 <= 17 {
        outline_char_set()[19 * (ch - 65) + outline]
    } else {
        32
    }
}

/// The text of bytes read as UTF-8, each invalid sequence replaced by
/// U+FFFD.
pub uninterp spec fn utf8_lossy(b: Seq<u8>) -> Seq<char>;

/// `String::from_utf8_lossy`, taken as an owned `String`: its text is the
/// UTF-8 decoding of the bytes, left unstated here under a name, except
/// that valid UTF-8 decodes to the characters it encodes, as the standard
/// library documents.
#[verifier::external_body]
pub(crate) fn lossy_string(b: &[u8]) -> (s: String)
    ensures
        s@ == utf8_lossy(b@),
        vstd::utf8::valid_utf8(b@) ==> s@ == vstd::utf8::decode_utf8(b@),
{
    String::from_utf8_lossy(b).into_owned()
}

/// `TheDraw FONTS file`.
pub open spec fn tdf_id() -> Seq<u8> {
    seq![84u8, 104u8, 101u8, 68u8, 114u8, 97u8, 119u8, 32u8, 70u8, 79u8, 78u8, 84u8, 83u8, 32u8, 102u8, 105u8, 108u8, 101u8]
}

/// A font file header this reader takes: long enough, the id, a name of
/// at most 16 bytes and a known font kind.
pub open spec fn tdf_header_ok(d: Seq<u8>) -> bool {
    &&& d.len() >= 233
    &&& d[0] == 19
    &&& d.subrange(1, 19) == tdf_id()
    &&& d[24] <= 16
    &&& d[41] <= 2
}

pub open spec fn tdf_u16(d: Seq<u8>, o: int) -> u16 {
    (d[o] + 256 * d[o + 1]) as u16
}

/// The length of the name: up to its first NUL byte.
pub open spec fn tdf_name_len(d: Seq<u8>, n: int) -> int
    decreases n,
{
    if n <= 0 {
        0
    } else if tdf_name_len(d, n - 1) < n - 1 {
        tdf_name_len(d, n - 1)
    } else if d[25 + n - 1] == 0 {
        n - 1
    } else {
        n
    }
}

pub open spec fn tdf_type(b: u8) -> TheDrawFontType {
    if b == 0 {
        TheDrawFontType::Outline
    } else if b == 1 {
        TheDrawFontType::Block
    } else {
        TheDrawFontType::Color
    }
}

/// A glyph from offset `o` on: characters, 13 for a new row, each
/// character followed by its attribute in a color font, ended by 0.
pub open spec fn glyph_ok(d: Seq<u8>, o: int, color: bool) -> bool
    decreases d.len() - o,
{
    if o < 0 || o >= d.len() {
        false
    } else if d[o] == 0 {
        true
    } else if d[o] == 13 {
        glyph_ok(d, o + 1, color)
    } else if color {
        o + 1 < d.len() && glyph_ok(d, o + 2, color)
    } else {
        glyph_ok(d, o + 1, color)
    }
}

/// The number of row breaks of a glyph from offset `o` on.
pub open spec fn glyph_rows(d: Seq<u8>, o: int, color: bool) -> int
    decreases d.len() - o,
{
    if o < 0 || o >= d.len() || d[o] == 0 {
        0
    } else if d[o] == 13 {
        1 + glyph_rows(d, o + 1, color)
    } else if color {
        if o + 1 < d.len() {
            glyph_rows(d, o + 2, color)
        } else {
            0
        }
    } else {
        glyph_rows(d, o + 1, color)
    }
}

/// The cell that the glyph character at offset `o` draws: in an outline
/// font the letter of the outline style, in a block font the character
/// itself, both in `color`; in a color font the character with the
/// attribute that follows it.
pub open spec fn glyph_char(
    font_type: TheDrawFontType,
    d: Seq<u8>,
    o: int,
    color: TextAttribute,
    outline_style: usize,
    bt: BufferType,
) -> DosChar {
    match font_type {
        TheDrawFontType::Outline => DosChar {
            char_code: spec_transform_outline(outline_style as int, d[o]),
            attribute: color,
        },
        TheDrawFontType::Block => DosChar { char_code: d[o], attribute: color },
        TheDrawFontType::Color => DosChar { char_code: d[o], attribute: TextAttribute::spec_from_u8(d[o + 1], bt) },
    }
}

/// The layers after the glyph from offset `o` on is drawn by editor `e`
/// with its pen at `(x, y)`, each new row starting at column `x0`: a cell
/// goes to the current layer where it lies on the picture and the editor
/// may write.
pub open spec fn glyph_paint(
    s: LState,
    e: Editor,
    font_type: TheDrawFontType,
    d: Seq<u8>,
    o: int,
    color: TextAttribute,
    outline_style: usize,
    x: int,
    y: int,
    x0: int,
) -> LState
    decreases d.len() + 1 - o,
{
    if o < 0 || o >= d.len() || d[o] == 0 {
        s
    } else if d[o] == 13 {
        glyph_paint(s, e, font_type, d, o + 1, color, outline_style, x0, y + 1, x0)
    } else {
        let c = glyph_char(font_type, d, o, color, outline_style, e.buf.buffer_type);
        let p = Position { x: x as i32, y: y as i32 };
        let s2 = if 0 <= x < e.buf.width && 0 <= y < e.buf.height && e.valid_point(p) {
            set_cell(s, layer_index(e.cur_layer) as int, p, c)
        } else {
            s
        };
        let next = if font_type == TheDrawFontType::Color {
            o + 2
        } else {
            o + 1
        };
        glyph_paint(s2, e, font_type, d, next, color, outline_style, x + 1, y, x0)
    }
}

/// Drawing a glyph from pen position `(x, y)` leaves every cell before
/// the pen (an earlier row, or an earlier column of its row) as it was.
proof fn lemma_glyph_paint_frame(
    s: LState,
    e: Editor,
    font_type: TheDrawFontType,
    d: Seq<u8>,
    o: int,
    color: TextAttribute,
    outline_style: usize,
    x: int,
    y: int,
    x0: int,
    l: int,
    px: int,
    py: int,
)
    requires
        0 <= l < s.grids.len(),
        0 <= px,
        0 <= py,
        py < y || (py == y && px < x),
    ensures
        glyph_paint(s, e, font_type, d, o, color, outline_style, x, y, x0).grids.len() == s.grids.len(),
        grid_get(glyph_paint(s, e, font_type, d, o, color, outline_style, x, y, x0).grids[l], px, py) == grid_get(
            s.grids[l],
            px,
            py,
        ),
    decreases d.len() + 1 - o,
{
    if o < 0 || o >= d.len() || d[o] == 0 {
    } else if d[o] == 13 {
        lemma_glyph_paint_frame(s, e, font_type, d, o + 1, color, outline_style, x0, y + 1, x0, l, px, py);
    } else {
        let c = glyph_char(font_type, d, o, color, outline_style, e.buf.buffer_type);
        let p = Position { x: x as i32, y: y as i32 };
        let s2 = if 0 <= x < e.buf.width && 0 <= y < e.buf.height && e.valid_point(p) {
            set_cell(s, layer_index(e.cur_layer) as int, p, c)
        } else {
            s
        };
        if 0 <= x < e.buf.width && 0 <= y < e.buf.height && e.valid_point(p) && l == layer_index(e.cur_layer) as int {
            lemma_layer_read_after_write(s.grids[l], x, y, c, px, py);
        }
        let next = if font_type == TheDrawFontType::Color {
            o + 2
        } else {
            o + 1
        };
        lemma_glyph_paint_frame(s2, e, font_type, d, next, color, outline_style, x + 1, y, x0, l, px, py);
    }
}

/// What a color font draws does not depend on the pen color: each cell
/// carries the attribute stored after its character.
pub proof fn lemma_color_glyph_ignores_pen(
    s: LState,
    e: Editor,
    d: Seq<u8>,
    o: int,
    pen1: TextAttribute,
    pen2: TextAttribute,
    outline_style: usize,
    x: int,
    y: int,
    x0: int,
)
    ensures
        glyph_paint(s, e, TheDrawFontType::Color, d, o, pen1, outline_style, x, y, x0) == glyph_paint(
            s,
            e,
            TheDrawFontType::Color,
            d,
            o,
            pen2,
            outline_style,
            x,
            y,
            x0,
        ),
    decreases d.len() + 1 - o,
{
    if o < 0 || o >= d.len() || d[o] == 0 {
    } else if d[o] == 13 {
        lemma_color_glyph_ignores_pen(s, e, d, o + 1, pen1, pen2, outline_style, x0, y + 1, x0);
    } else {
        let p = Position { x: x as i32, y: y as i32 };
        let c = glyph_char(TheDrawFontType::Color, d, o, pen1, outline_style, e.buf.buffer_type);
        assert(c == glyph_char(TheDrawFontType::Color, d, o, pen2, outline_style, e.buf.buffer_type));
        let s2 = if 0 <= x < e.buf.width && 0 <= y < e.buf.height && e.valid_point(p) {
            set_cell(s, layer_index(e.cur_layer) as int, p, c)
        } else {
            s
        };
        lemma_color_glyph_ignores_pen(s2, e, d, o + 2, pen1, pen2, outline_style, x + 1, y, x0);
    }
}

/// A color font glyph character drawn where the editor may write leaves
/// that cell of the current layer showing the character in the attribute
/// that the font data stores after it, whatever the pen color.
pub proof fn lemma_color_glyph_cell(
    s: LState,
    e: Editor,
    d: Seq<u8>,
    o: int,
    pen: TextAttribute,
    outline_style: usize,
    x: int,
    y: int,
    x0: int,
)
    requires
        0 <= o,
        o + 1 < d.len(),
        d[o] != 0,
        d[o] != 13,
        0 <= x < e.buf.width,
        0 <= y < e.buf.height,
        e.valid_point(Position { x: x as i32, y: y as i32 }),
        e.cur_layer >= 0,
        (e.cur_layer as int) < s.grids.len(),
    ensures
        grid_get(
            glyph_paint(s, e, TheDrawFontType::Color, d, o, pen, outline_style, x, y, x0).grids[e.cur_layer as int],
            x,
            y,
        ) == shown(DosChar { char_code: d[o], attribute: TextAttribute::spec_from_u8(d[o + 1], e.buf.buffer_type) }),
{
    let l = e.cur_layer as int;
    let p = Position { x: x as i32, y: y as i32 };
    let c = DosChar { char_code: d[o], attribute: TextAttribute::spec_from_u8(d[o + 1], e.buf.buffer_type) };
    assert(c == glyph_char(TheDrawFontType::Color, d, o, pen, outline_style, e.buf.buffer_type));
    assert(layer_index(e.cur_layer) as int == l);
    let s2 = set_cell(s, l, p, c);
    lemma_layer_read_after_write(s.grids[l], x, y, c, x, y);
    assert(s2.grids[l] == crate::layer::grid_set(s.grids[l], x, y, c));
    lemma_glyph_paint_frame(s2, e, TheDrawFontType::Color, d, o + 2, pen, outline_style, x + 1, y, x0, l, x, y);
}

/// A block or outline font glyph character drawn where the editor may
/// write leaves that cell of the current layer showing, in the pen color,
/// the character itself (block font) or the letter of the outline style
/// for it (outline font).
pub proof fn lemma_pen_glyph_cell(
    s: LState,
    e: Editor,
    font_type: TheDrawFontType,
    d: Seq<u8>,
    o: int,
    pen: TextAttribute,
    outline_style: usize,
    x: int,
    y: int,
    x0: int,
)
    requires
        font_type != TheDrawFontType::Color,
        0 <= o < d.len(),
        d[o] != 0,
        d[o] != 13,
        0 <= x < e.buf.width,
        0 <= y < e.buf.height,
        e.valid_point(Position { x: x as i32, y: y as i32 }),
        e.cur_layer >= 0,
        (e.cur_layer as int) < s.grids.len(),
    ensures
        grid_get(glyph_paint(s, e, font_type, d, o, pen, outline_style, x, y, x0).grids[e.cur_layer as int], x, y) == shown(
            DosChar {
                char_code: if font_type == TheDrawFontType::Block {
                    d[o]
                } else {
                    spec_transform_outline(outline_style as int, d[o])
                },
                attribute: pen,
            },
        ),
{
    let l = e.cur_layer as int;
    let p = Position { x: x as i32, y: y as i32 };
    let c = glyph_char(font_type, d, o, pen, outline_style, e.buf.buffer_type);
    assert(layer_index(e.cur_layer) as int == l);
    let s2 = set_cell(s, l, p, c);
    lemma_layer_read_after_write(s.grids[l], x, y, c, x, y);
    assert(s2.grids[l] == crate::layer::grid_set(s.grids[l], x, y, c));
    lemma_glyph_paint_frame(s2, e, font_type, d, o + 1, pen, outline_style, x + 1, y, x0, l, x, y);
}

impl TheDrawFont {
    /// Reads a font from the bytes of a TheDraw font file: `None` for a
    /// header this reader does not take.
    pub fn from_bytes(bytes: &[u8]) -> (r: Option<TheDrawFont>)
        requires
            tdf_header_ok(bytes@) ==> 233 + tdf_u16(bytes@, 43) <= bytes.len(),
        ensures
            !tdf_header_ok(bytes@) ==> r is None,
            tdf_header_ok(bytes@) ==> (r matches Some(f) && {
                let d = bytes@;
                &&& f.name@ == utf8_lossy(d.subrange(25, 25 + tdf_name_len(d, d[24] as int)))
                &&& f.font_type == tdf_type(d[41])
                &&& f.spaces == d[42] as i32
                &&& f.char_table@ == Seq::new(94, |i: int| tdf_u16(d, 45 + 2 * i))
                &&& f.font_data@ == d.subrange(233, 233 + tdf_u16(d, 43))
            }),
    {
        if bytes.len() < 233 {
            return None;
        }
        let id: [u8; 18] = [84, 104, 101, 68, 114, 97, 119, 32, 70, 79, 78, 84, 83, 32, 102, 105, 108, 101];
        assert(id@ =~= tdf_id());
        if bytes[0] != 19 {
            return None;
        }
        let mut k: usize = 0;
        while k < 18
            invariant
                k <= 18,
                bytes.len() >= 233,
                id@ == tdf_id(),
                forall|j: int| 0 <= j < k ==> bytes@[1 + j] == id@[j],
            decreases 18 - k,
        {
            if bytes[1 + k] != id[k] {
                proof {
                    assert(bytes@.subrange(1, 19)[k as int] != tdf_id()[k as int]);
                }
                return None;
            }
            k = k + 1;
        }
        assert(bytes@.subrange(1, 19) =~= tdf_id());
        let mut font_name_len = bytes[24] as usize;
        if font_name_len > 16 {
            return None;
        }
        let ghost n0 = font_name_len as int;
        let mut i: usize = 0;
        let mut found = false;
        while i < font_name_len && !found
            invariant
                n0 == bytes@[24] as int,
                n0 <= 16,
                bytes.len() >= 233,
                i <= n0,
                !found ==> font_name_len == n0 && tdf_name_len(bytes@, i as int) == i,
                found ==> font_name_len == i && tdf_name_len(bytes@, n0) == i,
                found ==> i < n0,
            decreases n0 - i, (if found { 0int } else { 1int }),
        {
            if bytes[25 + i] == 0 {
                proof {
                    lemma_name_len_stays(bytes@, i as int, i as int + 1, n0);
                }
                font_name_len = i;
                found = true;
            } else {
                i = i + 1;
            }
        }
        let name = lossy_string(vstd::slice::slice_subrange(bytes, 25, 25 + font_name_len));
        let font_type = match bytes[41] {
            0 => TheDrawFontType::Outline,
            1 => TheDrawFontType::Block,
            2 => TheDrawFontType::Color,
            _ => {
                return None;
            },
        };
        let spaces = bytes[42] as i32;
        let font_data_size: usize = bytes[43] as usize + 256 * bytes[44] as usize;
        let mut char_table: Vec<u16> = Vec::new();
        let mut c: usize = 0;
        while c < 94
            invariant
                c <= 94,
                bytes.len() >= 233,
                char_table@ == Seq::new(c as nat, |j: int| tdf_u16(bytes@, 45 + 2 * j)),
            decreases 94 - c,
        {
            let v: u16 = bytes[45 + 2 * c] as u16 + 256 * bytes[46 + 2 * c] as u16;
            char_table.push(v);
            proof {
                assert(char_table@ =~= Seq::new((c + 1) as nat, |j: int| tdf_u16(bytes@, 45 + 2 * j)));
            }
            c = c + 1;
        }
        let mut font_data: Vec<u8> = Vec::new();
        let mut j: usize = 0;
        while j < font_data_size
            invariant
                j <= font_data_size,
                font_data_size == tdf_u16(bytes@, 43),
                233 + font_data_size <= bytes.len(),
                font_data@ == bytes@.subrange(233, 233 + j as int),
            decreases font_data_size - j,
        {
            font_data.push(bytes[233 + j]);
            proof {
                assert(font_data@ =~= bytes@.subrange(233, 233 + j + 1));
            }
            j = j + 1;
        }
        Some(TheDrawFont { name, font_type, spaces, char_table, font_data })
    }

    /// Outline letter `ch` as drawn in outline style `outline`.
    pub fn transform_outline(outline: usize, ch: u8) -> (r: u8)
        requires
            64 < ch && ch - 64 <= 17 ==> outline < 19,
        ensures
            r == spec_transform_outline(outline as int, ch),
    {
        if ch > 64 && ch - 64 <= 17 {
            let t = outline_char_array();
            t[19 * (ch - 65) as usize + outline]
        } else {
            32
        }
    }

    /// The height of the font's glyphs.
    pub fn get_font_height(&self) -> (r: u8)
        requires
            self.font_data.len() > 1,
        ensures
            r == self.font_data@[1],
    {
        self.font_data[1]
    }

    /// Whether the font has a glyph for a character.
    pub fn has_char(&self, char_code: u8) -> (r: bool)
        requires
            char_code as int - 33 != self.char_table.len(),
        ensures
            r == (0 <= char_code as int - 33 < self.char_table.len() && self.char_table@[char_code as int - 33] != 0xFFFF),
    {
        let char_offset = char_code as i32 - 33;
        if char_offset < 0 || char_offset as usize > self.char_table.len() {
            return false;
        }
        self.char_table[char_offset as usize] != 0xFFFF
    }

    /// Draws the glyph of a character into the editor at `pos`, cell by
    /// cell through `set_char`, where the cell lies inside the picture;
    /// outline fonts take their characters from outline style
    /// `outline_style`. Gives the glyph's width and its number of rows, or
    /// `None` for a character the font has no glyph for.
    pub fn render(&self, editor: &mut Editor, pos: Position, color: TextAttribute, char_code: u8, outline_style: usize) -> (r: Option<Size>)
        requires
            char_code as int - 33 != self.char_table.len(),
            self.font_type == TheDrawFontType::Outline ==> outline_style < 19,
            pos.x + self.font_data.len() <= i32::MAX,
            pos.y + self.font_data.len() <= i32::MAX,
            self.font_data.len() < i32::MAX,
            ({
                let k = char_code as int - 33;
                0 <= k < self.char_table.len() && self.char_table@[k] != 0xFFFF ==> {
                    let c = self.char_table@[k] as int;
                    c + 2 <= self.font_data.len() && glyph_ok(self.font_data@, c + 2, self.font_type == TheDrawFontType::Color)
                }
            }),
        ensures
            ({
                let k = char_code as int - 33;
                if 0 <= k < self.char_table.len() && self.char_table@[k] != 0xFFFF {
                    let c = self.char_table@[k] as int;
                    r == Some(Size {
                        width: self.font_data@[c] as usize,
                        height: (glyph_rows(self.font_data@, c + 2, self.font_type == TheDrawFontType::Color) + 1) as usize,
                    })
                } else {
                    r is None && *final(editor) == *old(editor)
                }
            }),
            exists|ps: Seq<UndoOperation>| group_inv(*final(editor), lstate(old(editor).buf), old(editor).buf.undo_stack@, ps),
            ({
                let k = char_code as int - 33;
                0 <= k < self.char_table.len() && self.char_table@[k] != 0xFFFF ==> lstate(final(editor).buf) == glyph_paint(
                    lstate(old(editor).buf),
                    *old(editor),
                    self.font_type,
                    self.font_data@,
                    self.char_table@[k] + 2,
                    color,
                    outline_style,
                    pos.x as int,
                    pos.y as int,
                    pos.x as int,
                )
            }),
            same_props(old(editor).buf, final(editor).buf),
            same_state(*old(editor), *final(editor)),
    {
        let ghost b0 = editor.buf;
        let ghost e0 = *editor;
        let ghost mut ps: Seq<UndoOperation> = Seq::empty();
        assert(editor.buf.undo_stack@ =~= b0.undo_stack@ + ps);
        assert(group_inv(*editor, lstate(b0), b0.undo_stack@, ps));
        let char_offset = char_code as i32 - 33;
        if char_offset < 0 || char_offset as usize > self.char_table.len() {
            return None;
        }
        let start = self.char_table[char_offset as usize] as usize;
        if start == 0xFFFF {
            return None;
        }
        let color_font = match self.font_type {
            TheDrawFontType::Color => true,
            _ => false,
        };
        let max_x = self.font_data[start];
        let ghost d = self.font_data@;
        let mut o = start + 2;
        let mut cur = pos;
        let mut done = false;
        while !done
            invariant
                d == self.font_data@,
                color_font == (self.font_type == TheDrawFontType::Color),
                self.font_type == TheDrawFontType::Outline ==> outline_style < 19,
                start + 2 <= o <= d.len(),
                !done ==> glyph_ok(d, o as int, color_font),
                !done ==> cur.y - pos.y + glyph_rows(d, o as int, color_font) == glyph_rows(d, start + 2, color_font),
                done ==> cur.y - pos.y == glyph_rows(d, start + 2, color_font),
                pos.x <= cur.x <= pos.x + o,
                pos.y <= cur.y <= pos.y + o,
                pos.x + d.len() <= i32::MAX,
                pos.y + d.len() <= i32::MAX,
                d.len() < i32::MAX,
                group_inv(*editor, lstate(b0), b0.undo_stack@, ps),
                e0.buf == b0,
                same_props(b0, editor.buf),
                same_state(e0, *editor),
                editor.buf.width == b0.width,
                editor.buf.height == b0.height,
                !done ==> glyph_paint(lstate(editor.buf), e0, self.font_type, d, o as int, color, outline_style, cur.x as int, cur.y as int, pos.x as int)
                    == glyph_paint(lstate(b0), e0, self.font_type, d, start + 2, color, outline_style, pos.x as int, pos.y as int, pos.x as int),
                done ==> lstate(editor.buf) == glyph_paint(lstate(b0), e0, self.font_type, d, start + 2, color, outline_style, pos.x as int, pos.y as int, pos.x as int),
            decreases d.len() - o, (if done { 0int } else { 1int }),
        {
            let ch = self.font_data[o];
            let ghost o0 = o as int;
            o = o + 1;
            if ch == 0 {
                done = true;
            } else if ch == 13 {
                cur.x = pos.x;
                cur.y = cur.y + 1;
            } else {
                let dos_char = match self.font_type {
                    TheDrawFontType::Outline => DosChar {
                        char_code: TheDrawFont::transform_outline(outline_style, ch),
                        attribute: color,
                    },
                    TheDrawFontType::Block => DosChar { char_code: ch, attribute: color },
                    TheDrawFontType::Color => {
                        let ch_attr = TextAttribute::from_u8(self.font_data[o], editor.buf.buffer_type);
                        o = o + 1;
                        DosChar { char_code: ch, attribute: ch_attr }
                    },
                };
                proof {
                    assert(dos_char == glyph_char(self.font_type, d, o0 as int, color, outline_style, e0.buf.buffer_type));
                }
                let ghost old_ed = *editor;
                if cur.x >= 0 && cur.y >= 0 && cur.x < editor.buf.width as i32 && cur.y < editor.buf.height as i32 {
                    let g = editor.put_char(cur, Some(dos_char), Ghost(lstate(b0)), Ghost(b0.undo_stack@), Ghost(ps));
                    proof {
                        ps = g@;
                        assert(e0.valid_point(cur) == old_ed.valid_point(cur));
                        assert(editor.buf.width == lstate(editor.buf).width);
                    }
                }
                cur.x = cur.x + 1;
            }
        }
        Some(Size::from(max_x as usize, (cur.y - pos.y + 1) as usize))
    }
}

proof fn lemma_name_len_stays(d: Seq<u8>, i: int, m: int, n: int)
    requires
        0 <= i < m <= n,
        tdf_name_len(d, i) == i,
        d[25 + i] == 0,
    ensures
        tdf_name_len(d, n) == i,
    decreases n,
{
    if n > m {
        lemma_name_len_stays(d, i, m, n - 1);
    } else if n == m && m > i + 1 {
        lemma_name_len_stays(d, i, m - 1, n - 1);
    }
}

} // verus!
