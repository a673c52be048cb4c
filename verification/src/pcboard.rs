use vstd::prelude::*;

use crate::ascii::{printable, row_break, row_len};
use crate::buffer::Buffer;
use crate::parse_states::{sat_add, sat_i32, ParseStates, ReaderModel};
use crate::position::Position;
use crate::sauce::{sauce_head, sauce_tail, SauceError, SauceFileType};
use crate::save_options::{SaveOptions, ScreenPreperation};
use crate::text_attribute::{BufferType, TextAttribute};

verus! {

/// The value of a hexadecimal digit; other bytes count as 0.
pub open spec fn hex_value(ch: u8) -> u8 {
    if 48 <= ch <= 57 {
        (ch - 48) as u8
    } else if 97 <= ch <= 102 {
        (10 + ch - 97) as u8
    } else if 65 <= ch <= 70 {
        (10 + ch - 65) as u8
    } else {
        0
    }
}

fn conv_ch(ch: u8) -> (r: u8)
    ensures
        r == hex_value(ch),
        r < 16,
{
    if 48 <= ch && ch <= 57 {
        return ch - 48;
    }
    if 97 <= ch && ch <= 102 {
        return 10 + ch - 97;
    }
    if 65 <= ch && ch <= 70 {
        return 10 + ch - 65;
    }
    0
}

/// One step of the PCBoard reader: `@X` followed by two hexadecimal digits
/// (background, foreground) sets the attribute, `@@` ends a code; any
/// other byte outside a code is handed back to be printed.
pub open spec fn pcb_next(s: ReaderModel, ch: u8, buffer_type: BufferType) -> (ReaderModel, Option<u8>) {
    if s.pcb_color {
        let pos = sat_i32(s.pcb_pos + 1);
        if pos == 1 {
            (ReaderModel { pcb_pos: pos, pcb_value: hex_value(ch), ..s }, None)
        } else if pos == 2 {
            let v = ((s.pcb_value % 16) * 16 + hex_value(ch)) as u8;
            (
                ReaderModel {
                    pcb_pos: pos,
                    pcb_value: v,
                    text_attr: TextAttribute::spec_from_u8(v, buffer_type),
                    pcb_color: false,
                    pcb_code: false,
                    ..s
                },
                None,
            )
        } else {
            (ReaderModel { pcb_pos: pos, pcb_color: false, pcb_code: false, ..s }, None)
        }
    } else if s.pcb_code {
        if ch == 64 {
            (ReaderModel { pcb_code: false, ..s }, None)
        } else if ch == 88 {
            (ReaderModel { pcb_color: true, pcb_pos: 0, ..s }, None)
        } else {
            (s, None)
        }
    } else if ch == 64 {
        (ReaderModel { pcb_code: true, ..s }, None)
    } else {
        (s, Some(ch))
    }
}

/// The hexadecimal digit of `v < 16`, in upper or lower case.
pub open spec fn hex_digit_case(v: u8, upper: bool) -> u8 {
    if v < 10 {
        (48 + v) as u8
    } else if upper {
        (65 + v - 10) as u8
    } else {
        (97 + v - 10) as u8
    }
}

/// The color code `@X h l` read outside a code sets the attribute to the
/// byte `16 * h + l`: the first digit is the background (with blink for
/// 8 and up in a legacy DOS buffer), the second the foreground. Nothing is
/// printed and the code is over.
pub proof fn lemma_pcb_color_code(s: ReaderModel, hv: u8, lv: u8, upper_h: bool, upper_l: bool, buffer_type: BufferType)
    requires
        !s.pcb_code,
        !s.pcb_color,
        hv < 16,
        lv < 16,
    ensures
        ({
            let (s1, r1) = pcb_next(s, 64, buffer_type);
            let (s2, r2) = pcb_next(s1, 88, buffer_type);
            let (s3, r3) = pcb_next(s2, hex_digit_case(hv, upper_h), buffer_type);
            let (s4, r4) = pcb_next(s3, hex_digit_case(lv, upper_l), buffer_type);
            &&& r1 is None && r2 is None && r3 is None && r4 is None
            &&& s4.text_attr == TextAttribute::spec_from_u8((16 * hv + lv) as u8, buffer_type)
            &&& buffer_type == BufferType::LegacyDos ==> s4.text_attr.foreground_color == lv
                && s4.text_attr.background_color == hv % 8 && s4.text_attr.blink == (hv >= 8)
            &&& buffer_type == BufferType::LegacyIce ==> s4.text_attr.foreground_color == lv
                && s4.text_attr.background_color == hv && !s4.text_attr.blink
            &&& !s4.pcb_code && !s4.pcb_color
            &&& s4.cur_pos == s.cur_pos
        }),
{
    let v = (16 * hv + lv) as u8;
    assert(hv < 16 && lv < 16 ==> ((16 * hv + lv) as u8) & 15u8 == lv && (((16 * hv + lv) as u8) >> 4u8) & 7u8 == hv % 8
        && ((((16 * hv + lv) as u8) & 0x80u8) != 0) == (hv >= 8) && ((16 * hv + lv) as u8) >> 4u8 == hv) by (bit_vector);
    assert(hex_value(hex_digit_case(hv, upper_h)) == hv);
    assert(hex_value(hex_digit_case(lv, upper_l)) == lv);
}

/// Feeds one byte to the PCBoard reader; color codes decode their
/// attribute byte for `buffer_type`.
#[allow(non_snake_case)]
pub fn display_PCBoard(data: &mut ParseStates, buffer_type: BufferType, ch: u8) -> (r: Option<u8>)
    ensures
        (final(data)@, r) == pcb_next(old(data)@, ch, buffer_type),
{
    if data.pcb_color {
        data.pcb_pos = sat_add(data.pcb_pos, 1);
        if data.pcb_pos == 1 {
            data.pcb_value = conv_ch(ch);
            return None;
        }
        if data.pcb_pos == 2 {
            data.pcb_value = (data.pcb_value % 16) * 16 + conv_ch(ch);
            data.text_attr = TextAttribute::from_u8(data.pcb_value, buffer_type);
        }
        data.pcb_color = false;
        data.pcb_code = false;
        return None;
    }
    if data.pcb_code {
        if ch == 64 {
            data.pcb_code = false;
        } else if ch == 88 {
            data.pcb_color = true;
            data.pcb_pos = 0;
        }
        return None;
    }
    if ch == 64 {
        data.pcb_code = true;
        None
    } else {
        Some(ch)
    }
}

/// The hexadecimal digit of a value below 16, in capitals.
pub open spec fn hex_digit(v: u8) -> u8 {
    if v < 10 {
        (48 + v) as u8
    } else {
        (55 + v) as u8
    }
}

/// Every cell of the picture has colors below 16.
pub open spec fn colors_fit(b: Buffer) -> bool {
    forall|x: int, y: int|
        0 <= x < b.width && 0 <= y < b.height ==> (#[trigger] b.spec_get_char(x, y)).attribute.foreground_color < 16
            && b.spec_get_char(x, y).attribute.background_color < 16
}

/// Whether every color of the picture has a PCBoard code.
pub fn pcb_colors_fit(buf: &Buffer) -> (r: bool)
    ensures
        r == colors_fit(*buf),
{
    let w = buf.width as i32;
    let h = buf.height as i32;
    let mut y: i32 = 0;
    while y < h
        invariant
            w == buf.width,
            h == buf.height,
            0 <= y <= h,
            forall|x: int, yy: int| 0 <= x < buf.width && 0 <= yy < y ==> (#[trigger] buf.spec_get_char(x, yy)).attribute.foreground_color < 16
                && buf.spec_get_char(x, yy).attribute.background_color < 16,
        decreases h - y,
    {
        let mut x: i32 = 0;
        while x < w
            invariant
                w == buf.width,
                h == buf.height,
                0 <= y < h,
                0 <= x <= w,
                forall|xx: int, yy: int| 0 <= xx < buf.width && 0 <= yy < y ==> (#[trigger] buf.spec_get_char(xx, yy)).attribute.foreground_color < 16
                    && buf.spec_get_char(xx, yy).attribute.background_color < 16,
                forall|xx: int| 0 <= xx < x ==> (#[trigger] buf.spec_get_char(xx, y as int)).attribute.foreground_color < 16
                    && buf.spec_get_char(xx, y as int).attribute.background_color < 16,
            decreases w - x,
        {
            let a = buf.get_char(Position::from(x, y)).attribute;
            if a.foreground_color >= 16 || a.background_color >= 16 {
                return false;
            }
            x = x + 1;
        }
        y = y + 1;
    }
    true
}

/// The PCBoard bytes of cells `0..n` of row `y`, from the attribute `last`
/// written before (none yet when `first`), and the state after: a color
/// code `@X` with background and foreground digit before every cell whose
/// colors differ from the last ones.
pub open spec fn pcb_row(b: Buffer, y: int, n: int, last: TextAttribute, first: bool) -> (Seq<u8>, TextAttribute, bool)
    decreases n,
{
    if n <= 0 {
        (Seq::empty(), last, first)
    } else {
        let prev = pcb_row(b, y, n - 1, last, first);
        let c = b.spec_get_char(n - 1, y);
        if prev.2 || !c.attribute.spec_same(prev.1) {
            (
                prev.0 + seq![64u8, 88u8, hex_digit(c.attribute.background_color), hex_digit(c.attribute.foreground_color), printable(c.char_code)],
                c.attribute,
                false,
            )
        } else {
            (prev.0 + seq![printable(c.char_code)], prev.1, false)
        }
    }
}

/// The PCBoard bytes of rows `0..y` and the state after.
pub open spec fn pcb_rows(b: Buffer, y: int) -> (Seq<u8>, TextAttribute, bool)
    decreases y,
{
    if y <= 0 {
        (Seq::empty(), TextAttribute::spec_default(), true)
    } else {
        let prev = pcb_rows(b, y - 1);
        let r = pcb_row(b, y - 1, row_len(b, y - 1), prev.1, prev.2);
        (prev.0 + r.0 + row_break(b, y - 1), r.1, r.2)
    }
}

pub proof fn lemma_pcb_row_len(b: Buffer, y: int, n: int, last: TextAttribute, first: bool)
    requires
        n >= 0,
    ensures
        pcb_row(b, y, n, last, first).0.len() <= 5 * n,
    decreases n,
{
    if n > 0 {
        lemma_pcb_row_len(b, y, n - 1, last, first);
    }
}

pub proof fn lemma_pcb_rows_len(b: Buffer, y: int)
    requires
        0 <= y,
    ensures
        pcb_rows(b, y).0.len() <= (5 * b.width + 2) * y,
    decreases y,
{
    if y > 0 {
        lemma_pcb_rows_len(b, y - 1);
        b.lemma_line_length_bounds(y - 1, b.width as int);
        let prev = pcb_rows(b, y - 1);
        lemma_pcb_row_len(b, y - 1, row_len(b, y - 1), prev.1, prev.2);
        assert((5 * b.width + 2) * (y - 1) + 5 * b.width + 2 == (5 * b.width + 2) * y) by (nonlinear_arith);
    }
}

fn hex_digit_exec(v: u8) -> (r: u8)
    requires
        v < 16,
    ensures
        r == hex_digit(v),
{
    if v < 10 {
        48 + v
    } else {
        55 + v
    }
}

/// The picture as PCBoard text: color codes where the colors change, the
/// rows as the text writer writes them, optionally after a clear screen
/// code and before a SAUCE record of kind PCBoard.
pub fn convert_to_pcb(buf: &Buffer, options: &SaveOptions) -> (res: Result<Vec<u8>, SauceError>)
    requires
        colors_fit(*buf),
        5 + (5 * buf.width + 2) * buf.height + 1 + sauce_head(*buf, 0).len() + sauce_tail(*buf, SauceFileType::PCBoard).len()
            + 100 <= usize::MAX,
    ensures
        ({
            let prep = if options.screen_preparation == ScreenPreperation::ClearScreen {
                seq![64u8, 67u8, 76u8, 83u8, 64u8]
            } else {
                Seq::empty()
            };
            let text = prep + pcb_rows(*buf, buf.height as int).0;
            if !options.save_sauce {
                res is Ok && res->Ok_0@ == text
            } else if buf.comments@.len() > 255 {
                res == Err::<Vec<u8>, SauceError>(SauceError::TooManyComments)
            } else {
                res is Ok && res->Ok_0@ == text.push(26) + sauce_head(*buf, (text.len() + 1) as u32) + sauce_tail(
                    *buf,
                    SauceFileType::PCBoard,
                )
            }
        }),
{
    let mut result: Vec<u8> = Vec::new();
    match options.screen_preparation {
        ScreenPreperation::ClearScreen => {
            result.push(64);
            result.push(67);
            result.push(76);
            result.push(83);
            result.push(64);
        },
        _ => {},
    }
    let ghost prep = result@;
    let h = buf.height as i32;
    let w = buf.width as i32;
    let mut last = TextAttribute::default_attribute();
    let mut first = true;
    let mut y: i32 = 0;
    proof {
        lemma_pcb_rows_len(*buf, buf.height as int);
    }
    while y < h
        invariant
            0 <= y <= h,
            h == buf.height,
            w == buf.width,
            colors_fit(*buf),
            prep.len() <= 5,
            result@ == prep + pcb_rows(*buf, y as int).0,
            last == pcb_rows(*buf, y as int).1,
            first == pcb_rows(*buf, y as int).2,
            pcb_rows(*buf, buf.height as int).0.len() <= (5 * buf.width + 2) * buf.height,
            5 + (5 * buf.width + 2) * buf.height + 100 <= usize::MAX,
        decreases h - y,
    {
        let len = buf.get_line_length(y);
        proof {
            lemma_pcb_rows_len(*buf, y as int);
            lemma_pcb_rows_len(*buf, y + 1);
            assert((5 * buf.width + 2) * (y + 1) <= (5 * buf.width + 2) * buf.height) by (nonlinear_arith)
                requires
                    y + 1 <= buf.height,
            ;
            assert((5 * buf.width + 2) * (y + 1) == (5 * buf.width + 2) * y + 5 * buf.width + 2) by (nonlinear_arith);
        }
        let ghost row_start = result@;
        let ghost l0 = last;
        let ghost f0 = first;
        let mut x: i32 = 0;
        while x < len
            invariant
                0 <= x <= len,
                len == row_len(*buf, y as int),
                0 <= len <= w,
                w == buf.width,
                0 <= y < buf.height,
                colors_fit(*buf),
                result@ == row_start + pcb_row(*buf, y as int, x as int, l0, f0).0,
                last == pcb_row(*buf, y as int, x as int, l0, f0).1,
                first == pcb_row(*buf, y as int, x as int, l0, f0).2,
                row_start.len() + 5 * len + 100 <= usize::MAX,
            decreases len - x,
        {
            proof {
                lemma_pcb_row_len(*buf, y as int, x as int, l0, f0);
            }
            let ch = buf.get_char(Position::from(x, y));
            assert(ch == buf.spec_get_char(x as int, y as int));
            let pc = if ch.char_code == 0 { 32 } else { ch.char_code };
            if first || !ch.attribute.same(&last) {
                result.push(64);
                result.push(88);
                result.push(hex_digit_exec(ch.attribute.background_color));
                result.push(hex_digit_exec(ch.attribute.foreground_color));
                last = ch.attribute;
            }
            result.push(pc);
            first = false;
            proof {
                assert(result@ =~= row_start + pcb_row(*buf, y as int, x + 1, l0, f0).0);
            }
            x = x + 1;
        }
        if len < w && y + 1 < h {
            result.push(13);
            result.push(10);
        }
        proof {
            assert(result@ =~= prep + pcb_rows(*buf, y + 1).0);
        }
        y = y + 1;
    }
    if options.save_sauce {
        match buf.write_sauce_info(&SauceFileType::PCBoard, &mut result) {
            Ok(_) => {},
            Err(e) => {
                return Err(e);
            },
        }
    }
    Ok(result)
}

/// Whether a PCBoard file needs a SAUCE record, and why: its width
/// differs from 80 or it has metadata.
pub fn get_save_sauce_default_pcb(buf: &Buffer) -> (r: (bool, String))
    ensures
        r.0 == (buf.width != 80 || buf.has_sauce_data()),
        buf.width != 80 ==> r.1@ == "width != 80"@,
        buf.width == 80 ==> r.1@ == Seq::<char>::empty(),
{
    if buf.width != 80 {
        return (true, String::from_str("width != 80"));
    }
    if buf.has_sauce_relevant_data() {
        return (true, String::new());
    }
    (false, String::new())
}

} // verus!
