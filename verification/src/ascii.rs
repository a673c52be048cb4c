use vstd::prelude::*;

use crate::buffer::Buffer;
use crate::position::Position;
use crate::sauce::{sauce_head, sauce_tail, SauceError, SauceFileType};
use crate::save_options::SaveOptions;

verus! {

/// The length of row `y` as the text writers see it.
pub open spec fn row_len(b: Buffer, y: int) -> int {
    b.line_length_upto(y, b.width as int)
}

/// The printable byte of a cell: NUL is written as a space.
pub open spec fn printable(c: u8) -> u8 {
    if c == 0 {
        32
    } else {
        c
    }
}

/// The characters of row `y` up to its length.
pub open spec fn row_text(b: Buffer, y: int) -> Seq<u8> {
    Seq::new(row_len(b, y) as nat, |x: int| printable(b.spec_get_char(x, y).char_code))
}

/// A line break follows a row that ends before the last column, unless it
/// is the last row.
pub open spec fn row_break(b: Buffer, y: int) -> Seq<u8> {
    if row_len(b, y) < b.width && y + 1 < b.height {
        seq![13u8, 10u8]
    } else {
        Seq::empty()
    }
}

/// An empty last row after a row that filled the width is written as one
/// blank, so that reading the text back gives as many rows.
pub open spec fn last_row_mark(b: Buffer, y: int) -> Seq<u8> {
    if y > 0 && y + 1 == b.height && row_len(b, y) == 0 && row_len(b, y - 1) >= b.width {
        seq![32u8]
    } else {
        Seq::empty()
    }
}

/// The text of rows `0..y`.
pub open spec fn asc_rows(b: Buffer, y: int) -> Seq<u8>
    decreases y,
{
    if y <= 0 {
        Seq::empty()
    } else {
        asc_rows(b, y - 1) + row_text(b, y - 1) + last_row_mark(b, y - 1) + row_break(b, y - 1)
    }
}

pub proof fn lemma_asc_rows_len(b: Buffer, y: int)
    requires
        0 <= y,
    ensures
        asc_rows(b, y).len() <= (b.width + 3) * y,
    decreases y,
{
    if y > 0 {
        lemma_asc_rows_len(b, y - 1);
        b.lemma_line_length_bounds(y - 1, b.width as int);
        assert((b.width + 3) * (y - 1) + b.width + 3 == (b.width + 3) * y) by (nonlinear_arith);
    }
}

/// Appends the characters of row `y` up to `len` to `result`.
pub fn push_row_text(buf: &Buffer, y: i32, len: i32, result: &mut Vec<u8>)
    requires
        len == row_len(*buf, y as int),
        0 <= len <= buf.width,
        old(result).len() + len <= usize::MAX,
    ensures
        final(result)@ == old(result)@ + row_text(*buf, y as int),
{
    let ghost start = result@;
    let mut x: i32 = 0;
    while x < len
        invariant
            0 <= x <= len,
            len == row_len(*buf, y as int),
            start.len() + len <= usize::MAX,
            result@ == start + row_text(*buf, y as int).subrange(0, x as int),
        decreases len - x,
    {
        let ch = buf.get_char(Position::from(x, y));
        result.push(if ch.char_code == 0 { 32 } else { ch.char_code });
        proof {
            assert(result@ =~= start + row_text(*buf, y as int).subrange(0, x + 1));
        }
        x = x + 1;
    }
    assert(row_text(*buf, y as int).subrange(0, len as int) =~= row_text(*buf, y as int));
}

/// The picture as plain text: every row up to its length, rows that end
/// before the last column followed by a line break (the last row never),
/// and a SAUCE record of kind ASCII when the options ask for one.
pub fn convert_to_asc(buf: &Buffer, options: &SaveOptions) -> (res: Result<Vec<u8>, SauceError>)
    requires
        (buf.width + 3) * buf.height + 1 + sauce_head(*buf, 0).len() + sauce_tail(*buf, SauceFileType::Ascii).len()
            + 100 <= usize::MAX,
    ensures
        ({
            let text = asc_rows(*buf, buf.height as int);
            if !options.save_sauce {
                res is Ok && res->Ok_0@ == text
            } else if buf.comments@.len() > 255 {
                res == Err::<Vec<u8>, SauceError>(SauceError::TooManyComments)
            } else {
                res is Ok && res->Ok_0@ == text.push(26) + sauce_head(*buf, (text.len() + 1) as u32) + sauce_tail(
                    *buf,
                    SauceFileType::Ascii,
                )
            }
        }),
{
    let mut result: Vec<u8> = Vec::new();
    let h = buf.height as i32;
    let w = buf.width as i32;
    let mut prev_len: i32 = 0;
    let mut y: i32 = 0;
    proof {
        lemma_asc_rows_len(*buf, buf.height as int);
    }
    while y < h
        invariant
            0 <= y <= h,
            h == buf.height,
            w == buf.width,
            y > 0 ==> prev_len == row_len(*buf, y - 1),
            result@ == asc_rows(*buf, y as int),
            asc_rows(*buf, buf.height as int).len() <= (buf.width + 3) * buf.height,
            (buf.width + 3) * buf.height + 100 <= usize::MAX,
        decreases h - y,
    {
        let len = buf.get_line_length(y);
        proof {
            lemma_asc_rows_len(*buf, y as int);
            lemma_asc_rows_len(*buf, y + 1);
            assert((buf.width + 3) * (y + 1) <= (buf.width + 3) * buf.height) by (nonlinear_arith)
                requires
                    y + 1 <= buf.height,
            ;
        }
        let ghost before = result@;
        push_row_text(buf, y, len, &mut result);
        if y > 0 && y + 1 == h && len == 0 && prev_len >= w {
            result.push(32);
        }
        if len < w && y + 1 < h {
            result.push(13);
            result.push(10);
        }
        proof {
            assert(result@ =~= asc_rows(*buf, y + 1));
        }
        prev_len = len;
        y = y + 1;
    }
    if options.save_sauce {
        match buf.write_sauce_info(&SauceFileType::Ascii, &mut result) {
            Ok(_) => {},
            Err(e) => {
                return Err(e);
            },
        }
    }
    Ok(result)
}

/// Whether a text file needs a SAUCE record, and why: its width differs
/// from 80 or it has metadata.
pub fn get_save_sauce_default_asc(buf: &Buffer) -> (r: (bool, String))
    ensures
        r.0 == (buf.width != 80 || buf.has_sauce_data()),
        buf.width != 80 ==> r.1@ == "width != 80"@,
        buf.width == 80 ==> r.1@ == Seq::<char>::empty(),
{
    if buf.width != 80 {
        return (true, String::from_str("width != 80"));
    }
    if buf.has_sauce_relevant_data() {
        return (true, String::new());
    }
    (false, String::new())
}

} // verus!
