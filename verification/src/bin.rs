use vstd::prelude::*;

use crate::buffer::Buffer;
use crate::dos_char::DosChar;
use crate::layer::{grid_set, write_run};
use crate::load_error::LoadError;
use crate::position::Position;
use crate::sauce::{sauce_head, sauce_tail, SauceError, SauceFileType};
use crate::save_options::SaveOptions;
use crate::text_attribute::TextAttribute;
use crate::text_attribute::BufferType;

verus! {

/// The first `n` cells of BIN data: a character byte and an attribute
/// byte each.
pub open spec fn bin_cells(bytes: Seq<u8>, n: int, buffer_type: BufferType) -> Seq<DosChar> {
    Seq::new(
        n as nat,
        |i: int|
            DosChar {
                char_code: bytes[2 * i],
                attribute: TextAttribute::spec_from_u8(bytes[2 * i + 1], buffer_type),
            },
    )
}

/// Rows needed for `n` cells in rows of `w`.
pub open spec fn rows_for(n: int, w: int) -> int {
    if n % w == 0 {
        n / w
    } else {
        n / w + 1
    }
}

/// Reads the first `file_size` bytes of `bytes` as BIN data, character and
/// attribute byte per cell, into layer 0 in rows of the buffer's width, and
/// sets the height to the rows filled. Data whose last cell has no
/// attribute byte is refused after the whole cells were read.
pub fn read_binary(result: &mut Buffer, bytes: &[u8], file_size: usize) -> (res: Result<bool, LoadError>)
    requires
        old(result).layers.len() > 0,
        old(result).width > 0,
        file_size <= bytes.len(),
        file_size <= i32::MAX,
    ensures
        ({
            let w = old(result).width as int;
            let n = (file_size / 2) as int;
            let cells = bin_cells(bytes@, n, old(result).buffer_type);
            &&& final(result).layers.len() == old(result).layers.len()
            &&& final(result).layers@[0].grid() == write_run(old(result).layers@[0].grid(), cells, w)
            &&& final(result).layers@[0].is_visible == old(result).layers@[0].is_visible
            &&& forall|l: int| 1 <= l < old(result).layers.len() ==> final(result).layers@[l] == old(result).layers@[l]
            &&& final(result).width == old(result).width
            &&& Buffer::same_meta(*old(result), *final(result))
            &&& file_size % 2 == 0 ==> res == Ok::<bool, LoadError>(true) && final(result).height == (rows_for(n, w) % 65536) as u16
            &&& file_size % 2 == 1 ==> res == Err::<bool, LoadError>(LoadError::BinOddLength) && final(result).height
                == old(result).height
        }),
{
    let w = result.width as usize;
    let bt = result.buffer_type;
    let ghost g0 = result.layers@[0].grid();
    let ghost r0 = *result;
    let mut o: usize = 0;
    let mut x: i32 = 0;
    let mut y: i32 = 0;
    while o + 1 < file_size
        invariant
            o % 2 == 0,
            o <= file_size,
            file_size <= bytes.len(),
            file_size <= i32::MAX,
            w == r0.width,
            w > 0,
            bt == r0.buffer_type,
            0 <= x < w,
            y >= 0,
            y * w + x == o / 2,
            y <= o / 2,
            result.layers.len() == r0.layers.len(),
            r0.layers.len() > 0,
            g0 == r0.layers@[0].grid(),
            result.layers@[0].grid() == write_run(g0, bin_cells(bytes@, (o / 2) as int, bt), w as int),
            result.layers@[0].is_visible == r0.layers@[0].is_visible,
            forall|l: int| 1 <= l < r0.layers.len() ==> result.layers@[l] == r0.layers@[l],
            result.width == r0.width,
            result.height == r0.height,
            Buffer::same_meta(r0, *result),
        decreases file_size - o,
    {
        let ch = DosChar { char_code: bytes[o], attribute: TextAttribute::from_u8(bytes[o + 1], bt) };
        proof {
            let n = (o / 2) as int;
            let cs = bin_cells(bytes@, n + 1, bt);
            assert(cs.drop_last() =~= bin_cells(bytes@, n, bt));
            assert(cs.last() == ch);
            assert(n % (w as int) == x && n / (w as int) == y) by (nonlinear_arith)
                requires
                    n == y * w + x,
                    0 <= x < w,
                    y >= 0,
            ;
        }
        result.set_char(0, Position::from(x, y), ch);
        proof {
            assert(((o + 2) / 2) as int == (o / 2) as int + 1);
        }
        o = o + 2;
        if x + 1 >= w as i32 {
            proof {
                assert((y + 1) * w + 0 == y * w + x + 1) by (nonlinear_arith)
                    requires
                        x + 1 == w,
                ;
            }
            x = 0;
            y = y + 1;
        } else {
            x = x + 1;
        }
    }
    if o < file_size {
        return Err(LoadError::BinOddLength);
    }
    proof {
        let n = (o / 2) as int;
        assert(n == file_size / 2);
        assert(rows_for(n, w as int) == (if x == 0 { y as int } else { y + 1 })) by (nonlinear_arith)
            requires
                n == y * w + x,
                0 <= x < w,
                y >= 0,
        ;
    }
    result.set_height_for_pos(Position::from(x, y));
    proof {
        let yy = y;
        assert((if yy as u16 == 65535 { 0u16 } else { ((yy as u16) + 1) as u16 }) == ((yy + 1) % 65536) as u16) by (bit_vector)
            requires
                0 <= yy < 0x7fff_ffff,
        ;
        assert(yy as u16 == (yy % 65536) as u16) by (bit_vector)
            requires
                yy >= 0,
        ;
    }
    Ok(true)
}

/// Cell `i` of the buffer in row order: column `i % width`, row
/// `i / width`, as the buffer shows it.
pub open spec fn cell_at(b: Buffer, i: int) -> DosChar {
    b.spec_get_char(i % (b.width as int), i / (b.width as int))
}

/// The picture as BIN data: character and attribute byte of every cell of
/// the buffer's width and height, row by row.
pub open spec fn screen_bytes(b: Buffer) -> Seq<u8> {
    Seq::new(
        (2 * b.width * b.height) as nat,
        |k: int|
            {
                let c = cell_at(b, k / 2);
                if k % 2 == 0 {
                    c.char_code
                } else {
                    c.attribute.spec_as_u8()
                }
            },
    )
}

/// Appends the BIN data of the buffer to `result`.
pub fn push_screen_bytes(buf: &Buffer, result: &mut Vec<u8>)
    requires
        old(result).len() + 2 * buf.width * buf.height <= usize::MAX,
    ensures
        final(result)@ == old(result)@ + screen_bytes(*buf),
{
    let w = buf.width as usize;
    let h = buf.height as usize;
    proof {
        assert(w * h <= 2 * w * h && 2 * w * h == 2 * (w * h)) by (nonlinear_arith);
    }
    let n = w * h;
    let ghost start = result@;
    let mut i: usize = 0;
    while i < n
        invariant
            i <= n,
            n == w * h,
            w == buf.width,
            h == buf.height,
            start.len() + 2 * n <= usize::MAX,
            screen_bytes(*buf).len() == 2 * n,
            result@ == start + screen_bytes(*buf).subrange(0, 2 * i as int),
        decreases n - i,
    {
        proof {
            assert(i < w * h);
            assert(w > 0) by (nonlinear_arith)
                requires
                    i < w * h,
                    i >= 0,
            ;
            assert(i / w < h) by (nonlinear_arith)
                requires
                    i < w * h,
                    w > 0,
            ;
        }
        let x = (i % w) as i32;
        let y = (i / w) as i32;
        let ch = buf.get_char(Position::from(x, y));
        result.push(ch.char_code);
        result.push(ch.attribute.as_u8());
        proof {
            let sb = screen_bytes(*buf);
            assert(((2 * i) / 2) as int == i && ((2 * i + 1) / 2) as int == i);
            assert(cell_at(*buf, i as int) == ch);
            assert(sb[2 * i as int] == ch.char_code);
            assert(sb[2 * i + 1] == ch.attribute.spec_as_u8());
            assert(result@ =~= start + sb.subrange(0, 2 * (i + 1)));
        }
        i = i + 1;
    }
    assert(screen_bytes(*buf).subrange(0, 2 * n as int) =~= screen_bytes(*buf));
}

/// The picture as BIN data, followed by a SAUCE record when the options ask
/// for one.
pub fn convert_to_binary(buf: &Buffer, options: &SaveOptions) -> (res: Result<Vec<u8>, SauceError>)
    requires
        2 * buf.width * buf.height + 1 + sauce_head(*buf, 0).len() + sauce_tail(*buf, SauceFileType::Bin).len()
            + 100 <= usize::MAX,
    ensures
        ({
            let data = screen_bytes(*buf);
            let start = data.push(26);
            let fs = (data.len() + 1) as u32;
            if !options.save_sauce {
                res == Ok::<Vec<u8>, SauceError>(res->Ok_0) && res->Ok_0@ == data
            } else if buf.comments@.len() > 255 {
                res == Err::<Vec<u8>, SauceError>(SauceError::TooManyComments)
            } else if buf.width / 2 > 255 {
                res == Err::<Vec<u8>, SauceError>(SauceError::BinTooWide)
            } else {
                res is Ok && res->Ok_0@ == start + sauce_head(*buf, fs) + sauce_tail(*buf, SauceFileType::Bin)
            }
        }),
{
    let mut result: Vec<u8> = Vec::new();
    push_screen_bytes(buf, &mut result);
    assert(result@ =~= screen_bytes(*buf));
    if options.save_sauce {
        match buf.write_sauce_info(&SauceFileType::Bin, &mut result) {
            Ok(_) => {},
            Err(e) => {
                return Err(e);
            },
        }
    }
    Ok(result)
}

/// Whether a BIN file needs a SAUCE record, and why: its width differs from
/// 160 or it has metadata.
pub fn get_save_sauce_default_binary(buf: &Buffer) -> (r: (bool, String))
    ensures
        r.0 == (buf.width != 160 || buf.has_sauce_data()),
        buf.width != 160 ==> r.1@ == "width != 160"@,
        buf.width == 160 ==> r.1@ == Seq::<char>::empty(),
{
    if buf.width != 160 {
        return (true, String::from_str("width != 160"));
    }
    if buf.has_sauce_relevant_data() {
        return (true, String::new());
    }
    (false, String::new())
}

/// A picture written as BIN data and read back into a buffer of the same
/// width in ice color mode shows, at every cell of the picture, the same
/// character and colors as the picture showed, a blank that lets the
/// background through reading back as the default blank. Colors must fit
/// the four bits an attribute byte has for each.
pub proof fn lemma_bin_roundtrip(b: Buffer, g: Seq<Seq<DosChar>>, x: int, y: int)
    requires
        b.width > 0,
        0 <= x < b.width,
        0 <= y < b.height,
        b.spec_get_char(x, y).attribute.foreground_color < 16,
        b.spec_get_char(x, y).attribute.background_color < 16,
    ensures
        ({
            let w = b.width as int;
            let n = w * b.height;
            let back = write_run(g, bin_cells(screen_bytes(b), n, BufferType::LegacyIce), w);
            crate::layer::grid_get(back, x, y).spec_same(crate::layer::shown(b.spec_get_char(x, y)))
        }),
{
    let w = b.width as int;
    let h = b.height as int;
    let n = w * h;
    let i = y * w + x;
    assert(0 <= i < n && i % w == x && i / w == y) by (nonlinear_arith)
        requires
            0 <= x < w,
            0 <= y < h,
            i == y * w + x,
            n == w * h,
    ;
    assert(screen_bytes(b).len() == 2 * n) by (nonlinear_arith)
        requires
            screen_bytes(b).len() == 2 * b.width * b.height,
            n == w * h,
            w == b.width,
            h == b.height,
    ;
    let c = b.spec_get_char(x, y);
    let cells = bin_cells(screen_bytes(b), n, BufferType::LegacyIce);
    assert((2 * i) / 2 == i && (2 * i + 1) / 2 == i);
    assert(cell_at(b, i) == c);
    assert(cells[i].char_code == c.char_code);
    assert(cells[i].attribute == TextAttribute::spec_from_u8(c.attribute.spec_as_u8(), BufferType::LegacyIce));
    crate::text_attribute::lemma_attribute_byte_roundtrip(c.attribute);
    crate::layer::lemma_write_run_get(g, cells, w, x, y);
}

} // verus!
