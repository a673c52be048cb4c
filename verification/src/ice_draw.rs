use vstd::prelude::*;

use crate::artworx::{font_bytes, font_u32, push_font_bytes};
use crate::bin::cell_at;
use crate::buffer::{BitFont, Buffer};
use crate::dos_char::DosChar;
use crate::layer::grid_set;
use crate::palette::{palette_from, Palette};
use crate::parse_states::{sat_add, sat_i32};
use crate::position::{Position, Size};
use crate::sauce_string::SauceString;
use crate::text_attribute::{BufferType, TextAttribute};

verus! {

pub open spec fn idf_cell(ch: u8, attr: u8, bt: BufferType) -> DosChar {
    DosChar { char_code: ch, attribute: TextAttribute::spec_from_u8(attr, bt) }
}

/// The cells of iCE Draw data from offset `o` up to `ds`: a character and
/// attribute byte each, or the pair 1, 0 followed by a 16 bit count and the
/// cell to repeat.
pub open spec fn idf_cells(d: Seq<u8>, o: int, ds: int, bt: BufferType) -> Seq<DosChar>
    decreases ds - o,
{
    if o < 0 || o + 1 >= ds || o + 1 >= d.len() {
        Seq::empty()
    } else {
        let o2 = o + 2;
        if d[o] == 1 && d[o + 1] == 0 {
            if o2 + 3 >= ds || o2 + 3 >= d.len() {
                Seq::empty()
            } else {
                let rle = d[o2] as int + d[o2 + 1] as int * 256;
                let c = idf_cell(d[o2 + 2], d[o2 + 3], bt);
                Seq::new(rle as nat, |j: int| c) + idf_cells(d, o2 + 4, ds, bt)
            }
        } else {
            seq![idf_cell(d[o], d[o + 1], bt)] + idf_cells(d, o2, ds, bt)
        }
    }
}

/// Where the iCE Draw cell data read from `o` ends.
pub open spec fn idf_end(d: Seq<u8>, o: int, ds: int) -> int
    decreases ds - o,
{
    if o < 0 || o + 1 >= ds || o + 1 >= d.len() {
        o
    } else {
        let o2 = o + 2;
        if d[o] == 1 && d[o + 1] == 0 {
            if o2 + 3 >= ds || o2 + 3 >= d.len() {
                o2
            } else {
                idf_end(d, o2 + 4, ds)
            }
        } else {
            idf_end(d, o2, ds)
        }
    }
}

/// The position of cell `i` in a window `w` columns wide whose top left
/// corner is `(x0, y0)`; rows beyond the range of `i32` stay on the last.
pub open spec fn window_pos(i: int, x0: int, y0: int, w: int) -> (int, int) {
    (x0 + i % w, sat_i32(y0 + i / w) as int)
}

/// `g` with the cells of `cs` written one after another into a window.
pub open spec fn write_window(g: Seq<Seq<DosChar>>, cs: Seq<DosChar>, x0: int, y0: int, w: int) -> Seq<Seq<DosChar>>
    decreases cs.len(),
{
    if cs.len() == 0 {
        g
    } else {
        let i = cs.len() - 1;
        let p = window_pos(i, x0, y0, w);
        grid_set(write_window(g, cs.drop_last(), x0, y0, w), p.0, p.1, cs.last())
    }
}

pub proof fn lemma_idf_end(d: Seq<u8>, o: int, ds: int)
    requires
        0 <= o,
        ds <= d.len(),
    ensures
        o <= idf_end(d, o, ds),
        idf_end(d, o, ds) <= (if o > ds { o } else { ds }),
    decreases ds - o,
{
    if o < 0 || o + 1 >= ds || o + 1 >= d.len() {
    } else {
        let o2 = o + 2;
        if d[o] == 1 && d[o + 1] == 0 {
            if o2 + 3 >= ds || o2 + 3 >= d.len() {
            } else {
                lemma_idf_end(d, o2 + 4, ds);
            }
        } else {
            lemma_idf_end(d, o2, ds);
        }
    }
}

proof fn lemma_window_step(i: int, x0: int, y0: int, w: int, x: int, y: int)
    requires
        i >= 0,
        w > 0,
        y0 >= 0,
        (x, y) == window_pos(i, x0, y0, w),
    ensures
        x + 1 < x0 + w ==> window_pos(i + 1, x0, y0, w) == (x + 1, y),
        x + 1 >= x0 + w ==> window_pos(i + 1, x0, y0, w) == (x0, sat_i32(y + 1) as int),
        x0 <= x < x0 + w,
{
    crate::xbinary::lemma_run_step(i, w);
    assert(i / w >= 0);
}

/// Writes `count` copies of a cell into the window, advancing the position.
fn write_repeat(result: &mut Buffer, ch: DosChar, count: u32, x: &mut i32, y: &mut i32, x1: i32, x2: i32, Ghost(g0): Ghost<Seq<Seq<DosChar>>>, Ghost(done): Ghost<Seq<DosChar>>, Ghost(y1): Ghost<int>) -> (r: Ghost<Seq<DosChar>>)
    requires
        old(result).layers.len() > 0,
        0 <= x1 <= x2 < 65535,
        y1 >= 0,
        (*old(x) as int, *old(y) as int) == window_pos(done.len() as int, x1 as int, y1, (x2 - x1 + 1) as int),
        old(result).layers@[0].grid() == write_window(g0, done, x1 as int, y1, (x2 - x1 + 1) as int),
    ensures
        r@ == done + Seq::new(count as nat, |j: int| ch),
        (*final(x) as int, *final(y) as int) == window_pos(r@.len() as int, x1 as int, y1, (x2 - x1 + 1) as int),
        final(result).layers@[0].grid() == write_window(g0, r@, x1 as int, y1, (x2 - x1 + 1) as int),
        crate::xbinary::layer0_frame(*old(result), *final(result)),
{
    let ghost w = (x2 - x1 + 1) as int;
    let ghost r0 = *result;
    let ghost mut cur = done;
    let mut k: u32 = 0;
    while k < count
        invariant
            k <= count,
            r0.layers.len() > 0,
            0 <= x1 <= x2 < 65535,
            y1 >= 0,
            w == x2 - x1 + 1,
            cur == done + Seq::new(k as nat, |j: int| ch),
            (*x as int, *y as int) == window_pos(cur.len() as int, x1 as int, y1, w),
            result.layers@[0].grid() == write_window(g0, cur, x1 as int, y1, w),
            crate::xbinary::layer0_frame(r0, *result),
        decreases count - k,
    {
        proof {
            lemma_window_step(cur.len() as int, x1 as int, y1, w, *x as int, *y as int);
        }
        result.set_char(0, Position::from(*x, *y), ch);
        proof {
            let nc = cur.push(ch);
            assert(nc.drop_last() =~= cur);
            assert(nc =~= done + Seq::new((k + 1) as nat, |j: int| ch));
            cur = nc;
        }
        if *x >= x2 {
            *x = x1;
            *y = sat_add(*y, 1);
        } else {
            *x = *x + 1;
        }
        k = k + 1;
    }
    Ghost(cur)
}

/// The header of an iCE Draw file of version 1.3 or 1.4.
pub open spec fn idf_version_ok(d: Seq<u8>) -> bool {
    d[0] == 4 && d[1] == 49 && d[2] == 46 && (d[3] == 51 || d[3] == 52)
}

pub open spec fn le16_at(d: Seq<u8>, o: int) -> int {
    d[o] as int + d[o + 1] as int * 256
}

/// Reads an iCE Draw file: the window of the picture from the header, the
/// run length coded cells, then the font and the palette that follow the
/// cells. The height is the row the writing ended on.
pub fn read_idf(result: &mut Buffer, bytes: &[u8], file_size: usize)
    requires
        old(result).layers.len() > 0,
        file_size <= bytes.len(),
        file_size >= 12 + 4096 + 48,
        idf_version_ok(bytes@),
        le16_at(bytes@, 4) <= le16_at(bytes@, 8) < 65535,
    ensures
        Buffer::same_text(*old(result), *final(result)),
        final(result).file_name == old(result).file_name,
        ({
            let d = bytes@;
            let x1 = le16_at(d, 4);
            let y1 = le16_at(d, 6);
            let x2 = le16_at(d, 8);
            let w = x2 - x1 + 1;
            let ds = file_size - 4096 - 48;
            let cells = idf_cells(d, 12, ds, old(result).buffer_type);
            let e = idf_end(d, 12, ds);
            &&& final(result).width == x2 + 1
            &&& final(result).layers@[0].grid() == write_window(old(result).layers@[0].grid(), cells, x1, y1, w)
            &&& final(result).height == window_pos(cells.len() as int, x1, y1, w).1 as u16
            &&& final(result).font matches Some(f) && f.size == (Size { width: 8, height: 16 })
            &&& final(result).font->0.name.0@ == Seq::<u8>::empty()
            &&& final(result).font->0.data@ == font_u32(d, e, 4096)
            &&& final(result).palette.colors@ == palette_from(d.subrange(e + 4096, e + 4096 + 48))
            &&& final(result).buffer_type == old(result).buffer_type
            &&& final(result).layers.len() == old(result).layers.len()
            &&& forall|l: int| 1 <= l < old(result).layers.len() ==> final(result).layers@[l] == old(result).layers@[l]
        }),
{
    let ghost d = bytes@;
    let ghost r0 = *result;
    let ghost g0 = result.layers@[0].grid();
    let bt = result.buffer_type;
    let x1: i32 = (bytes[5] as i32) * 256 + bytes[4] as i32;
    let y1: i32 = (bytes[7] as i32) * 256 + bytes[6] as i32;
    let x2: i32 = (bytes[9] as i32) * 256 + bytes[8] as i32;
    let ghost w = (x2 - x1 + 1) as int;
    let data_size = file_size - 4096 - 48;
    proof {
        lemma_idf_end(d, 12, data_size as int);
        assert(window_pos(0, x1 as int, y1 as int, w) == (x1 as int, y1 as int));
    }
    let ghost total = idf_cells(d, 12, data_size as int, bt);
    let ghost end = idf_end(d, 12, data_size as int);
    let mut x = x1;
    let mut y = y1;
    let ghost mut done: Seq<DosChar> = Seq::empty();
    let mut o: usize = 12;
    let mut stop = false;
    while o + 1 < data_size && !stop
        invariant
            d == bytes@,
            r0 == *old(result),
            r0.layers.len() > 0,
            g0 == r0.layers@[0].grid(),
            bt == r0.buffer_type,
            data_size == file_size - 4096 - 48,
            file_size <= bytes.len(),
            12 <= o <= data_size,
            0 <= x1 <= x2 < 65535,
            0 <= y1,
            w == x2 - x1 + 1,
            !stop ==> total == done + idf_cells(d, o as int, data_size as int, bt),
            !stop ==> end == idf_end(d, o as int, data_size as int),
            stop ==> total == done && end == o,
            (x as int, y as int) == window_pos(done.len() as int, x1 as int, y1 as int, w),
            result.layers@[0].grid() == write_window(g0, done, x1 as int, y1 as int, w),
            crate::xbinary::layer0_frame(r0, *result),
        decreases data_size - o, (if stop { 0int } else { 1int }),
    {
        let ch = bytes[o];
        let attr = bytes[o + 1];
        let o2 = o + 2;
        if ch == 1 && attr == 0 {
            if o2 + 3 >= data_size {
                proof {
                    assert(idf_cells(d, o as int, data_size as int, bt) =~= Seq::<DosChar>::empty());
                    assert(total =~= done);
                }
                o = o2;
                stop = true;
            } else {
                let rle: u32 = (bytes[o2 + 1] as u32) * 256 + bytes[o2] as u32;
                let c = DosChar { char_code: bytes[o2 + 2], attribute: TextAttribute::from_u8(bytes[o2 + 3], bt) };
                let ghost before = done;
                let r = write_repeat(result, c, rle, &mut x, &mut y, x1, x2, Ghost(g0), Ghost(done), Ghost(y1 as int));
                proof {
                    done = r@;
                    assert(idf_cells(d, o as int, data_size as int, bt) =~= Seq::new(rle as nat, |j: int| c) + idf_cells(d, o2 + 4, data_size as int, bt));
                    assert(total =~= done + idf_cells(d, o2 + 4, data_size as int, bt));
                }
                o = o2 + 4;
            }
        } else {
            let c = DosChar { char_code: ch, attribute: TextAttribute::from_u8(attr, bt) };
            let r = write_repeat(result, c, 1, &mut x, &mut y, x1, x2, Ghost(g0), Ghost(done), Ghost(y1 as int));
            proof {
                assert(Seq::new(1nat, |j: int| c) =~= seq![c]);
                done = r@;
                assert(total =~= done + idf_cells(d, o2 as int, data_size as int, bt));
            }
            o = o2;
        }
    }
    proof {
        if !stop {
            assert(idf_cells(d, o as int, data_size as int, bt) =~= Seq::<DosChar>::empty());
            assert(total =~= done);
        }
    }
    result.width = (x2 + 1) as u16;
    let mut data: Vec<u32> = Vec::new();
    let mut i: usize = 0;
    while i < 4096
        invariant
            i <= 4096,
            o + 4096 + 48 <= bytes.len(),
            data@ == font_u32(bytes@, o as int, i as int),
        decreases 4096 - i,
    {
        data.push(bytes[o + i] as u32);
        proof {
            assert(data@ =~= font_u32(bytes@, o as int, i + 1));
        }
        i = i + 1;
    }
    result.font = Some(BitFont { name: SauceString::new(), size: Size::from(8, 16), data });
    result.palette = Palette::from(vstd::slice::slice_subrange(bytes, o + 4096, o + 4096 + 48));
    result.height = y as u16;
}

/// The cells of the picture in row order.
pub open spec fn screen_cells(b: Buffer) -> Seq<DosChar> {
    Seq::new((b.width * b.height) as nat, |i: int| cell_at(b, i))
}

/// The length of the run of cells equal to cell `x` starting at `x`, from
/// `r` on, at most 65535.
pub open spec fn idf_run(cs: Seq<DosChar>, x: int, r: int) -> int
    decreases cs.len() - x - r,
{
    if x + r < cs.len() && r < 65535 && r >= 1 && cs[x + r].spec_same(cs[x]) {
        idf_run(cs, x, r + 1)
    } else {
        r
    }
}

pub proof fn lemma_idf_run(cs: Seq<DosChar>, x: int, r: int)
    requires
        0 <= x,
        1 <= r,
        x + r <= cs.len(),
        r <= 65535,
    ensures
        r <= idf_run(cs, x, r) <= 65535,
        x + idf_run(cs, x, r) <= cs.len(),
    decreases cs.len() - x - r,
{
    if x + r < cs.len() && r < 65535 && cs[x + r].spec_same(cs[x]) {
        lemma_idf_run(cs, x, r + 1);
    }
}

/// The iCE Draw coding of the cells from `x` on: runs of more than three
/// equal cells, and every cell with character 1, as the pair 1, 0, a 16 bit
/// count and the cell; other cells as a character and an attribute byte.
pub open spec fn idf_encode(cs: Seq<DosChar>, x: int) -> Seq<u8>
    decreases cs.len() - x,
{
    if x >= cs.len() || x < 0 {
        Seq::empty()
    } else {
        let r = idf_run(cs, x, 1);
        let c = cs[x];
        if r > 3 || c.char_code == 1 {
            proof {
                lemma_idf_run(cs, x, 1);
            }
            seq![1u8, 0u8, (r % 256) as u8, (r / 256) as u8, c.char_code, c.attribute.spec_as_u8()] + idf_encode(cs, x + r)
        } else {
            seq![c.char_code, c.attribute.spec_as_u8()] + idf_encode(cs, x + 1)
        }
    }
}

pub proof fn lemma_idf_encode_len(cs: Seq<DosChar>, x: int)
    requires
        0 <= x <= cs.len(),
    ensures
        idf_encode(cs, x).len() <= 6 * (cs.len() - x),
    decreases cs.len() - x,
{
    if x < cs.len() {
        lemma_idf_run(cs, x, 1);
        let r = idf_run(cs, x, 1);
        if r > 3 || cs[x].char_code == 1 {
            lemma_idf_encode_len(cs, x + r);
        } else {
            lemma_idf_encode_len(cs, x + 1);
        }
    }
}

/// The picture as an iCE Draw 1.4 file: the window from the top left corner
/// to the last cell, the run length coded cells, the font
/// (`default_font` standing for the built-in one) and sixteen colors.
pub fn convert_to_idf(buffer: &Buffer, default_font: &[u8]) -> (res: Vec<u8>)
    requires
        buffer.width > 0,
        buffer.height > 0,
        12 + 6 * buffer.width * buffer.height + 4096 + default_font.len() + 48 <= usize::MAX,
    ensures
        res@ == seq![4u8, 49u8, 46u8, 52u8, 0u8, 0u8, 0u8, 0u8] + crate::sauce::le16((buffer.width - 1) as u16)
            + crate::sauce::le16((buffer.height - 1) as u16) + idf_encode(screen_cells(*buffer), 0) + font_bytes(
            *buffer,
            default_font@,
        ) + crate::palette::packed_colors(crate::palette::sixteen_colors(buffer.palette.colors@)),
{
    let mut result: Vec<u8> = Vec::new();
    result.push(4);
    result.push(49);
    result.push(46);
    result.push(52);
    result.push(0);
    result.push(0);
    result.push(0);
    result.push(0);
    let w = buffer.width - 1;
    result.push((w % 256) as u8);
    result.push((w / 256) as u8);
    let h = buffer.height - 1;
    result.push((h % 256) as u8);
    result.push((h / 256) as u8);
    let ghost head = result@;
    assert(head =~= seq![4u8, 49u8, 46u8, 52u8, 0u8, 0u8, 0u8, 0u8] + crate::sauce::le16(w) + crate::sauce::le16(h));
    let bw = buffer.width as usize;
    let bh = buffer.height as usize;
    proof {
        assert(bw * bh <= 6 * bw * bh && 6 * bw * bh == 6 * (bw * bh)) by (nonlinear_arith);
    }
    let len = bw * bh;
    let ghost cs = screen_cells(*buffer);
    proof {
        lemma_idf_encode_len(cs, 0);
    }
    let mut x: usize = 0;
    while x < len
        invariant
            x <= len,
            len == bw * bh,
            bw == buffer.width,
            bh == buffer.height,
            cs == screen_cells(*buffer),
            cs.len() == len,
            head.len() == 12,
            12 + 6 * len + 4096 + default_font.len() + 48 <= usize::MAX,
            idf_encode(cs, 0).len() <= 6 * len,
            head + idf_encode(cs, 0) == result@ + idf_encode(cs, x as int),
            result@.len() + idf_encode(cs, x as int).len() <= 12 + 6 * len,
        decreases len - x,
    {
        proof {
            assert(bw > 0) by (nonlinear_arith)
                requires
                    x < bw * bh,
                    x >= 0,
            ;
            assert(x / bw < bh) by (nonlinear_arith)
                requires
                    x < bw * bh,
                    bw > 0,
            ;
        }
        let ch = buffer.get_char(Position::from((x % bw) as i32, (x / bw) as i32));
        assert(ch == cs[x as int]);
        let mut rle: usize = 1;
        let mut go = true;
        proof {
            lemma_idf_run(cs, x as int, 1);
        }
        while go && x + rle < len && rle < 65535
            invariant
                x < len,
                len == bw * bh,
                bw == buffer.width,
                bh == buffer.height,
                bw > 0,
                cs == screen_cells(*buffer),
                cs.len() == len,
                ch == cs[x as int],
                1 <= rle <= 65535,
                x + rle <= len,
                go ==> idf_run(cs, x as int, 1) == idf_run(cs, x as int, rle as int),
                !go ==> idf_run(cs, x as int, 1) == rle,
            decreases len - x - rle, (if go { 1int } else { 0int }),
        {
            let p = x + rle;
            assert(p / bw < bh) by (nonlinear_arith)
                requires
                    p < bw * bh,
                    bw > 0,
            ;
            let n = buffer.get_char(Position::from((p % bw) as i32, (p / bw) as i32));
            assert(n == cs[p as int]);
            if !n.same(&ch) {
                go = false;
            } else {
                rle = rle + 1;
            }
        }
        proof {
            if go {
                assert(idf_run(cs, x as int, rle as int) == rle);
            }
        }
        let ghost before = result@;
        if rle > 3 || ch.char_code == 1 {
            result.push(1);
            result.push(0);
            result.push((rle % 256) as u8);
            result.push((rle / 256) as u8);
            result.push(ch.char_code);
            result.push(ch.attribute.as_u8());
            proof {
                assert(idf_encode(cs, x as int) =~= seq![1u8, 0u8, (rle % 256) as u8, (rle / 256) as u8, ch.char_code, ch.attribute.spec_as_u8()] + idf_encode(cs, x + rle));
                assert(result@ =~= before + seq![1u8, 0u8, (rle % 256) as u8, (rle / 256) as u8, ch.char_code, ch.attribute.spec_as_u8()]);
            }
            x = x + rle;
        } else {
            result.push(ch.char_code);
            result.push(ch.attribute.as_u8());
            proof {
                assert(idf_encode(cs, x as int) =~= seq![ch.char_code, ch.attribute.spec_as_u8()] + idf_encode(cs, x + 1));
                assert(result@ =~= before + seq![ch.char_code, ch.attribute.spec_as_u8()]);
            }
            x = x + 1;
        }
    }
    assert(idf_encode(cs, x as int) =~= Seq::<u8>::empty());
    push_font_bytes(buffer, default_font, &mut result);
    let pal = buffer.palette.to_16color_vec();
    proof {
        assert(crate::palette::sixteen_colors(buffer.palette.colors@).len() == 16);
    }
    let mut i: usize = 0;
    let ghost mid = result@;
    while i < pal.len()
        invariant
            i <= pal.len(),
            pal.len() == 48,
            mid.len() + 48 <= usize::MAX,
            result@ == mid + pal@.subrange(0, i as int),
        decreases pal.len() - i,
    {
        result.push(pal[i]);
        proof {
            assert(result@ =~= mid + pal@.subrange(0, i + 1));
        }
        i = i + 1;
    }
    assert(pal@.subrange(0, 48) =~= pal@);
    result
}

} // verus!
