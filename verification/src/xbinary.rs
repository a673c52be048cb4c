use vstd::prelude::*;

use crate::bin::bin_cells;
use crate::buffer::{BitFont, Buffer};
use crate::dos_char::DosChar;
use crate::layer::{run_x, run_y, write_run};
use crate::load_error::LoadError;
use crate::palette::Palette;
use crate::position::{Position, Size};
use crate::sauce_string::SauceString;
use crate::text_attribute::{BufferType, TextAttribute};

verus! {

pub proof fn lemma_run_step(i: int, w: int)
    requires
        i >= 0,
        w > 0,
    ensures
        run_x(i, w) + 1 < w ==> run_x(i + 1, w) == run_x(i, w) + 1 && run_y(i + 1, w) == run_y(i, w),
        run_x(i, w) + 1 >= w ==> run_x(i + 1, w) == 0 && run_y(i + 1, w) == run_y(i, w) + 1,
        0 <= run_x(i, w) < w,
        0 <= run_y(i, w) <= i,
{
    let q = i / w;
    let r = i % w;
    assert(0 <= r < w && i == q * w + r) by (nonlinear_arith)
        requires
            i >= 0,
            w > 0,
            q == i / w,
            r == i % w,
    ;
    assert(0 <= q <= i) by (nonlinear_arith)
        requires
            i >= 0,
            w > 0,
            q == i / w,
    ;
    if r + 1 < w {
        vstd::arithmetic::div_mod::lemma_fundamental_div_mod_converse(i + 1, w, q, r + 1);
    } else {
        assert(i + 1 == (q + 1) * w + 0) by (nonlinear_arith)
            requires
                i == q * w + r,
                r + 1 == w,
        ;
        vstd::arithmetic::div_mod::lemma_fundamental_div_mod_converse(i + 1, w, q + 1, 0);
    }
}

/// Moves a cell position to the next cell of a run in rows of `w`.
pub fn advance_pos(x: &mut i32, y: &mut i32, w: u16, Ghost(i): Ghost<int>)
    requires
        i >= 0,
        *old(x) == run_x(i, w as int),
        *old(y) == run_y(i, w as int),
        i + 1 <= i32::MAX,
    ensures
        *final(x) == run_x(i + 1, w as int),
        *final(y) == run_y(i + 1, w as int),
{
    proof {
        if w > 0 {
            lemma_run_step(i, w as int);
        }
    }
    if *x as i64 + 1 >= w as i64 {
        *x = 0;
        *y = *y + 1;
    } else {
        *x = *x + 1;
    }
}

/// The cells of compressed XBin data from offset `o` up to `n`: runs of up
/// to 64 cells, each led by a byte whose top two bits say what the run
/// shares (nothing, the character, the attribute, or both) and whose low
/// six bits are the length less one. Reading stops where the data ends.
pub open spec fn xb_cells(d: Seq<u8>, o: int, n: int, bt: BufferType) -> Seq<DosChar>
    decreases d.len() - o,
{
    if o >= n || o < 0 || o >= d.len() {
        Seq::empty()
    } else {
        let hdr = d[o];
        let cnt = (hdr % 64) + 1;
        let mode = hdr / 64;
        let o1 = o + 1;
        if mode == 0 {
            let avail = (d.len() - o1) / 2;
            let k = if cnt < avail { cnt } else { avail };
            proof {
                assert(avail >= 0);
            }
            Seq::new(
                k as nat,
                |j: int| DosChar { char_code: d[o1 + 2 * j], attribute: TextAttribute::spec_from_u8(d[o1 + 2 * j + 1], bt) },
            ) + xb_cells(d, o1 + 2 * k, n, bt)
        } else if mode == 1 {
            if o1 >= d.len() {
                Seq::empty()
            } else {
                let c = d[o1];
                let o2 = o1 + 1;
                let avail = d.len() - o2;
                let k = if cnt < avail { cnt } else { avail };
                proof {
                    assert(avail >= 0);
                }
                Seq::new(k as nat, |j: int| DosChar { char_code: c, attribute: TextAttribute::spec_from_u8(d[o2 + j], bt) })
                    + xb_cells(d, o2 + k, n, bt)
            }
        } else if mode == 2 {
            if o1 >= d.len() {
                Seq::empty()
            } else {
                let a = TextAttribute::spec_from_u8(d[o1], bt);
                let o2 = o1 + 1;
                let avail = d.len() - o2;
                let k = if cnt < avail { cnt } else { avail };
                proof {
                    assert(avail >= 0);
                }
                Seq::new(k as nat, |j: int| DosChar { char_code: d[o2 + j], attribute: a }) + xb_cells(d, o2 + k, n, bt)
            }
        } else {
            if o1 + 1 >= d.len() {
                Seq::empty()
            } else {
                let c = DosChar { char_code: d[o1], attribute: TextAttribute::spec_from_u8(d[o1 + 1], bt) };
                Seq::new(cnt as nat, |j: int| c) + xb_cells(d, o1 + 2, n, bt)
            }
        }
    }
}

pub proof fn lemma_xb_cells_len(d: Seq<u8>, o: int, n: int, bt: BufferType)
    ensures
        xb_cells(d, o, n, bt).len() <= 64 * (if n - o > 0 { n - o } else { 0 }),
    decreases d.len() - o,
{
    if o >= n || o < 0 || o >= d.len() {
    } else {
        let hdr = d[o];
        let cnt = (hdr % 64) + 1;
        let mode = hdr / 64;
        let o1 = o + 1;
        if mode == 0 {
            let avail = (d.len() - o1) / 2;
            let k = if cnt < avail { cnt } else { avail };
            assert(avail >= 0);
            lemma_xb_cells_len(d, o1 + 2 * k, n, bt);
        } else if mode == 1 || mode == 2 {
            if o1 < d.len() {
                let avail = d.len() - (o1 + 1);
                let k = if cnt < avail { cnt } else { avail };
                assert(avail >= 0);
                lemma_xb_cells_len(d, o1 + 1 + k, n, bt);
            }
        } else {
            if o1 + 1 < d.len() {
                lemma_xb_cells_len(d, o1 + 2, n, bt);
            }
        }
    }
}

/// The position-keeping frame of the readers that fill layer 0.
pub open spec fn layer0_frame(a: Buffer, b: Buffer) -> bool {
    &&& b.layers.len() == a.layers.len()
    &&& b.layers@[0].is_visible == a.layers@[0].is_visible
    &&& forall|l: int| 1 <= l < a.layers.len() ==> b.layers@[l] == a.layers@[l]
    &&& b.width == a.width
    &&& b.height == a.height
    &&& Buffer::same_meta(a, b)
}

/// Reads compressed XBin data into layer 0 in rows of the buffer's width.
pub fn read_data_compressed(result: &mut Buffer, bytes: &[u8], file_size: usize) -> (res: Result<bool, LoadError>)
    requires
        old(result).layers.len() > 0,
        file_size <= bytes.len(),
        file_size <= 0x1ff_ffff,
    ensures
        res == Ok::<bool, LoadError>(true),
        final(result).layers@[0].grid() == write_run(
            old(result).layers@[0].grid(),
            xb_cells(bytes@, 0, file_size as int, old(result).buffer_type),
            old(result).width as int,
        ),
        layer0_frame(*old(result), *final(result)),
{
    let ghost r0 = *result;
    let ghost g0 = result.layers@[0].grid();
    let bt = result.buffer_type;
    let w = result.width;
    let ghost d = bytes@;
    let ghost total = xb_cells(d, 0, file_size as int, bt);
    proof {
        lemma_xb_cells_len(d, 0, file_size as int, bt);
    }
    let mut x: i32 = 0;
    let mut y: i32 = 0;
    let ghost mut done: Seq<DosChar> = Seq::empty();
    let mut o: usize = 0;
    while o < file_size
        invariant
            r0 == *old(result),
            o <= bytes.len(),
            file_size <= bytes.len(),
            file_size <= 0x1ff_ffff,
            d == bytes@,
            bt == r0.buffer_type,
            w == r0.width,
            r0.layers.len() > 0,
            g0 == r0.layers@[0].grid(),
            total == xb_cells(d, 0, file_size as int, bt),
            total.len() <= 64 * file_size,
            total == done + xb_cells(d, o as int, file_size as int, bt),
            x == run_x(done.len() as int, w as int),
            y == run_y(done.len() as int, w as int),
            result.layers@[0].grid() == write_run(g0, done, w as int),
            layer0_frame(r0, *result),
        decreases bytes.len() - o,
    {
        let hdr = bytes[o];
        let cnt: usize = (hdr % 64) as usize + 1;
        let mode = hdr / 64;
        let o1 = o + 1;
        let ghost rest = xb_cells(d, o1 as int, file_size as int, bt);
        if mode == 0 {
            let ghost avail = (d.len() - o1) / 2;
            let ghost k = if cnt < avail { cnt as int } else { avail };
            let ghost run = Seq::new(
                k as nat,
                |j: int| DosChar { char_code: d[o1 + 2 * j], attribute: TextAttribute::spec_from_u8(d[o1 + 2 * j + 1], bt) },
            );
            let mut p = o1;
            let mut j: usize = 0;
            let ghost done0 = done;
            while j < cnt && p < bytes.len() && bytes.len() - p >= 2
                invariant
                    d == bytes@,
                    o1 <= p <= bytes.len(),
                    p == o1 + 2 * j,
                    j <= cnt,
                    k == (if cnt < avail { cnt as int } else { avail }),
                    avail == (d.len() - o1) / 2,
                    j <= k,
                    run == Seq::new(
                        k as nat,
                        |jj: int| DosChar { char_code: d[o1 + 2 * jj], attribute: TextAttribute::spec_from_u8(d[o1 + 2 * jj + 1], bt) },
                    ),
                    done == done0 + run.subrange(0, j as int),
                    total == done0 + run + xb_cells(d, o1 + 2 * k, file_size as int, bt),
                    total.len() <= 64 * file_size,
                    file_size <= 0x1ff_ffff,
                    bt == r0.buffer_type,
                    w == r0.width,
                    r0.layers.len() > 0,
                    g0 == r0.layers@[0].grid(),
                    x == run_x(done.len() as int, w as int),
                    y == run_y(done.len() as int, w as int),
                    result.layers@[0].grid() == write_run(g0, done, w as int),
                    layer0_frame(r0, *result),
                decreases cnt - j,
            {
                let ch = DosChar { char_code: bytes[p], attribute: TextAttribute::from_u8(bytes[p + 1], bt) };
                proof {
                    assert(run[j as int] == ch);
                    assert(done.len() < total.len());
                }
                result.set_char(0, Position::from(x, y), ch);
                advance_pos(&mut x, &mut y, w, Ghost(done.len() as int));
                proof {
                    let nd = done.push(ch);
                    assert(nd.drop_last() =~= done);
                    assert(nd =~= done0 + run.subrange(0, j + 1));
                    done = nd;
                }
                p = p + 2;
                j = j + 1;
            }
            proof {
                assert(j == k);
                assert(run.subrange(0, j as int) =~= run);
            }
            o = p;
        } else if mode == 1 || mode == 2 {
            if o1 >= bytes.len() {
                proof {
                    assert(xb_cells(d, o as int, file_size as int, bt) =~= Seq::<DosChar>::empty());
                    assert(total =~= done);
                }
                return Ok(true);
            }
            let shared = bytes[o1];
            let o2 = o1 + 1;
            let ghost avail = d.len() - o2;
            let ghost k = if cnt < avail { cnt as int } else { avail };
            let ghost run = if mode == 1 {
                Seq::new(k as nat, |jj: int| DosChar { char_code: shared, attribute: TextAttribute::spec_from_u8(d[o2 + jj], bt) })
            } else {
                Seq::new(k as nat, |jj: int| DosChar { char_code: d[o2 + jj], attribute: TextAttribute::spec_from_u8(shared, bt) })
            };
            let mut p = o2;
            let mut j: usize = 0;
            let ghost done0 = done;
            while j < cnt && p < bytes.len()
                invariant
                    d == bytes@,
                    o2 <= p <= bytes.len(),
                    p == o2 + j,
                    j <= cnt,
                    mode == 1 || mode == 2,
                    k == (if cnt < avail { cnt as int } else { avail }),
                    avail == d.len() - o2,
                    j <= k,
                    run == (if mode == 1 {
                        Seq::new(k as nat, |jj: int| DosChar { char_code: shared, attribute: TextAttribute::spec_from_u8(d[o2 + jj], bt) })
                    } else {
                        Seq::new(k as nat, |jj: int| DosChar { char_code: d[o2 + jj], attribute: TextAttribute::spec_from_u8(shared, bt) })
                    }),
                    done == done0 + run.subrange(0, j as int),
                    total == done0 + run + xb_cells(d, o2 + k, file_size as int, bt),
                    total.len() <= 64 * file_size,
                    file_size <= 0x1ff_ffff,
                    bt == r0.buffer_type,
                    w == r0.width,
                    r0.layers.len() > 0,
                    g0 == r0.layers@[0].grid(),
                    x == run_x(done.len() as int, w as int),
                    y == run_y(done.len() as int, w as int),
                    result.layers@[0].grid() == write_run(g0, done, w as int),
                    layer0_frame(r0, *result),
                decreases cnt - j,
            {
                let ch = if mode == 1 {
                    DosChar { char_code: shared, attribute: TextAttribute::from_u8(bytes[p], bt) }
                } else {
                    DosChar { char_code: bytes[p], attribute: TextAttribute::from_u8(shared, bt) }
                };
                proof {
                    assert(run[j as int] == ch);
                    assert(done.len() < total.len());
                }
                result.set_char(0, Position::from(x, y), ch);
                advance_pos(&mut x, &mut y, w, Ghost(done.len() as int));
                proof {
                    let nd = done.push(ch);
                    assert(nd.drop_last() =~= done);
                    assert(nd =~= done0 + run.subrange(0, j + 1));
                    done = nd;
                }
                p = p + 1;
                j = j + 1;
            }
            proof {
                assert(j == k);
                assert(run.subrange(0, j as int) =~= run);
            }
            o = p;
        } else {
            if o1 + 1 >= bytes.len() {
                proof {
                    assert(xb_cells(d, o as int, file_size as int, bt) =~= Seq::<DosChar>::empty());
                    assert(total =~= done);
                }
                return Ok(true);
            }
            let ch = DosChar { char_code: bytes[o1], attribute: TextAttribute::from_u8(bytes[o1 + 1], bt) };
            let ghost run = Seq::new(cnt as nat, |jj: int| ch);
            let mut j: usize = 0;
            let ghost done0 = done;
            while j < cnt
                invariant
                    j <= cnt,
                    run == Seq::new(cnt as nat, |jj: int| ch),
                    done == done0 + run.subrange(0, j as int),
                    total == done0 + run + xb_cells(d, o1 + 2, file_size as int, bt),
                    total.len() <= 64 * file_size,
                    file_size <= 0x1ff_ffff,
                    bt == r0.buffer_type,
                    w == r0.width,
                    r0.layers.len() > 0,
                    g0 == r0.layers@[0].grid(),
                    x == run_x(done.len() as int, w as int),
                    y == run_y(done.len() as int, w as int),
                    result.layers@[0].grid() == write_run(g0, done, w as int),
                    layer0_frame(r0, *result),
                decreases cnt - j,
            {
                proof {
                    assert(done.len() < total.len());
                }
                result.set_char(0, Position::from(x, y), ch);
                advance_pos(&mut x, &mut y, w, Ghost(done.len() as int));
                proof {
                    let nd = done.push(ch);
                    assert(nd.drop_last() =~= done);
                    assert(nd =~= done0 + run.subrange(0, j + 1));
                    done = nd;
                }
                j = j + 1;
            }
            proof {
                assert(run.subrange(0, j as int) =~= run);
            }
            o = o1 + 2;
        }
    }
    proof {
        assert(xb_cells(d, o as int, file_size as int, bt) =~= Seq::<DosChar>::empty());
        assert(total =~= done);
    }
    Ok(true)
}

/// Reads uncompressed XBin data, character and attribute byte per cell,
/// into layer 0; data whose last cell has no attribute byte is refused
/// after the whole cells were read.
pub fn read_data_uncompressed(result: &mut Buffer, bytes: &[u8], file_size: usize) -> (res: Result<bool, LoadError>)
    requires
        old(result).layers.len() > 0,
        file_size <= bytes.len(),
        file_size <= 0x7fff_0000,
    ensures
        final(result).layers@[0].grid() == write_run(
            old(result).layers@[0].grid(),
            bin_cells(bytes@, (file_size / 2) as int, old(result).buffer_type),
            old(result).width as int,
        ),
        layer0_frame(*old(result), *final(result)),
        file_size % 2 == 0 ==> res == Ok::<bool, LoadError>(true),
        file_size % 2 == 1 ==> res == Err::<bool, LoadError>(LoadError::XbOddLength),
{
    let ghost r0 = *result;
    let ghost g0 = result.layers@[0].grid();
    let bt = result.buffer_type;
    let w = result.width;
    let mut x: i32 = 0;
    let mut y: i32 = 0;
    let mut o: usize = 0;
    while o + 1 < file_size
        invariant
            o % 2 == 0,
            o <= file_size,
            file_size <= bytes.len(),
            file_size <= 0x7fff_0000,
            bt == r0.buffer_type,
            w == r0.width,
            r0.layers.len() > 0,
            g0 == r0.layers@[0].grid(),
            x == run_x((o / 2) as int, w as int),
            y == run_y((o / 2) as int, w as int),
            result.layers@[0].grid() == write_run(g0, bin_cells(bytes@, (o / 2) as int, bt), w as int),
            layer0_frame(r0, *result),
        decreases file_size - o,
    {
        let ch = DosChar { char_code: bytes[o], attribute: TextAttribute::from_u8(bytes[o + 1], bt) };
        proof {
            let n = (o / 2) as int;
            let cs = bin_cells(bytes@, n + 1, bt);
            assert(cs.drop_last() =~= bin_cells(bytes@, n, bt));
            assert(cs.last() == ch);
        }
        result.set_char(0, Position::from(x, y), ch);
        advance_pos(&mut x, &mut y, w, Ghost((o / 2) as int));
        proof {
            assert(((o + 2) / 2) as int == (o / 2) as int + 1);
        }
        o = o + 2;
    }
    if o < file_size {
        return Err(LoadError::XbOddLength);
    }
    Ok(true)
}

/// The rest of the data from offset `o`.
pub open spec fn tail(d: Seq<u8>, o: int) -> Seq<u8> {
    d.subrange(o, d.len() as int)
}

/// The XBin header fields: width, height, font height and flags.
pub open spec fn xb_width(d: Seq<u8>) -> u16 {
    (d[5] as int + d[6] as int * 256) as u16
}

pub open spec fn xb_height(d: Seq<u8>) -> u16 {
    (d[7] as int + d[8] as int * 256) as u16
}

/// Where the cell data of an XBin file starts: after the header and the
/// palette and font it announces.
pub open spec fn xb_data_start(d: Seq<u8>) -> int {
    let flags = d[10];
    let font_len = d[9] * (if flags & 16 != 0 { 512int } else { 256int });
    11 + (if flags & 1 != 0 { 48int } else { 0int }) + (if flags & 2 != 0 { font_len } else { 0int })
}

/// Reads an XBin file from the first `file_size` bytes of `bytes`: size,
/// color mode, palette and font from the header, then the cells,
/// compressed or not, into layer 0.
pub fn read_xb(result: &mut Buffer, bytes: &[u8], file_size: usize) -> (res: Result<bool, LoadError>)
    requires
        old(result).layers.len() > 0,
        file_size <= bytes.len(),
        file_size <= 0x1ff_ffff,
    ensures
        Buffer::same_text(*old(result), *final(result)),
        final(result).file_name == old(result).file_name,
        ({
            let d = bytes@;
            let flags = d[10];
            let bt = BufferType::spec_from_flags(flags & 8 != 0, flags & 16 != 0);
            let o = xb_data_start(d);
            if file_size < 11 {
                res == Err::<bool, LoadError>(LoadError::XbTooShort) && *final(result) == *old(result)
            } else if d.subrange(0, 4) != seq![88u8, 66u8, 73u8, 78u8] {
                res == Err::<bool, LoadError>(LoadError::XbInvalidId) && *final(result) == *old(result)
            } else if o > file_size {
                res == Err::<bool, LoadError>(LoadError::XbTruncated)
            } else {
                &&& final(result).width == xb_width(d)
                &&& final(result).height == xb_height(d)
                &&& final(result).buffer_type == bt
                &&& (flags & 1 != 0 ==> final(result).palette.colors@ == crate::palette::palette_from(d.subrange(11, 59)))
                &&& (flags & 1 == 0 ==> final(result).palette == old(result).palette)
                &&& (flags & 2 != 0 ==> (final(result).font matches Some(f) && f.size == (Size { width: 8, height: d[9] as usize })
                        && f.name.0@ == Seq::<u8>::empty()
                        && f.data@ == Seq::new((o - (11 + (if flags & 1 != 0 { 48int } else { 0int }))) as nat,
                            |i: int| d[11 + (if flags & 1 != 0 { 48int } else { 0int }) + i] as u32)))
                &&& (flags & 2 == 0 ==> final(result).font == old(result).font)
                &&& final(result).layers.len() == old(result).layers.len()
                &&& forall|l: int| 1 <= l < old(result).layers.len() ==> final(result).layers@[l] == old(result).layers@[l]
                &&& if flags & 4 != 0 {
                    &&& res == Ok::<bool, LoadError>(true)
                    &&& final(result).layers@[0].grid() == write_run(old(result).layers@[0].grid(),
                        xb_cells(tail(d, o), 0, file_size - o, bt), xb_width(d) as int)
                } else {
                    &&& final(result).layers@[0].grid() == write_run(old(result).layers@[0].grid(),
                        bin_cells(tail(d, o), (file_size - o) / 2, bt), xb_width(d) as int)
                    &&& ((file_size - o) % 2 == 0 ==> res == Ok::<bool, LoadError>(true))
                    &&& ((file_size - o) % 2 == 1 ==> res == Err::<bool, LoadError>(LoadError::XbOddLength))
                }
            }
        }),
{
    if file_size < 11 {
        return Err(LoadError::XbTooShort);
    }
    if !(bytes[0] == 88 && bytes[1] == 66 && bytes[2] == 73 && bytes[3] == 78) {
        proof {
            if bytes@.subrange(0, 4) == seq![88u8, 66u8, 73u8, 78u8] {
                assert(bytes@.subrange(0, 4)[0] == 88u8);
                assert(bytes@.subrange(0, 4)[1] == 66u8);
                assert(bytes@.subrange(0, 4)[2] == 73u8);
                assert(bytes@.subrange(0, 4)[3] == 78u8);
            }
        }
        return Err(LoadError::XbInvalidId);
    }
    assert(bytes@.subrange(0, 4) =~= seq![88u8, 66u8, 73u8, 78u8]);
    let width: u16 = (bytes[6] as u16) * 256 + bytes[5] as u16;
    let height: u16 = (bytes[8] as u16) * 256 + bytes[7] as u16;
    let font_size = bytes[9];
    let flags = bytes[10];
    let has_palette = flags & 1 != 0;
    let has_font = flags & 2 != 0;
    let compressed = flags & 4 != 0;
    let bt = BufferType::from_flags(flags & 8 != 0, flags & 16 != 0);
    let mut o: usize = 11;
    if has_palette {
        if o + 48 > file_size {
            return Err(LoadError::XbTruncated);
        }
        o = o + 48;
    }
    let font_start = o;
    let chars: usize = if flags & 16 != 0 { 512 } else { 256 };
    let font_len: usize = font_size as usize * chars;
    if has_font {
        if font_len > file_size - o {
            return Err(LoadError::XbTruncated);
        }
        o = o + font_len;
    }
    assert(o == xb_data_start(bytes@));
    result.width = width;
    result.height = height;
    result.buffer_type = bt;
    if has_palette {
        result.palette = Palette::from(vstd::slice::slice_subrange(bytes, 11, 59));
    }
    if has_font {
        let mut data: Vec<u32> = Vec::new();
        let mut i: usize = 0;
        while i < font_len
            invariant
                i <= font_len,
                font_start + font_len <= file_size,
                file_size <= bytes.len(),
                data@ == Seq::new(i as nat, |k: int| bytes@[font_start + k] as u32),
            decreases font_len - i,
        {
            data.push(bytes[font_start + i] as u32);
            proof {
                assert(data@ =~= Seq::new((i + 1) as nat, |k: int| bytes@[font_start + k] as u32));
            }
            i = i + 1;
        }
        result.font = Some(BitFont { name: SauceString::new(), size: Size::from(8, font_size as usize), data });
    }
    let rest = vstd::slice::slice_subrange(bytes, o, bytes.len());
    if compressed {
        read_data_compressed(result, rest, file_size - o)
    } else {
        read_data_uncompressed(result, rest, file_size - o)
    }
}

} // verus!
