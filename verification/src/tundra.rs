use vstd::prelude::*;

use crate::buffer::Buffer;
use crate::dos_char::DosChar;
use crate::layer::grid_set;
use crate::load_error::LoadError;
use crate::palette::{dos_default_palette, get_color_next, rgb, Color};
use crate::position::Position;
use crate::text_attribute::{spec_attr, BufferType, TextAttribute};

verus! {

/// What the TundraDraw reader keeps between commands.
#[verifier::ext_equal]
pub struct TndState {
    pub grid: Seq<Seq<DosChar>>,
    pub x: i32,
    pub y: i32,
    pub attr: TextAttribute,
    pub colors: Seq<Color>,
}

/// A big endian 32 bit value, as a signed number.
pub open spec fn be32(d: Seq<u8>, o: int) -> i32 {
    (((d[o] as u32) << 24u32) | ((d[o + 1] as u32) << 16u32) | ((d[o + 2] as u32) << 8u32) | (d[o + 3] as u32)) as i32
}

/// Writes a cell at the reader's position and moves on, wrapping at `w`.
pub open spec fn tnd_put(s: TndState, ch: u8, w: int) -> TndState {
    let x1 = s.x + 1;
    TndState {
        grid: grid_set(s.grid, s.x as int, s.y as int, DosChar { char_code: ch, attribute: s.attr }),
        x: if x1 >= w { 0 } else { x1 as i32 },
        y: if x1 >= w { (s.y + 1) as i32 } else { s.y },
        ..s
    }
}

/// One TundraDraw command at offset `o`, `o` inside the data: 1 jumps to
/// a row and column, 2 to 6 print a character after setting the foreground
/// (2), the background (4) or both to a color given as red, green and blue,
/// any other byte prints itself. Gives the state and the offset after it.
#[verifier::opaque]
pub open spec fn tnd_step(s: TndState, d: Seq<u8>, o: int, w: int) -> Result<(TndState, int), LoadError> {
    let cmd = d[o];
    let o1 = o + 1;
    if cmd == 1 {
        if o1 + 4 > d.len() {
            Err(LoadError::TndTruncated)
        } else if be32(d, o1) >= 65535 {
            Err(LoadError::TndPositionOutOfBounds)
        } else if o1 + 8 > d.len() {
            Err(LoadError::TndTruncated)
        } else if be32(d, o1 + 4) >= w {
            Err(LoadError::TndPositionOutOfBounds)
        } else {
            Ok((TndState { y: be32(d, o1), x: be32(d, o1 + 4), ..s }, o1 + 8))
        }
    } else if 1 < cmd <= 6 {
        let fg = cmd & 2 != 0;
        let bg = cmd & 4 != 0;
        let o2 = o1 + 1;
        let o3 = if fg { o2 + 4 } else { o2 };
        let o4 = if bg { o3 + 4 } else { o3 };
        if o4 > d.len() {
            Err(LoadError::TndTruncated)
        } else {
            let ch = d[o1];
            let (c1, fi) = get_color_next(s.colors, d[o2 + 1], d[o2 + 2], d[o2 + 3]);
            let s1 = if fg {
                TndState { colors: c1, attr: spec_attr(fi, s.attr.background_color, s.attr.blink), ..s }
            } else {
                s
            };
            let (c2, bi) = get_color_next(s1.colors, d[o3 + 1], d[o3 + 2], d[o3 + 3]);
            let s2 = if bg {
                TndState { colors: c2, attr: spec_attr(s1.attr.foreground_color, bi, s1.attr.blink), ..s1 }
            } else {
                s1
            };
            Ok((tnd_put(s2, ch, w), o4))
        }
    } else {
        Ok((tnd_put(s, cmd, w), o1))
    }
}

/// Reading TundraDraw commands from offset `o` up to `n`.
pub open spec fn tnd_from(s: TndState, d: Seq<u8>, o: int, n: int, w: int) -> Result<TndState, LoadError>
    decreases d.len() - o,
{
    if o >= n || o < 0 {
        Ok(s)
    } else if o >= d.len() {
        Err(LoadError::TndTruncated)
    } else {
        match tnd_step(s, d, o, w) {
            Err(e) => Err(e),
            Ok((t, o2)) => if o < o2 <= d.len() {
                tnd_from(t, d, o2, n, w)
            } else {
                Ok(t)
            },
        }
    }
}

pub open spec fn tnd_header_ok(d: Seq<u8>) -> bool {
    d.subrange(1, 9) == seq![84u8, 85u8, 78u8, 68u8, 82u8, 65u8, 50u8, 52u8]
}

/// The reader state at the start of the commands.
pub open spec fn tnd_start(g: Seq<Seq<DosChar>>, bt: BufferType) -> TndState {
    TndState { grid: g, x: 0, y: 0, attr: TextAttribute::spec_from_u8(0, bt), colors: seq![rgb(0, 0, 0)] }
}

pub open spec fn fill16(cols: Seq<Color>) -> Seq<Color> {
    if cols.len() < 16 {
        cols + dos_default_palette().subrange(cols.len() as int, 16)
    } else {
        cols
    }
}

fn be32_exec(d: &[u8], o: usize) -> (r: i32)
    requires
        o + 4 <= d.len(),
    ensures
        r == be32(d@, o as int),
{
    #[verifier::truncate]
    ((((d[o] as u32) << 24u32) | ((d[o + 1] as u32) << 16u32) | ((d[o + 2] as u32) << 8u32) | (d[o + 3] as u32)) as i32)
}

fn tnd_step_exec(result: &mut Buffer, x: &mut i32, y: &mut i32, attr: &mut TextAttribute, bytes: &[u8], o: usize) -> (res: Result<usize, LoadError>)
    requires
        old(result).layers.len() > 0,
        o < bytes.len(),
        bytes.len() <= 0x7fff_0000,
        old(result).palette.colors.len() <= o,
        *old(y) <= 65534 + o,
        *old(x) < old(result).width || *old(x) == 0,
    ensures
        match tnd_step(
            TndState { grid: old(result).layers@[0].grid(), x: *old(x), y: *old(y), attr: *old(attr), colors: old(result).palette.colors@ },
            bytes@,
            o as int,
            old(result).width as int,
        ) {
            Err(e) => res == Err::<usize, LoadError>(e),
            Ok((t, o2)) => {
                &&& res == Ok::<usize, LoadError>(o2 as usize)
                &&& o < o2 <= bytes.len()
                &&& t == (TndState { grid: final(result).layers@[0].grid(), x: *final(x), y: *final(y), attr: *final(attr), colors: final(result).palette.colors@ })
                &&& final(result).palette.colors.len() <= o2
                &&& *final(y) <= 65534 + o2
                &&& *final(x) < old(result).width || *final(x) == 0
            },
        },
        final(result).layers.len() == old(result).layers.len(),
        final(result).width == old(result).width,
        final(result).buffer_type == old(result).buffer_type,
        final(result).file_name == old(result).file_name,
        Buffer::same_text(*old(result), *final(result)),
{
    reveal(tnd_step);
    let w = result.width;
    let cmd = bytes[o];
    let o1 = o + 1;
    if cmd == 1 {
        if o1 + 4 > bytes.len() {
            return Err(LoadError::TndTruncated);
        }
        let ny = be32_exec(bytes, o1);
        if ny >= 65535 {
            return Err(LoadError::TndPositionOutOfBounds);
        }
        if o1 + 8 > bytes.len() {
            return Err(LoadError::TndTruncated);
        }
        let nx = be32_exec(bytes, o1 + 4);
        if nx as i64 >= w as i64 {
            return Err(LoadError::TndPositionOutOfBounds);
        }
        *y = ny;
        *x = nx;
        return Ok(o1 + 8);
    }
    let mut ch = cmd;
    let mut next = o1;
    if 1 < cmd && cmd <= 6 {
        let o2 = o1 + 1;
        let fg = cmd & 2 != 0;
        let bg = cmd & 4 != 0;
        let o3 = if fg { o2 + 4 } else { o2 };
        let o4 = if bg { o3 + 4 } else { o3 };
        if o4 > bytes.len() {
            return Err(LoadError::TndTruncated);
        }
        ch = bytes[o1];
        if fg {
            let idx = result.palette.get_color(bytes[o2 + 1], bytes[o2 + 2], bytes[o2 + 3]);
            attr.set_foreground(idx);
        }
        if bg {
            let idx = result.palette.get_color(bytes[o3 + 1], bytes[o3 + 2], bytes[o3 + 3]);
            attr.set_background(idx);
        }
        next = o4;
    }
    result.set_char(0, Position::from(*x, *y), DosChar { char_code: ch, attribute: *attr });
    if *x as i64 + 1 >= w as i64 {
        *x = 0;
        *y = *y + 1;
    } else {
        *x = *x + 1;
    }
    Ok(next)
}

/// Reads a TundraDraw file from the first `file_size` bytes of `bytes` in
/// rows of the buffer's width; the palette holds the colors the file names,
/// completed to sixteen.
pub fn read_tnd(result: &mut Buffer, bytes: &[u8], file_size: usize) -> (res: Result<bool, LoadError>)
    requires
        old(result).layers.len() > 0,
        old(result).palette.colors.len() < 0x1000_0000,
        file_size <= bytes.len(),
        bytes.len() <= 0x7fff_0000,
    ensures
        Buffer::same_text(*old(result), *final(result)),
        final(result).file_name == old(result).file_name,
        file_size < 9 ==> res == Err::<bool, LoadError>(LoadError::TndTooShort),
        file_size >= 9 && !tnd_header_ok(bytes@) ==> res == Err::<bool, LoadError>(LoadError::TndInvalidId),
        file_size < 9 || !tnd_header_ok(bytes@) ==> *final(result) == *old(result),
        file_size >= 9 && tnd_header_ok(bytes@) ==> match tnd_from(
            tnd_start(old(result).layers@[0].grid(), old(result).buffer_type),
            bytes@,
            9,
            file_size as int,
            old(result).width as int,
        ) {
            Ok(t) => {
                &&& res == Ok::<bool, LoadError>(true)
                &&& final(result).layers@[0].grid() == t.grid
                &&& final(result).palette.colors@ == fill16(t.colors)
                &&& final(result).height == (if t.x == 0 {
                    t.y as u16
                } else if t.y as u16 == 65535 {
                    0
                } else {
                    (t.y as u16 + 1) as u16
                })
                &&& final(result).width == old(result).width
                &&& final(result).buffer_type == old(result).buffer_type
                &&& final(result).layers.len() == old(result).layers.len()
            },
            Err(e) => res == Err::<bool, LoadError>(e),
        },
{
    if file_size < 9 {
        return Err(LoadError::TndTooShort);
    }
    let id: [u8; 8] = [84, 85, 78, 68, 82, 65, 50, 52];
    assert(id@ =~= seq![84u8, 85u8, 78u8, 68u8, 82u8, 65u8, 50u8, 52u8]);
    let mut k: usize = 0;
    while k < 8
        invariant
            id@ == seq![84u8, 85u8, 78u8, 68u8, 82u8, 65u8, 50u8, 52u8],
            k <= 8,
            9 <= file_size <= bytes.len(),
            forall|j: int| 0 <= j < k ==> bytes@[1 + j] == id@[j],
        decreases 8 - k,
    {
        if bytes[1 + k] != id[k] {
            proof {
                assert(bytes@.subrange(1, 9)[k as int] != seq![84u8, 85u8, 78u8, 68u8, 82u8, 65u8, 50u8, 52u8][k as int]);
            }
            return Err(LoadError::TndInvalidId);
        }
        k = k + 1;
    }
    assert(bytes@.subrange(1, 9) =~= seq![84u8, 85u8, 78u8, 68u8, 82u8, 65u8, 50u8, 52u8]);
    let ghost r0 = *result;
    let bt = result.buffer_type;
    let w = result.width;
    result.palette.clear();
    let _ = result.palette.get_color(0, 0, 0);
    proof {
        assert(result.palette.colors@ =~= seq![rgb(0, 0, 0)]);
    }
    let mut x: i32 = 0;
    let mut y: i32 = 0;
    let mut attr = TextAttribute::from_u8(0, bt);
    let ghost total = tnd_from(tnd_start(r0.layers@[0].grid(), bt), bytes@, 9, file_size as int, w as int);
    let mut o: usize = 9;
    while o < file_size
        invariant
            9 <= o <= bytes.len(),
            9 <= file_size,
            tnd_header_ok(bytes@),
            file_size <= bytes.len(),
            bytes.len() <= 0x7fff_0000,
            r0 == *old(result),
            r0.layers.len() > 0,
            bt == r0.buffer_type,
            w == r0.width,
            result.layers.len() == r0.layers.len(),
            result.width == r0.width,
            result.buffer_type == r0.buffer_type,
            result.file_name == r0.file_name,
            Buffer::same_text(r0, *result),
            result.palette.colors.len() <= o,
            y <= 65534 + o,
            x < w || x == 0,
            total == tnd_from(tnd_start(r0.layers@[0].grid(), bt), bytes@, 9, file_size as int, w as int),
            total == tnd_from(
                TndState { grid: result.layers@[0].grid(), x, y, attr, colors: result.palette.colors@ },
                bytes@,
                o as int,
                file_size as int,
                w as int,
            ),
        decreases bytes.len() - o,
    {
        match tnd_step_exec(result, &mut x, &mut y, &mut attr, bytes, o) {
            Err(e) => {
                return Err(e);
            },
            Ok(next) => {
                o = next;
            },
        }
    }
    result.set_height_for_pos(Position::from(x, y));
    result.palette.fill_to_16();
    Ok(true)
}

} // verus!
