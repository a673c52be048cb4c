use vstd::prelude::*;

use crate::bin::cell_at;
use crate::buffer::Buffer;
use crate::dos_char::DosChar;
use crate::ice_draw::screen_cells;
use crate::position::Position;
use crate::sauce::{sauce_head, sauce_tail, SauceError, SauceFileType};
use crate::text_attribute::{spec_attr, TextAttribute};

verus! {

/// What the TundraDraw writer has produced after some cells: the bytes,
/// the current attribute and where a run of skipped cells began.
pub struct TndEnc {
    pub out: Seq<u8>,
    pub attr: TextAttribute,
    pub skip: Option<int>,
}

/// A non negative number as four big endian bytes.
pub open spec fn be_i32(v: int) -> Seq<u8> {
    seq![((v / 0x100_0000) % 256) as u8, ((v / 0x1_0000) % 256) as u8, ((v / 256) % 256) as u8, (v % 256) as u8]
}

/// A color as TundraDraw writes it: a zero byte, then red, green, blue.
pub open spec fn color_bytes(b: Buffer, idx: u8) -> Seq<u8> {
    let c = b.palette.colors@[idx as int];
    seq![0u8, c.r, c.g, c.b]
}

/// `n` zero bytes.
pub open spec fn zeros(n: int) -> Seq<u8> {
    Seq::new(n as nat, |k: int| 0u8)
}

/// The version byte and the id `TUNDRA24`.
pub open spec fn tnd_start() -> TndEnc {
    TndEnc {
        out: seq![24u8, 84u8, 85u8, 78u8, 68u8, 82u8, 65u8, 50u8, 52u8],
        attr: spec_attr(0, 0, false),
        skip: None,
    }
}

/// What closes a run of skipped cells before cell `i`: up to nine zero
/// bytes, or a jump to the row and column of cell `i`.
pub open spec fn tnd_flush(b: Buffer, skip: Option<int>, i: int) -> Seq<u8> {
    let w = b.width as int;
    match skip {
        None => Seq::empty(),
        Some(p) => if i - p <= 9 {
            zeros(i - p)
        } else {
            seq![1u8] + be_i32(i / w) + be_i32(i % w)
        },
    }
}

/// The bytes of a written cell and the attribute after it: a cell whose
/// colors differ from the current ones is written with the changed colors;
/// characters 1 to 6, which would read as commands, are written as a
/// foreground change to the same color.
pub open spec fn tnd_write(b: Buffer, attr: TextAttribute, ch: DosChar) -> (Seq<u8>, TextAttribute) {
    let fgc = attr.foreground_color != ch.attribute.foreground_color;
    let bgc = attr.background_color != ch.attribute.background_color;
    if fgc || bgc {
        let cmd: u8 = if fgc && bgc {
            6
        } else if fgc {
            2
        } else {
            4
        };
        (seq![cmd, ch.char_code] + (if fgc {
            color_bytes(b, ch.attribute.foreground_color)
        } else {
            Seq::empty()
        }) + (if bgc {
            color_bytes(b, ch.attribute.background_color)
        } else {
            Seq::empty()
        }), ch.attribute)
    } else if 1 <= ch.char_code <= 6 {
        (seq![2u8, ch.char_code] + color_bytes(b, attr.foreground_color), attr)
    } else {
        (seq![ch.char_code], attr)
    }
}

/// Writing cell `i`: a blank cell on a black background is skipped while
/// the background is black; any other cell closes the skip and is written.
pub open spec fn tnd_enc_step(b: Buffer, s: TndEnc, i: int) -> TndEnc {
    let ch = cell_at(b, i);
    if ch.spec_is_transparent() && s.attr.background_color == 0 {
        TndEnc { skip: if s.skip is Some { s.skip } else { Some(i) }, ..s }
    } else {
        let (bytes, a) = tnd_write(b, s.attr, ch);
        TndEnc { out: s.out + tnd_flush(b, s.skip, i) + bytes, attr: a, skip: None }
    }
}

/// The palette has the colors that writing cell `i` looks up.
pub open spec fn tnd_step_ok(b: Buffer, s: TndEnc, i: int) -> bool {
    let ch = cell_at(b, i);
    let n = b.palette.colors@.len();
    let fgc = s.attr.foreground_color != ch.attribute.foreground_color;
    let bgc = s.attr.background_color != ch.attribute.background_color;
    !(ch.spec_is_transparent() && s.attr.background_color == 0) ==> if fgc || bgc {
        (fgc ==> ch.attribute.foreground_color < n) && (bgc ==> ch.attribute.background_color < n)
    } else if 1 <= ch.char_code <= 6 {
        s.attr.foreground_color < n
    } else {
        true
    }
}

/// The writer's state after the first `n` cells in row order.
pub open spec fn tnd_run(b: Buffer, n: int) -> TndEnc
    decreases n,
{
    if n <= 0 {
        tnd_start()
    } else {
        tnd_enc_step(b, tnd_run(b, n - 1), n - 1)
    }
}

/// Every color that writing the picture looks up is in the palette.
pub open spec fn tnd_fits(b: Buffer) -> bool {
    forall|i: int| 0 <= i < b.width * b.height ==> tnd_step_ok(b, #[trigger] tnd_run(b, i), i)
}

/// The TundraDraw data of the whole picture; a skip at the end is filled
/// with zero bytes.
pub open spec fn tnd_output(b: Buffer) -> Seq<u8> {
    let n = b.width * b.height;
    let s = tnd_run(b, n);
    match s.skip {
        None => s.out,
        Some(p) => s.out + zeros(n - p),
    }
}

proof fn lemma_tnd_run_len(b: Buffer, n: int)
    requires
        n >= 0,
    ensures
        tnd_run(b, n).out.len() <= 9 + 22 * n,
        tnd_run(b, n).skip matches Some(p) ==> 0 <= p < n,
    decreases n,
{
    if n > 0 {
        lemma_tnd_run_len(b, n - 1);
    }
}

fn push_be_i32(result: &mut Vec<u8>, v: usize)
    ensures
        final(result)@ == old(result)@ + be_i32(v as int),
{
    result.push(((v / 0x100_0000) % 256) as u8);
    result.push(((v / 0x1_0000) % 256) as u8);
    result.push(((v / 256) % 256) as u8);
    result.push((v % 256) as u8);
    assert(final(result)@ =~= old(result)@ + be_i32(v as int));
}

fn push_color(buf: &Buffer, result: &mut Vec<u8>, idx: u8)
    requires
        (idx as int) < buf.palette.colors@.len(),
    ensures
        final(result)@ == old(result)@ + color_bytes(*buf, idx),
{
    let rgb = buf.palette.colors[idx as usize].get_rgb();
    result.push(0);
    result.push(rgb.0);
    result.push(rgb.1);
    result.push(rgb.2);
    assert(final(result)@ =~= old(result)@ + color_bytes(*buf, idx));
}

fn tnd_push_flush(buf: &Buffer, result: &mut Vec<u8>, p: usize, i: usize)
    requires
        p < i,
        buf.width > 0,
    ensures
        final(result)@ == old(result)@ + tnd_flush(*buf, Some(p as int), i as int),
{
    let w = buf.width as usize;
    let skip_len = i - p;
    if skip_len <= 9 {
        let mut k: usize = 0;
        let ghost before = result@;
        while k < skip_len
            invariant
                k <= skip_len,
                result@ == before + zeros(k as int),
            decreases skip_len - k,
        {
            result.push(0);
            assert(result@ =~= before + zeros(k + 1));
            k = k + 1;
        }
    } else {
        result.push(1);
        push_be_i32(result, i / w);
        push_be_i32(result, i % w);
        assert(result@ =~= old(result)@ + tnd_flush(*buf, Some(p as int), i as int));
    }
}

fn tnd_push_write(buf: &Buffer, result: &mut Vec<u8>, attr: &mut TextAttribute, ch: DosChar)
    requires
        ({
            let n = buf.palette.colors@.len();
            let fgc = old(attr).foreground_color != ch.attribute.foreground_color;
            let bgc = old(attr).background_color != ch.attribute.background_color;
            if fgc || bgc {
                (fgc ==> ch.attribute.foreground_color < n) && (bgc ==> ch.attribute.background_color < n)
            } else if 1 <= ch.char_code <= 6 {
                old(attr).foreground_color < n
            } else {
                true
            }
        }),
    ensures
        final(result)@ == old(result)@ + tnd_write(*buf, *old(attr), ch).0,
        *final(attr) == tnd_write(*buf, *old(attr), ch).1,
{
    let fgc = attr.get_foreground() != ch.attribute.get_foreground();
    let bgc = attr.get_background() != ch.attribute.get_background();
    if fgc || bgc {
        let mut cmd: u8 = 0;
        if fgc {
            cmd = cmd + 2;
        }
        if bgc {
            cmd = cmd + 4;
        }
        result.push(cmd);
        result.push(ch.char_code);
        let ghost mid = result@;
        if fgc {
            push_color(buf, result, ch.attribute.get_foreground());
        }
        let ghost mid2 = result@;
        if bgc {
            push_color(buf, result, ch.attribute.get_background());
        }
        *attr = ch.attribute;
        assert(result@ =~= old(result)@ + tnd_write(*buf, *old(attr), ch).0);
        return;
    }
    if ch.char_code >= 1 && ch.char_code <= 6 {
        result.push(2);
        result.push(ch.char_code);
        push_color(buf, result, attr.get_foreground());
        assert(result@ =~= old(result)@ + tnd_write(*buf, *old(attr), ch).0);
        return;
    }
    result.push(ch.char_code);
    assert(result@ =~= old(result)@ + tnd_write(*buf, *old(attr), ch).0);
}

/// Writes cell `i` and updates the writer's state.
fn tnd_put_cell(buf: &Buffer, result: &mut Vec<u8>, attr: &mut TextAttribute, skip: &mut Option<usize>, i: usize)
    requires
        i < buf.width * buf.height,
        tnd_step_ok(*buf, TndEnc { out: old(result)@, attr: *old(attr), skip: match *old(skip) { None => None, Some(p) => Some(p as int) } }, i as int),
        match *old(skip) { None => true, Some(p) => p < i },
    ensures
        ({
            let s = tnd_enc_step(*buf, TndEnc { out: old(result)@, attr: *old(attr), skip: match *old(skip) { None => None, Some(p) => Some(p as int) } }, i as int);
            &&& final(result)@ == s.out
            &&& *final(attr) == s.attr
            &&& match *final(skip) { None => s.skip is None, Some(p) => s.skip == Some(p as int) }
        }),
{
    let w = buf.width as usize;
    proof {
        assert(w > 0) by (nonlinear_arith)
            requires
                i < w * buf.height,
                i >= 0,
        ;
        assert(i / w < buf.height) by (nonlinear_arith)
            requires
                i < w * buf.height,
                w > 0,
        ;
    }
    let ch = buf.get_char(Position::from((i % w) as i32, (i / w) as i32));
    assert(ch == cell_at(*buf, i as int));
    if ch.is_transparent() && attr.get_background() == 0 {
        if skip.is_none() {
            *skip = Some(i);
        }
        return;
    }
    let ghost r0 = result@;
    match *skip {
        None => {},
        Some(p) => {
            tnd_push_flush(buf, result, p, i);
        },
    }
    *skip = None;
    let ghost r1 = result@;
    tnd_push_write(buf, result, attr, ch);
    assert(result@ =~= r0 + tnd_flush(*buf, match *old(skip) { None => None, Some(p) => Some(p as int) }, i as int) + tnd_write(*buf, *old(attr), ch).0);
}

/// Writes the picture as a TundraDraw file, and a SAUCE record when the
/// buffer asks for one or is not 80 columns wide.
pub fn convert_to_tnd(buf: &Buffer) -> (res: Result<Vec<u8>, SauceError>)
    requires
        tnd_fits(*buf),
        9 + 23 * buf.width * buf.height + 1 + sauce_head(*buf, 0).len() + sauce_tail(*buf, SauceFileType::TundraDraw).len()
            + 100 <= usize::MAX,
    ensures
        ({
            let text = tnd_output(*buf);
            if !(buf.write_sauce || buf.width != 80) {
                res is Ok && res->Ok_0@ == text
            } else if buf.comments@.len() > 255 {
                res == Err::<Vec<u8>, SauceError>(SauceError::TooManyComments)
            } else {
                res is Ok && res->Ok_0@ == text.push(26) + sauce_head(*buf, (text.len() + 1) as u32) + sauce_tail(
                    *buf,
                    SauceFileType::TundraDraw,
                )
            }
        }),
{
    let mut result: Vec<u8> = Vec::new();
    result.push(24);
    result.push(84);
    result.push(85);
    result.push(78);
    result.push(68);
    result.push(82);
    result.push(65);
    result.push(50);
    result.push(52);
    let mut attr = TextAttribute::from_color(0, 0);
    let mut skip: Option<usize> = None;
    proof {
        assert(23 * buf.width * buf.height == 23 * (buf.width * buf.height)) by (nonlinear_arith);
    }
    let total: usize = buf.width as usize * buf.height as usize;
    assert(result@ =~= tnd_start().out);
    let mut i: usize = 0;
    while i < total
        invariant
            i <= total,
            total == buf.width * buf.height,
            9 + 23 * total + 200 <= usize::MAX,
            tnd_fits(*buf),
            result@ == tnd_run(*buf, i as int).out,
            attr == tnd_run(*buf, i as int).attr,
            match skip { None => tnd_run(*buf, i as int).skip is None, Some(p) => tnd_run(*buf, i as int).skip == Some(p as int) },
        decreases total - i,
    {
        proof {
            lemma_tnd_run_len(*buf, i as int);
            assert(tnd_step_ok(*buf, tnd_run(*buf, i as int), i as int));
        }
        tnd_put_cell(buf, &mut result, &mut attr, &mut skip, i);
        i = i + 1;
    }
    proof {
        lemma_tnd_run_len(*buf, total as int);
    }
    match skip {
        None => {},
        Some(p) => {
            let n = total - p;
            let mut k: usize = 0;
            let ghost before = result@;
            while k < n
                invariant
                    k <= n,
                    result@ == before + zeros(k as int),
                decreases n - k,
            {
                result.push(0);
                assert(result@ =~= before + zeros(k + 1));
                k = k + 1;
            }
        },
    }
    assert(result@ == tnd_output(*buf));
    if buf.write_sauce || buf.width != 80 {
        match buf.write_sauce_info(&SauceFileType::TundraDraw, &mut result) {
            Ok(_) => {},
            Err(e) => {
                return Err(e);
            },
        }
    }
    Ok(result)
}

} // verus!
