use vstd::prelude::*;

use crate::avatar::{avt_next, display_avt, AvtError};
use crate::ansi::{ans_next, display_ans};
use crate::buffer::Buffer;
use crate::dos_char::DosChar;
use crate::layer::grid_set;
use crate::load_error::LoadError;
use crate::parse_states::{sat_add, sat_i32, start_model, ParseStates, ReaderModel};
use crate::pcboard::{display_PCBoard, pcb_next};
use crate::position::Position;
use crate::text_attribute::{BufferType, TextAttribute};
use crate::sauce::{has_sauce, record_kind, sauce_buffer_type, sauce_gives_size, sauce_result, sauce_width, sauce_readable, SauceFileType};
use crate::bin::{bin_cells, read_binary};
use crate::layer::write_run;
use crate::xbinary::{read_xb, xb_cells, tail};
use crate::artworx::read_adf;
use crate::ice_draw::{idf_version_ok, le16_at, read_idf};
use crate::tundra::{read_tnd, tnd_from, tnd_start, tnd_header_ok};
use crate::mystic_draw::{lemma_mdf_opened, mdf_opened, mdf_parse, read_mdf};

verus! {

/// The file name extensions that decide how a file is read.
#[derive(Clone, Copy, Debug, PartialEq, Eq, Structural)]
pub enum FileExt {
    Mdf,
    Bin,
    Xb,
    Adf,
    Idf,
    Tnd,
    Ans,
    Ice,
    Avt,
    Pcb,
    Other,
}

/// The last component of a slash separated path.
pub open spec fn file_base(s: Seq<char>) -> Seq<char>
    decreases s.len(),
{
    if s.len() == 0 {
        s
    } else if s.last() == '/' {
        Seq::empty()
    } else {
        file_base(s.drop_last()).push(s.last())
    }
}

/// The index of the last dot in `s` among its first `n` characters, or -1.
pub open spec fn last_dot(s: Seq<char>, n: int) -> int
    decreases n,
{
    if n <= 0 {
        -1
    } else if s[n - 1] == '.' {
        n - 1
    } else {
        last_dot(s, n - 1)
    }
}

/// The extension of a file name: what follows the last dot of its last
/// component, unless that dot starts the component.
pub open spec fn extension(name: Seq<char>) -> Option<Seq<char>> {
    let base = file_base(name);
    let d = last_dot(base, base.len() as int);
    if d <= 0 {
        None
    } else {
        Some(base.subrange(d + 1, base.len() as int))
    }
}

/// The code of a character with ASCII capitals made small.
pub open spec fn ascii_lower(c: char) -> int {
    let v = c as u32;
    if 65 <= v <= 90 {
        v + 32
    } else {
        v as int
    }
}

/// Whether `e` is `lit` up to ASCII case.
pub open spec fn ext_is(e: Seq<char>, lit: Seq<char>) -> bool {
    e.len() == lit.len() && forall|i: int| 0 <= i < e.len() ==> ascii_lower(#[trigger] e[i]) == lit[i] as u32
}

/// The kind of extension a file name has.
pub open spec fn spec_file_ext(name: Seq<char>) -> FileExt {
    match extension(name) {
        None => FileExt::Other,
        Some(e) => {
            if ext_is(e, seq!['m', 'd', 'f']) {
                FileExt::Mdf
            } else if ext_is(e, seq!['b', 'i', 'n']) {
                FileExt::Bin
            } else if ext_is(e, seq!['x', 'b']) {
                FileExt::Xb
            } else if ext_is(e, seq!['a', 'd', 'f']) {
                FileExt::Adf
            } else if ext_is(e, seq!['i', 'd', 'f']) {
                FileExt::Idf
            } else if ext_is(e, seq!['t', 'n', 'd']) {
                FileExt::Tnd
            } else if ext_is(e, seq!['a', 'n', 's']) {
                FileExt::Ans
            } else if ext_is(e, seq!['i', 'c', 'e']) {
                FileExt::Ice
            } else if ext_is(e, seq!['a', 'v', 't']) {
                FileExt::Avt
            } else if ext_is(e, seq!['p', 'c', 'b']) {
                FileExt::Pcb
            } else {
                FileExt::Other
            }
        },
    }
}

fn ext_is_exec(e: &Vec<char>, lit: &[char], upper: &[char]) -> (r: bool)
    requires
        lit.len() == upper.len(),
        forall|i: int| 0 <= i < lit.len() ==> 97 <= #[trigger] lit@[i] as u32 <= 122 && upper@[i] as u32 + 32 == lit@[i] as u32,
    ensures
        r == ext_is(e@, lit@),
{
    if e.len() != lit.len() {
        return false;
    }
    let mut i: usize = 0;
    while i < e.len()
        invariant
            e.len() == lit.len(),
            lit.len() == upper.len(),
            forall|k: int| 0 <= k < lit.len() ==> 97 <= #[trigger] lit@[k] as u32 <= 122 && upper@[k] as u32 + 32 == lit@[k] as u32,
            i <= e.len(),
            forall|k: int| 0 <= k < i ==> ascii_lower(#[trigger] e@[k]) == lit@[k] as u32,
        decreases e.len() - i,
    {
        let cv = e[i] as u32;
        let lv = lit[i] as u32;
        let uv = upper[i] as u32;
        assert(97 <= lit@[i as int] as u32 <= 122 && uv + 32 == lv);
        if cv != lv && cv != uv {
            return false;
        }
        i = i + 1;
    }
    true
}

/// The kind of extension of a file name.
pub fn file_ext(name: &str) -> (r: FileExt)
    ensures
        r == spec_file_ext(name@),
{
    let ghost s = name@;
    let mut base: Vec<char> = Vec::new();
    for c in it: name.chars()
        invariant
            it.seq() == s,
            base@ == file_base(s.subrange(0, it.index() as int)),
    {
        proof {
            assert(s.subrange(0, it.index() + 1).drop_last() =~= s.subrange(0, it.index() as int));
        }
        if c == '/' {
            base = Vec::new();
        } else {
            base.push(c);
        }
    }
    assert(s.subrange(0, s.len() as int) =~= s);
    let mut d: usize = base.len();
    let mut found = false;
    while d > 0 && !found
        invariant
            d <= base.len(),
            found ==> d > 0 && base@[d - 1] == '.' && last_dot(base@, base.len() as int) == d - 1,
            !found ==> last_dot(base@, base.len() as int) == last_dot(base@, d as int),
        decreases d, (if found { 0int } else { 1int }),
    {
        if base[d - 1] == '.' {
            found = true;
        } else {
            d = d - 1;
        }
    }
    if !found || d <= 1 {
        return FileExt::Other;
    }
    let mut e: Vec<char> = Vec::new();
    let mut k = d;
    while k < base.len()
        invariant
            d <= k <= base.len(),
            e@ == base@.subrange(d as int, k as int),
        decreases base.len() - k,
    {
        e.push(base[k]);
        proof {
            assert(e@ =~= base@.subrange(d as int, k + 1));
        }
        k = k + 1;
    }
    let l_mdf: [char; 3] = ['m', 'd', 'f'];
    let u_mdf: [char; 3] = ['M', 'D', 'F'];
    let l_bin: [char; 3] = ['b', 'i', 'n'];
    let u_bin: [char; 3] = ['B', 'I', 'N'];
    let l_xb: [char; 2] = ['x', 'b'];
    let u_xb: [char; 2] = ['X', 'B'];
    let l_adf: [char; 3] = ['a', 'd', 'f'];
    let u_adf: [char; 3] = ['A', 'D', 'F'];
    let l_idf: [char; 3] = ['i', 'd', 'f'];
    let u_idf: [char; 3] = ['I', 'D', 'F'];
    let l_tnd: [char; 3] = ['t', 'n', 'd'];
    let u_tnd: [char; 3] = ['T', 'N', 'D'];
    let l_ans: [char; 3] = ['a', 'n', 's'];
    let u_ans: [char; 3] = ['A', 'N', 'S'];
    let l_ice: [char; 3] = ['i', 'c', 'e'];
    let u_ice: [char; 3] = ['I', 'C', 'E'];
    let l_avt: [char; 3] = ['a', 'v', 't'];
    let u_avt: [char; 3] = ['A', 'V', 'T'];
    let l_pcb: [char; 3] = ['p', 'c', 'b'];
    let u_pcb: [char; 3] = ['P', 'C', 'B'];
    proof {
        assert(l_mdf@ =~= seq!['m', 'd', 'f']);
        assert(l_bin@ =~= seq!['b', 'i', 'n']);
        assert(l_xb@ =~= seq!['x', 'b']);
        assert(l_adf@ =~= seq!['a', 'd', 'f']);
        assert(l_idf@ =~= seq!['i', 'd', 'f']);
        assert(l_tnd@ =~= seq!['t', 'n', 'd']);
        assert(l_ans@ =~= seq!['a', 'n', 's']);
        assert(l_ice@ =~= seq!['i', 'c', 'e']);
        assert(l_avt@ =~= seq!['a', 'v', 't']);
        assert(l_pcb@ =~= seq!['p', 'c', 'b']);
    }
    if ext_is_exec(&e, &l_mdf, &u_mdf) {
        FileExt::Mdf
    } else if ext_is_exec(&e, &l_bin, &u_bin) {
        FileExt::Bin
    } else if ext_is_exec(&e, &l_xb, &u_xb) {
        FileExt::Xb
    } else if ext_is_exec(&e, &l_adf, &u_adf) {
        FileExt::Adf
    } else if ext_is_exec(&e, &l_idf, &u_idf) {
        FileExt::Idf
    } else if ext_is_exec(&e, &l_tnd, &u_tnd) {
        FileExt::Tnd
    } else if ext_is_exec(&e, &l_ans, &u_ans) {
        FileExt::Ans
    } else if ext_is_exec(&e, &l_ice, &u_ice) {
        FileExt::Ice
    } else if ext_is_exec(&e, &l_avt, &u_avt) {
        FileExt::Avt
    } else if ext_is_exec(&e, &l_pcb, &u_pcb) {
        FileExt::Pcb
    } else {
        FileExt::Other
    }
}

/// What the stream readers build up: the cells of layer 0, the height,
/// the columns used and the reader state.
#[verifier::ext_equal]
pub struct StreamModel {
    pub grid: Seq<Seq<DosChar>>,
    pub height: u16,
    pub extent: i32,
    pub m: ReaderModel,
}

pub open spec fn model_of(b: Buffer, m: ReaderModel, extent: i32) -> StreamModel {
    StreamModel { grid: b.layers@[0].grid(), height: b.height, extent, m }
}

/// The height raised so that row `y` is included, at most 65535.
pub open spec fn raise_height(h: u16, y: int) -> u16 {
    if y + 1 > h {
        if y + 1 > 65535 {
            65535
        } else {
            (y + 1) as u16
        }
    } else {
        h
    }
}

/// Printing one byte at the cursor: line feed, form feed and carriage
/// return move the cursor; any other byte is written with the current
/// attribute and the cursor advances, wrapping at the width `w`.
pub open spec fn output_next(s: StreamModel, w: int, ch: Option<u8>) -> StreamModel {
    match ch {
        None => s,
        Some(c) => {
            let p = s.m.cur_pos;
            if c == 10 {
                let y = sat_i32(p.y + 1);
                StreamModel {
                    height: raise_height(s.height, y as int),
                    m: ReaderModel {
                        cur_pos: Position { x: 0, y },
                        cur_input_pos: Position { x: 1, y: sat_i32(s.m.cur_input_pos.y + 1) },
                        ..s.m
                    },
                    ..s
                }
            } else if c == 12 {
                StreamModel {
                    m: ReaderModel {
                        cur_pos: Position { x: 0, y: 1 },
                        text_attr: TextAttribute::spec_default(),
                        ..s.m
                    },
                    ..s
                }
            } else if c == 13 {
                StreamModel { m: ReaderModel { cur_pos: Position { x: 0, y: p.y }, ..s.m }, ..s }
            } else {
                let x1 = sat_i32(p.x + 1);
                let np = if x1 >= w {
                    Position { x: 0, y: sat_i32(p.y + 1) }
                } else {
                    Position { x: x1, y: p.y }
                };
                StreamModel {
                    grid: grid_set(s.grid, p.x as int, p.y as int, DosChar { char_code: c, attribute: s.m.text_attr }),
                    height: raise_height(s.height, p.y as int),
                    extent: if x1 > s.extent { x1 } else { s.extent },
                    m: ReaderModel { cur_pos: np, ..s.m },
                }
            }
        },
    }
}

/// Prints a byte that a reader handed out.
fn output_char(result: &mut Buffer, data: &mut ParseStates, extent: &mut i32, ch: Option<u8>)
    requires
        old(result).layers.len() > 0,
    ensures
        model_of(*final(result), final(data)@, *final(extent)) == output_next(
            model_of(*old(result), old(data)@, *old(extent)),
            old(result).width as int,
            ch,
        ),
        final(result).layers.len() == old(result).layers.len(),
        final(result).layers@[0].is_visible == old(result).layers@[0].is_visible,
        forall|l: int| 1 <= l < old(result).layers.len() ==> final(result).layers@[l] == old(result).layers@[l],
        final(result).width == old(result).width,
        Buffer::same_meta(*old(result), *final(result)),
{
    match ch {
        None => {},
        Some(c) => {
            if c == 10 {
                data.cur_pos.x = 0;
                data.cur_pos.y = sat_add(data.cur_pos.y, 1);
                data.cur_input_pos.y = sat_add(data.cur_input_pos.y, 1);
                data.cur_input_pos.x = 1;
                raise_height_exec(result, data.cur_pos.y);
            } else if c == 12 {
                data.cur_pos.x = 0;
                data.cur_pos.y = 1;
                data.text_attr = TextAttribute::default_attribute();
            } else if c == 13 {
                data.cur_pos.x = 0;
            } else {
                let p = data.cur_pos;
                result.set_char(0, p, DosChar { char_code: c, attribute: data.text_attr });
                raise_height_exec(result, p.y);
                let x1 = sat_add(p.x, 1);
                if x1 > *extent {
                    *extent = x1;
                }
                if x1 as i64 >= result.width as i64 {
                    data.cur_pos.x = 0;
                    data.cur_pos.y = sat_add(p.y, 1);
                } else {
                    data.cur_pos.x = x1;
                }
            }
        },
    }
}

fn raise_height_exec(result: &mut Buffer, y: i32)
    ensures
        final(result).height == raise_height(old(result).height, y as int),
        final(result).layers == old(result).layers,
        final(result).width == old(result).width,
        Buffer::same_meta(*old(result), *final(result)),
{
    if y as i64 + 1 > result.height as i64 {
        if y as i64 + 1 > 65535 {
            result.height = 65535;
        } else {
            result.height = (y + 1) as u16;
        }
    }
}

/// Printing the rest of an Avatar repeat: the reader is asked for one more
/// byte until it says that none follows.
pub open spec fn avt_drain(s: StreamModel, w: int, bt: BufferType) -> Result<StreamModel, AvtError>
    decreases (if s.m.avatar_state == 3 { 0int } else { 1int }), s.m.avt_repeat_count,
{
    let (m2, res) = avt_next(s.m, 0, bt);
    match res {
        Err(e) => Err(e),
        Ok((c, more)) => {
            let s2 = output_next(StreamModel { m: m2, ..s }, w, c);
            if more {
                avt_drain(s2, w, bt)
            } else {
                Ok(s2)
            }
        },
    }
}

/// Which readers a stream goes through.
#[derive(Clone, Copy, Debug)]
pub struct StreamKind {
    pub ansi: bool,
    pub pcb: bool,
    pub avt: bool,
}

/// What reading one byte of a stream gives: the next state, the state at
/// an end of file byte, or an Avatar error.
pub enum StepOut {
    Next(StreamModel),
    Stop(StreamModel),
    Fail(AvtError),
}

/// Reading one byte: it goes through the ANSI, PCBoard and Avatar readers
/// that `k` names, in that order, and what comes out is printed; an end
/// of file byte (26) stops the reading.
pub open spec fn stream_byte(s: StreamModel, b: u8, w: int, bt: BufferType, k: StreamKind) -> StepOut {
    let m0 = ReaderModel {
        cur_input_pos: Position { x: sat_i32(s.m.cur_input_pos.x + 1), y: s.m.cur_input_pos.y },
        ..s.m
    };
    let (m1, c1) = if k.ansi { ans_next(m0, b) } else { (m0, Some(b)) };
    let (m2, c2) = if k.pcb && c1 is Some { pcb_next(m1, c1.unwrap(), bt) } else { (m1, c1) };
    let s2 = StreamModel { m: m2, ..s };
    if k.avt {
        match c2 {
            None => StepOut::Next(s2),
            Some(c) => {
                let (m3, res) = avt_next(m2, c, bt);
                match res {
                    Err(e) => StepOut::Fail(e),
                    Ok((c3, more)) => {
                        let s3 = StreamModel { m: m3, ..s };
                        if c3 == Some(26u8) {
                            StepOut::Stop(s3)
                        } else {
                            let s4 = output_next(s3, w, c3);
                            if more {
                                match avt_drain(s4, w, bt) {
                                    Err(e) => StepOut::Fail(e),
                                    Ok(s5) => StepOut::Next(s5),
                                }
                            } else {
                                StepOut::Next(s4)
                            }
                        }
                    },
                }
            },
        }
    } else if c2 == Some(26u8) {
        StepOut::Stop(s2)
    } else {
        StepOut::Next(output_next(s2, w, c2))
    }
}

/// Reading bytes `i..n` of a stream from state `s`, byte by byte, up to an
/// end of file byte or an error.
pub open spec fn stream_from(s: StreamModel, bytes: Seq<u8>, i: int, n: int, w: int, bt: BufferType, k: StreamKind) -> Result<StreamModel, AvtError>
    decreases n - i,
{
    if i >= n || i < 0 {
        Ok(s)
    } else {
        match stream_byte(s, bytes[i], w, bt, k) {
            StepOut::Next(t) => stream_from(t, bytes, i + 1, n, w, bt, k),
            StepOut::Stop(t) => Ok(t),
            StepOut::Fail(e) => Err(e),
        }
    }
}

/// The frame of a stream read: only layer 0 and the height change.
pub open spec fn stream_frame(a: Buffer, b: Buffer) -> bool {
    &&& b.layers.len() == a.layers.len()
    &&& b.layers@[0].is_visible == a.layers@[0].is_visible
    &&& forall|l: int| 1 <= l < a.layers.len() ==> b.layers@[l] == a.layers@[l]
    &&& b.width == a.width
    &&& Buffer::same_meta(a, b)
}

fn drain_avatar(result: &mut Buffer, data: &mut ParseStates, extent: &mut i32, bt: BufferType) -> (res: Result<(), AvtError>)
    requires
        old(result).layers.len() > 0,
    ensures
        match avt_drain(model_of(*old(result), old(data)@, *old(extent)), old(result).width as int, bt) {
            Ok(t) => res is Ok && model_of(*final(result), final(data)@, *final(extent)) == t,
            Err(e) => res == Err::<(), AvtError>(e),
        },
        stream_frame(*old(result), *final(result)),
    decreases (if old(data).avatar_state == 3 { 0int } else { 1int }), old(data).avt_repeat_count,
{
    match display_avt(data, bt, 0) {
        Err(e) => Err(e),
        Ok((c, more)) => {
            output_char(result, data, extent, c);
            if more {
                drain_avatar(result, data, extent, bt)
            } else {
                Ok(())
            }
        },
    }
}

fn stream_step(result: &mut Buffer, data: &mut ParseStates, extent: &mut i32, b: u8, k: StreamKind) -> (res: Result<bool, AvtError>)
    requires
        old(result).layers.len() > 0,
    ensures
        match stream_byte(model_of(*old(result), old(data)@, *old(extent)), b, old(result).width as int, old(result).buffer_type, k) {
            StepOut::Next(t) => res == Ok::<bool, AvtError>(false) && model_of(*final(result), final(data)@, *final(extent)) == t,
            StepOut::Stop(t) => res == Ok::<bool, AvtError>(true) && model_of(*final(result), final(data)@, *final(extent)) == t,
            StepOut::Fail(e) => res == Err::<bool, AvtError>(e),
        },
        stream_frame(*old(result), *final(result)),
{
    reveal(stream_byte);
    let bt = result.buffer_type;
    data.cur_input_pos.x = sat_add(data.cur_input_pos.x, 1);
    let c1 = if k.ansi { display_ans(data, b) } else { Some(b) };
    let c2 = if k.pcb && c1.is_some() { display_PCBoard(data, bt, c1.unwrap()) } else { c1 };
    if k.avt {
        match c2 {
            None => Ok(false),
            Some(c) => {
                match display_avt(data, bt, c) {
                    Err(e) => Err(e),
                    Ok((c3, more)) => {
                        if c3 == Some(26u8) {
                            return Ok(true);
                        }
                        output_char(result, data, extent, c3);
                        if more {
                            match drain_avatar(result, data, extent, bt) {
                                Err(e) => Err(e),
                                Ok(()) => Ok(false),
                            }
                        } else {
                            Ok(false)
                        }
                    },
                }
            },
        }
    } else {
        if c2 == Some(26u8) {
            return Ok(true);
        }
        output_char(result, data, extent, c2);
        Ok(false)
    }
}

/// Reads the first `n` bytes of a stream into layer 0 of the buffer.
pub fn parse_stream(result: &mut Buffer, data: &mut ParseStates, extent: &mut i32, bytes: &[u8], n: usize, k: StreamKind) -> (res: Result<(), AvtError>)
    requires
        old(result).layers.len() > 0,
        n <= bytes.len(),
    ensures
        match stream_from(model_of(*old(result), old(data)@, *old(extent)), bytes@, 0, n as int, old(result).width as int, old(result).buffer_type, k) {
            Ok(t) => res is Ok && model_of(*final(result), final(data)@, *final(extent)) == t,
            Err(e) => res == Err::<(), AvtError>(e),
        },
        stream_frame(*old(result), *final(result)),
{
    let ghost r0 = *result;
    let ghost w = result.width as int;
    let ghost bt = result.buffer_type;
    let ghost total = stream_from(model_of(*result, data@, *extent), bytes@, 0, n as int, w, bt, k);
    let mut i: usize = 0;
    while i < n
        invariant
            i <= n,
            n <= bytes.len(),
            r0 == *old(result),
            bt == r0.buffer_type,
            w == r0.width,
            total == stream_from(model_of(r0, old(data)@, *old(extent)), bytes@, 0, n as int, w, bt, k),
            result.layers.len() > 0,
            stream_frame(r0, *result),
            total == stream_from(model_of(*result, data@, *extent), bytes@, i as int, n as int, w, bt, k),
        decreases n - i,
    {
        let ghost cur = model_of(*result, data@, *extent);
        let ghost b = bytes@[i as int];
        match stream_step(result, data, extent, bytes[i], k) {
            Err(e) => {
                return Err(e);
            },
            Ok(stop) => {
                if stop {
                    return Ok(());
                }
            },
        }
        i = i + 1;
    }
    Ok(())
}

/// How a file is read: as a stream through some of the ANSI, PCBoard and
/// Avatar readers (in ice color mode or not), or by one of the readers of
/// the binary formats.
pub enum LoadPlan {
    Stream { k: StreamKind, ice: bool },
    Bin,
    Xb,
    Adf,
    Idf,
    Tnd,
}

/// The plan that the announced picture kind and the extension select. A
/// record that announces ANSI, or none, leaves the choice to the extension;
/// names without a known extension are read as ANSI.
pub open spec fn load_plan(kind: SauceFileType, ext: FileExt) -> LoadPlan {
    let none = StreamKind { ansi: false, pcb: false, avt: false };
    match kind {
        SauceFileType::Ascii | SauceFileType::ANSiMation => LoadPlan::Stream {
            k: StreamKind { ansi: true, ..none },
            ice: false,
        },
        SauceFileType::PCBoard => LoadPlan::Stream { k: StreamKind { ansi: true, pcb: true, avt: false }, ice: false },
        SauceFileType::Avatar => LoadPlan::Stream { k: StreamKind { avt: true, ..none }, ice: false },
        SauceFileType::TundraDraw => LoadPlan::Tnd,
        SauceFileType::Bin => LoadPlan::Bin,
        SauceFileType::XBin => LoadPlan::Xb,
        SauceFileType::Ansi | SauceFileType::Undefined => {
            let a = kind == SauceFileType::Ansi;
            match ext {
                FileExt::Bin => LoadPlan::Bin,
                FileExt::Xb => LoadPlan::Xb,
                FileExt::Adf => LoadPlan::Adf,
                FileExt::Idf => LoadPlan::Idf,
                FileExt::Tnd => LoadPlan::Tnd,
                FileExt::Ice => LoadPlan::Stream { k: StreamKind { ansi: true, ..none }, ice: true },
                FileExt::Avt => LoadPlan::Stream { k: StreamKind { ansi: a, pcb: false, avt: true }, ice: false },
                FileExt::Pcb => LoadPlan::Stream { k: StreamKind { ansi: true, pcb: true, avt: false }, ice: false },
                _ => LoadPlan::Stream { k: StreamKind { ansi: true, ..none }, ice: false },
            }
        },
    }
}

fn plan_for(kind: SauceFileType, ext: FileExt) -> (p: LoadPlan)
    ensures
        p == load_plan(kind, ext),
{
    match kind {
        SauceFileType::Ascii | SauceFileType::ANSiMation => LoadPlan::Stream {
            k: StreamKind { ansi: true, pcb: false, avt: false },
            ice: false,
        },
        SauceFileType::PCBoard => LoadPlan::Stream { k: StreamKind { ansi: true, pcb: true, avt: false }, ice: false },
        SauceFileType::Avatar => LoadPlan::Stream { k: StreamKind { ansi: false, pcb: false, avt: true }, ice: false },
        SauceFileType::TundraDraw => LoadPlan::Tnd,
        SauceFileType::Bin => LoadPlan::Bin,
        SauceFileType::XBin => LoadPlan::Xb,
        SauceFileType::Ansi | SauceFileType::Undefined => {
            let a = match kind {
                SauceFileType::Ansi => true,
                _ => false,
            };
            match ext {
                FileExt::Bin => LoadPlan::Bin,
                FileExt::Xb => LoadPlan::Xb,
                FileExt::Adf => LoadPlan::Adf,
                FileExt::Idf => LoadPlan::Idf,
                FileExt::Tnd => LoadPlan::Tnd,
                FileExt::Ice => LoadPlan::Stream { k: StreamKind { ansi: true, pcb: false, avt: false }, ice: true },
                FileExt::Avt => LoadPlan::Stream { k: StreamKind { ansi: a, pcb: false, avt: true }, ice: false },
                FileExt::Pcb => LoadPlan::Stream { k: StreamKind { ansi: true, pcb: true, avt: false }, ice: false },
                _ => LoadPlan::Stream { k: StreamKind { ansi: true, pcb: false, avt: false }, ice: false },
            }
        },
    }
}

/// The reader state at the start of a stream read with `w` columns.
pub open spec fn stream_start(w: u16) -> StreamModel {
    StreamModel {
        grid: Seq::empty(),
        height: 0,
        extent: 0,
        m: ReaderModel { screen_width: w as i32, ..start_model() },
    }
}

/// The width a stream is read with: the record's, or 80 columns.
pub open spec fn stream_width(d: Seq<u8>) -> u16 {
    if sauce_width(d, 0) == 0 {
        80
    } else {
        sauce_width(d, 0)
    }
}

/// A stream read: the cells of layer 0, the height and the color mode come
/// from the readers; the width is the record's or what was written.
pub open spec fn stream_ok(d: Seq<u8>, fs: usize, k: StreamKind, ice: bool, r: Buffer) -> bool {
    let bt = if ice { BufferType::LegacyIce } else { sauce_buffer_type(d, BufferType::LegacyDos) };
    let sw = stream_width(d);
    match stream_from(stream_start(sw), d, 0, fs as int, sw as int, bt, k) {
        Ok(t) => {
            &&& r.layers@[0].grid() == t.grid
            &&& r.height == t.height
            &&& r.buffer_type == bt
            &&& r.width == (if sauce_gives_size(d) {
                sw
            } else if t.extent > 65535 {
                65535
            } else if t.extent < 0 {
                0
            } else {
                t.extent as u16
            })
        },
        Err(e) => false,
    }
}

pub open spec fn stream_err(d: Seq<u8>, fs: usize, k: StreamKind, ice: bool) -> Option<LoadError> {
    let bt = if ice { BufferType::LegacyIce } else { sauce_buffer_type(d, BufferType::LegacyDos) };
    let sw = stream_width(d);
    match stream_from(stream_start(sw), d, 0, fs as int, sw as int, bt, k) {
        Ok(t) => None,
        Err(e) => Some(LoadError::Avatar(e)),
    }
}

pub open spec fn bin_ok(d: Seq<u8>, fs: usize, r: Buffer) -> bool {
    let w0 = sauce_width(d, 0);
    let bt0 = sauce_buffer_type(d, BufferType::LegacyDos);
    let w: u16 = if w0 == 0 { 160 } else { w0 };
    &&& r.width == w
    &&& r.height == (crate::bin::rows_for((fs / 2) as int, w as int) % 65536) as u16
    &&& r.buffer_type == bt0
    &&& r.layers@[0].grid() == write_run(Seq::empty(), bin_cells(d, (fs / 2) as int, bt0), w as int)
}

pub open spec fn xb_ok(d: Seq<u8>, fs: usize, r: Buffer) -> bool {
    let o = crate::xbinary::xb_data_start(d);
    let flags = d[10];
    let bt = BufferType::spec_from_flags(flags & 8 != 0, flags & 16 != 0);
    &&& r.width == crate::xbinary::xb_width(d)
    &&& r.height == crate::xbinary::xb_height(d)
    &&& r.buffer_type == bt
    &&& (flags & 1 != 0 ==> r.palette.colors@ == crate::palette::palette_from(d.subrange(11, 59)))
    &&& (flags & 1 == 0 ==> r.palette.colors@ == crate::palette::dos_default_palette())
    &&& (flags & 2 != 0 ==> (r.font matches Some(f) && f.size == (crate::position::Size { width: 8, height: d[9] as usize })
        && f.name.0@ == Seq::<u8>::empty() && f.data@ == Seq::new(
        (o - (11 + (if flags & 1 != 0 { 48int } else { 0int }))) as nat,
        |i: int| d[11 + (if flags & 1 != 0 { 48int } else { 0int }) + i] as u32,
    )))
    &&& (flags & 2 == 0 ==> r.font is None)
    &&& r.layers@[0].grid() == (if flags & 4 != 0 {
        write_run(Seq::empty(), xb_cells(tail(d, o), 0, fs - o, bt), r.width as int)
    } else {
        write_run(Seq::empty(), bin_cells(tail(d, o), (fs - o) / 2, bt), r.width as int)
    })
}

pub open spec fn xb_err(d: Seq<u8>, fs: usize) -> Option<LoadError> {
    let o = crate::xbinary::xb_data_start(d);
    if fs < 11 {
        Some(LoadError::XbTooShort)
    } else if d.subrange(0, 4) != seq![88u8, 66u8, 73u8, 78u8] {
        Some(LoadError::XbInvalidId)
    } else if o > fs {
        Some(LoadError::XbTruncated)
    } else if d[10] & 4 == 0 && (fs - o) % 2 == 1 {
        Some(LoadError::XbOddLength)
    } else {
        None
    }
}

pub open spec fn adf_ok(d: Seq<u8>, fs: usize, r: Buffer) -> bool {
    let bt0 = sauce_buffer_type(d, BufferType::LegacyDos);
    let n = if fs >= 4289 { (fs - 4289) / 2 } else { 0 };
    &&& r.width == 80
    &&& r.height == ((n / 80) % 65536) as u16
    &&& r.buffer_type == bt0
    &&& r.palette.colors@ == crate::palette::ega_cycle(crate::palette::palette_from(d.subrange(1, 193)), 16)
    &&& r.font matches Some(f) && f.size == (crate::position::Size { width: 8, height: 16 }) && f.name.0@ == Seq::<u8>::empty()
        && f.data@ == crate::artworx::font_u32(d, 193, 4096)
    &&& r.layers@[0].grid() == write_run(Seq::empty(), bin_cells(tail(d, 4289), n, bt0), 80)
}

pub open spec fn idf_ok(d: Seq<u8>, fs: usize, r: Buffer) -> bool {
    let bt0 = sauce_buffer_type(d, BufferType::LegacyDos);
    let x1 = le16_at(d, 4);
    let x2 = le16_at(d, 8);
    let ds = fs - 4096 - 48;
    let cells = crate::ice_draw::idf_cells(d, 12, ds, bt0);
    let e = crate::ice_draw::idf_end(d, 12, ds);
    &&& r.width == x2 + 1
    &&& r.height == crate::ice_draw::window_pos(cells.len() as int, x1, le16_at(d, 6), x2 - x1 + 1).1 as u16
    &&& r.buffer_type == bt0
    &&& r.font matches Some(f) && f.size == (crate::position::Size { width: 8, height: 16 }) && f.name.0@ == Seq::<u8>::empty()
        && f.data@ == crate::artworx::font_u32(d, e, 4096)
    &&& r.palette.colors@ == crate::palette::palette_from(d.subrange(e + 4096, e + 4096 + 48))
    &&& r.layers@[0].grid() == crate::ice_draw::write_window(
        Seq::empty(),
        crate::ice_draw::idf_cells(d, 12, ds, bt0),
        x1,
        le16_at(d, 6),
        x2 - x1 + 1,
    )
}

pub open spec fn idf_err(d: Seq<u8>, fs: usize) -> Option<LoadError> {
    if fs < 12 + 4096 + 48 {
        Some(LoadError::IdfTooShort)
    } else if !idf_version_ok(d) {
        Some(LoadError::IdfUnsupportedVersion)
    } else if !(le16_at(d, 4) <= le16_at(d, 8) < 65535) {
        Some(LoadError::IdfInvalidBounds)
    } else {
        None
    }
}

pub open spec fn tnd_width(d: Seq<u8>) -> u16 {
    if sauce_width(d, 0) == 0 {
        80
    } else {
        sauce_width(d, 0)
    }
}

pub open spec fn tnd_ok(d: Seq<u8>, fs: usize, r: Buffer) -> bool {
    let bt0 = sauce_buffer_type(d, BufferType::LegacyDos);
    let w = tnd_width(d);
    match tnd_from(tnd_start(Seq::empty(), bt0), d, 9, fs as int, w as int) {
        Ok(t) => r.width == w && r.buffer_type == bt0 && r.layers@[0].grid() == t.grid,
        Err(e) => false,
    }
}

pub open spec fn tnd_err(d: Seq<u8>, fs: usize) -> Option<LoadError> {
    let bt0 = sauce_buffer_type(d, BufferType::LegacyDos);
    if fs < 9 {
        Some(LoadError::TndTooShort)
    } else if !tnd_header_ok(d) {
        Some(LoadError::TndInvalidId)
    } else {
        match tnd_from(tnd_start(Seq::empty(), bt0), d, 9, fs as int, tnd_width(d) as int) {
            Ok(t) => None,
            Err(e) => Some(e),
        }
    }
}

/// What reading the file named `name` holding `d` into a fresh buffer
/// gives, given the SAUCE record's answer: the cells of layer 0, the size
/// and the color mode the selected reader produces.
pub open spec fn load_ok(name: Seq<char>, d: Seq<u8>, kind: SauceFileType, fs: usize, r: Buffer) -> bool {
    match load_plan(kind, spec_file_ext(name)) {
        LoadPlan::Stream { k, ice } => stream_ok(d, fs, k, ice, r),
        LoadPlan::Bin => bin_ok(d, fs, r),
        LoadPlan::Xb => xb_ok(d, fs, r),
        LoadPlan::Adf => adf_ok(d, fs, r),
        LoadPlan::Idf => idf_ok(d, fs, r),
        LoadPlan::Tnd => tnd_ok(d, fs, r),
    }
}

/// The error reading the file gives once its SAUCE record was read, if
/// any: an Avatar error of the stream, or the refusal of a reader.
pub open spec fn load_err(name: Seq<char>, d: Seq<u8>, kind: SauceFileType, fs: usize) -> Option<LoadError> {
    match load_plan(kind, spec_file_ext(name)) {
        LoadPlan::Stream { k, ice } => stream_err(d, fs, k, ice),
        LoadPlan::Bin => if fs % 2 == 1 { Some(LoadError::BinOddLength) } else { None },
        LoadPlan::Xb => xb_err(d, fs),
        LoadPlan::Adf => if d.len() < 4289 { Some(LoadError::AdfTooShort) } else { None },
        LoadPlan::Idf => idf_err(d, fs),
        LoadPlan::Tnd => tnd_err(d, fs),
    }
}

/// The buffer after its SAUCE record was read from `d` into a fresh one.
pub open spec fn after_sauce(d: Seq<u8>, r: Buffer) -> bool {
    &&& r.width == sauce_width(d, 0)
    &&& r.buffer_type == sauce_buffer_type(d, BufferType::LegacyDos)
    &&& r.layers.len() == 1
    &&& r.layers@[0].grid() == Seq::<Seq<DosChar>>::empty()
    &&& r.palette.colors.len() == 16
    &&& r.palette.colors@ == crate::palette::dos_default_palette()
    &&& r.font is None
}

/// The SAUCE text fields, comments and font name that reading the record
/// of `d` gives a fresh buffer: those of the record where there is one,
/// else empty ones.
pub open spec fn sauce_meta_ok(d: Seq<u8>, r: Buffer) -> bool {
    if has_sauce(d) {
        &&& r.title.0@ == crate::sauce::sauce_title(d)
        &&& r.author.0@ == crate::sauce::sauce_author(d)
        &&& r.group.0@ == crate::sauce::sauce_group(d)
        &&& r.comments@.len() == crate::sauce::sauce_num_comments(d)
        &&& forall|i: int| 0 <= i < crate::sauce::sauce_num_comments(d) ==> #[trigger] r.comments@[i].0@ == crate::sauce::sauce_comment(d, i)
        &&& if crate::sauce::kind_sets_flags(record_kind(d)) && crate::sauce::sauce_font(d).len() > 0 {
            r.font_name is Some && r.font_name.unwrap().0@ == crate::sauce::sauce_font(d)
        } else {
            r.font_name is None
        }
    } else {
        &&& r.title.0@.len() == 0
        &&& r.author.0@.len() == 0
        &&& r.group.0@.len() == 0
        &&& r.comments@.len() == 0
        &&& r.font_name is None
    }
}

fn load_stream(result: &mut Buffer, bytes: &[u8], fs: usize, k: StreamKind, gives_size: bool) -> (res: Result<(), LoadError>)
    requires
        old(result).layers.len() > 0,
        old(result).layers@[0].grid() == Seq::<Seq<DosChar>>::empty(),
        old(result).height == 0,
        fs <= bytes.len(),
    ensures
        ({
            let sw: u16 = if old(result).width == 0 { 80 } else { old(result).width };
            match stream_from(stream_start(sw), bytes@, 0, fs as int, sw as int, old(result).buffer_type, k) {
                Ok(t) => {
                    &&& res is Ok
                    &&& final(result).layers@[0].grid() == t.grid
                    &&& final(result).height == t.height
                    &&& final(result).buffer_type == old(result).buffer_type
                    &&& final(result).width == (if gives_size {
                        sw
                    } else if t.extent > 65535 {
                        65535
                    } else if t.extent < 0 {
                        0
                    } else {
                        t.extent as u16
                    })
                },
                Err(e) => res == Err::<(), LoadError>(LoadError::Avatar(e)),
            }
        }),
        final(result).layers.len() == old(result).layers.len(),
        Buffer::same_meta(*old(result), *final(result)),
{
    if result.width == 0 {
        result.width = 80;
    }
    let mut data = ParseStates::new();
    data.screen_width = result.width as i32;
    let mut extent: i32 = 0;
    proof {
        assert(model_of(*result, data@, extent) == stream_start(result.width));
    }
    match parse_stream(result, &mut data, &mut extent, bytes, fs, k) {
        Err(e) => Err(LoadError::Avatar(e)),
        Ok(()) => {
            if !gives_size {
                result.width = if extent > 65535 {
                    65535
                } else if extent < 0 {
                    0
                } else {
                    extent as u16
                };
            }
            Ok(())
        },
    }
}

fn load_body(result: &mut Buffer, bytes: &[u8], fs: usize, plan: LoadPlan) -> (res: Result<(), LoadError>)
    requires
        after_sauce(bytes@, *old(result)),
        fs <= bytes.len(),
        bytes.len() <= 0x7fff_0000,
        plan is Xb ==> bytes.len() <= 0x1ff_ffff,
    ensures
        match plan {
            LoadPlan::Stream { k, ice } => match stream_err(bytes@, fs, k, ice) {
                Some(e) => res == Err::<(), LoadError>(e),
                None => res is Ok && stream_ok(bytes@, fs, k, ice, *final(result)),
            },
            LoadPlan::Bin => if fs % 2 == 1 {
                res == Err::<(), LoadError>(LoadError::BinOddLength)
            } else {
                res is Ok && bin_ok(bytes@, fs, *final(result))
            },
            LoadPlan::Xb => match xb_err(bytes@, fs) {
                Some(e) => res == Err::<(), LoadError>(e),
                None => res is Ok && xb_ok(bytes@, fs, *final(result)),
            },
            LoadPlan::Adf => if bytes.len() < 4289 {
                res == Err::<(), LoadError>(LoadError::AdfTooShort)
            } else {
                res is Ok && adf_ok(bytes@, fs, *final(result))
            },
            LoadPlan::Idf => match idf_err(bytes@, fs) {
                Some(e) => res == Err::<(), LoadError>(e),
                None => res is Ok && idf_ok(bytes@, fs, *final(result)),
            },
            LoadPlan::Tnd => match tnd_err(bytes@, fs) {
                Some(e) => res == Err::<(), LoadError>(e),
                None => res is Ok && tnd_ok(bytes@, fs, *final(result)),
            },
        },
        final(result).file_name == old(result).file_name,
        Buffer::same_text(*old(result), *final(result)),
{
    match plan {
        LoadPlan::Stream { k, ice } => {
            if ice {
                result.buffer_type = BufferType::LegacyIce;
            }
            result.height = 0;
            let gives = crate::sauce::sauce_gives_size_exec(bytes);
            let ghost before = *result;
            let r = load_stream(result, bytes, fs, k, gives);
            assert(result.file_name == before.file_name);
            r
        },
        LoadPlan::Bin => {
            if result.width == 0 {
                result.width = 160;
            }
            match read_binary(result, bytes, fs) {
                Err(e) => Err(e),
                Ok(_) => Ok(()),
            }
        },
        LoadPlan::Xb => {
            match read_xb(result, bytes, fs) {
                Err(e) => Err(e),
                Ok(_) => Ok(()),
            }
        },
        LoadPlan::Adf => {
            if bytes.len() < 4289 {
                return Err(LoadError::AdfTooShort);
            }
            read_adf(result, bytes, fs);
            Ok(())
        },
        LoadPlan::Idf => {
            if fs < 12 + 4096 + 48 {
                return Err(LoadError::IdfTooShort);
            }
            if !(bytes[0] == 4 && bytes[1] == 49 && bytes[2] == 46 && (bytes[3] == 51 || bytes[3] == 52)) {
                return Err(LoadError::IdfUnsupportedVersion);
            }
            let x1: u32 = (bytes[5] as u32) * 256 + bytes[4] as u32;
            let x2: u32 = (bytes[9] as u32) * 256 + bytes[8] as u32;
            if !(x1 <= x2 && x2 < 65535) {
                return Err(LoadError::IdfInvalidBounds);
            }
            read_idf(result, bytes, fs);
            Ok(())
        },
        LoadPlan::Tnd => {
            if result.width == 0 {
                result.width = 80;
            }
            match read_tnd(result, bytes, fs) {
                Err(e) => Err(e),
                Ok(_) => Ok(()),
            }
        },
    }
}

impl Buffer {
    /// Reads a picture from the bytes of a file: its SAUCE record first,
    /// then the format that the record and the file name's extension
    /// select. Stream formats are read on a screen as wide as the record
    /// says (80 columns without one), and without a size in the record the
    /// picture is as wide and high as what was written.
    pub fn from_bytes(file_name: &str, bytes: &[u8]) -> (res: Result<Buffer, LoadError>)
        requires
            spec_file_ext(file_name@) != FileExt::Mdf ==> sauce_readable(bytes@),
            bytes.len() <= 0x7fff_0000,
            spec_file_ext(file_name@) == FileExt::Xb || (has_sauce(bytes@) && record_kind(bytes@) == SauceFileType::XBin)
                ==> bytes.len() <= 0x1ff_ffff,
        ensures
            spec_file_ext(file_name@) == FileExt::Mdf ==> match mdf_parse(bytes@) {
                Err(e) => res == Err::<Buffer, LoadError>(e),
                Ok(st) => res is Ok && mdf_opened(file_name@, bytes@, st, res->Ok_0),
            },
            spec_file_ext(file_name@) != FileExt::Mdf ==> match sauce_result(bytes@) {
                Err(e) => res == Err::<Buffer, LoadError>(LoadError::Sauce(e)),
                Ok((kind, fs)) => match load_err(file_name@, bytes@, kind, fs) {
                    Some(e) => res == Err::<Buffer, LoadError>(e),
                    None => res is Ok && load_ok(file_name@, bytes@, kind, fs, res->Ok_0) && sauce_meta_ok(bytes@, res->Ok_0)
                        && res->Ok_0.file_name is Some && res->Ok_0.file_name->0@ == file_name@,
                },
            },
    {
        let mut result = Buffer::new();
        result.file_name = Some(file_name.to_owned());
        let ext = file_ext(file_name);
        if ext == FileExt::Mdf {
            let ghost before = result;
            match read_mdf(&mut result, bytes) {
                Err(e) => {
                    return Err(e);
                },
                Ok(_) => {
                    proof {
                        let st = mdf_parse(bytes@)->Ok_0;
                        lemma_mdf_opened(file_name@, bytes@, st, before, result);
                    }
                    return Ok(result);
                },
            }
        }
        result.width = 0;
        result.height = 0;
        let (kind, fs) = match result.read_sauce_info(bytes) {
            Err(e) => {
                return Err(LoadError::Sauce(e));
            },
            Ok(v) => v,
        };
        let plan = plan_for(kind, ext);
        match load_body(&mut result, bytes, fs, plan) {
            Err(e) => Err(e),
            Ok(()) => Ok(result),
        }
    }
}

} // verus!
