use vstd::prelude::*;

use crate::ascii::{printable, row_break, row_len};
use crate::buffer::Buffer;
use crate::dos_char::DosChar;
use crate::parse_states::{sat_add, sat_i32, AvtReadState, ParseStates, ReaderModel};
use crate::position::Position;
use crate::sauce::{sauce_head, sauce_tail, SauceError, SauceFileType};
use crate::text_attribute::{spec_attr, BufferType, TextAttribute};

verus! {

/// Why the Avatar reader stopped.
#[derive(Clone, Copy, Debug, PartialEq, Eq, Structural)]
pub enum AvtError {
    /// The clear to end of line command, which is not supported.
    ClearEol,
    /// A command byte the reader does not know.
    UnsupportedCommand(u8),
    /// The repeat or goto state counter holds a value it never sets.
    InvalidState,
}

/// One step of the Avatar reader. `^L` homes the cursor and resets the
/// attribute, `^Y c n` repeats `c` `n` times (the repeated bytes come out
/// one per call, the flag saying whether another follows; a count of 0
/// gives nothing and reading goes on with the next byte), `^V` starts a
/// command: set color, blink on, cursor moves and goto.
pub open spec fn avt_next(s: ReaderModel, ch: u8, buffer_type: BufferType) -> (ReaderModel, Result<(Option<u8>, bool), AvtError>) {
    let none = Ok::<(Option<u8>, bool), AvtError>((None, false));
    match s.avt_state {
        AvtReadState::Chars => {
            if ch == 12 {
                (ReaderModel { cur_pos: Position { x: 0, y: 0 }, text_attr: TextAttribute::spec_default(), ..s }, none)
            } else if ch == 25 {
                (ReaderModel { avt_state: AvtReadState::RepeatChars, avatar_state: 1, ..s }, none)
            } else if ch == 22 {
                (ReaderModel { avt_state: AvtReadState::ReadCommand, ..s }, none)
            } else {
                (s, Ok((Some(ch), false)))
            }
        },
        AvtReadState::ReadCommand => {
            if ch == 1 {
                (ReaderModel { avt_state: AvtReadState::ReadColor, ..s }, none)
            } else if ch == 2 {
                (ReaderModel {
                    text_attr: spec_attr(s.text_attr.foreground_color, s.text_attr.background_color, true),
                    avt_state: AvtReadState::Chars,
                    ..s
                }, none)
            } else if ch == 3 {
                (ReaderModel {
                    cur_pos: Position { x: s.cur_pos.x, y: if s.cur_pos.y < 1 { 0 } else { (s.cur_pos.y - 1) as i32 } },
                    avt_state: AvtReadState::Chars,
                    ..s
                }, none)
            } else if ch == 4 {
                (ReaderModel {
                    cur_pos: Position { x: s.cur_pos.x, y: sat_i32(s.cur_pos.y + 1) },
                    avt_state: AvtReadState::Chars,
                    ..s
                }, none)
            } else if ch == 5 {
                (ReaderModel {
                    cur_pos: Position { x: if s.cur_pos.x < 1 { 0 } else { (s.cur_pos.x - 1) as i32 }, y: s.cur_pos.y },
                    avt_state: AvtReadState::Chars,
                    ..s
                }, none)
            } else if ch == 6 {
                (ReaderModel {
                    cur_pos: Position { x: if s.cur_pos.x >= 79 { 79 } else { (s.cur_pos.x + 1) as i32 }, y: s.cur_pos.y },
                    avt_state: AvtReadState::Chars,
                    ..s
                }, none)
            } else if ch == 7 {
                (s, Err(AvtError::ClearEol))
            } else if ch == 8 {
                (ReaderModel { avt_state: AvtReadState::MoveCursor, avatar_state: 1, ..s }, none)
            } else {
                (s, Err(AvtError::UnsupportedCommand(ch)))
            }
        },
        AvtReadState::RepeatChars => {
            if s.avatar_state == 1 {
                (ReaderModel { avt_repeat_char: ch, avatar_state: 2, ..s }, none)
            } else if s.avatar_state == 2 {
                (ReaderModel { avt_repeat_count: ch as i32, avatar_state: 3, ..s }, Ok((None, true)))
            } else if s.avatar_state == 3 {
                if s.avt_repeat_count > 0 {
                    let c = (s.avt_repeat_count - 1) as i32;
                    (
                        ReaderModel {
                            avt_repeat_count: c,
                            avt_state: if c == 0 { AvtReadState::Chars } else { s.avt_state },
                            ..s
                        },
                        Ok((Some(s.avt_repeat_char), c > 0)),
                    )
                } else {
                    (ReaderModel { avt_state: AvtReadState::Chars, ..s }, none)
                }
            } else {
                (ReaderModel { avt_state: AvtReadState::Chars, ..s }, Err(AvtError::InvalidState))
            }
        },
        AvtReadState::ReadColor => {
            (ReaderModel {
                text_attr: TextAttribute::spec_from_u8(ch, buffer_type),
                avt_state: AvtReadState::Chars,
                ..s
            }, none)
        },
        AvtReadState::MoveCursor => {
            if s.avatar_state == 1 {
                (ReaderModel { avt_repeat_char: ch, avatar_state: 2, ..s }, none)
            } else if s.avatar_state == 2 {
                (ReaderModel {
                    cur_pos: Position { x: s.avt_repeat_char as i32, y: ch as i32 },
                    avt_state: AvtReadState::Chars,
                    ..s
                }, none)
            } else {
                (s, Err(AvtError::InvalidState))
            }
        },
    }
}

/// Feeds one byte to the Avatar reader. The result holds the byte to print,
/// if any, and whether a repeat has more bytes to give: the caller then
/// calls again (with any byte) until the flag is clear.
pub fn display_avt(data: &mut ParseStates, buffer_type: BufferType, ch: u8) -> (res: Result<(Option<u8>, bool), AvtError>)
    ensures
        (final(data)@, res) == avt_next(old(data)@, ch, buffer_type),
{
    match data.avt_state {
        AvtReadState::Chars => {
            if ch == 12 {
                data.cur_pos = Position::new();
                data.text_attr = TextAttribute::default_attribute();
            } else if ch == 25 {
                data.avt_state = AvtReadState::RepeatChars;
                data.avatar_state = 1;
            } else if ch == 22 {
                data.avt_state = AvtReadState::ReadCommand;
            } else {
                return Ok((Some(ch), false));
            }
            Ok((None, false))
        },
        AvtReadState::ReadCommand => {
            if ch == 1 {
                data.avt_state = AvtReadState::ReadColor;
                return Ok((None, false));
            } else if ch == 2 {
                data.text_attr.set_blink(true);
            } else if ch == 3 {
                data.cur_pos.y = if data.cur_pos.y < 1 { 0 } else { data.cur_pos.y - 1 };
            } else if ch == 4 {
                data.cur_pos.y = sat_add(data.cur_pos.y, 1);
            } else if ch == 5 {
                data.cur_pos.x = if data.cur_pos.x < 1 { 0 } else { data.cur_pos.x - 1 };
            } else if ch == 6 {
                data.cur_pos.x = if data.cur_pos.x >= 79 { 79 } else { data.cur_pos.x + 1 };
            } else if ch == 7 {
                return Err(AvtError::ClearEol);
            } else if ch == 8 {
                data.avt_state = AvtReadState::MoveCursor;
                data.avatar_state = 1;
                return Ok((None, false));
            } else {
                return Err(AvtError::UnsupportedCommand(ch));
            }
            data.avt_state = AvtReadState::Chars;
            Ok((None, false))
        },
        AvtReadState::RepeatChars => {
            if data.avatar_state == 1 {
                data.avt_repeat_char = ch;
                data.avatar_state = 2;
                Ok((None, false))
            } else if data.avatar_state == 2 {
                data.avt_repeat_count = ch as i32;
                data.avatar_state = 3;
                Ok((None, true))
            } else if data.avatar_state == 3 {
                if data.avt_repeat_count > 0 {
                    data.avt_repeat_count = data.avt_repeat_count - 1;
                    if data.avt_repeat_count == 0 {
                        data.avt_state = AvtReadState::Chars;
                    }
                    return Ok((Some(data.avt_repeat_char), data.avt_repeat_count > 0));
                }
                data.avt_state = AvtReadState::Chars;
                Ok((None, false))
            } else {
                data.avt_state = AvtReadState::Chars;
                Err(AvtError::InvalidState)
            }
        },
        AvtReadState::ReadColor => {
            data.text_attr = TextAttribute::from_u8(ch, buffer_type);
            data.avt_state = AvtReadState::Chars;
            Ok((None, false))
        },
        AvtReadState::MoveCursor => {
            if data.avatar_state == 1 {
                data.avt_repeat_char = ch;
                data.avatar_state = 2;
                Ok((None, false))
            } else if data.avatar_state == 2 {
                data.cur_pos.x = data.avt_repeat_char as i32;
                data.cur_pos.y = ch as i32;
                data.avt_state = AvtReadState::Chars;
                Ok((None, false))
            } else {
                Err(AvtError::InvalidState)
            }
        },
    }
}

/// The Avatar color command `^V ^A b` read from reading characters sets
/// the attribute to the DOS attribute byte `b`: for a legacy DOS buffer
/// the low nibble is the foreground, bits 4 to 6 the background and the
/// top bit blink; with ice colors the high nibble is the background. Reading
/// characters goes on after it, and nothing is printed.
pub proof fn lemma_avt_set_color(s: ReaderModel, b: u8, buffer_type: BufferType)
    requires
        s.avt_state == AvtReadState::Chars,
    ensures
        ({
            let (s1, r1) = avt_next(s, 22, buffer_type);
            let (s2, r2) = avt_next(s1, 1, buffer_type);
            let (s3, r3) = avt_next(s2, b, buffer_type);
            &&& r1 == Ok::<(Option<u8>, bool), AvtError>((None, false))
            &&& r2 == Ok::<(Option<u8>, bool), AvtError>((None, false))
            &&& r3 == Ok::<(Option<u8>, bool), AvtError>((None, false))
            &&& s3.avt_state == AvtReadState::Chars
            &&& s3.text_attr == TextAttribute::spec_from_u8(b, buffer_type)
            &&& buffer_type == BufferType::LegacyDos ==> s3.text_attr.foreground_color == b % 16
                && s3.text_attr.background_color == (b / 16) % 8 && s3.text_attr.blink == (b >= 128)
            &&& buffer_type == BufferType::LegacyIce ==> s3.text_attr.foreground_color == b % 16
                && s3.text_attr.background_color == b / 16 && !s3.text_attr.blink
            &&& s3.cur_pos == s.cur_pos
        }),
{
    assert(b & 15u8 == b % 16 && (b >> 4u8) & 7u8 == (b / 16) % 8 && (b & 0x80u8 != 0) == (b >= 128) && b >> 4u8 == b / 16)
        by (bit_vector);
}

/// The bytes printed by `k` more calls of the reader, each fed `b`, and
/// the state after them.
pub open spec fn avt_calls(s: ReaderModel, b: u8, buffer_type: BufferType, k: nat) -> (ReaderModel, Seq<Option<u8>>)
    decreases k,
{
    if k == 0 {
        (s, Seq::empty())
    } else {
        let prev = avt_calls(s, b, buffer_type, (k - 1) as nat);
        let (s2, r) = avt_next(prev.0, b, buffer_type);
        (s2, prev.1.push(
            match r {
                Ok((p, _)) => p,
                Err(_) => None,
            },
        ))
    }
}

/// The repeat command `^Y c n` with `n >= 1`, read from reading
/// characters, asks for more calls, and the next `n` calls print `c` each,
/// the flag asking for one more until the last; then reading characters
/// goes on. Cursor and attribute stay.
pub proof fn lemma_avt_repeat(s: ReaderModel, c: u8, n: u8, b: u8, buffer_type: BufferType)
    requires
        s.avt_state == AvtReadState::Chars,
        n >= 1,
    ensures
        ({
            let (s1, r1) = avt_next(s, 25, buffer_type);
            let (s2, r2) = avt_next(s1, c, buffer_type);
            let (s3, r3) = avt_next(s2, n, buffer_type);
            let (s4, out) = avt_calls(s3, b, buffer_type, n as nat);
            &&& r1 == Ok::<(Option<u8>, bool), AvtError>((None, false))
            &&& r2 == Ok::<(Option<u8>, bool), AvtError>((None, false))
            &&& r3 == Ok::<(Option<u8>, bool), AvtError>((None, true))
            &&& out == Seq::new(n as nat, |i: int| Some(c))
            &&& s4.avt_state == AvtReadState::Chars
            &&& s4.cur_pos == s.cur_pos
            &&& s4.text_attr == s.text_attr
            &&& forall|k: nat| 1 <= k < n ==> #[trigger] avt_next(avt_calls(s3, b, buffer_type, (k - 1) as nat).0, b, buffer_type).1
                == Ok::<(Option<u8>, bool), AvtError>((Some(c), true))
            &&& avt_next(avt_calls(s3, b, buffer_type, (n - 1) as nat).0, b, buffer_type).1 == Ok::<(Option<u8>, bool), AvtError>(
                (Some(c), false),
            )
        }),
{
    let s3 = avt_next(avt_next(avt_next(s, 25, buffer_type).0, c, buffer_type).0, n, buffer_type).0;
    lemma_avt_calls_repeat(s3, b, buffer_type, n as nat);
    assert forall|k: nat| 1 <= k < n implies #[trigger] avt_next(avt_calls(s3, b, buffer_type, (k - 1) as nat).0, b, buffer_type).1
        == Ok::<(Option<u8>, bool), AvtError>((Some(c), true)) by {
        lemma_avt_calls_repeat(s3, b, buffer_type, (k - 1) as nat);
    }
    lemma_avt_calls_repeat(s3, b, buffer_type, (n - 1) as nat);
}

proof fn lemma_avt_calls_repeat(s3: ReaderModel, b: u8, buffer_type: BufferType, k: nat)
    requires
        s3.avt_state == AvtReadState::RepeatChars,
        s3.avatar_state == 3,
        1 <= s3.avt_repeat_count,
        k <= s3.avt_repeat_count,
    ensures
        ({
            let (s4, out) = avt_calls(s3, b, buffer_type, k);
            &&& out == Seq::new(k, |i: int| Some(s3.avt_repeat_char))
            &&& s4 == (ReaderModel {
                avt_repeat_count: (s3.avt_repeat_count - k) as i32,
                avt_state: if k == s3.avt_repeat_count { AvtReadState::Chars } else { AvtReadState::RepeatChars },
                ..s3
            })
        }),
    decreases k,
{
    if k > 0 {
        lemma_avt_calls_repeat(s3, b, buffer_type, (k - 1) as nat);
        let prev = avt_calls(s3, b, buffer_type, (k - 1) as nat);
        assert(prev.0.avt_state == AvtReadState::RepeatChars && prev.0.avatar_state == 3);
        assert(prev.0.avt_repeat_count == s3.avt_repeat_count - (k - 1));
        assert(prev.1.push(Some(s3.avt_repeat_char)) =~= Seq::new(k, |i: int| Some(s3.avt_repeat_char)));
    } else {
        assert(Seq::<Option<u8>>::empty() =~= Seq::new(0, |i: int| Some(s3.avt_repeat_char)));
    }
}

/// The Avatar control characters, which cannot stand for themselves.
pub open spec fn avt_ctrl(c: u8) -> bool {
    c == 22 || c == 12 || c == 25
}

/// Where the run of equal cells that starts at column `x` of row `y` ends:
/// a run goes on while the next cell of the row is equal.
pub open spec fn avt_run_end(b: Buffer, y: int, x: int) -> int
    decreases b.width - x,
{
    if x < b.width - 1 && b.spec_get_char(x, y).spec_same(b.spec_get_char(x + 1, y)) {
        avt_run_end(b, y, x + 1)
    } else {
        x
    }
}

pub proof fn lemma_avt_run_end(b: Buffer, y: int, x: int)
    ensures
        x <= avt_run_end(b, y, x),
        x < b.width - 1 ==> avt_run_end(b, y, x) <= b.width - 1,
        x >= b.width - 1 ==> avt_run_end(b, y, x) == x,
    decreases b.width - x,
{
    if x < b.width - 1 && b.spec_get_char(x, y).spec_same(b.spec_get_char(x + 1, y)) {
        lemma_avt_run_end(b, y, x + 1);
    }
}

/// The Avatar bytes of the run of equal cells starting at column `x` of
/// row `y`, from the attribute `last` (none yet when `first`), and the
/// attribute after: a color command where the colors change, runs of two
/// or three equal plain characters written out, longer runs and control
/// characters as a repeat command.
pub open spec fn avt_run_bytes(b: Buffer, y: int, x: int, last: TextAttribute, first: bool) -> (Seq<u8>, TextAttribute) {
    let e = avt_run_end(b, y, x);
    let r = e - x + 1;
    let c = b.spec_get_char(e, y);
    let change = first || !c.attribute.spec_same(last);
    let pre = if change { seq![22u8, 1u8, c.attribute.spec_as_u8()] } else { Seq::empty() };
    let l2 = if change { c.attribute } else { last };
    let body = if r > 1 {
        if r < 4 && !avt_ctrl(c.char_code) {
            Seq::new(r as nat, |i: int| c.char_code)
        } else {
            seq![25u8, c.char_code, (r % 256) as u8]
        }
    } else if avt_ctrl(c.char_code) {
        seq![25u8, c.char_code, 1u8]
    } else {
        seq![printable(c.char_code)]
    };
    (pre + body, l2)
}

pub proof fn lemma_avt_run_bytes_len(b: Buffer, y: int, x: int, last: TextAttribute, first: bool)
    ensures
        avt_run_bytes(b, y, x, last, first).0.len() <= 6,
{
    lemma_avt_run_end(b, y, x);
}

/// The Avatar bytes of row `y` from column `x` to the row length `len`,
/// run by run, and the state after.
pub open spec fn avt_row(b: Buffer, y: int, x: int, len: int, last: TextAttribute, first: bool) -> (Seq<u8>, TextAttribute, bool)
    decreases (if len > b.width { len } else { b.width as int }) + 1 - x,
{
    if x >= len || x < 0 {
        (Seq::empty(), last, first)
    } else {
        let e = avt_run_end(b, y, x);
        let run = avt_run_bytes(b, y, x, last, first);
        proof {
            lemma_avt_run_end(b, y, x);
        }
        let rest = avt_row(b, y, e + 1, len, run.1, false);
        (run.0 + rest.0, rest.1, rest.2)
    }
}

/// The Avatar bytes of rows `0..y` and the state after.
pub open spec fn avt_rows(b: Buffer, y: int) -> (Seq<u8>, TextAttribute, bool)
    decreases y,
{
    if y <= 0 {
        (Seq::empty(), TextAttribute::spec_default(), true)
    } else {
        let prev = avt_rows(b, y - 1);
        let r = avt_row(b, y - 1, 0, row_len(b, y - 1), prev.1, prev.2);
        (prev.0 + r.0 + row_break(b, y - 1), r.1, r.2)
    }
}

pub proof fn lemma_avt_row_len(b: Buffer, y: int, x: int, len: int, last: TextAttribute, first: bool)
    requires
        0 <= x,
    ensures
        avt_row(b, y, x, len, last, first).0.len() <= 6 * (if len > x { len - x } else { 0 }),
    decreases (if len > b.width { len } else { b.width as int }) + 1 - x,
{
    if x < len {
        lemma_avt_run_end(b, y, x);
        lemma_avt_run_bytes_len(b, y, x, last, first);
        let e = avt_run_end(b, y, x);
        lemma_avt_row_len(b, y, e + 1, len, avt_run_bytes(b, y, x, last, first).1, false);
    }
}

pub proof fn lemma_avt_rows_len(b: Buffer, y: int)
    requires
        0 <= y,
    ensures
        avt_rows(b, y).0.len() <= (6 * b.width + 2) * y,
    decreases y,
{
    if y > 0 {
        lemma_avt_rows_len(b, y - 1);
        b.lemma_line_length_bounds(y - 1, b.width as int);
        let prev = avt_rows(b, y - 1);
        lemma_avt_row_len(b, y - 1, 0, row_len(b, y - 1), prev.1, prev.2);
        assert((6 * b.width + 2) * (y - 1) + 6 * b.width + 2 == (6 * b.width + 2) * y) by (nonlinear_arith);
    }
}

fn emit_run(buf: &Buffer, y: i32, x0: i32, last: &mut TextAttribute, first: &mut bool, result: &mut Vec<u8>) -> (e: i32)
    requires
        0 <= x0 < buf.width,
        0 <= y,
        old(result).len() + 10 <= usize::MAX,
    ensures
        e == avt_run_end(*buf, y as int, x0 as int),
        x0 <= e < buf.width,
        final(result)@ == old(result)@ + avt_run_bytes(*buf, y as int, x0 as int, *old(last), *old(first)).0,
        *final(last) == avt_run_bytes(*buf, y as int, x0 as int, *old(last), *old(first)).1,
        !*final(first),
{
    proof {
        lemma_avt_run_end(*buf, y as int, x0 as int);
    }
    let w = buf.width as i32;
    let mut x = x0;
    let mut ch = buf.get_char(Position::from(x, y));
    let mut go = true;
    while go && (x as i64) < (w as i64) - 1
        invariant
            x0 <= x,
            x as int <= avt_run_end(*buf, y as int, x0 as int),
            go ==> avt_run_end(*buf, y as int, x0 as int) == avt_run_end(*buf, y as int, x as int),
            !go ==> avt_run_end(*buf, y as int, x0 as int) == x,
            ch == buf.spec_get_char(x as int, y as int),
            w == buf.width,
            0 <= y,
        decreases w - x, (if go { 1int } else { 0int }),
    {
        let next = buf.get_char(Position::from(x + 1, y));
        if ch.same(&next) {
            proof {
                lemma_avt_run_end(*buf, y as int, x + 1);
            }
            x = x + 1;
            ch = next;
        } else {
            go = false;
        }
    }
    let ghost before = result@;
    let repeat = (x - x0 + 1) as usize;
    if *first || !ch.attribute.same(last) {
        result.push(22);
        result.push(1);
        result.push(ch.attribute.as_u8());
        *last = ch.attribute;
    }
    *first = false;
    let c = ch.char_code;
    let ctrl = c == 22 || c == 12 || c == 25;
    if repeat > 1 {
        if repeat < 4 && !ctrl {
            let mut k: usize = 0;
            let ghost mid = result@;
            while k < repeat
                invariant
                    k <= repeat,
                    repeat < 4,
                    mid.len() + 4 <= usize::MAX,
                    result@ == mid + Seq::new(k as nat, |i: int| c),
                decreases repeat - k,
            {
                result.push(c);
                proof {
                    assert(result@ =~= mid + Seq::new((k + 1) as nat, |i: int| c));
                }
                k = k + 1;
            }
        } else {
            result.push(25);
            result.push(c);
            result.push((repeat % 256) as u8);
        }
    } else if ctrl {
        result.push(25);
        result.push(c);
        result.push(1);
    } else {
        result.push(if c == 0 { 32 } else { c });
    }
    proof {
        assert(result@ =~= before + avt_run_bytes(*buf, y as int, x0 as int, *old(last), *old(first)).0);
    }
    x
}

fn push_avt_row(buf: &Buffer, y: i32, len: i32, last: &mut TextAttribute, first: &mut bool, result: &mut Vec<u8>)
    requires
        0 <= len <= buf.width,
        0 <= y,
        old(result).len() + 6 * len + 100 <= usize::MAX,
    ensures
        ({
            let r = avt_row(*buf, y as int, 0, len as int, *old(last), *old(first));
            &&& final(result)@ == old(result)@ + r.0
            &&& *final(last) == r.1
            &&& *final(first) == r.2
        }),
{
    let ghost start = result@;
    let ghost total = avt_row(*buf, y as int, 0, len as int, *last, *first);
    let w = buf.width as i32;
    let mut x: i32 = 0;
    proof {
        lemma_avt_row_len(*buf, y as int, 0, len as int, *last, *first);
    }
    let ghost mut emitted: Seq<u8> = Seq::empty();
    while x < len
        invariant
            0 <= x <= w,
            len <= w,
            w == buf.width,
            0 <= y,
            start.len() + 6 * len + 100 <= usize::MAX,
            result@ == start + emitted,
            emitted.len() + avt_row(*buf, y as int, x as int, len as int, *last, *first).0.len() <= 6 * len,
            total.0 == emitted + avt_row(*buf, y as int, x as int, len as int, *last, *first).0,
            total.1 == avt_row(*buf, y as int, x as int, len as int, *last, *first).1,
            total.2 == avt_row(*buf, y as int, x as int, len as int, *last, *first).2,
        decreases w - x,
    {
        proof {
            lemma_avt_run_end(*buf, y as int, x as int);
            lemma_avt_run_bytes_len(*buf, y as int, x as int, *last, *first);
            lemma_avt_row_len(*buf, y as int, x as int, len as int, *last, *first);
        }
        let ghost run = avt_run_bytes(*buf, y as int, x as int, *last, *first);
        let e = emit_run(buf, y, x, last, first, result);
        proof {
            emitted = emitted + run.0;
            assert(result@ =~= start + emitted);
        }
        x = e + 1;
    }
}

/// The picture as an Avatar file: the rows as the text writer lays them
/// out, in Avatar color and repeat commands, and a SAUCE record of kind
/// Avatar when the buffer asks for one.
pub fn convert_to_avt(buf: &Buffer) -> (res: Result<Vec<u8>, SauceError>)
    requires
        (6 * buf.width + 2) * buf.height + 1 + sauce_head(*buf, 0).len() + sauce_tail(*buf, SauceFileType::Avatar).len()
            + 100 <= usize::MAX,
    ensures
        ({
            let text = avt_rows(*buf, buf.height as int).0;
            if !buf.write_sauce {
                res is Ok && res->Ok_0@ == text
            } else if buf.comments@.len() > 255 {
                res == Err::<Vec<u8>, SauceError>(SauceError::TooManyComments)
            } else {
                res is Ok && res->Ok_0@ == text.push(26) + sauce_head(*buf, (text.len() + 1) as u32) + sauce_tail(
                    *buf,
                    SauceFileType::Avatar,
                )
            }
        }),
{
    let mut result: Vec<u8> = Vec::new();
    let h = buf.height as i32;
    let w = buf.width as i32;
    let mut last = TextAttribute::default_attribute();
    let mut first = true;
    let mut y: i32 = 0;
    proof {
        lemma_avt_rows_len(*buf, buf.height as int);
    }
    while y < h
        invariant
            0 <= y <= h,
            h == buf.height,
            w == buf.width,
            result@ == avt_rows(*buf, y as int).0,
            last == avt_rows(*buf, y as int).1,
            first == avt_rows(*buf, y as int).2,
            (6 * buf.width + 2) * buf.height + 100 <= usize::MAX,
        decreases h - y,
    {
        let len = buf.get_line_length(y);
        proof {
            lemma_avt_rows_len(*buf, y as int);
            assert((6 * buf.width + 2) * (y + 1) <= (6 * buf.width + 2) * buf.height) by (nonlinear_arith)
                requires
                    y + 1 <= buf.height,
            ;
            assert((6 * buf.width + 2) * (y + 1) == (6 * buf.width + 2) * y + 6 * buf.width + 2) by (nonlinear_arith);
        }
        push_avt_row(buf, y, len, &mut last, &mut first, &mut result);
        if len < w && y + 1 < h {
            result.push(13);
            result.push(10);
        }
        proof {
            assert(result@ =~= avt_rows(*buf, y + 1).0);
        }
        y = y + 1;
    }
    if buf.write_sauce {
        match buf.write_sauce_info(&SauceFileType::Avatar, &mut result) {
            Ok(_) => {},
            Err(e) => {
                return Err(e);
            },
        }
    }
    Ok(result)
}

} // verus!
