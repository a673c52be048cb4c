use vstd::prelude::*;

use crate::ascii::{printable, row_len};
use crate::buffer::Buffer;
use crate::parse_states::{sat_add, sat_i32, sat_sub, ParseStates, ReaderModel};
use crate::position::Position;
use crate::sauce::{sauce_head, sauce_tail, SauceError, SauceFileType};
use crate::save_options::SaveOptions;
use crate::text_attribute::{spec_attr, TextAttribute};

verus! {

/// The DOS color index of ANSI color `i` (ANSI orders red before blue).
pub open spec fn color_offset(i: int) -> u8 {
    seq![0u8, 4u8, 2u8, 6u8, 1u8, 5u8, 3u8, 7u8][i]
}

fn color_offset_exec(i: usize) -> (r: u8)
    requires
        i < 8,
    ensures
        r == color_offset(i as int),
        r < 8,
{
    let t: [u8; 8] = [0, 4, 2, 6, 1, 5, 3, 7];
    t[i]
}

/// The attribute with the bold bit of the foreground set.
pub open spec fn with_bold(a: TextAttribute) -> TextAttribute {
    if a.foreground_color < 16 {
        spec_attr(a.foreground_color | 8u8, a.background_color, a.blink)
    } else {
        a
    }
}

/// The attribute with the low three foreground bits replaced by `c`.
pub open spec fn with_fg_low(a: TextAttribute, c: u8) -> TextAttribute {
    if a.foreground_color < 16 {
        spec_attr((8u8 & a.foreground_color) | c, a.background_color, a.blink)
    } else {
        a
    }
}

/// One parameter of a Select Graphic Rendition sequence applied to `a`.
pub open spec fn sgr_one(a: TextAttribute, n: i32) -> TextAttribute {
    if n == 0 {
        TextAttribute::spec_default()
    } else if n == 1 {
        with_bold(a)
    } else if n == 5 {
        spec_attr(a.foreground_color, a.background_color, true)
    } else if 30 <= n <= 37 {
        with_fg_low(a, color_offset(n - 30))
    } else if 40 <= n <= 47 {
        spec_attr(a.foreground_color, color_offset(n - 40), a.blink)
    } else {
        a
    }
}

/// The parameters of a Select Graphic Rendition sequence applied in order.
pub open spec fn sgr_apply(a: TextAttribute, ns: Seq<i32>) -> TextAttribute
    decreases ns.len(),
{
    if ns.len() == 0 {
        a
    } else {
        sgr_one(sgr_apply(a, ns.drop_last()), ns.last())
    }
}

/// The first parameter, or `dflt` when the sequence has none.
pub open spec fn first_or(ns: Seq<i32>, dflt: i32) -> i32 {
    if ns.len() == 0 {
        dflt
    } else {
        ns[0]
    }
}

pub open spec fn max0(v: int) -> int {
    if v < 0 {
        0
    } else {
        v
    }
}

/// The cursor after the final byte `ch` of a control sequence with
/// parameters `ns`, from cursor `p` with saved cursor `saved`.
pub open spec fn csi_cursor(p: Position, saved: Position, ns: Seq<i32>, ch: u8, width: i32) -> Position {
    if ch == 72 || ch == 102 {
        // H, f: cursor position (1-based row;column)
        if ns.len() == 0 {
            p
        } else {
            let y = if ns[0] > 0 { (ns[0] - 1) as i32 } else { p.y };
            let x = if ns.len() > 1 {
                if ns[1] > 0 { (ns[1] - 1) as i32 } else { p.x }
            } else {
                0i32
            };
            Position { x, y }
        }
    } else if ch == 67 {
        // C: forward, stopping at the last column
        let x = sat_i32(p.x + first_or(ns, 1));
        Position { x: if width - 1 < x { (width - 1) as i32 } else { x }, y: p.y }
    } else if ch == 68 {
        // D: back, stopping at column 0
        Position { x: max0(sat_i32(p.x - first_or(ns, 1)) as int) as i32, y: p.y }
    } else if ch == 65 {
        // A: up, stopping at row 0
        Position { x: p.x, y: max0(sat_i32(p.y - first_or(ns, 1)) as int) as i32 }
    } else if ch == 66 {
        // B: down
        Position { x: p.x, y: sat_i32(p.y + first_or(ns, 1)) }
    } else if ch == 117 {
        // u: restore
        saved
    } else if ch == 74 {
        // J: erase in display homes the cursor for no parameter, 2 and 3
        if ns.len() == 0 || ns[0] == 2 || ns[0] == 3 {
            Position { x: 0, y: 0 }
        } else {
            p
        }
    } else {
        p
    }
}

/// Whether `ch` ends a control sequence that the reader carries out.
pub open spec fn is_csi_final(ch: u8) -> bool {
    ch == 109 || ch == 72 || ch == 102 || ch == 67 || ch == 68 || ch == 65 || ch == 66 || ch == 115
        || ch == 117 || ch == 74
}

/// The parameter list after a digit byte `ch` inside a control sequence.
pub open spec fn push_digit(ns: Seq<i32>, ch: u8) -> Seq<i32> {
    let ns1 = if ns.len() == 0 { seq![0i32] } else { ns };
    ns1.update(ns1.len() - 1, sat_i32(ns1.last() * 10 + (ch - 48)))
}

/// One step of the ANSI reader: the state after byte `ch` and the byte to
/// print, if any.
pub open spec fn ans_next(s: ReaderModel, ch: u8) -> (ReaderModel, Option<u8>) {
    if s.ans_esc {
        // after ESC only CSI is understood
        if ch == 91 {
            (ReaderModel { ans_esc: false, ans_code: true, ans_numbers: Seq::empty(), ..s }, None)
        } else {
            (ReaderModel { ans_esc: false, ..s }, None)
        }
    } else if s.ans_code {
        if is_csi_final(ch) {
            (
                ReaderModel {
                    ans_code: false,
                    text_attr: if ch == 109 { sgr_apply(s.text_attr, s.ans_numbers) } else { s.text_attr },
                    saved_pos: if ch == 115 { s.cur_pos } else { s.saved_pos },
                    cur_pos: csi_cursor(s.cur_pos, s.saved_pos, s.ans_numbers, ch, s.screen_width),
                    ..s
                },
                None,
            )
        } else if 0x40 <= ch <= 0x7E {
            // an unknown final byte ends the sequence
            (ReaderModel { ans_code: false, ans_esc: false, ..s }, None)
        } else if 48 <= ch <= 57 {
            (ReaderModel { ans_numbers: push_digit(s.ans_numbers, ch), ..s }, None)
        } else if ch == 59 {
            (ReaderModel { ans_numbers: s.ans_numbers.push(0), ..s }, None)
        } else {
            // any other byte breaks the sequence
            (ReaderModel { ans_code: false, ans_esc: false, ..s }, None)
        }
    } else if ch == 27 {
        (ReaderModel { ans_esc: true, ans_code: false, ..s }, None)
    } else {
        (s, Some(ch))
    }
}

fn apply_sgr(attr: &mut TextAttribute, ns: &Vec<i32>)
    ensures
        *final(attr) == sgr_apply(*old(attr), ns@),
{
    let mut i: usize = 0;
    while i < ns.len()
        invariant
            i <= ns.len(),
            *attr == sgr_apply(*old(attr), ns@.subrange(0, i as int)),
        decreases ns.len() - i,
    {
        let n = ns[i];
        proof {
            assert(ns@.subrange(0, i + 1).drop_last() =~= ns@.subrange(0, i as int));
        }
        if n == 0 {
            *attr = TextAttribute::default_attribute();
        } else if n == 1 {
            attr.set_foreground_bold(true);
        } else if n == 5 {
            attr.set_blink(true);
        } else if 30 <= n && n <= 37 {
            let c = color_offset_exec((n - 30) as usize);
            attr.set_foreground_without_bold(c);
        } else if 40 <= n && n <= 47 {
            let c = color_offset_exec((n - 40) as usize);
            attr.set_background(c);
        }
        i = i + 1;
    }
    assert(ns@.subrange(0, ns.len() as int) =~= ns@);
}

/// Feeds one byte to the ANSI reader. Escape sequences move the cursor,
/// change the attribute or are skipped and give `None`; any other byte is
/// handed back to be printed.
pub fn display_ans(data: &mut ParseStates, ch: u8) -> (r: Option<u8>)
    ensures
        (final(data)@, r) == ans_next(old(data)@, ch),
{
    if data.ans_esc {
        if ch == 91 {
            data.ans_esc = false;
            data.ans_code = true;
            data.ans_numbers.clear();
            return None;
        }
        data.ans_esc = false;
        return None;
    }
    if data.ans_code {
        if ch == 109 {
            // m: select graphic rendition
            apply_sgr(&mut data.text_attr, &data.ans_numbers);
            data.ans_code = false;
            return None;
        }
        if ch == 72 || ch == 102 {
            // H, f: cursor position
            if data.ans_numbers.len() > 0 {
                if data.ans_numbers[0] > 0 {
                    data.cur_pos.y = data.ans_numbers[0] - 1;
                }
                if data.ans_numbers.len() > 1 {
                    if data.ans_numbers[1] > 0 {
                        data.cur_pos.x = data.ans_numbers[1] - 1;
                    }
                } else {
                    data.cur_pos.x = 0;
                }
            }
            data.ans_code = false;
            return None;
        }
        if ch == 67 {
            // C: cursor forward
            let n = if data.ans_numbers.len() == 0 { 1 } else { data.ans_numbers[0] };
            let x = sat_add(data.cur_pos.x, n);
            let w: i64 = data.screen_width as i64 - 1;
            data.cur_pos.x = if w < x as i64 { w as i32 } else { x };
            data.ans_code = false;
            return None;
        }
        if ch == 68 {
            // D: cursor back
            let n = if data.ans_numbers.len() == 0 { 1 } else { data.ans_numbers[0] };
            let x = sat_sub(data.cur_pos.x, n);
            data.cur_pos.x = if x < 0 { 0 } else { x };
            data.ans_code = false;
            return None;
        }
        if ch == 65 {
            // A: cursor up
            let n = if data.ans_numbers.len() == 0 { 1 } else { data.ans_numbers[0] };
            let y = sat_sub(data.cur_pos.y, n);
            data.cur_pos.y = if y < 0 { 0 } else { y };
            data.ans_code = false;
            return None;
        }
        if ch == 66 {
            // B: cursor down
            let n = if data.ans_numbers.len() == 0 { 1 } else { data.ans_numbers[0] };
            data.cur_pos.y = sat_add(data.cur_pos.y, n);
            data.ans_code = false;
            return None;
        }
        if ch == 115 {
            // s: save cursor
            data.saved_pos = data.cur_pos;
            data.ans_code = false;
            return None;
        }
        if ch == 117 {
            // u: restore cursor
            data.cur_pos = data.saved_pos;
            data.ans_code = false;
            return None;
        }
        if ch == 74 {
            // J: erase in display
            data.ans_code = false;
            if data.ans_numbers.len() == 0 || data.ans_numbers[0] == 2 || data.ans_numbers[0] == 3 {
                data.cur_pos = Position::new();
            }
            return None;
        }
        if 0x40 <= ch && ch <= 0x7E {
            data.ans_code = false;
            data.ans_esc = false;
            return None;
        }
        if 48 <= ch && ch <= 57 {
            let ghost ns0 = data.ans_numbers@;
            if data.ans_numbers.len() == 0 {
                data.ans_numbers.push(0);
                assert(data.ans_numbers@ =~= seq![0i32]);
            }
            let last = data.ans_numbers.len() - 1;
            let d = data.ans_numbers[last];
            let v: i64 = d as i64 * 10 + (ch - 48) as i64;
            let nv: i32 = if v > i32::MAX as i64 { i32::MAX } else if v < i32::MIN as i64 { i32::MIN } else { v as i32 };
            data.ans_numbers.set(last, nv);
            assert(data.ans_numbers@ =~= push_digit(ns0, ch));
        } else if ch == 59 {
            data.ans_numbers.push(0);
            return None;
        } else {
            data.ans_code = false;
            data.ans_esc = false;
        }
        return None;
    }
    if ch == 27 {
        data.ans_code = false;
        data.ans_esc = true;
        None
    } else {
        Some(ch)
    }
}

/// The reader state after the bytes `bs`, fed one after another.
pub open spec fn ans_feed(s: ReaderModel, bs: Seq<u8>) -> ReaderModel
    decreases bs.len(),
{
    if bs.len() == 0 {
        s
    } else {
        ans_next(ans_feed(s, bs.drop_last()), bs.last()).0
    }
}

proof fn lemma_ans_feed_concat(s: ReaderModel, a: Seq<u8>, b: Seq<u8>)
    ensures
        ans_feed(s, a + b) == ans_feed(ans_feed(s, a), b),
    decreases b.len(),
{
    if b.len() == 0 {
        assert(a + b =~= a);
    } else {
        lemma_ans_feed_concat(s, a, b.drop_last());
        assert((a + b).drop_last() =~= a + b.drop_last());
        assert((a + b).last() == b.last());
    }
}

proof fn lemma_ans_feed_one(s: ReaderModel, c: u8)
    ensures
        ans_feed(s, seq![c]) == ans_next(s, c).0,
{
    assert(seq![c].drop_last() =~= Seq::<u8>::empty());
    assert(ans_feed(s, Seq::<u8>::empty()) == s);
    assert(seq![c].last() == c);
}

/// Inside a control sequence, the decimal digits of `n` make `n` the last
/// parameter (the first one where there was none).
proof fn lemma_ans_feed_decimal(s: ReaderModel, n: nat)
    requires
        s.ans_code,
        !s.ans_esc,
        n <= i32::MAX,
        s.ans_numbers.len() == 0 || s.ans_numbers.last() == 0,
    ensures
        ans_feed(s, decimal(n)) == (ReaderModel {
            ans_numbers: if s.ans_numbers.len() == 0 {
                seq![n as i32]
            } else {
                s.ans_numbers.update(s.ans_numbers.len() - 1, n as i32)
            },
            ..s
        }),
    decreases n,
{
    if n < 10 {
        lemma_ans_feed_one(s, (48 + n) as u8);
        assert(push_digit(s.ans_numbers, (48 + n) as u8) =~= (if s.ans_numbers.len() == 0 {
            seq![n as i32]
        } else {
            s.ans_numbers.update(s.ans_numbers.len() - 1, n as i32)
        }));
    } else {
        lemma_ans_feed_decimal(s, n / 10);
        let d = (48 + n % 10) as u8;
        let mid = ans_feed(s, decimal(n / 10));
        assert(decimal(n).drop_last() =~= decimal(n / 10));
        assert(decimal(n).last() == d);
        assert(mid.ans_numbers.last() == (n / 10) as i32);
        assert((n / 10) * 10 + n % 10 == n);
        assert(push_digit(mid.ans_numbers, d) =~= (if s.ans_numbers.len() == 0 {
            seq![n as i32]
        } else {
            s.ans_numbers.update(s.ans_numbers.len() - 1, n as i32)
        }));
    }
}

/// A cursor position sequence `ESC [ r ; c H` (or `f`) with `r, c >= 1`
/// ends the sequence with the cursor on row `r - 1` and column `c - 1`:
/// the first parameter is the row, the second the column. The byte read
/// next is handed back to be printed there.
pub proof fn lemma_ans_cursor_position(s: ReaderModel, r: nat, c: nat, fin: u8, next: u8)
    requires
        !s.ans_esc,
        !s.ans_code,
        1 <= r <= i32::MAX,
        1 <= c <= i32::MAX,
        fin == 72 || fin == 102,
        next != 27,
    ensures
        ({
            let t = ans_feed(s, seq![27u8, 91u8] + decimal(r) + seq![59u8] + decimal(c) + seq![fin]);
            &&& t.cur_pos == (Position { x: (c - 1) as i32, y: (r - 1) as i32 })
            &&& !t.ans_code
            &&& !t.ans_esc
            &&& ans_next(t, next) == (t, Some(next))
        }),
{
    let a = seq![27u8, 91u8];
    let d1 = decimal(r);
    let sc = seq![59u8];
    let d2 = decimal(c);
    let f = seq![fin];
    lemma_ans_feed_concat(s, a + d1 + sc + d2, f);
    lemma_ans_feed_concat(s, a + d1 + sc, d2);
    lemma_ans_feed_concat(s, a + d1, sc);
    lemma_ans_feed_concat(s, a, d1);
    assert(a.drop_last() =~= seq![27u8]);
    lemma_ans_feed_one(s, 27u8);
    let s0 = ans_feed(s, a);
    assert(s0 == ans_next(ans_next(s, 27u8).0, 91u8).0);
    assert(s0.ans_code && !s0.ans_esc && s0.ans_numbers.len() == 0);
    lemma_ans_feed_decimal(s0, r);
    let s1 = ans_feed(s0, d1);
    assert(s1.ans_numbers =~= seq![r as i32]);
    lemma_ans_feed_one(s1, 59u8);
    let s2 = ans_feed(s1, sc);
    assert(s2.ans_numbers =~= seq![r as i32, 0i32]);
    lemma_ans_feed_decimal(s2, c);
    let s3 = ans_feed(s2, d2);
    assert(s3.ans_numbers =~= seq![r as i32, c as i32]);
    lemma_ans_feed_one(s3, fin);
}

/// The cursor moves `ESC [ n C` (right), `D` (left), `A` (up) and `B`
/// (down) move the cursor by `n` cells: right stops at the last column of
/// the screen, left at column 0, up at row 0; the other coordinate stays.
pub proof fn lemma_ans_cursor_moves(s: ReaderModel, n: nat, fin: u8)
    requires
        !s.ans_esc,
        !s.ans_code,
        1 <= n <= 0x1000_0000,
        0 <= s.cur_pos.x <= 0x1000_0000,
        0 <= s.cur_pos.y <= 0x1000_0000,
        fin == 67 || fin == 68 || fin == 65 || fin == 66,
    ensures
        ({
            let t = ans_feed(s, seq![27u8, 91u8] + decimal(n) + seq![fin]);
            let p = s.cur_pos;
            &&& !t.ans_code && !t.ans_esc
            &&& fin == 67 ==> t.cur_pos == (Position {
                x: if p.x + n > s.screen_width - 1 { (s.screen_width - 1) as i32 } else { (p.x + n) as i32 },
                y: p.y,
            })
            &&& fin == 68 ==> t.cur_pos == (Position { x: if p.x < n { 0i32 } else { (p.x - n) as i32 }, y: p.y })
            &&& fin == 65 ==> t.cur_pos == (Position { x: p.x, y: if p.y < n { 0i32 } else { (p.y - n) as i32 } })
            &&& fin == 66 ==> t.cur_pos == (Position { x: p.x, y: (p.y + n) as i32 })
            &&& t.text_attr == s.text_attr
        }),
{
    let a = seq![27u8, 91u8];
    let d = decimal(n);
    let f = seq![fin];
    lemma_ans_feed_concat(s, a + d, f);
    lemma_ans_feed_concat(s, a, d);
    assert(a.drop_last() =~= seq![27u8]);
    lemma_ans_feed_one(s, 27u8);
    let s0 = ans_feed(s, a);
    assert(s0 == ans_next(ans_next(s, 27u8).0, 91u8).0);
    lemma_ans_feed_decimal(s0, n);
    let s1 = ans_feed(s0, d);
    assert(s1.ans_numbers =~= seq![n as i32]);
    lemma_ans_feed_one(s1, fin);
}

/// `ESC [ n m` for `n` from 30 to 37 sets the low three foreground bits to
/// the DOS color of ANSI color `n - 30` (ANSI orders black, red, green,
/// yellow, blue, magenta, cyan, white; DOS swaps red and blue), 40 to 47
/// sets the background so, and 0 resets to light gray on black.
pub proof fn lemma_ans_sgr_color(s: ReaderModel, n: nat)
    requires
        !s.ans_esc,
        !s.ans_code,
        s.text_attr.foreground_color < 16,
        n == 0 || 30 <= n <= 37 || 40 <= n <= 47,
    ensures
        ({
            let t = ans_feed(s, seq![27u8, 91u8] + decimal(n) + seq![109u8]);
            let a = s.text_attr;
            let dos = seq![0u8, 4u8, 2u8, 6u8, 1u8, 5u8, 3u8, 7u8];
            &&& n == 0 ==> t.text_attr == TextAttribute { foreground_color: 7, background_color: 0, blink: false }
            &&& 30 <= n <= 37 ==> t.text_attr.foreground_color == (a.foreground_color / 8) * 8 + dos[n - 30]
                && t.text_attr.background_color == a.background_color && t.text_attr.blink == a.blink
            &&& 40 <= n <= 47 ==> t.text_attr.background_color == dos[n - 40] && t.text_attr.foreground_color
                == a.foreground_color && t.text_attr.blink == a.blink
            &&& t.cur_pos == s.cur_pos
        }),
{
    let a = seq![27u8, 91u8];
    let d = decimal(n);
    let f = seq![109u8];
    lemma_ans_feed_concat(s, a + d, f);
    lemma_ans_feed_concat(s, a, d);
    assert(a.drop_last() =~= seq![27u8]);
    lemma_ans_feed_one(s, 27u8);
    let s0 = ans_feed(s, a);
    assert(s0 == ans_next(ans_next(s, 27u8).0, 91u8).0);
    lemma_ans_feed_decimal(s0, n);
    let s1 = ans_feed(s0, d);
    assert(s1.ans_numbers =~= seq![n as i32]);
    lemma_ans_feed_one(s1, 109u8);
    assert(s1.ans_numbers.drop_last() =~= Seq::<i32>::empty());
    assert(sgr_apply(s1.text_attr, Seq::<i32>::empty()) == s1.text_attr);
    assert(sgr_apply(s1.text_attr, s1.ans_numbers) == sgr_one(s.text_attr, n as i32));
    let t = ans_feed(s, a + d + f);
    assert(t.text_attr == sgr_one(s.text_attr, n as i32));
    let fg = s.text_attr.foreground_color;
    if 30 <= n <= 37 {
        let c = color_offset(n - 30);
        assert(c < 8);
        assert(fg < 16 && c < 8 ==> (8u8 & fg) | c == (fg / 8) * 8 + c) by (bit_vector);
    }
}

/// The decimal digits of `n`.
pub open spec fn decimal(n: nat) -> Seq<u8>
    decreases n,
{
    if n < 10 {
        seq![(48 + n) as u8]
    } else {
        decimal(n / 10).push((48 + n % 10) as u8)
    }
}

pub proof fn lemma_decimal_len(n: nat)
    ensures
        1 <= decimal(n).len(),
        n < 10 ==> decimal(n).len() == 1,
        n < 100 ==> decimal(n).len() <= 2,
        n < 1000 ==> decimal(n).len() <= 3,
        n < 10000 ==> decimal(n).len() <= 4,
        n < 100000 ==> decimal(n).len() <= 5,
    decreases n,
{
    if n >= 10 {
        lemma_decimal_len(n / 10);
    }
}

/// Appends the decimal digits of `n`.
fn push_int(result: &mut Vec<u8>, n: usize)
    requires
        old(result).len() + 20 <= usize::MAX,
        n < 0x1_0000,
    ensures
        final(result)@ == old(result)@ + decimal(n as nat),
    decreases n,
{
    proof {
        lemma_decimal_len(n as nat);
    }
    if n >= 10 {
        push_int(result, n / 10);
    }
    let ghost mid = result@;
    result.push((48 + n % 10) as u8);
    proof {
        if n >= 10 {
            assert(result@ =~= old(result)@ + decimal(n as nat));
        } else {
            assert(result@ =~= old(result)@ + decimal(n as nat));
        }
    }
}

/// The two digit code of an ANSI foreground color for DOS color `c`.
pub open spec fn fg_code(c: u8) -> Seq<u8> {
    seq![51u8, (48 + color_offset(c as int)) as u8]
}

/// The two digit code of an ANSI background color for DOS color `c`.
pub open spec fn bg_code(c: u8) -> Seq<u8> {
    seq![52u8, (48 + color_offset(c as int)) as u8]
}

pub open spec fn sep(w: bool) -> Seq<u8> {
    if w {
        seq![59u8]
    } else {
        Seq::empty()
    }
}

/// The Select Graphic Rendition sequence that changes the colors from
/// `last` to `cur` (`first` when none was written yet): bold and blink
/// first, where turning one off resets all with `0`, then the colors
/// that still differ.
#[verifier::opaque]
pub open spec fn sgr_bytes(last: TextAttribute, cur: TextAttribute, first: bool) -> Seq<u8> {
    let bold_on = (!last.spec_is_bold() || first) && cur.spec_is_bold();
    let bold_off = !bold_on && (last.spec_is_bold() || first) && !cur.spec_is_bold();
    let p1 = if bold_on && ((!last.blink && !first) || cur.blink) {
        seq![49u8]
    } else if bold_off {
        seq![48u8]
    } else {
        Seq::<u8>::empty()
    };
    let w1 = p1.len() > 0;
    let last1 = if bold_off { TextAttribute::spec_default() } else { last };
    let first1 = if bold_off { false } else { first };
    let blink_on = (!last1.blink || first1) && cur.blink;
    let blink_off = !blink_on && (last1.blink || first1) && !cur.blink;
    let p2 = if blink_on {
        sep(w1) + seq![53u8]
    } else if blink_off {
        sep(w1) + seq![48u8] + (if cur.spec_is_bold() || first1 { seq![59u8, 49u8] } else { Seq::<u8>::empty() })
    } else {
        Seq::<u8>::empty()
    };
    let w2 = w1 || blink_on || blink_off;
    let last2 = if blink_off { TextAttribute::spec_default() } else { last1 };
    let fg_change = last2.foreground_color & 7 != cur.foreground_color & 7;
    let p3 = if fg_change { sep(w2) + fg_code(cur.foreground_color & 7) } else { Seq::<u8>::empty() };
    let w3 = w2 || fg_change;
    let p4 = if last2.background_color != cur.background_color {
        sep(w3) + bg_code(cur.background_color)
    } else {
        Seq::<u8>::empty()
    };
    seq![27u8, 91u8] + p1 + p2 + p3 + p4 + seq![109u8]
}

pub open spec fn is_blank(c: u8) -> bool {
    c == 32 || c == 0
}

/// The end of the blanks of row `y` from column `x`, at most `len`.
pub open spec fn blank_end(b: Buffer, y: int, x: int, len: int) -> int
    decreases len - x,
{
    if x < len && is_blank(b.spec_get_char(x, y).char_code) {
        blank_end(b, y, x + 1, len)
    } else {
        x
    }
}

pub proof fn lemma_blank_end(b: Buffer, y: int, x: int, len: int)
    ensures
        x <= blank_end(b, y, x, len),
        x <= len ==> blank_end(b, y, x, len) <= len,
        x < len && is_blank(b.spec_get_char(x, y).char_code) ==> x < blank_end(b, y, x, len),
    decreases len - x,
{
    if x < len && is_blank(b.spec_get_char(x, y).char_code) {
        lemma_blank_end(b, y, x + 1, len);
    }
}

/// One step of the ANSI writer at column `x` of row `y`: a run of blanks
/// on the current background (written as spaces, or as a cursor forward
/// from five on), or one character, each after the color change it needs
/// (a change of colors or of blinking).
/// Gives the bytes, the next column, the last attribute and whether none
/// was written yet.
#[verifier::opaque]
pub open spec fn ans_step(b: Buffer, y: int, x: int, len: int, last: TextAttribute, first: bool) -> (Seq<u8>, int, TextAttribute, bool) {
    let cur0 = b.spec_get_char(x, y).attribute;
    let sc = if last.background_color == cur0.background_color { blank_end(b, y, x, len) - x } else { 0 };
    let x1 = x + sc;
    let ch = b.spec_get_char(x1, y);
    let cur = if sc > 0 && cur0.background_color == ch.attribute.background_color { ch.attribute } else { cur0 };
    let change = !(last.spec_same(cur) && last.blink == cur.blink) || first;
    let code = if change { sgr_bytes(last, cur, first) } else { Seq::<u8>::empty() };
    let last2 = if change { cur } else { last };
    if sc > 0 {
        let body = if sc < 5 {
            Seq::new(sc as nat, |i: int| 32u8)
        } else {
            seq![27u8, 91u8] + decimal(sc as nat) + seq![67u8]
        };
        (code + body, x1, last2, false)
    } else {
        (code + seq![printable(ch.char_code)], x1 + 1, last2, false)
    }
}

pub proof fn lemma_sgr_len(last: TextAttribute, cur: TextAttribute, first: bool)
    ensures
        sgr_bytes(last, cur, first).len() <= 20,
{
    reveal(sgr_bytes);
}

pub proof fn lemma_ans_step(b: Buffer, y: int, x: int, len: int, last: TextAttribute, first: bool)
    requires
        0 <= x < len <= 0xffff,
    ensures
        x < ans_step(b, y, x, len, last, first).1 <= len,
        ans_step(b, y, x, len, last, first).0.len() <= 40,
{
    reveal(ans_step);
    lemma_blank_end(b, y, x, len);
    let cur0 = b.spec_get_char(x, y).attribute;
    let x1 = x + (if last.background_color == cur0.background_color { blank_end(b, y, x, len) - x } else { 0 });
    let ch = b.spec_get_char(x1, y);
    let cur = if x1 > x && cur0.background_color == ch.attribute.background_color { ch.attribute } else { cur0 };
    lemma_sgr_len(last, cur, first);
    let cur0 = b.spec_get_char(x, y).attribute;
    let sc = if last.background_color == cur0.background_color { blank_end(b, y, x, len) - x } else { 0 };
    lemma_decimal_len(sc as nat);
}

/// The ANSI bytes of row `y` from column `x` up to `len`, step by step,
/// and the state after.
pub open spec fn ans_row(b: Buffer, y: int, x: int, len: int, last: TextAttribute, first: bool) -> (Seq<u8>, TextAttribute, bool)
    decreases len - x,
{
    if x >= len || x < 0 || len > 0xffff {
        (Seq::empty(), last, first)
    } else {
        let st = ans_step(b, y, x, len, last, first);
        proof {
            lemma_ans_step(b, y, x, len, last, first);
        }
        let rest = ans_row(b, y, st.1, len, st.2, st.3);
        (st.0 + rest.0, rest.1, rest.2)
    }
}

/// The ANSI bytes of rows `0..y` and the state after: the last attribute,
/// whether none was written yet, and whether the last row ended without a
/// line break. An empty row after such a row starts with a line break.
pub open spec fn ans_rows(b: Buffer, y: int) -> (Seq<u8>, TextAttribute, bool, bool)
    decreases y,
{
    if y <= 0 {
        (Seq::empty(), TextAttribute::spec_default(), true, false)
    } else {
        let prev = ans_rows(b, y - 1);
        let len = row_len(b, y - 1);
        let pre = if len == 0 && prev.3 { seq![13u8, 10u8] } else { Seq::<u8>::empty() };
        let r = ans_row(b, y - 1, 0, len, prev.1, prev.2);
        let skipped = y >= b.height || len >= b.width;
        let eol = if !skipped { seq![13u8, 10u8] } else { Seq::<u8>::empty() };
        (prev.0 + pre + r.0 + eol, r.1, r.2, skipped)
    }
}

/// The bytes of the first rows start the bytes of more rows.
proof fn lemma_ans_rows_prefix(b: Buffer, k: int, m: int)
    requires
        0 <= k <= m,
    ensures
        ans_rows(b, k).0.len() <= ans_rows(b, m).0.len(),
        ans_rows(b, m).0.subrange(0, ans_rows(b, k).0.len() as int) == ans_rows(b, k).0,
    decreases m - k,
{
    if k < m {
        lemma_ans_rows_prefix(b, k, m - 1);
        let p = ans_rows(b, m - 1).0;
        let q = ans_rows(b, m).0;
        assert(q.subrange(0, p.len() as int) =~= p);
        assert(q.subrange(0, ans_rows(b, k).0.len() as int) =~= p.subrange(0, ans_rows(b, k).0.len() as int));
    } else {
        assert(ans_rows(b, m).0.subrange(0, ans_rows(b, m).0.len() as int) =~= ans_rows(b, m).0);
    }
}

/// In what the ANSI writer gives for a picture, every row that ends before
/// the last column and is not the last row is followed by a line break
/// (CR LF): the bytes of the rows up to it end in 13, 10, and the bytes of
/// the whole picture go on from them.
pub proof fn lemma_ans_short_row_breaks(b: Buffer, y: int)
    requires
        0 <= y,
        y + 1 < b.height,
        row_len(b, y) < b.width,
    ensures
        ({
            let upto = ans_rows(b, y + 1).0;
            let all = ans_rows(b, b.height as int).0;
            &&& upto.len() >= 2
            &&& upto.len() <= all.len()
            &&& all[upto.len() - 2] == 13u8
            &&& all[upto.len() - 1] == 10u8
        }),
{
    lemma_ans_rows_prefix(b, y + 1, b.height as int);
    let upto = ans_rows(b, y + 1).0;
    let all = ans_rows(b, b.height as int).0;
    assert(all.subrange(0, upto.len() as int)[upto.len() - 2] == all[upto.len() - 2]);
    assert(all.subrange(0, upto.len() as int)[upto.len() - 1] == all[upto.len() - 1]);
}

pub proof fn lemma_ans_row_len(b: Buffer, y: int, x: int, len: int, last: TextAttribute, first: bool)
    requires
        0 <= x,
    ensures
        ans_row(b, y, x, len, last, first).0.len() <= 40 * (if len > x { len - x } else { 0 }),
    decreases len - x,
{
    if x < len && len <= 0xffff {
        lemma_ans_step(b, y, x, len, last, first);
        let st = ans_step(b, y, x, len, last, first);
        lemma_ans_row_len(b, y, st.1, len, st.2, st.3);
    }
}

pub proof fn lemma_ans_rows_len(b: Buffer, y: int)
    requires
        0 <= y,
    ensures
        ans_rows(b, y).0.len() <= (40 * b.width + 4) * y,
    decreases y,
{
    if y > 0 {
        lemma_ans_rows_len(b, y - 1);
        b.lemma_line_length_bounds(y - 1, b.width as int);
        let prev = ans_rows(b, y - 1);
        lemma_ans_row_len(b, y - 1, 0, row_len(b, y - 1), prev.1, prev.2);
        assert((40 * b.width + 4) * (y - 1) + 40 * b.width + 4 == (40 * b.width + 4) * y) by (nonlinear_arith);
    }
}

/// Every cell of the picture has a background color below 8, the ones
/// an ANSI color code names.
pub open spec fn ans_colors_ok(b: Buffer) -> bool {
    forall|x: int, y: int| 0 <= x <= b.width && 0 <= y < b.height ==> (#[trigger] b.spec_get_char(x, y)).attribute.background_color < 8
}

/// Whether every background color of the picture, up to one column past
/// its width, has an ANSI code.
pub fn ans_colors_fit(buf: &Buffer) -> (r: bool)
    ensures
        r == ans_colors_ok(*buf),
{
    let w = buf.width as i32;
    let h = buf.height as i32;
    let mut y: i32 = 0;
    while y < h
        invariant
            w == buf.width,
            h == buf.height,
            0 <= y <= h,
            forall|x: int, yy: int| 0 <= x <= buf.width && 0 <= yy < y ==> (#[trigger] buf.spec_get_char(x, yy)).attribute.background_color < 8,
        decreases h - y,
    {
        let mut x: i32 = 0;
        while x <= w
            invariant
                w == buf.width,
                h == buf.height,
                0 <= y < h,
                0 <= x <= w + 1,
                forall|xx: int, yy: int| 0 <= xx <= buf.width && 0 <= yy < y ==> (#[trigger] buf.spec_get_char(xx, yy)).attribute.background_color < 8,
                forall|xx: int| 0 <= xx < x ==> (#[trigger] buf.spec_get_char(xx, y as int)).attribute.background_color < 8,
            decreases w + 1 - x,
        {
            if buf.get_char(Position::from(x, y)).attribute.background_color >= 8 {
                return false;
            }
            x = x + 1;
        }
        y = y + 1;
    }
    true
}

#[verifier::rlimit(60)]
fn push_sgr(result: &mut Vec<u8>, last: TextAttribute, cur: TextAttribute, first: bool)
    requires
        cur.background_color < 8,
        old(result).len() + 40 <= usize::MAX,
    ensures
        final(result)@ == old(result)@ + sgr_bytes(last, cur, first),
{
    reveal(sgr_bytes);
    let ghost start = result@;
    result.push(27);
    result.push(91);
    let mut l = last;
    let mut f = first;
    let mut wrote = false;
    if (!l.is_bold() || f) && cur.is_bold() {
        if (!l.is_blink() && !f) || cur.is_blink() {
            result.push(49);
            wrote = true;
        }
    } else if (l.is_bold() || f) && !cur.is_bold() {
        result.push(48);
        l = TextAttribute::default_attribute();
        f = false;
        wrote = true;
    }
    if (!l.is_blink() || f) && cur.is_blink() {
        if wrote {
            result.push(59);
        }
        result.push(53);
        wrote = true;
    } else if (l.is_blink() || f) && !cur.is_blink() {
        if wrote {
            result.push(59);
        }
        result.push(48);
        if cur.is_bold() || f {
            result.push(59);
            result.push(49);
        }
        l = TextAttribute::default_attribute();
        wrote = true;
    }
    if l.get_foreground_without_bold() != cur.get_foreground_without_bold() {
        if wrote {
            result.push(59);
        }
        result.push(51);
        result.push(48 + color_offset_exec(cur.get_foreground_without_bold() as usize));
        wrote = true;
    }
    if l.get_background() != cur.get_background() {
        if wrote {
            result.push(59);
        }
        result.push(52);
        result.push(48 + color_offset_exec(cur.get_background() as usize));
    }
    result.push(109);
    proof {
        assert(result@ =~= start + sgr_bytes(last, cur, first));
    }
}

fn ans_step_exec(buf: &Buffer, y: i32, x: i32, len: i32, last: &mut TextAttribute, first: &mut bool, result: &mut Vec<u8>) -> (nx: i32)
    requires
        0 <= x < len <= buf.width,
        0 <= y < buf.height,
        ans_colors_ok(*buf),
        old(result).len() + 100 <= usize::MAX,
    ensures
        ({
            let st = ans_step(*buf, y as int, x as int, len as int, *old(last), *old(first));
            &&& final(result)@ == old(result)@ + st.0
            &&& nx == st.1
            &&& *final(last) == st.2
            &&& *final(first) == st.3
        }),
{
    reveal(ans_step);
    proof {
        lemma_ans_step(*buf, y as int, x as int, len as int, *last, *first);
        lemma_blank_end(*buf, y as int, x as int, len as int);
    }
    let ghost start = result@;
    let mut px = x;
    let mut ch = buf.get_char(Position::from(px, y));
    let cur0 = ch.attribute;
    let mut space_count: usize = 0;
    if last.get_background() == cur0.get_background() {
        while (ch.char_code == 32 || ch.char_code == 0) && px < len
            invariant
                x <= px <= len,
                space_count == px - x,
                blank_end(*buf, y as int, x as int, len as int) == blank_end(*buf, y as int, px as int, len as int),
                ch == buf.spec_get_char(px as int, y as int),
                0 <= y,
            decreases len - px,
        {
            space_count = space_count + 1;
            px = px + 1;
            ch = buf.get_char(Position::from(px, y));
        }
    }
    let mut cur = cur0;
    if space_count > 0 && cur0.get_background() == ch.attribute.get_background() {
        cur = ch.attribute;
    }
    assert(cur.background_color < 8) by {
        assert(buf.spec_get_char(x as int, y as int).attribute.background_color < 8);
    }
    if !(last.same(&cur) && last.is_blink() == cur.is_blink()) || *first {
        push_sgr(result, *last, cur, *first);
        *last = cur;
    }
    *first = false;
    if space_count > 0 {
        if space_count < 5 {
            let mut k: usize = 0;
            let ghost mid = result@;
            while k < space_count
                invariant
                    k <= space_count,
                    space_count < 5,
                    mid.len() + 10 <= usize::MAX,
                    result@ == mid + Seq::new(k as nat, |i: int| 32u8),
                decreases space_count - k,
            {
                result.push(32);
                proof {
                    assert(result@ =~= mid + Seq::new((k + 1) as nat, |i: int| 32u8));
                }
                k = k + 1;
            }
        } else {
            result.push(27);
            result.push(91);
            push_int(result, space_count);
            result.push(67);
        }
        proof {
            assert(result@ =~= start + ans_step(*buf, y as int, x as int, len as int, *old(last), *old(first)).0);
        }
        return px;
    }
    result.push(if ch.char_code == 0 { 32 } else { ch.char_code });
    proof {
        assert(result@ =~= start + ans_step(*buf, y as int, x as int, len as int, *old(last), *old(first)).0);
    }
    px + 1
}

/// The picture as ANSI: per row the steps of `ans_row`, rows that end
/// before the last column followed by a line break (the last row never),
/// and a SAUCE record of kind ANSI when the options ask for one.
pub fn convert_to_ans(buf: &Buffer, options: &SaveOptions) -> (res: Result<Vec<u8>, SauceError>)
    requires
        ans_colors_ok(*buf),
        (40 * buf.width + 4) * buf.height + 1 + sauce_head(*buf, 0).len() + sauce_tail(*buf, SauceFileType::Ansi).len()
            + 100 <= usize::MAX,
    ensures
        ({
            let text = ans_rows(*buf, buf.height as int).0;
            if !options.save_sauce {
                res is Ok && res->Ok_0@ == text
            } else if buf.comments@.len() > 255 {
                res == Err::<Vec<u8>, SauceError>(SauceError::TooManyComments)
            } else {
                res is Ok && res->Ok_0@ == text.push(26) + sauce_head(*buf, (text.len() + 1) as u32) + sauce_tail(
                    *buf,
                    SauceFileType::Ansi,
                )
            }
        }),
{
    let mut result: Vec<u8> = Vec::new();
    let h = buf.height as i32;
    let w = buf.width as i32;
    let mut last = TextAttribute::default_attribute();
    let mut first = true;
    let mut skipped = false;
    let mut y: i32 = 0;
    proof {
        lemma_ans_rows_len(*buf, buf.height as int);
    }
    while y < h
        invariant
            0 <= y <= h,
            h == buf.height,
            w == buf.width,
            ans_colors_ok(*buf),
            result@ == ans_rows(*buf, y as int).0,
            last == ans_rows(*buf, y as int).1,
            first == ans_rows(*buf, y as int).2,
            skipped == ans_rows(*buf, y as int).3,
            (40 * buf.width + 4) * buf.height + 100 <= usize::MAX,
        decreases h - y,
    {
        let len = buf.get_line_length(y);
        proof {
            lemma_ans_rows_len(*buf, y as int);
            assert((40 * buf.width + 4) * (y + 1) <= (40 * buf.width + 4) * buf.height) by (nonlinear_arith)
                requires
                    y + 1 <= buf.height,
            ;
            assert((40 * buf.width + 4) * (y + 1) == (40 * buf.width + 4) * y + 40 * buf.width + 4) by (nonlinear_arith);
            lemma_ans_row_len(*buf, y as int, 0, len as int, last, first);
        }
        let ghost row_start = result@;
        if len == 0 && skipped {
            result.push(13);
            result.push(10);
        }
        let ghost pre_end = result@;
        let ghost total = ans_row(*buf, y as int, 0, len as int, last, first);
        let ghost mut emitted: Seq<u8> = Seq::empty();
        let mut x: i32 = 0;
        while x < len
            invariant
                0 <= x <= len,
                len == row_len(*buf, y as int),
                0 <= len <= w,
                w == buf.width,
                0 <= y < buf.height,
                ans_colors_ok(*buf),
                result@ == pre_end + emitted,
                pre_end.len() + 40 * len + 100 <= usize::MAX,
                emitted.len() + ans_row(*buf, y as int, x as int, len as int, last, first).0.len() <= 40 * len,
                total.0 == emitted + ans_row(*buf, y as int, x as int, len as int, last, first).0,
                total.1 == ans_row(*buf, y as int, x as int, len as int, last, first).1,
                total.2 == ans_row(*buf, y as int, x as int, len as int, last, first).2,
            decreases len - x,
        {
            proof {
                lemma_ans_step(*buf, y as int, x as int, len as int, last, first);
                lemma_ans_row_len(*buf, y as int, x as int, len as int, last, first);
            }
            let ghost st = ans_step(*buf, y as int, x as int, len as int, last, first);
            x = ans_step_exec(buf, y, x, len, &mut last, &mut first, &mut result);
            proof {
                emitted = emitted + st.0;
            }
        }
        proof {
            assert(ans_row(*buf, y as int, x as int, len as int, last, first).0 =~= Seq::<u8>::empty());
        }
        skipped = y + 1 >= h || len >= w;
        if !skipped {
            result.push(13);
            result.push(10);
        }
        proof {
            assert(result@ =~= ans_rows(*buf, y + 1).0);
        }
        y = y + 1;
    }
    if options.save_sauce {
        match buf.write_sauce_info(&SauceFileType::Ansi, &mut result) {
            Ok(_) => {},
            Err(e) => {
                return Err(e);
            },
        }
    }
    Ok(result)
}

} // verus!
