use vstd::prelude::*;

use crate::buffer::Buffer;
use crate::dos_char::DosChar;
use crate::ice_draw::screen_cells;
use crate::palette::{dos_default_palette, packed_colors, sixteen_colors};
use crate::position::Position;
use crate::sauce::{le16, sauce_head, sauce_tail, SauceError, SauceFileType};
use crate::save::SaveError;
use crate::text_attribute::{BufferType, TextAttribute};
use crate::xbinary::xb_cells;

verus! {

/// What reading a cell back from its stored character and attribute byte
/// gives under a buffer type.
pub open spec fn norm_cell(c: DosChar, bt: BufferType) -> DosChar {
    DosChar { char_code: c.char_code, attribute: TextAttribute::spec_from_u8(c.attribute.spec_as_u8(), bt) }
}

pub open spec fn norm_cells(cs: Seq<DosChar>, bt: BufferType) -> Seq<DosChar> {
    Seq::new(cs.len(), |i: int| norm_cell(cs[i], bt))
}

pub open spec fn attr_byte(c: DosChar) -> u8 {
    c.attribute.spec_as_u8()
}

/// One run of compressed XBin data: what its cells share (0 nothing,
/// 1 the character, 2 the attribute, 3 both) and the cells.
pub struct XbRun {
    pub mode: u8,
    pub cells: Seq<DosChar>,
}

/// Character and attribute byte of every cell.
pub open spec fn cell_pairs(cs: Seq<DosChar>) -> Seq<u8> {
    Seq::new(2 * cs.len(), |k: int| if k % 2 == 0 { cs[k / 2].char_code } else { attr_byte(cs[k / 2]) })
}

/// The bytes of a run after its header byte.
pub open spec fn run_payload(r: XbRun) -> Seq<u8> {
    let c0 = r.cells[0];
    if r.mode == 0 {
        cell_pairs(r.cells)
    } else if r.mode == 1 {
        seq![c0.char_code] + Seq::new(r.cells.len(), |j: int| attr_byte(r.cells[j]))
    } else if r.mode == 2 {
        seq![attr_byte(c0)] + Seq::new(r.cells.len(), |j: int| r.cells[j].char_code)
    } else {
        seq![c0.char_code, attr_byte(c0)]
    }
}

/// The header byte of a run: the mode in the top two bits, the length
/// less one below.
pub open spec fn run_header(r: XbRun) -> u8 {
    (r.mode * 64 + (r.cells.len() - 1)) as u8
}

pub open spec fn run_bytes(r: XbRun) -> Seq<u8> {
    seq![run_header(r)] + run_payload(r)
}

/// A run of one to 64 cells that really share what its mode says.
pub open spec fn run_ok(r: XbRun) -> bool {
    &&& 1 <= r.cells.len() <= 64
    &&& r.mode <= 3
    &&& r.mode == 1 ==> forall|j: int| 0 <= j < r.cells.len() ==> #[trigger] r.cells[j].char_code == r.cells[0].char_code
    &&& r.mode == 2 ==> forall|j: int| 0 <= j < r.cells.len() ==> attr_byte(#[trigger] r.cells[j]) == attr_byte(r.cells[0])
    &&& r.mode == 3 ==> forall|j: int|
        0 <= j < r.cells.len() ==> #[trigger] r.cells[j].char_code == r.cells[0].char_code && attr_byte(r.cells[j])
            == attr_byte(r.cells[0])
}

pub open spec fn runs_bytes(rs: Seq<XbRun>) -> Seq<u8>
    decreases rs.len(),
{
    if rs.len() == 0 {
        Seq::empty()
    } else {
        runs_bytes(rs.drop_last()) + run_bytes(rs.last())
    }
}

pub open spec fn runs_cells(rs: Seq<XbRun>) -> Seq<DosChar>
    decreases rs.len(),
{
    if rs.len() == 0 {
        Seq::empty()
    } else {
        runs_cells(rs.drop_last()) + rs.last().cells
    }
}

/// Decoding does not depend on what precedes the data.
proof fn lemma_xb_shift(p: Seq<u8>, t: Seq<u8>, o: int, n: int, bt: BufferType)
    requires
        0 <= o,
    ensures
        xb_cells(p + t, p.len() + o, p.len() + n, bt) == xb_cells(t, o, n, bt),
    decreases t.len() - o,
{
    let d = p + t;
    let q = p.len() as int;
    if o >= n || o >= t.len() {
    } else {
        let hdr = t[o];
        assert(d[q + o] == hdr);
        let cnt = (hdr % 64) + 1;
        let mode = hdr / 64;
        let o1 = o + 1;
        if mode == 0 {
            let avail = (t.len() - o1) / 2;
            let k = if cnt < avail { cnt } else { avail };
            lemma_xb_shift(p, t, o1 + 2 * k, n, bt);
            assert(Seq::new(
                k as nat,
                |j: int| DosChar { char_code: d[q + o1 + 2 * j], attribute: TextAttribute::spec_from_u8(d[q + o1 + 2 * j + 1], bt) },
            ) =~= Seq::new(
                k as nat,
                |j: int| DosChar { char_code: t[o1 + 2 * j], attribute: TextAttribute::spec_from_u8(t[o1 + 2 * j + 1], bt) },
            ));
        } else if mode == 1 {
            if o1 < t.len() {
                let o2 = o1 + 1;
                let avail = t.len() - o2;
                let k = if cnt < avail { cnt } else { avail };
                lemma_xb_shift(p, t, o2 + k, n, bt);
                assert(Seq::new(k as nat, |j: int| DosChar { char_code: d[q + o1], attribute: TextAttribute::spec_from_u8(d[q + o2 + j], bt) })
                    =~= Seq::new(k as nat, |j: int| DosChar { char_code: t[o1], attribute: TextAttribute::spec_from_u8(t[o2 + j], bt) }));
            }
        } else if mode == 2 {
            if o1 < t.len() {
                let o2 = o1 + 1;
                let avail = t.len() - o2;
                let k = if cnt < avail { cnt } else { avail };
                lemma_xb_shift(p, t, o2 + k, n, bt);
                let a = TextAttribute::spec_from_u8(t[o1], bt);
                assert(Seq::new(k as nat, |j: int| DosChar { char_code: d[q + o2 + j], attribute: a })
                    =~= Seq::new(k as nat, |j: int| DosChar { char_code: t[o2 + j], attribute: a }));
            }
        } else {
            if o1 + 1 < t.len() {
                lemma_xb_shift(p, t, o1 + 2, n, bt);
            }
        }
    }
}

/// A well formed run decodes to its cells, and decoding goes on right
/// after it.
proof fn lemma_xb_run(r: XbRun, t: Seq<u8>, bt: BufferType)
    requires
        run_ok(r),
    ensures
        xb_cells(run_bytes(r) + t, 0, (run_bytes(r).len() + t.len()) as int, bt) == norm_cells(r.cells, bt) + xb_cells(
            t,
            0,
            t.len() as int,
            bt,
        ),
{
    let b = run_bytes(r);
    let d = b + t;
    let n = d.len() as int;
    let cnt = r.cells.len() as int;
    let hdr = d[0];
    assert(hdr == run_header(r));
    assert(hdr as int == r.mode * 64 + (cnt - 1));
    vstd::arithmetic::div_mod::lemma_fundamental_div_mod_converse(hdr as int, 64, r.mode as int, cnt - 1);
    assert(hdr % 64 + 1 == cnt);
    assert(hdr / 64 == r.mode);
    lemma_xb_shift(b, t, 0, t.len() as int, bt);
    let c0 = r.cells[0];
    if r.mode == 0 {
        assert(b.len() == 1 + 2 * cnt);
        let avail = (n - 1) / 2;
        assert(avail >= cnt);
        let got = Seq::new(
            cnt as nat,
            |j: int| DosChar { char_code: d[1 + 2 * j], attribute: TextAttribute::spec_from_u8(d[1 + 2 * j + 1], bt) },
        );
        assert forall|j: int| 0 <= j < cnt implies got[j] == norm_cell(r.cells[j], bt) by {
            assert((2 * j) / 2 == j && (2 * j) % 2 == 0);
            assert((2 * j + 1) / 2 == j && (2 * j + 1) % 2 == 1);
            assert(d[1 + 2 * j] == cell_pairs(r.cells)[2 * j]);
            assert(d[1 + 2 * j + 1] == cell_pairs(r.cells)[2 * j + 1]);
        }
        assert(got =~= norm_cells(r.cells, bt));
    } else if r.mode == 1 {
        assert(b.len() == 2 + cnt);
        let got = Seq::new(cnt as nat, |j: int| DosChar { char_code: d[1], attribute: TextAttribute::spec_from_u8(d[2 + j], bt) });
        assert forall|j: int| 0 <= j < cnt implies got[j] == norm_cell(r.cells[j], bt) by {
            assert(r.cells[j].char_code == c0.char_code);
            assert(d[2 + j] == run_payload(r)[1 + j]);
        }
        assert(got =~= norm_cells(r.cells, bt));
    } else if r.mode == 2 {
        assert(b.len() == 2 + cnt);
        let a = TextAttribute::spec_from_u8(d[1], bt);
        let got = Seq::new(cnt as nat, |j: int| DosChar { char_code: d[2 + j], attribute: a });
        assert forall|j: int| 0 <= j < cnt implies got[j] == norm_cell(r.cells[j], bt) by {
            assert(attr_byte(r.cells[j]) == attr_byte(c0));
            assert(d[2 + j] == run_payload(r)[1 + j]);
        }
        assert(got =~= norm_cells(r.cells, bt));
    } else {
        assert(b.len() == 3);
        let c = DosChar { char_code: d[1], attribute: TextAttribute::spec_from_u8(d[2], bt) };
        let got = Seq::new(cnt as nat, |j: int| c);
        assert(r.mode == 3);
        assert forall|j: int| 0 <= j < cnt implies got[j] == norm_cell(r.cells[j], bt) by {
            assert(r.cells[j].char_code == c0.char_code);
            assert(attr_byte(r.cells[j]) == attr_byte(c0));
        }
        assert(got =~= norm_cells(r.cells, bt));
    }
}

/// A sequence of well formed runs decodes to their cells.
pub proof fn lemma_xb_runs(rs: Seq<XbRun>, t: Seq<u8>, bt: BufferType)
    requires
        forall|i: int| 0 <= i < rs.len() ==> run_ok(#[trigger] rs[i]),
    ensures
        xb_cells(runs_bytes(rs) + t, 0, (runs_bytes(rs).len() + t.len()) as int, bt) == norm_cells(runs_cells(rs), bt)
            + xb_cells(t, 0, t.len() as int, bt),
    decreases rs.len(),
{
    if rs.len() == 0 {
        assert(runs_bytes(rs) + t =~= t);
        assert(norm_cells(runs_cells(rs), bt) =~= Seq::<DosChar>::empty());
        assert(norm_cells(runs_cells(rs), bt) + xb_cells(t, 0, t.len() as int, bt) =~= xb_cells(t, 0, t.len() as int, bt));
    } else {
        let r = rs.last();
        let rs0 = rs.drop_last();
        let t2 = run_bytes(r) + t;
        assert forall|i: int| 0 <= i < rs0.len() implies run_ok(#[trigger] rs0[i]) by {
            assert(rs0[i] == rs[i]);
        }
        assert(run_ok(rs[rs.len() - 1]));
        lemma_xb_runs(rs0, t2, bt);
        assert(runs_bytes(rs0) + t2 =~= runs_bytes(rs) + t);
        lemma_xb_run(r, t, bt);
        assert(norm_cells(runs_cells(rs0), bt) + norm_cells(r.cells, bt) =~= norm_cells(runs_cells(rs), bt));
        assert(norm_cells(runs_cells(rs0), bt) + (norm_cells(r.cells, bt) + xb_cells(t, 0, t.len() as int, bt))
            =~= norm_cells(runs_cells(rs), bt) + xb_cells(t, 0, t.len() as int, bt));
    }
}

pub proof fn lemma_runs_len(rs: Seq<XbRun>)
    requires
        forall|i: int| 0 <= i < rs.len() ==> run_ok(#[trigger] rs[i]),
    ensures
        runs_bytes(rs).len() <= 3 * runs_cells(rs).len(),
    decreases rs.len(),
{
    if rs.len() > 0 {
        let rs0 = rs.drop_last();
        assert forall|i: int| 0 <= i < rs0.len() implies run_ok(#[trigger] rs0[i]) by {
            assert(rs0[i] == rs[i]);
        }
        assert(run_ok(rs[rs.len() - 1]));
        lemma_runs_len(rs0);
    }
}

/// Data that decodes, under every buffer type, to the given cells read
/// back through their stored bytes, in at most three bytes a cell.
pub open spec fn xb_packs(data: Seq<u8>, cs: Seq<DosChar>) -> bool {
    &&& data.len() <= 3 * cs.len()
    &&& forall|bt: BufferType| #[trigger] xb_cells(data, 0, data.len() as int, bt) == norm_cells(cs, bt)
}

/// What the cells of a run share.
#[derive(Clone, Copy)]
pub enum Compression {
    Off,
    Char,
    Attr,
    Full,
}

pub open spec fn mode_num(m: Compression) -> u8 {
    match m {
        Compression::Off => 0,
        Compression::Char => 1,
        Compression::Attr => 2,
        Compression::Full => 3,
    }
}

/// The mode bits of a run header.
fn mode_bits(m: Compression) -> (b: u8)
    ensures
        b == 64 * mode_num(m),
{
    match m {
        Compression::Off => 0,
        Compression::Char => 64,
        Compression::Attr => 128,
        Compression::Full => 192,
    }
}

/// Cell `i` of the picture in row order.
fn screen_cell(buf: &Buffer, i: usize) -> (c: DosChar)
    requires
        i < buf.width * buf.height,
    ensures
        c == screen_cells(*buf)[i as int],
{
    let w = buf.width as usize;
    proof {
        assert(w > 0) by (nonlinear_arith)
            requires
                i < w * buf.height,
                i >= 0,
        ;
        assert(i / w < buf.height) by (nonlinear_arith)
            requires
                i < w * buf.height,
                w > 0,
        ;
    }
    buf.get_char(Position::from((i % w) as i32, (i / w) as i32))
}

/// Whether a run of mode `m` that started with `ch` and holds `run_count`
/// cells ends before cell `x` of `cs`, as far as the cells up to `len`
/// tell (`None`: they do not).
pub open spec fn end_decision(m: Compression, ch: DosChar, run_count: int, cs: Seq<DosChar>, x: int, len: int) -> Option<bool> {
    let cur = cs[x];
    let next = cs[x + 1];
    if run_count >= 64 {
        Some(true)
    } else {
        match m {
            Compression::Off => if x + 2 < len && cur.spec_same(next) {
                Some(true)
            } else if x + 2 < len {
                Some(
                    (cur.char_code == next.char_code && cur.char_code == cs[x + 2].char_code) || (cur.attribute.spec_same(
                        next.attribute,
                    ) && cur.attribute.spec_same(cs[x + 2].attribute)),
                )
            } else {
                None
            },
            Compression::Char => if cur.char_code != ch.char_code {
                Some(true)
            } else if x + 3 < len {
                Some(cur.spec_same(next) && cur.spec_same(cs[x + 2]) && cur.spec_same(cs[x + 3]))
            } else {
                None
            },
            Compression::Attr => if !cur.attribute.spec_same(ch.attribute) {
                Some(true)
            } else if x + 3 < len {
                Some(cur.spec_same(next) && cur.spec_same(cs[x + 2]) && cur.spec_same(cs[x + 3]))
            } else {
                None
            },
            Compression::Full => Some(!cur.spec_same(ch)),
        }
    }
}

/// The mode of a run that starts at cell `x`: what it shares with the next
/// cell, if that one is before `len`.
pub open spec fn start_mode_at(cs: Seq<DosChar>, x: int, len: int) -> Compression {
    if x + 1 < len {
        if cs[x].spec_same(cs[x + 1]) {
            Compression::Full
        } else if cs[x].char_code == cs[x + 1].char_code {
            Compression::Char
        } else if cs[x].attribute.spec_same(cs[x + 1].attribute) {
            Compression::Attr
        } else {
            Compression::Off
        }
    } else {
        Compression::Off
    }
}

/// The estimated bytes of the cells `x..len` of `cs` when the current run
/// has mode `m`, started with `ch`, holds `run_count` cells and may already
/// be decided to end (`end_run`): one header byte for each run, two for a
/// run's first cell and per further cell two bytes uncompressed, one with a
/// shared character or attribute, none when the whole cell is shared.
pub open spec fn count_from(m: Compression, ch: DosChar, end_run: Option<bool>, run_count: int, cs: Seq<DosChar>, x: int, len: int) -> int
    decreases len - x,
{
    if x >= len {
        0
    } else {
        let er = if run_count > 0 && end_run is None {
            end_decision(m, ch, run_count, cs, x, len)
        } else {
            end_run
        };
        let ended = run_count > 0 && er == Some(true);
        let rc = if ended {
            0
        } else {
            run_count
        };
        let c1: int = if ended {
            1
        } else {
            0
        };
        if rc > 0 {
            let c2: int = match m {
                Compression::Off => 2,
                Compression::Char => 1,
                Compression::Attr => 1,
                Compression::Full => 0,
            };
            c1 + c2 + count_from(m, ch, None, rc + 1, cs, x + 1, len)
        } else {
            c1 + 2 + count_from(start_mode_at(cs, x, len), cs[x], None, 1, cs, x + 1, len)
        }
    }
}

/// The last cell before which the estimate from `x` stops: 256 cells on,
/// or the last cell of the picture.
pub open spec fn count_end(x: int, total: int) -> int {
    if x + 256 < total - 1 {
        x + 256
    } else {
        total - 1
    }
}

/// An estimate of the bytes that the next cells, up to 256 of them, take
/// when the current run is ended at `x` (`end_run` true) or carried on
/// (false); the compressor compares the two.
fn count_length(
    run_mode: Compression,
    run_ch: DosChar,
    end_run: Option<bool>,
    run_count: u8,
    buf: &Buffer,
    x: usize,
    total: usize,
) -> (r: i32)
    requires
        total == buf.width * buf.height,
        total + 300 <= usize::MAX,
        x < total,
        run_count < 64,
    ensures
        0 <= r <= 768,
        r == count_from(run_mode, run_ch, end_run, run_count as int, screen_cells(*buf), x as int, count_end(x as int, total as int)),
{
    let ghost cs = screen_cells(*buf);
    let ghost target = count_from(run_mode, run_ch, end_run, run_count as int, cs, x as int, count_end(x as int, total as int));
    let mut run_mode = run_mode;
    let mut run_ch = run_ch;
    let mut end_run = end_run;
    let mut run_count = run_count;
    let mut x = x;
    let len = if x + 256 < total - 1 {
        x + 256
    } else {
        total - 1
    };
    let ghost x0 = x;
    let mut count: i32 = 0;
    while x < len
        invariant
            x0 <= x <= len,
            len <= x0 + 256,
            len < total,
            total == buf.width * buf.height,
            total + 300 <= usize::MAX,
            0 <= count <= 3 * (x - x0),
            run_count <= 64,
            x == x0 ==> run_count < 64,
            x > x0 ==> end_run is None,
            cs == screen_cells(*buf),
            len == count_end(x0 as int, total as int),
            count + count_from(run_mode, run_ch, end_run, run_count as int, cs, x as int, len as int) == target,
        decreases len - x,
    {
        let ghost m0 = run_mode;
        let ghost ch0 = run_ch;
        let ghost er0 = end_run;
        let ghost rc0 = run_count as int;
        let ghost c0 = count as int;
        let cur = screen_cell(buf, x);
        let next = screen_cell(buf, x + 1);
        if run_count > 0 {
            if end_run.is_none() {
                if run_count >= 64 {
                    end_run = Some(true);
                } else {
                    match run_mode {
                        Compression::Off => {
                            if x + 2 < len && cur.same(&next) {
                                end_run = Some(true);
                            } else if x + 2 < len {
                                let next2 = screen_cell(buf, x + 2);
                                end_run = Some(
                                    cur.char_code == next.char_code && cur.char_code == next2.char_code
                                        || cur.attribute.same(&next.attribute) && cur.attribute.same(&next2.attribute),
                                );
                            }
                        },
                        Compression::Char => {
                            if cur.char_code != run_ch.char_code {
                                end_run = Some(true);
                            } else if x + 3 < len {
                                let next2 = screen_cell(buf, x + 2);
                                let next3 = screen_cell(buf, x + 3);
                                end_run = Some(cur.same(&next) && cur.same(&next2) && cur.same(&next3));
                            }
                        },
                        Compression::Attr => {
                            if !cur.attribute.same(&run_ch.attribute) {
                                end_run = Some(true);
                            } else if x + 3 < len {
                                let next2 = screen_cell(buf, x + 2);
                                let next3 = screen_cell(buf, x + 3);
                                end_run = Some(cur.same(&next) && cur.same(&next2) && cur.same(&next3));
                            }
                        },
                        Compression::Full => {
                            end_run = Some(!cur.same(&run_ch));
                        },
                    }
                }
            }
            match end_run {
                Some(true) => {
                    count = count + 1;
                    run_count = 0;
                },
                _ => {},
            }
        }
        end_run = None;
        if run_count > 0 {
            match run_mode {
                Compression::Off => {
                    count = count + 2;
                },
                Compression::Char | Compression::Attr => {
                    count = count + 1;
                },
                Compression::Full => {},
            }
        } else {
            if x + 1 < len {
                if cur.same(&next) {
                    run_mode = Compression::Full;
                } else if cur.char_code == next.char_code {
                    run_mode = Compression::Char;
                } else if cur.attribute.same(&next.attribute) {
                    run_mode = Compression::Attr;
                } else {
                    run_mode = Compression::Off;
                }
            } else {
                run_mode = Compression::Off;
            }
            count = count + 2;
            run_ch = cur;
        }
        run_count = run_count + 1;
        proof {
            assert(count_from(m0, ch0, er0, rc0, cs, x as int, len as int) == (count - c0) + count_from(
                run_mode,
                run_ch,
                end_run,
                run_count as int,
                cs,
                x + 1,
                len as int,
            ));
        }
        x = x + 1;
    }
    count
}

proof fn lemma_runs_push(rs: Seq<XbRun>, r: XbRun)
    ensures
        runs_bytes(rs.push(r)) == runs_bytes(rs) + run_bytes(r),
        runs_cells(rs.push(r)) == runs_cells(rs) + r.cells,
{
    assert(rs.push(r).drop_last() =~= rs);
}

proof fn lemma_pairs_push(cs: Seq<DosChar>, c: DosChar)
    ensures
        cell_pairs(cs.push(c)) == cell_pairs(cs) + seq![c.char_code, attr_byte(c)],
{
    let a = cell_pairs(cs.push(c));
    let b = cell_pairs(cs) + seq![c.char_code, attr_byte(c)];
    assert forall|k: int| 0 <= k < a.len() implies a[k] == b[k] by {
        let n = cs.len() as int;
        if k < 2 * n {
            assert(k / 2 < n) by (nonlinear_arith)
                requires
                    0 <= k < 2 * n,
            ;
        } else {
            assert(k == 2 * n || k == 2 * n + 1);
            assert((2 * n) / 2 == n && (2 * n) % 2 == 0);
            assert((2 * n + 1) / 2 == n && (2 * n + 1) % 2 == 1);
        }
    }
    assert(a =~= b);
}

/// The run that starts at cell `s` and ends before cell `x`.
pub open spec fn open_run(m: Compression, cs: Seq<DosChar>, s: int, x: int) -> XbRun {
    XbRun { mode: mode_num(m), cells: cs.subrange(s, x) }
}

/// Whether the open run of mode `m`, started with `run_ch` and holding
/// `run_count` cells, ends before cell `x` of `cs` (of `total` cells): when
/// it is full; when the cell does not share what the run shares; or when
/// the next cells suit another kind of run and the estimate of the bytes
/// to come is smaller with the run ended here.
pub open spec fn backtrack_ends(cs: Seq<DosChar>, x: int, total: int, m: Compression, run_ch: DosChar, run_count: int) -> bool {
    let cur = cs[x];
    let next = if x + 1 < total {
        cs[x + 1]
    } else {
        DosChar::spec_new()
    };
    let shorter = count_from(m, run_ch, Some(true), run_count, cs, x, count_end(x, total)) < count_from(
        m,
        run_ch,
        Some(false),
        run_count,
        cs,
        x,
        count_end(x, total),
    );
    if run_count >= 64 {
        true
    } else {
        match m {
            Compression::Off => x + 2 < total && (cur.char_code == next.char_code || cur.attribute.spec_same(next.attribute))
                && shorter,
            Compression::Char => cur.char_code != run_ch.char_code || (x + 4 < total && cur.attribute.spec_same(
                next.attribute,
            ) && cur.attribute.spec_same(cs[x + 2].attribute) && shorter),
            Compression::Attr => !cur.attribute.spec_same(run_ch.attribute) || (x + 3 < total && cur.char_code
                == next.char_code && cur.char_code == cs[x + 2].char_code && shorter),
            Compression::Full => !cur.spec_same(run_ch),
        }
    }
}

/// The runs that cells `x..total` of `cs` are cut into when the open run
/// has mode `m`, starts at cell `run_start` and with `run_ch`.
pub open spec fn backtrack_runs(cs: Seq<DosChar>, x: int, total: int, m: Compression, run_start: int, run_ch: DosChar) -> Seq<XbRun>
    decreases total - x,
{
    let run_count = x - run_start;
    if x >= total {
        if run_count > 0 {
            seq![open_run(m, cs, run_start, x)]
        } else {
            Seq::empty()
        }
    } else {
        let ended = run_count > 0 && backtrack_ends(cs, x, total, m, run_ch, run_count);
        let closed = if ended {
            seq![open_run(m, cs, run_start, x)]
        } else {
            Seq::empty()
        };
        if run_count > 0 && !ended {
            closed + backtrack_runs(cs, x + 1, total, m, run_start, run_ch)
        } else {
            closed + backtrack_runs(cs, x + 1, total, start_mode_at(cs, x, total), x, cs[x])
        }
    }
}

/// Appends the picture's cells as compressed XBin data: runs of up to 64
/// cells that share the character, the attribute, both or nothing, where
/// a shared run is ended early when the estimate says that starting anew
/// takes fewer bytes.
#[verifier::rlimit(100)]
#[verifier::spinoff_prover]
fn compress_backtrack(outputdata: &mut Vec<u8>, buf: &Buffer)
    requires
        buf.width * buf.height + 300 <= usize::MAX,
    ensures
        final(outputdata)@.len() >= old(outputdata)@.len(),
        final(outputdata)@.subrange(0, old(outputdata)@.len() as int) == old(outputdata)@,
        xb_packs(final(outputdata)@.subrange(old(outputdata)@.len() as int, final(outputdata)@.len() as int), screen_cells(*buf)),
        final(outputdata)@ == old(outputdata)@ + runs_bytes(
            backtrack_runs(screen_cells(*buf), 0, buf.width * buf.height, Compression::Off, 0, DosChar::spec_new()),
        ),
{
    let ghost start = outputdata@;
    let ghost cs = screen_cells(*buf);
    let total: usize = buf.width as usize * buf.height as usize;
    let mut run_mode = Compression::Off;
    let mut run_count: u8 = 0;
    let mut run_buf: Vec<u8> = Vec::new();
    let mut run_ch = DosChar::new();
    let ghost mut rs: Seq<XbRun> = Seq::empty();
    let ghost mut run_start: int = 0;
    let mut x: usize = 0;
    let ghost all = backtrack_runs(cs, 0, total as int, Compression::Off, 0, DosChar::spec_new());
    assert(rs + backtrack_runs(cs, 0, total as int, run_mode, run_start, run_ch) =~= all);
    while x < total
        invariant
            all == backtrack_runs(cs, 0, total as int, Compression::Off, 0, DosChar::spec_new()),
            rs + backtrack_runs(cs, x as int, total as int, run_mode, run_start, run_ch) == all,
            total == buf.width * buf.height,
            total + 300 <= usize::MAX,
            cs == screen_cells(*buf),
            cs.len() == total,
            x <= total,
            0 <= run_start <= x,
            run_count == x - run_start,
            run_count <= 64,
            outputdata@ == start + runs_bytes(rs),
            runs_cells(rs) == cs.subrange(0, run_start),
            forall|i: int| 0 <= i < rs.len() ==> run_ok(#[trigger] rs[i]),
            run_count > 0 ==> {
                &&& run_ok(open_run(run_mode, cs, run_start, x as int))
                &&& run_buf@ == run_payload(open_run(run_mode, cs, run_start, x as int))
                &&& run_ch == cs[run_start]
            },
        decreases total - x,
    {
        let cur = screen_cell(buf, x);
        let next = if x + 1 < total {
            screen_cell(buf, x + 1)
        } else {
            DosChar::new()
        };
        let ghost rs0 = rs;
        let ghost m0 = run_mode;
        let ghost s0 = run_start;
        let ghost ch0 = run_ch;
        if run_count > 0 {
            let mut end_run = false;
            if run_count >= 64 {
                end_run = true;
            } else {
                match run_mode {
                    Compression::Off => {
                        if x + 2 < total && (cur.char_code == next.char_code || cur.attribute.same(&next.attribute)) {
                            let l1 = count_length(run_mode, run_ch, Some(true), run_count, buf, x, total);
                            let l2 = count_length(run_mode, run_ch, Some(false), run_count, buf, x, total);
                            end_run = l1 < l2;
                        }
                    },
                    Compression::Char => {
                        if cur.char_code != run_ch.char_code {
                            end_run = true;
                        } else if x + 4 < total {
                            let next2 = screen_cell(buf, x + 2);
                            if cur.attribute.same(&next.attribute) && cur.attribute.same(&next2.attribute) {
                                let l1 = count_length(run_mode, run_ch, Some(true), run_count, buf, x, total);
                                let l2 = count_length(run_mode, run_ch, Some(false), run_count, buf, x, total);
                                end_run = l1 < l2;
                            }
                        }
                    },
                    Compression::Attr => {
                        if !cur.attribute.same(&run_ch.attribute) {
                            end_run = true;
                        } else if x + 3 < total {
                            let next2 = screen_cell(buf, x + 2);
                            if cur.char_code == next.char_code && cur.char_code == next2.char_code {
                                let l1 = count_length(run_mode, run_ch, Some(true), run_count, buf, x, total);
                                let l2 = count_length(run_mode, run_ch, Some(false), run_count, buf, x, total);
                                end_run = l1 < l2;
                            }
                        }
                    },
                    Compression::Full => {
                        end_run = !cur.same(&run_ch);
                    },
                }
            }
            assert(end_run == backtrack_ends(cs, x as int, total as int, run_mode, run_ch, run_count as int));
            if end_run {
                let ghost r = open_run(run_mode, cs, run_start, x as int);
                let hdr = mode_bits(run_mode) + (run_count - 1);
                assert(hdr == run_header(r));
                outputdata.push(hdr);
                let mut i: usize = 0;
                let ghost before = outputdata@;
                while i < run_buf.len()
                    invariant
                        i <= run_buf.len(),
                        outputdata@ == before + run_buf@.subrange(0, i as int),
                    decreases run_buf.len() - i,
                {
                    outputdata.push(run_buf[i]);
                    proof {
                        assert(outputdata@ =~= before + run_buf@.subrange(0, i + 1));
                    }
                    i = i + 1;
                }
                proof {
                    assert(run_buf@.subrange(0, run_buf@.len() as int) =~= run_buf@);
                    lemma_runs_push(rs, r);
                    assert(outputdata@ =~= start + runs_bytes(rs.push(r)));
                    assert(cs.subrange(0, run_start) + cs.subrange(run_start, x as int) =~= cs.subrange(0, x as int));
                    assert forall|i: int| 0 <= i < rs.push(r).len() implies run_ok(#[trigger] rs.push(r)[i]) by {
                        if i < rs.len() {
                            assert(rs.push(r)[i] == rs[i]);
                        }
                    }
                    rs = rs.push(r);
                    run_start = x as int;
                }
                run_count = 0;
            }
        }
        if run_count > 0 {
            let ghost r = open_run(run_mode, cs, run_start, x as int);
            let ghost r2 = open_run(run_mode, cs, run_start, x + 1);
            assert(r2.cells =~= r.cells.push(cur));
            match run_mode {
                Compression::Off => {
                    run_buf.push(cur.char_code);
                    run_buf.push(cur.attribute.as_u8());
                    proof {
                        lemma_pairs_push(r.cells, cur);
                        assert(run_buf@ =~= run_payload(r2));
                    }
                },
                Compression::Char => {
                    run_buf.push(cur.attribute.as_u8());
                    assert(run_buf@ =~= run_payload(r2));
                },
                Compression::Attr => {
                    run_buf.push(cur.char_code);
                    assert(run_buf@ =~= run_payload(r2));
                },
                Compression::Full => {
                    assert(run_buf@ =~= run_payload(r2));
                },
            }
            assert(run_ok(r2)) by {
                assert(r2.cells[0] == run_ch);
                assert forall|j: int| 0 <= j < r2.cells.len() - 1 implies r2.cells[j] == r.cells[j] by {}
            }
        } else {
            run_buf.clear();
            if x + 1 < total {
                if cur.same(&next) {
                    run_mode = Compression::Full;
                } else if cur.char_code == next.char_code {
                    run_mode = Compression::Char;
                } else if cur.attribute.same(&next.attribute) {
                    run_mode = Compression::Attr;
                } else {
                    run_mode = Compression::Off;
                }
            } else {
                run_mode = Compression::Off;
            }
            match run_mode {
                Compression::Attr => {
                    run_buf.push(cur.attribute.as_u8());
                    run_buf.push(cur.char_code);
                },
                _ => {
                    run_buf.push(cur.char_code);
                    run_buf.push(cur.attribute.as_u8());
                },
            }
            run_ch = cur;
            proof {
                let r2 = open_run(run_mode, cs, run_start, x + 1);
                assert(r2.cells =~= seq![cur]);
                assert(cell_pairs(r2.cells) =~= seq![cur.char_code, attr_byte(cur)]);
                assert(run_buf@ =~= run_payload(r2));
            }
        }
        run_count = run_count + 1;
        proof {
            let rest = backtrack_runs(cs, x + 1, total as int, run_mode, run_start, run_ch);
            let closed = rs.subrange(rs0.len() as int, rs.len() as int);
            assert(rs =~= rs0 + closed);
            assert(backtrack_runs(cs, x as int, total as int, m0, s0, ch0) == closed + rest);
            assert(rs0 + (closed + rest) =~= rs + rest);
        }
        x = x + 1;
    }
    proof {
        if run_count > 0 {
            assert(backtrack_runs(cs, x as int, total as int, run_mode, run_start, run_ch) == seq![open_run(run_mode, cs, run_start, x as int)]);
            assert(rs + seq![open_run(run_mode, cs, run_start, x as int)] =~= rs.push(open_run(run_mode, cs, run_start, x as int)));
        } else {
            assert(rs + Seq::<XbRun>::empty() =~= rs);
        }
    }
    if run_count > 0 {
        let ghost r = open_run(run_mode, cs, run_start, x as int);
        let hdr = mode_bits(run_mode) + (run_count - 1);
        assert(hdr == run_header(r));
        outputdata.push(hdr);
        let mut i: usize = 0;
        let ghost before = outputdata@;
        while i < run_buf.len()
            invariant
                i <= run_buf.len(),
                outputdata@ == before + run_buf@.subrange(0, i as int),
            decreases run_buf.len() - i,
        {
            outputdata.push(run_buf[i]);
            proof {
                assert(outputdata@ =~= before + run_buf@.subrange(0, i + 1));
            }
            i = i + 1;
        }
        proof {
            assert(run_buf@.subrange(0, run_buf@.len() as int) =~= run_buf@);
            lemma_runs_push(rs, r);
            assert(outputdata@ =~= start + runs_bytes(rs.push(r)));
            assert(cs.subrange(0, run_start) + cs.subrange(run_start, x as int) =~= cs.subrange(0, x as int));
            assert forall|i: int| 0 <= i < rs.push(r).len() implies run_ok(#[trigger] rs.push(r)[i]) by {
                if i < rs.len() {
                    assert(rs.push(r)[i] == rs[i]);
                }
            }
            rs = rs.push(r);
            run_start = x as int;
        }
    }
    proof {
        assert(cs.subrange(0, total as int) =~= cs);
        let data = outputdata@.subrange(start.len() as int, outputdata@.len() as int);
        assert(data =~= runs_bytes(rs));
        assert(outputdata@.subrange(0, start.len() as int) =~= start);
        lemma_runs_len(rs);
        assert forall|bt: BufferType| #[trigger] xb_cells(data, 0, data.len() as int, bt) == norm_cells(cs, bt) by {
            lemma_xb_runs(rs, Seq::empty(), bt);
            assert(runs_bytes(rs) + Seq::<u8>::empty() =~= runs_bytes(rs));
            assert(xb_cells(Seq::<u8>::empty(), 0, 0, bt) =~= Seq::<DosChar>::empty());
            assert(norm_cells(cs, bt) + Seq::<DosChar>::empty() =~= norm_cells(cs, bt));
        }
    }
}

/// XBin stores fonts eight pixels wide and one to 32 pixels high; a
/// buffer without a font of its own uses the default 8x16 one.
pub open spec fn xb_font_ok(b: Buffer) -> bool {
    match b.font {
        None => true,
        Some(f) => f.size.width == 8 && 1 <= f.size.height <= 32,
    }
}

/// The flags byte of an XBin header: palette, font, compression, the
/// non blinking (ice) mode and the 512 character mode.
pub open spec fn xb_flags(b: Buffer) -> u8 {
    ((if b.palette.colors@ != dos_default_palette() { 1int } else { 0int }) + (if b.font is Some { 2int } else { 0int }) + 4
        + (if b.buffer_type.spec_use_ice_colors() { 8int } else { 0int }) + (if b.buffer_type.spec_use_extended_font() {
        16int
    } else {
        0int
    })) as u8
}

/// The font bytes of a buffer's own font: each row truncated to a byte.
pub open spec fn xb_font_data(b: Buffer) -> Seq<u8> {
    match b.font {
        None => Seq::empty(),
        Some(f) => Seq::new(f.data@.len(), |i: int| f.data@[i] as u8),
    }
}

/// The XBin header up to the picture data: id, end of file byte, size,
/// font height, flags, then the palette and the font where the flags
/// announce them.
pub open spec fn xb_head(b: Buffer) -> Seq<u8> {
    let fh: u8 = match b.font {
        None => 16,
        Some(f) => f.size.height as u8,
    };
    seq![88u8, 66u8, 73u8, 78u8, 26u8] + le16(b.width) + le16(b.height) + seq![fh, xb_flags(b)] + (if b.palette.colors@
        != dos_default_palette() {
        packed_colors(sixteen_colors(b.palette.colors@))
    } else {
        Seq::empty()
    }) + xb_font_data(b)
}

pub open spec fn xb_font_len(b: Buffer) -> int {
    match b.font {
        None => 0,
        Some(f) => f.data@.len() as int,
    }
}

/// The XBin header of the picture, or the font that it cannot hold.
fn xb_header(buf: &Buffer) -> (res: Result<Vec<u8>, SaveError>)
    ensures
        !xb_font_ok(*buf) ==> res == Err::<Vec<u8>, SaveError>(SaveError::UnsupportedFont),
        xb_font_ok(*buf) ==> res is Ok && res->Ok_0@ == xb_head(*buf) && res->Ok_0@.len() <= 59 + xb_font_len(*buf),
{
    let mut result: Vec<u8> = Vec::new();
    result.push(88);
    result.push(66);
    result.push(73);
    result.push(78);
    result.push(26);
    result.push((buf.width % 256) as u8);
    result.push((buf.width / 256) as u8);
    result.push((buf.height % 256) as u8);
    result.push((buf.height / 256) as u8);
    let mut flags: u8 = 0;
    match &buf.font {
        Some(font) => {
            if font.size.width != 8 || font.size.height < 1 || font.size.height > 32 {
                return Err(SaveError::UnsupportedFont);
            }
            result.push(font.size.height as u8);
            flags = flags + 2;
        },
        None => {
            result.push(16);
        },
    }
    let custom_palette = !buf.palette.is_default();
    if custom_palette {
        flags = flags + 1;
    }
    flags = flags + 4;
    if buf.buffer_type.use_ice_colors() {
        flags = flags + 8;
    }
    if buf.buffer_type.use_extended_font() {
        flags = flags + 16;
    }
    result.push(flags);
    if custom_palette {
        let pal = buf.palette.to_16color_vec();
        let mut i: usize = 0;
        let ghost before = result@;
        while i < pal.len()
            invariant
                i <= pal.len(),
                result@ == before + pal@.subrange(0, i as int),
            decreases pal.len() - i,
        {
            result.push(pal[i]);
            proof {
                assert(result@ =~= before + pal@.subrange(0, i + 1));
            }
            i = i + 1;
        }
        assert(pal@.subrange(0, pal@.len() as int) =~= pal@);
    }
    if let Some(font) = &buf.font {
        let mut i: usize = 0;
        let ghost before = result@;
        while i < font.data.len()
            invariant
                i <= font.data.len(),
                result@ == before + Seq::new(i as nat, |k: int| font.data@[k] as u8),
            decreases font.data.len() - i,
        {
            result.push(font.data[i] as u8);
            proof {
                assert(result@ =~= before + Seq::new((i + 1) as nat, |k: int| font.data@[k] as u8));
            }
            i = i + 1;
        }
    }
    proof {
        assert(result@ =~= xb_head(*buf));
        assert(packed_colors(sixteen_colors(buf.palette.colors@)).len() == 48);
    }
    Ok(result)
}

/// What writing an XBin file gives: an error for a font the format cannot
/// hold or for too many comments; else the header, cells that decode back
/// to the picture's, and the SAUCE record when the buffer asks for one.
pub open spec fn xb_saved(buf: Buffer, res: Result<Vec<u8>, SaveError>) -> bool {
    &&& !xb_font_ok(buf) ==> res == Err::<Vec<u8>, SaveError>(SaveError::UnsupportedFont)
    &&& xb_font_ok(buf) && buf.write_sauce && buf.comments@.len() > 255 ==> res == Err::<Vec<u8>, SaveError>(
        SaveError::Sauce(SauceError::TooManyComments),
    )
    &&& xb_font_ok(buf) && !(buf.write_sauce && buf.comments@.len() > 255) ==> res is Ok && ({
            let v = res->Ok_0@;
            let h = xb_head(buf).len() as int;
            let n = if buf.write_sauce {
                v.len() - 1 - sauce_head(buf, 0).len() - sauce_tail(buf, SauceFileType::XBin).len()
            } else {
                v.len() as int
            };
            &&& h <= n <= v.len()
            &&& v.subrange(0, h) == xb_head(buf)
            &&& xb_packs(v.subrange(h, n), screen_cells(buf))
            &&& v.subrange(h, n) == runs_bytes(
                backtrack_runs(screen_cells(buf), 0, buf.width * buf.height, Compression::Off, 0, DosChar::spec_new()),
            )
            &&& buf.write_sauce ==> v.subrange(n, v.len() as int) == seq![26u8] + sauce_head(buf, (n + 1) as u32)
                + sauce_tail(buf, SauceFileType::XBin)
        })
}

/// Writes the picture as an XBin file: the header, the cells compressed,
/// and a SAUCE record when the buffer asks for one.
pub fn convert_to_xb(buf: &Buffer) -> (res: Result<Vec<u8>, SaveError>)
    requires
        59 + xb_font_len(*buf) + 3 * buf.width * buf.height + 1 + sauce_head(*buf, 0).len() + sauce_tail(
            *buf,
            SauceFileType::XBin,
        ).len() + 400 <= usize::MAX,
    ensures
        xb_saved(*buf, res),
{
    let mut result = match xb_header(buf) {
        Ok(v) => v,
        Err(e) => {
            return Err(e);
        },
    };
    proof {
        assert(buf.width * buf.height <= 3 * buf.width * buf.height) by (nonlinear_arith);
        assert(3 * buf.width * buf.height == 3 * (buf.width * buf.height)) by (nonlinear_arith);
    }
    let ghost h = result@;
    compress_backtrack(&mut result, buf);
    let ghost body = result@;
    proof {
        assert(body.subrange(0, h.len() as int) =~= h);
        let data = body.subrange(h.len() as int, body.len() as int);
        assert(xb_packs(data, screen_cells(*buf)));
        assert(data =~= runs_bytes(
            backtrack_runs(screen_cells(*buf), 0, buf.width * buf.height, Compression::Off, 0, DosChar::spec_new()),
        ));
        assert(screen_cells(*buf).len() == buf.width * buf.height);
        assert(body.len() == h.len() + data.len());
        assert(3 * buf.width * buf.height == 3 * (buf.width * buf.height)) by (nonlinear_arith);
    }
    if buf.write_sauce {
        match buf.write_sauce_info(&SauceFileType::XBin, &mut result) {
            Ok(_) => {},
            Err(e) => {
                return Err(SaveError::Sauce(e));
            },
        }
        proof {
            let v = result@;
            let n = body.len() as int;
            assert(v.subrange(0, n) =~= body);
            assert(v.subrange(n, v.len() as int) =~= seq![26u8] + sauce_head(*buf, (n + 1) as u32) + sauce_tail(*buf, SauceFileType::XBin));
            assert(sauce_head(*buf, (n + 1) as u32).len() == sauce_head(*buf, 0).len());
            assert(v.subrange(0, h.len() as int) =~= h);
            assert(v.subrange(h.len() as int, n) =~= body.subrange(h.len() as int, n));
        }
    }
    Ok(result)
}

} // verus!
