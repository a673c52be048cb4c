use vstd::prelude::*;

use crate::buffer::Buffer;
use crate::dos_char::DosChar;
use crate::layer::{grid_get, grid_of, grid_set, lemma_layer_read_after_write, shown, Layer, Line};
use crate::position::Position;

verus! {

/// A reversible edit of a buffer, kept on its undo and redo stacks.
pub enum UndoOperation {
    /// Cell `pos` of layer `layer` showed `old` and was set to `new`.
    SetChar { layer: usize, pos: Position, old: DosChar, new: DosChar },
    /// The cells at `pos1` and `pos2` of layer `layer` were exchanged.
    SwapChar { layer: usize, pos1: Position, pos2: Position },
    /// Layer `layer_num` was emptied; `lines` are its former rows.
    ClearLayer { layer_num: usize, lines: Vec<Line> },
    /// All layers and the size were replaced at once.
    ReplaceLayers { old_layers: Vec<Layer>, new_layers: Vec<Layer>, old_size: (u16, u16), new_size: (u16, u16) },
    /// A group of edits undone and redone together; the most recent edit
    /// comes first.
    Atomic { stack: Vec<UndoOperation> },
}

/// What the edits change: the cells of every layer, and the size.
pub struct LState {
    pub grids: Seq<Seq<Seq<DosChar>>>,
    pub width: u16,
    pub height: u16,
}

pub open spec fn grids_of(layers: Seq<Layer>) -> Seq<Seq<Seq<DosChar>>> {
    Seq::new(layers.len(), |l: int| layers[l].grid())
}

/// Cell `pos` of layer `l` set to `c`; a missing layer changes nothing.
pub open spec fn set_cell(s: LState, l: int, pos: Position, c: DosChar) -> LState {
    if 0 <= l < s.grids.len() {
        LState { grids: s.grids.update(l, grid_set(s.grids[l], pos.x as int, pos.y as int, c)), ..s }
    } else {
        s
    }
}

/// The cells that layer `l` shows at `p1` and `p2` exchanged.
pub open spec fn swap_cells(s: LState, l: int, p1: Position, p2: Position) -> LState {
    if 0 <= l < s.grids.len() {
        let g = s.grids[l];
        let c1 = grid_get(g, p1.x as int, p1.y as int);
        let c2 = grid_get(g, p2.x as int, p2.y as int);
        let g1 = grid_set(grid_set(g, p1.x as int, p1.y as int, c2), p2.x as int, p2.y as int, c1);
        LState { grids: s.grids.update(l, g1), ..s }
    } else {
        s
    }
}

/// The rows of layer `l` replaced.
pub open spec fn set_rows(s: LState, l: int, g: Seq<Seq<DosChar>>) -> LState {
    if 0 <= l < s.grids.len() {
        LState { grids: s.grids.update(l, g), ..s }
    } else {
        s
    }
}

/// Taking an edit back.
pub open spec fn undo_state(s: LState, op: UndoOperation) -> LState
    decreases op, 0int,
{
    match op {
        UndoOperation::SetChar { layer, pos, old, new } => set_cell(s, layer as int, pos, old),
        UndoOperation::SwapChar { layer, pos1, pos2 } => swap_cells(s, layer as int, pos1, pos2),
        UndoOperation::ClearLayer { layer_num, lines } => set_rows(s, layer_num as int, grid_of(lines@)),
        UndoOperation::ReplaceLayers { old_layers, new_layers, old_size, new_size } => LState {
            grids: grids_of(old_layers@),
            width: old_size.0,
            height: old_size.1,
        },
        UndoOperation::Atomic { stack } => undo_upto(s, stack@, stack@.len() as int),
    }
}

/// Taking back the first `n` edits of a group, most recent first.
pub open spec fn undo_upto(s: LState, ops: Seq<UndoOperation>, n: int) -> LState
    decreases ops, n,
{
    if n <= 0 || n > ops.len() {
        s
    } else {
        undo_state(undo_upto(s, ops, n - 1), ops[n - 1])
    }
}

/// Making an edit (again).
pub open spec fn redo_state(s: LState, op: UndoOperation) -> LState
    decreases op, 0int,
{
    match op {
        UndoOperation::SetChar { layer, pos, old, new } => set_cell(s, layer as int, pos, new),
        UndoOperation::SwapChar { layer, pos1, pos2 } => swap_cells(s, layer as int, pos1, pos2),
        UndoOperation::ClearLayer { layer_num, lines } => set_rows(s, layer_num as int, Seq::empty()),
        UndoOperation::ReplaceLayers { old_layers, new_layers, old_size, new_size } => LState {
            grids: grids_of(new_layers@),
            width: new_size.0,
            height: new_size.1,
        },
        UndoOperation::Atomic { stack } => redo_upto(s, stack@, stack@.len() as int),
    }
}

/// Making the last `n` edits of a group again, oldest first.
pub open spec fn redo_upto(s: LState, ops: Seq<UndoOperation>, n: int) -> LState
    decreases ops, n,
{
    if n <= 0 || n > ops.len() {
        s
    } else {
        redo_state(redo_upto(s, ops, n - 1), ops[ops.len() - n])
    }
}

/// An edit recorded from state `s`: what it says was there is what `s`
/// shows, and the cells it exchanges are on the canvas.
pub open spec fn fits(s: LState, op: UndoOperation) -> bool
    decreases op, 0int,
{
    match op {
        UndoOperation::SetChar { layer, pos, old, new } => (layer as int) < s.grids.len() ==> old == grid_get(
            s.grids[layer as int],
            pos.x as int,
            pos.y as int,
        ),
        UndoOperation::SwapChar { layer, pos1, pos2 } => (layer as int) < s.grids.len() ==> (0 <= pos1.x && 0 <= pos1.y
            && 0 <= pos2.x && 0 <= pos2.y),
        UndoOperation::ClearLayer { layer_num, lines } => (layer_num as int) < s.grids.len() ==> grid_of(lines@)
            == s.grids[layer_num as int],
        UndoOperation::ReplaceLayers { old_layers, new_layers, old_size, new_size } => grids_of(old_layers@) == s.grids
            && old_size == (s.width, s.height),
        UndoOperation::Atomic { stack } => fits_upto(s, stack@, stack@.len() as int),
    }
}

/// The last `n` edits of a group were each recorded from the state the
/// ones before them left.
pub open spec fn fits_upto(s: LState, ops: Seq<UndoOperation>, n: int) -> bool
    decreases ops, n,
{
    if n <= 0 || n > ops.len() {
        true
    } else {
        fits_upto(s, ops, n - 1) && fits(redo_upto(s, ops, n - 1), ops[ops.len() - n])
    }
}

/// Two states show the same picture: the same size, as many layers, and
/// every layer shows the same cell everywhere.
pub open spec fn shown_eq(s: LState, t: LState) -> bool {
    &&& s.grids.len() == t.grids.len()
    &&& s.width == t.width
    &&& s.height == t.height
    &&& forall|l: int, x: int, y: int|
        0 <= l < s.grids.len() ==> #[trigger] grid_get(s.grids[l], x, y) == grid_get(t.grids[l], x, y)
}

proof fn lemma_get_set(g: Seq<Seq<DosChar>>, h: Seq<Seq<DosChar>>, px: int, py: int, c: DosChar)
    requires
        forall|x: int, y: int| #[trigger] grid_get(g, x, y) == grid_get(h, x, y),
    ensures
        forall|x: int, y: int| #[trigger] grid_get(grid_set(g, px, py, c), x, y) == grid_get(grid_set(h, px, py, c), x, y),
{
    assert forall|x: int, y: int| #[trigger] grid_get(grid_set(g, px, py, c), x, y) == grid_get(grid_set(h, px, py, c), x, y) by {
        if px >= 0 && py >= 0 {
            lemma_layer_read_after_write(g, px, py, c, x, y);
            lemma_layer_read_after_write(h, px, py, c, x, y);
        }
    }
}

proof fn lemma_shown_fixed(c: DosChar, g: Seq<Seq<DosChar>>, x: int, y: int)
    ensures
        shown(grid_get(g, x, y)) == grid_get(g, x, y),
{
}

/// Edits act on what the layers show: states that show the same picture
/// still do after the same undo or redo.
proof fn lemma_congruent(s: LState, t: LState, op: UndoOperation)
    requires
        shown_eq(s, t),
    ensures
        shown_eq(undo_state(s, op), undo_state(t, op)),
        shown_eq(redo_state(s, op), redo_state(t, op)),
    decreases op, 0int,
{
    match op {
        UndoOperation::SetChar { layer, pos, old, new } => {
            lemma_congruent_set(s, t, layer as int, pos, old);
            lemma_congruent_set(s, t, layer as int, pos, new);
        },
        UndoOperation::SwapChar { layer, pos1, pos2 } => {
            let l = layer as int;
            if 0 <= l < s.grids.len() {
                let g = s.grids[l];
                let h = t.grids[l];
                assert forall|x: int, y: int| #[trigger] grid_get(g, x, y) == grid_get(h, x, y) by {
                    assert(grid_get(s.grids[l], x, y) == grid_get(t.grids[l], x, y));
                }
                let c1 = grid_get(g, pos1.x as int, pos1.y as int);
                let c2 = grid_get(g, pos2.x as int, pos2.y as int);
                lemma_get_set(g, h, pos1.x as int, pos1.y as int, c2);
                lemma_get_set(grid_set(g, pos1.x as int, pos1.y as int, c2), grid_set(h, pos1.x as int, pos1.y as int, c2), pos2.x as int, pos2.y as int, c1);
                let u = swap_cells(s, l, pos1, pos2);
                let v = swap_cells(t, l, pos1, pos2);
                assert forall|k: int, x: int, y: int| 0 <= k < u.grids.len() implies #[trigger] grid_get(u.grids[k], x, y) == grid_get(v.grids[k], x, y) by {
                    if k != l {
                        assert(grid_get(s.grids[k], x, y) == grid_get(t.grids[k], x, y));
                    }
                }
            }
        },
        UndoOperation::ClearLayer { layer_num, lines } => {
            let l = layer_num as int;
            let u = undo_state(s, op);
            let v = undo_state(t, op);
            assert forall|k: int, x: int, y: int| 0 <= k < u.grids.len() implies #[trigger] grid_get(u.grids[k], x, y) == grid_get(v.grids[k], x, y) by {
                if k != l {
                    assert(grid_get(s.grids[k], x, y) == grid_get(t.grids[k], x, y));
                }
            }
            let u2 = redo_state(s, op);
            let v2 = redo_state(t, op);
            assert forall|k: int, x: int, y: int| 0 <= k < u2.grids.len() implies #[trigger] grid_get(u2.grids[k], x, y) == grid_get(v2.grids[k], x, y) by {
                if k != l {
                    assert(grid_get(s.grids[k], x, y) == grid_get(t.grids[k], x, y));
                }
            }
        },
        UndoOperation::ReplaceLayers { old_layers, new_layers, old_size, new_size } => {},
        UndoOperation::Atomic { stack } => {
            lemma_congruent_upto(s, t, stack@, stack@.len() as int);
        },
    }
}

proof fn lemma_congruent_set(s: LState, t: LState, l: int, pos: Position, c: DosChar)
    requires
        shown_eq(s, t),
    ensures
        shown_eq(set_cell(s, l, pos, c), set_cell(t, l, pos, c)),
{
    if 0 <= l < s.grids.len() {
        let g = s.grids[l];
        let h = t.grids[l];
        assert forall|x: int, y: int| #[trigger] grid_get(g, x, y) == grid_get(h, x, y) by {
            assert(grid_get(s.grids[l], x, y) == grid_get(t.grids[l], x, y));
        }
        lemma_get_set(g, h, pos.x as int, pos.y as int, c);
        let u = set_cell(s, l, pos, c);
        let v = set_cell(t, l, pos, c);
        assert forall|k: int, x: int, y: int| 0 <= k < u.grids.len() implies #[trigger] grid_get(u.grids[k], x, y) == grid_get(v.grids[k], x, y) by {
            if k != l {
                assert(grid_get(s.grids[k], x, y) == grid_get(t.grids[k], x, y));
            }
        }
    }
}

proof fn lemma_congruent_upto(s: LState, t: LState, ops: Seq<UndoOperation>, n: int)
    requires
        shown_eq(s, t),
    ensures
        shown_eq(undo_upto(s, ops, n), undo_upto(t, ops, n)),
        shown_eq(redo_upto(s, ops, n), redo_upto(t, ops, n)),
    decreases ops, n,
{
    if 0 < n <= ops.len() {
        lemma_congruent_upto(s, t, ops, n - 1);
        lemma_congruent(undo_upto(s, ops, n - 1), undo_upto(t, ops, n - 1), ops[n - 1]);
        lemma_congruent(redo_upto(s, ops, n - 1), redo_upto(t, ops, n - 1), ops[ops.len() - n]);
    }
}

proof fn lemma_shown_eq_trans(a: LState, b: LState, c: LState)
    requires
        shown_eq(a, b),
        shown_eq(b, c),
    ensures
        shown_eq(a, c),
{
    assert forall|l: int, x: int, y: int| 0 <= l < a.grids.len() implies #[trigger] grid_get(a.grids[l], x, y) == grid_get(c.grids[l], x, y) by {
        assert(grid_get(a.grids[l], x, y) == grid_get(b.grids[l], x, y));
        assert(grid_get(b.grids[l], x, y) == grid_get(c.grids[l], x, y));
    }
}

proof fn lemma_shown_eq_refl(a: LState)
    ensures
        shown_eq(a, a),
{
}

/// Taking back an edit recorded from a state shows that state's picture
/// again.
pub proof fn lemma_undo_restores(s: LState, op: UndoOperation)
    requires
        fits(s, op),
    ensures
        shown_eq(undo_state(redo_state(s, op), op), s),
    decreases op, 0int,
{
    match op {
        UndoOperation::SetChar { layer, pos, old, new } => {
            let l = layer as int;
            if 0 <= l < s.grids.len() {
                let g = s.grids[l];
                let g1 = grid_set(g, pos.x as int, pos.y as int, new);
                let g2 = grid_set(g1, pos.x as int, pos.y as int, old);
                let u = undo_state(redo_state(s, op), op);
                assert(u.grids[l] == g2);
                assert forall|k: int, x: int, y: int| 0 <= k < u.grids.len() implies #[trigger] grid_get(u.grids[k], x, y) == grid_get(s.grids[k], x, y) by {
                    if k == l && pos.x >= 0 && pos.y >= 0 {
                        lemma_layer_read_after_write(g, pos.x as int, pos.y as int, new, x, y);
                        lemma_layer_read_after_write(g1, pos.x as int, pos.y as int, old, x, y);
                    }
                }
            }
        },
        UndoOperation::SwapChar { layer, pos1, pos2 } => {
            let l = layer as int;
            if 0 <= l < s.grids.len() {
                let g = s.grids[l];
                let (x1, y1, x2, y2) = (pos1.x as int, pos1.y as int, pos2.x as int, pos2.y as int);
                let c1 = grid_get(g, x1, y1);
                let c2 = grid_get(g, x2, y2);
                let ga = grid_set(g, x1, y1, c2);
                let gb = grid_set(ga, x2, y2, c1);
                let d1 = grid_get(gb, x1, y1);
                let d2 = grid_get(gb, x2, y2);
                let gc = grid_set(gb, x1, y1, d2);
                let gd = grid_set(gc, x2, y2, d1);
                let u = undo_state(redo_state(s, op), op);
                assert(u.grids[l] == gd);
                assert forall|k: int, x: int, y: int| 0 <= k < u.grids.len() implies #[trigger] grid_get(u.grids[k], x, y) == grid_get(s.grids[k], x, y) by {
                    if k == l {
                        lemma_layer_read_after_write(g, x1, y1, c2, x, y);
                        lemma_layer_read_after_write(ga, x2, y2, c1, x, y);
                        lemma_layer_read_after_write(gb, x1, y1, d2, x, y);
                        lemma_layer_read_after_write(gc, x2, y2, d1, x, y);
                        lemma_layer_read_after_write(g, x1, y1, c2, x2, y2);
                        lemma_layer_read_after_write(ga, x2, y2, c1, x1, y1);
                        lemma_layer_read_after_write(g, x1, y1, c2, x1, y1);
                    }
                }
            }
        },
        UndoOperation::ClearLayer { layer_num, lines } => {
            let u = undo_state(redo_state(s, op), op);
            if (layer_num as int) < s.grids.len() {
                assert(u.grids =~= s.grids);
            } else {
                assert(u.grids =~= s.grids);
            }
        },
        UndoOperation::ReplaceLayers { old_layers, new_layers, old_size, new_size } => {},
        UndoOperation::Atomic { stack } => {
            let n = stack@.len() as int;
            lemma_undo_upto_restores(s, stack@, n, n);
        },
    }
}

/// After making the last `n` edits of a group, taking back the first `j`
/// of them shows what the state before the last `n - j` edits showed.
proof fn lemma_undo_upto_restores(s: LState, ops: Seq<UndoOperation>, n: int, j: int)
    requires
        0 <= j <= n <= ops.len(),
        n == ops.len(),
        fits_upto(s, ops, n),
    ensures
        shown_eq(undo_upto(redo_upto(s, ops, n), ops, j), redo_upto(s, ops, n - j)),
    decreases ops, j,
{
    if j == 0 {
        lemma_shown_eq_refl(redo_upto(s, ops, n));
    } else {
        lemma_undo_upto_restores(s, ops, n, j - 1);
        let m = n - j + 1;
        lemma_fits_upto_prefix(s, ops, n, m);
        let before = redo_upto(s, ops, m - 1);
        let op = ops[ops.len() - m];
        assert(ops.len() - m == j - 1);
        let cur = undo_upto(redo_upto(s, ops, n), ops, j - 1);
        lemma_congruent(cur, redo_upto(s, ops, m), op);
        lemma_undo_restores(before, op);
        lemma_shown_eq_trans(undo_state(cur, op), undo_state(redo_upto(s, ops, m), op), before);
    }
}

proof fn lemma_fits_upto_prefix(s: LState, ops: Seq<UndoOperation>, n: int, m: int)
    requires
        0 < m <= n <= ops.len(),
        fits_upto(s, ops, n),
    ensures
        fits(redo_upto(s, ops, m - 1), ops[ops.len() - m]),
    decreases n,
{
    if m < n {
        lemma_fits_upto_prefix(s, ops, n - 1, m);
    }
}

/// The state after making the first `n` edits of `ps` one after another.
pub open spec fn chain(s: LState, ps: Seq<UndoOperation>, n: int) -> LState
    decreases n,
{
    if n <= 0 {
        s
    } else {
        redo_state(chain(s, ps, n - 1), ps[n - 1])
    }
}

/// Each of the first `n` edits of `ps` was recorded from the state the
/// ones before it left.
pub open spec fn chain_fits(s: LState, ps: Seq<UndoOperation>, n: int) -> bool
    decreases n,
{
    n <= 0 || (chain_fits(s, ps, n - 1) && fits(chain(s, ps, n - 1), ps[n - 1]))
}

proof fn lemma_chain_prefix(s: LState, ps: Seq<UndoOperation>, op: UndoOperation, n: int)
    requires
        0 <= n <= ps.len(),
    ensures
        chain(s, ps.push(op), n) == chain(s, ps, n),
        chain_fits(s, ps.push(op), n) == chain_fits(s, ps, n),
    decreases n,
{
    if n > 0 {
        lemma_chain_prefix(s, ps, op, n - 1);
        assert(ps.push(op)[n - 1] == ps[n - 1]);
    }
}

/// Recording one more edit extends the chain.
pub proof fn lemma_chain_push(s: LState, ps: Seq<UndoOperation>, op: UndoOperation)
    ensures
        chain(s, ps.push(op), ps.len() + 1int) == redo_state(chain(s, ps, ps.len() as int), op),
        chain_fits(s, ps.push(op), ps.len() + 1int) == (chain_fits(s, ps, ps.len() as int) && fits(
            chain(s, ps, ps.len() as int),
            op,
        )),
{
    lemma_chain_prefix(s, ps, op, ps.len() as int);
    assert(ps.push(op)[ps.len() as int] == op);
}

/// Edits of single cells keep the number of layers.
pub proof fn lemma_chain_len(s: LState, ps: Seq<UndoOperation>, n: int)
    requires
        0 <= n <= ps.len(),
        forall|i: int| 0 <= i < n ==> (#[trigger] ps[i]) is SetChar,
    ensures
        chain(s, ps, n).grids.len() == s.grids.len(),
        chain(s, ps, n).width == s.width,
        chain(s, ps, n).height == s.height,
    decreases n,
{
    if n > 0 {
        lemma_chain_len(s, ps, n - 1);
    }
}

/// A group of edits, stored most recent first, is made and checked in the
/// order the edits were made.
pub proof fn lemma_chain_group(s: LState, ps: Seq<UndoOperation>, n: int)
    requires
        0 <= n <= ps.len(),
    ensures
        redo_upto(s, ps.reverse(), n) == chain(s, ps, n),
        fits_upto(s, ps.reverse(), n) == chain_fits(s, ps, n),
    decreases n,
{
    if n > 0 {
        lemma_chain_group(s, ps, n - 1);
        assert(ps.reverse()[ps.reverse().len() - n] == ps[n - 1]);
    }
}

/// The part of a buffer that edits change.
pub open spec fn lstate(b: Buffer) -> LState {
    LState { grids: grids_of(b.layers@), width: b.width, height: b.height }
}

fn copy_line(l: &Line) -> (r: Line)
    ensures
        r.chars@ == l.chars@,
{
    let mut chars: Vec<DosChar> = Vec::new();
    let mut i: usize = 0;
    while i < l.chars.len()
        invariant
            i <= l.chars.len(),
            chars@ == l.chars@.subrange(0, i as int),
        decreases l.chars.len() - i,
    {
        chars.push(l.chars[i]);
        assert(chars@ =~= l.chars@.subrange(0, i + 1));
        i = i + 1;
    }
    assert(chars@ =~= l.chars@);
    Line { chars }
}

/// A copy of rows.
pub fn copy_lines(v: &Vec<Line>) -> (r: Vec<Line>)
    ensures
        grid_of(r@) == grid_of(v@),
{
    let mut res: Vec<Line> = Vec::new();
    let mut i: usize = 0;
    while i < v.len()
        invariant
            i <= v.len(),
            res.len() == i,
            forall|k: int| 0 <= k < i ==> #[trigger] res@[k].chars@ == v@[k].chars@,
        decreases v.len() - i,
    {
        let l = copy_line(&v[i]);
        res.push(l);
        i = i + 1;
    }
    assert(grid_of(res@) =~= grid_of(v@));
    res
}

fn copy_layer(l: &Layer) -> (r: Layer)
    ensures
        r.grid() == l.grid(),
        r.name == l.name,
        r.is_visible == l.is_visible,
        r.size == l.size,
{
    Layer { name: l.name.clone(), is_visible: l.is_visible, size: l.size, lines: copy_lines(&l.lines) }
}

/// A copy of layers.
pub fn copy_layers(v: &Vec<Layer>) -> (r: Vec<Layer>)
    ensures
        grids_of(r@) == grids_of(v@),
        r.len() == v.len(),
        forall|i: int| 0 <= i < v.len() ==> #[trigger] r@[i].is_visible == v@[i].is_visible && r@[i].name == v@[i].name,
{
    let mut res: Vec<Layer> = Vec::new();
    let mut i: usize = 0;
    while i < v.len()
        invariant
            i <= v.len(),
            res.len() == i,
            forall|k: int| 0 <= k < i ==> #[trigger] res@[k].grid() == v@[k].grid(),
            forall|k: int| 0 <= k < i ==> #[trigger] res@[k].is_visible == v@[k].is_visible && res@[k].name == v@[k].name,
        decreases v.len() - i,
    {
        let l = copy_layer(&v[i]);
        res.push(l);
        i = i + 1;
    }
    assert(grids_of(res@) =~= grids_of(v@));
    res
}

impl UndoOperation {
    /// Takes the edit back on `buf`.
    pub fn undo(&self, buf: &mut Buffer)
        ensures
            lstate(*final(buf)) == undo_state(lstate(*old(buf)), *self),
            Buffer::same_meta(*old(buf), *final(buf)),
        decreases self,
    {
        match self {
            UndoOperation::SetChar { layer, pos, old: prev, new: _ } => {
                buf.set_char(*layer, *pos, *prev);
                assert(lstate(*buf).grids =~= undo_state(lstate(*old(buf)), *self).grids);
            },
            UndoOperation::SwapChar { layer, pos1, pos2 } => {
                if *layer < buf.layers.len() {
                    buf.layers[*layer].swap_char(*pos1, *pos2);
                }
                assert(lstate(*buf).grids =~= undo_state(lstate(*old(buf)), *self).grids);
            },
            UndoOperation::ClearLayer { layer_num, lines } => {
                if *layer_num < buf.layers.len() {
                    let v = copy_lines(lines);
                    buf.layers[*layer_num].set_lines(v);
                }
                assert(lstate(*buf).grids =~= undo_state(lstate(*old(buf)), *self).grids);
            },
            UndoOperation::ReplaceLayers { old_layers, new_layers, old_size, new_size } => {
                buf.layers = copy_layers(old_layers);
                buf.width = old_size.0;
                buf.height = old_size.1;
            },
            UndoOperation::Atomic { stack } => {
                let ghost s0 = lstate(*buf);
                let mut i: usize = 0;
                while i < stack.len()
                    invariant
                        i <= stack.len(),
                        lstate(*buf) == undo_upto(s0, stack@, i as int),
                        *self == (UndoOperation::Atomic { stack: *stack }),
                        Buffer::same_meta(*old(buf), *buf),
                    decreases stack.len() - i,
                {
                    proof {
                        assert(decreases_to!(*self => self->stack));
                        assert(decreases_to!(*stack => stack@));
                        assert(decreases_to!(stack@ => stack@[i as int]));
                    }
                    stack[i].undo(buf);
                    i = i + 1;
                }
            },
        }
    }

    /// Makes the edit (again) on `buf`.
    pub fn redo(&self, buf: &mut Buffer)
        ensures
            lstate(*final(buf)) == redo_state(lstate(*old(buf)), *self),
            Buffer::same_meta(*old(buf), *final(buf)),
        decreases self,
    {
        match self {
            UndoOperation::SetChar { layer, pos, old: _, new: next } => {
                buf.set_char(*layer, *pos, *next);
                assert(lstate(*buf).grids =~= redo_state(lstate(*old(buf)), *self).grids);
            },
            UndoOperation::SwapChar { layer, pos1, pos2 } => {
                if *layer < buf.layers.len() {
                    buf.layers[*layer].swap_char(*pos1, *pos2);
                }
                assert(lstate(*buf).grids =~= redo_state(lstate(*old(buf)), *self).grids);
            },
            UndoOperation::ClearLayer { layer_num, lines } => {
                if *layer_num < buf.layers.len() {
                    buf.layers[*layer_num].set_lines(Vec::new());
                    assert(buf.layers@[*layer_num as int].grid() =~= Seq::<Seq<DosChar>>::empty());
                }
                assert(lstate(*buf).grids =~= redo_state(lstate(*old(buf)), *self).grids);
            },
            UndoOperation::ReplaceLayers { old_layers, new_layers, old_size, new_size } => {
                buf.layers = copy_layers(new_layers);
                buf.width = new_size.0;
                buf.height = new_size.1;
            },
            UndoOperation::Atomic { stack } => {
                let ghost s0 = lstate(*buf);
                let n = stack.len();
                let mut i: usize = 0;
                while i < n
                    invariant
                        i <= n,
                        n == stack.len(),
                        lstate(*buf) == redo_upto(s0, stack@, i as int),
                        *self == (UndoOperation::Atomic { stack: *stack }),
                        Buffer::same_meta(*old(buf), *buf),
                    decreases n - i,
                {
                    proof {
                        assert(decreases_to!(*self => self->stack));
                        assert(decreases_to!(*stack => stack@));
                        assert(decreases_to!(stack@ => stack@[n - 1 - i]));
                    }
                    stack[n - 1 - i].redo(buf);
                    i = i + 1;
                }
            },
        }
    }
}

} // verus!
