use vstd::prelude::*;

use crate::dos_char::DosChar;
use crate::overlay_layer::OverlayLayer;
use crate::position::{Position, Size};

verus! {

/// One row of a layer.
#[derive(Clone, Debug)]
pub struct Line {
    pub chars: Vec<DosChar>,
}

impl Line {
    pub fn new() -> (l: Self)
        ensures
            l.chars@ == Seq::<DosChar>::empty(),
    {
        Line { chars: Vec::new() }
    }
}

/// The rows of a layer as a sequence of rows of cells.
pub open spec fn grid_of(lines: Seq<Line>) -> Seq<Seq<DosChar>> {
    Seq::new(lines.len(), |i: int| lines[i].chars@)
}

/// `g` with row `y` extended by default cells to at least `x + 1` cells and
/// rows appended so that row `y` exists.
pub open spec fn grid_grow(g: Seq<Seq<DosChar>>, x: int, y: int) -> Seq<Seq<DosChar>> {
    let g1 = if y >= g.len() {
        g + Seq::new((y + 1 - g.len()) as nat, |i: int| Seq::<DosChar>::empty())
    } else {
        g
    };
    let row = g1[y];
    let row1 = if x >= row.len() {
        row + Seq::new((x + 1 - row.len()) as nat, |i: int| DosChar::spec_new())
    } else {
        row
    };
    g1.update(y, row1)
}

/// Writing cell `c` at column `x`, row `y`; negative coordinates leave the
/// grid unchanged.
pub open spec fn grid_set(g: Seq<Seq<DosChar>>, x: int, y: int, c: DosChar) -> Seq<Seq<DosChar>> {
    if x < 0 || y < 0 {
        g
    } else {
        let g1 = grid_grow(g, x, y);
        g1.update(y, g1[y].update(x, c))
    }
}

/// The raw cell at a position, if the grid holds one there.
pub open spec fn grid_cell(g: Seq<Seq<DosChar>>, x: int, y: int) -> Option<DosChar> {
    if 0 <= y < g.len() && 0 <= x < g[y].len() {
        Some(g[y][x])
    } else {
        None
    }
}

/// What a layer shows at a position: the stored cell unless it is missing
/// or transparent, in which case the default cell.
pub open spec fn grid_get(g: Seq<Seq<DosChar>>, x: int, y: int) -> DosChar {
    match grid_cell(g, x, y) {
        Some(c) => if c.spec_is_transparent() { DosChar::spec_new() } else { c },
        None => DosChar::spec_new(),
    }
}

/// `g` with the first `n` cells of `row` put on row `y`, skipping the
/// transparent ones.
pub open spec fn join_row(g: Seq<Seq<DosChar>>, row: Seq<DosChar>, y: int, n: int) -> Seq<Seq<DosChar>>
    decreases n,
{
    if n <= 0 {
        g
    } else {
        let g1 = join_row(g, row, y, n - 1);
        let c = row[n - 1];
        if c.spec_is_transparent() {
            g1
        } else {
            grid_set(g1, n - 1, y, c)
        }
    }
}

/// `g` with the first `n` rows of `src` put on it, skipping transparent
/// cells.
pub open spec fn join_rows(g: Seq<Seq<DosChar>>, src: Seq<Seq<DosChar>>, n: int) -> Seq<Seq<DosChar>>
    decreases n,
{
    if n <= 0 {
        g
    } else {
        join_row(join_rows(g, src, n - 1), src[n - 1], n - 1, src[n - 1].len() as int)
    }
}

/// `g` with the first `n` cells of an overlay row put on row `y`, where
/// the overlay holds a cell.
pub open spec fn join_overlay_row(g: Seq<Seq<DosChar>>, row: Seq<Option<DosChar>>, y: int, n: int) -> Seq<Seq<DosChar>>
    decreases n,
{
    if n <= 0 {
        g
    } else {
        let g1 = join_overlay_row(g, row, y, n - 1);
        match row[n - 1] {
            Some(c) => grid_set(g1, n - 1, y, c),
            None => g1,
        }
    }
}

pub open spec fn join_overlay_rows(g: Seq<Seq<DosChar>>, src: Seq<Seq<Option<DosChar>>>, n: int) -> Seq<Seq<DosChar>>
    decreases n,
{
    if n <= 0 {
        g
    } else {
        join_overlay_row(join_overlay_rows(g, src, n - 1), src[n - 1], n - 1, src[n - 1].len() as int)
    }
}

/// A named sheet of cells; the visible picture is the stack of layers.
#[derive(Clone, Debug)]
pub struct Layer {
    pub name: String,
    pub is_visible: bool,
    pub size: Size,
    pub lines: Vec<Line>,
}

impl Layer {
    pub open spec fn grid(&self) -> Seq<Seq<DosChar>> {
        grid_of(self.lines@)
    }

    pub fn new() -> (l: Self)
        ensures
            l.grid() == Seq::<Seq<DosChar>>::empty(),
            l.is_visible,
            l.size.width == 0 && l.size.height == 0,
            l.name@ == "Background"@,
    {
        Layer {
            name: String::from_str("Background"),
            is_visible: true,
            lines: Vec::new(),
            size: Size::new(),
        }
    }

    pub fn clear(&mut self)
        ensures
            final(self).grid() == Seq::<Seq<DosChar>>::empty(),
            final(self).name == old(self).name,
            final(self).is_visible == old(self).is_visible,
            final(self).size == old(self).size,
    {
        self.lines.clear();
        assert(self.grid() =~= Seq::<Seq<DosChar>>::empty());
    }

    pub fn set_char(&mut self, pos: Position, dos_char: DosChar)
        ensures
            final(self).grid() == grid_set(old(self).grid(), pos.x as int, pos.y as int, dos_char),
            final(self).name == old(self).name,
            final(self).is_visible == old(self).is_visible,
            final(self).size == old(self).size,
    {
        if pos.x < 0 || pos.y < 0 {
            return;
        }
        let ghost g0 = self.grid();
        let ghost name0 = self.name;
        let ghost vis0 = self.is_visible;
        let ghost size0 = self.size;
        let y = pos.y as usize;
        let x = pos.x as usize;
        while self.lines.len() <= y
            invariant
                y == pos.y,
                0 <= pos.y,
                self.lines.len() > g0.len() ==> self.lines.len() <= y + 1,
                g0.len() <= self.lines.len(),
                forall|i: int| 0 <= i < g0.len() ==> self.lines@[i].chars@ == g0[i],
                forall|i: int| g0.len() <= i < self.lines.len() ==> self.lines@[i].chars@ == Seq::<DosChar>::empty(),
                self.name == name0,
                self.is_visible == vis0,
                self.size == size0,
            decreases y + 1 - self.lines.len(),
        {
            self.lines.push(Line::new());
        }
        let ghost g1 = self.grid();
        proof {
            let gg = if y >= g0.len() {
                g0 + Seq::new((y + 1 - g0.len()) as nat, |i: int| Seq::<DosChar>::empty())
            } else {
                g0
            };
            assert(g1 =~= gg);
        }
        let ghost row0 = self.lines@[y as int].chars@;
        while self.lines[y].chars.len() <= x
            invariant
                y < self.lines.len(),
                x == pos.x,
                self.lines@[y as int].chars.len() > row0.len() ==> self.lines@[y as int].chars.len() <= x + 1,
                row0.len() <= self.lines@[y as int].chars.len(),
                self.lines.len() == g1.len(),
                forall|i: int| 0 <= i < g1.len() && i != y ==> self.lines@[i].chars@ == g1[i],
                forall|i: int| 0 <= i < row0.len() ==> self.lines@[y as int].chars@[i] == row0[i],
                forall|i: int| row0.len() <= i < self.lines@[y as int].chars.len() ==> self.lines@[y as int].chars@[i] == DosChar::spec_new(),
                self.name == name0,
                self.is_visible == vis0,
                self.size == size0,
            decreases x + 1 - self.lines@[y as int].chars.len(),
        {
            self.lines[y].chars.push(DosChar::new());
        }
        proof {
            let row1 = if x >= row0.len() {
                row0 + Seq::new((x + 1 - row0.len()) as nat, |i: int| DosChar::spec_new())
            } else {
                row0
            };
            assert(self.lines@[y as int].chars@ =~= row1);
            assert(self.grid() =~= grid_grow(g0, x as int, y as int));
        }
        let ghost g2 = self.grid();
        self.lines[y].chars.set(x, dos_char);
        proof {
            assert(self.grid() =~= g2.update(y as int, g2[y as int].update(x as int, dos_char)));
        }
    }

    /// Puts the cells of another layer on this one at the same positions,
    /// except the transparent ones.
    pub fn join(&mut self, layer: &Layer)
        requires
            layer.lines.len() <= i32::MAX,
            forall|y: int| 0 <= y < layer.lines.len() ==> #[trigger] layer.lines@[y].chars.len() <= i32::MAX,
        ensures
            final(self).grid() == join_rows(old(self).grid(), layer.grid(), layer.grid().len() as int),
            final(self).name == old(self).name,
            final(self).is_visible == old(self).is_visible,
            final(self).size == old(self).size,
    {
        let mut y: usize = 0;
        while y < layer.lines.len()
            invariant
                y <= layer.lines.len(),
                layer.lines.len() <= i32::MAX,
                forall|k: int| 0 <= k < layer.lines.len() ==> #[trigger] layer.lines@[k].chars.len() <= i32::MAX,
                self.grid() == join_rows(old(self).grid(), layer.grid(), y as int),
                self.name == old(self).name,
                self.is_visible == old(self).is_visible,
                self.size == old(self).size,
            decreases layer.lines.len() - y,
        {
            let line = &layer.lines[y];
            let ghost row = layer.grid()[y as int];
            let ghost g0 = self.grid();
            let mut x: usize = 0;
            while x < line.chars.len()
                invariant
                    x <= line.chars.len(),
                    line.chars.len() <= i32::MAX,
                    y < layer.lines.len() <= i32::MAX,
                    row == line.chars@,
                    self.grid() == join_row(g0, row, y as int, x as int),
                    self.name == old(self).name,
                    self.is_visible == old(self).is_visible,
                    self.size == old(self).size,
                decreases line.chars.len() - x,
            {
                let ch = line.chars[x];
                if !ch.is_transparent() {
                    self.set_char(Position::from(x as i32, y as i32), ch);
                }
                x = x + 1;
            }
            y = y + 1;
        }
    }

    /// Puts the cells of an overlay on this layer where the overlay holds
    /// one.
    pub fn join_overlay(&mut self, layer: &OverlayLayer)
        requires
            layer.lines.len() <= i32::MAX,
            forall|y: int| 0 <= y < layer.lines.len() ==> #[trigger] layer.lines@[y].chars.len() <= i32::MAX,
        ensures
            final(self).grid() == join_overlay_rows(old(self).grid(), layer.grid(), layer.grid().len() as int),
            final(self).name == old(self).name,
            final(self).is_visible == old(self).is_visible,
            final(self).size == old(self).size,
    {
        let mut y: usize = 0;
        while y < layer.lines.len()
            invariant
                y <= layer.lines.len(),
                layer.lines.len() <= i32::MAX,
                forall|k: int| 0 <= k < layer.lines.len() ==> #[trigger] layer.lines@[k].chars.len() <= i32::MAX,
                self.grid() == join_overlay_rows(old(self).grid(), layer.grid(), y as int),
                self.name == old(self).name,
                self.is_visible == old(self).is_visible,
                self.size == old(self).size,
            decreases layer.lines.len() - y,
        {
            let line = &layer.lines[y];
            let ghost row = layer.grid()[y as int];
            let ghost g0 = self.grid();
            let mut x: usize = 0;
            while x < line.chars.len()
                invariant
                    x <= line.chars.len(),
                    line.chars.len() <= i32::MAX,
                    y < layer.lines.len() <= i32::MAX,
                    row == line.chars@,
                    self.grid() == join_overlay_row(g0, row, y as int, x as int),
                    self.name == old(self).name,
                    self.is_visible == old(self).is_visible,
                    self.size == old(self).size,
                decreases line.chars.len() - x,
            {
                match line.chars[x] {
                    Some(ch) => {
                        self.set_char(Position::from(x as i32, y as i32), ch);
                    },
                    None => {},
                }
                x = x + 1;
            }
            y = y + 1;
        }
    }

    /// Exchanges what the layer shows at two positions.
    pub fn swap_char(&mut self, pos1: Position, pos2: Position)
        ensures
            ({
                let g = old(self).grid();
                let c1 = grid_get(g, pos1.x as int, pos1.y as int);
                let c2 = grid_get(g, pos2.x as int, pos2.y as int);
                final(self).grid() == grid_set(grid_set(g, pos1.x as int, pos1.y as int, c2), pos2.x as int, pos2.y as int, c1)
            }),
            final(self).name == old(self).name,
            final(self).is_visible == old(self).is_visible,
            final(self).size == old(self).size,
    {
        let c1 = self.get_char(pos1);
        let c2 = self.get_char(pos2);
        self.set_char(pos1, c2);
        self.set_char(pos2, c1);
    }

    /// Replaces the rows of the layer.
    pub fn set_lines(&mut self, lines: Vec<Line>)
        ensures
            final(self).lines == lines,
            final(self).name == old(self).name,
            final(self).is_visible == old(self).is_visible,
            final(self).size == old(self).size,
    {
        self.lines = lines;
    }

    /// Removes row `line`; a row the layer does not have changes nothing.
    pub fn remove_line(&mut self, line: i32)
        ensures
            0 <= line < old(self).lines.len() ==> final(self).grid() == old(self).grid().remove(line as int),
            !(0 <= line < old(self).lines.len()) ==> final(self).grid() == old(self).grid(),
            final(self).name == old(self).name,
            final(self).is_visible == old(self).is_visible,
            final(self).size == old(self).size,
    {
        if line >= 0 && (line as usize) < self.lines.len() {
            self.lines.remove(line as usize);
            assert(self.grid() =~= old(self).grid().remove(line as int));
        }
    }

    /// Inserts a row before row `line`; at the end where `line` is the
    /// number of rows, nowhere where it is beyond.
    pub fn insert_line(&mut self, line: i32, new_line: Line)
        ensures
            0 <= line <= old(self).lines.len() ==> final(self).grid() == old(self).grid().insert(line as int, new_line.chars@),
            !(0 <= line <= old(self).lines.len()) ==> final(self).grid() == old(self).grid(),
            final(self).name == old(self).name,
            final(self).is_visible == old(self).is_visible,
            final(self).size == old(self).size,
    {
        if line >= 0 && (line as usize) <= self.lines.len() {
            self.lines.insert(line as usize, new_line);
            assert(self.grid() =~= old(self).grid().insert(line as int, new_line.chars@));
        }
    }

    /// What this layer shows at `pos`.
    pub fn get_char(&self, pos: Position) -> (r: DosChar)
        ensures
            r == grid_get(self.grid(), pos.x as int, pos.y as int),
    {
        if pos.y < 0 || pos.x < 0 {
            return DosChar::new();
        }
        let y = pos.y as usize;
        if self.lines.len() <= y {
            return DosChar::new();
        }
        let x = pos.x as usize;
        if x < self.lines[y].chars.len() {
            let ch = self.lines[y].chars[x];
            if !ch.is_transparent() {
                return ch;
            }
        }
        DosChar::new()
    }
}

/// A write followed by a read at the same position gives back the written
/// cell, or the default cell where the written one is transparent; reads
/// at every other position are unchanged.
pub proof fn lemma_layer_read_after_write(g: Seq<Seq<DosChar>>, x: int, y: int, c: DosChar, qx: int, qy: int)
    requires
        0 <= x,
        0 <= y,
    ensures
        grid_get(grid_set(g, x, y, c), x, y) == (if c.spec_is_transparent() { DosChar::spec_new() } else { c }),
        (qx != x || qy != y) ==> grid_get(grid_set(g, x, y, c), qx, qy) == grid_get(g, qx, qy),
{
    let g2 = grid_set(g, x, y, c);
    let g1 = grid_grow(g, x, y);
    if qx != x || qy != y {
        if 0 <= qy < g.len() && 0 <= qx < g[qy].len() {
            assert(g2[qy][qx] == g[qy][qx]);
        } else if 0 <= qy < g2.len() && 0 <= qx < g2[qy].len() {
            assert(g2[qy][qx] == DosChar::spec_new());
        }
    }
}

/// The column of cell `i` of a run in rows of `w` columns; without columns
/// every cell starts a row of its own.
pub open spec fn run_x(i: int, w: int) -> int {
    if w > 0 {
        i % w
    } else {
        0
    }
}

/// The row of cell `i` of a run in rows of `w` columns.
pub open spec fn run_y(i: int, w: int) -> int {
    if w > 0 {
        i / w
    } else {
        i
    }
}

/// `g` with the cells of `cs` written one after another in rows of `w`
/// columns: cell `i` at column `i % w` of row `i / w`.
pub open spec fn write_run(g: Seq<Seq<DosChar>>, cs: Seq<DosChar>, w: int) -> Seq<Seq<DosChar>>
    decreases cs.len(),
{
    if cs.len() == 0 {
        g
    } else {
        let i = cs.len() - 1;
        grid_set(write_run(g, cs.drop_last(), w), run_x(i, w), run_y(i, w), cs.last())
    }
}

/// What a cell shows when written to a layer.
pub open spec fn shown(c: DosChar) -> DosChar {
    if c.spec_is_transparent() {
        DosChar::spec_new()
    } else {
        c
    }
}

/// After writing a run, the position of each cell of the run shows that
/// cell, and every position the run does not reach shows what it showed.
pub proof fn lemma_write_run_get(g: Seq<Seq<DosChar>>, cs: Seq<DosChar>, w: int, x: int, y: int)
    requires
        w > 0,
        0 <= x < w,
        0 <= y,
    ensures
        y * w + x < cs.len() ==> grid_get(write_run(g, cs, w), x, y) == shown(cs[y * w + x]),
        y * w + x >= cs.len() ==> grid_get(write_run(g, cs, w), x, y) == grid_get(g, x, y),
    decreases cs.len(),
{
    if cs.len() > 0 {
        let i = cs.len() - 1;
        lemma_write_run_get(g, cs.drop_last(), w, x, y);
        let prev = write_run(g, cs.drop_last(), w);
        assert((y * w + x) % w == x && (y * w + x) / w == y) by (nonlinear_arith)
            requires
                w > 0,
                0 <= x < w,
                0 <= y,
        ;
        assert(0 <= i % w < w && i / w >= 0 && (i / w) * w + i % w == i) by (nonlinear_arith)
            requires
                w > 0,
                i >= 0,
        ;
        lemma_layer_read_after_write(prev, i % w, i / w, cs.last(), x, y);
        if y * w + x != i {
            assert(x != i % w || y != i / w);
        }
    }
}

proof fn lemma_join_row_get(g: Seq<Seq<DosChar>>, row: Seq<DosChar>, y: int, n: int, qx: int, qy: int)
    requires
        0 <= y,
        n <= row.len(),
    ensures
        grid_get(join_row(g, row, y, n), qx, qy) == (if qy == y && 0 <= qx < n && !row[qx].spec_is_transparent() {
            row[qx]
        } else {
            grid_get(join_row(g, row, y, 0), qx, qy)
        }),
    decreases n,
{
    if n > 0 {
        lemma_join_row_get(g, row, y, n - 1, qx, qy);
        let c = row[n - 1];
        if !c.spec_is_transparent() {
            lemma_layer_read_after_write(join_row(g, row, y, n - 1), n - 1, y, c, qx, qy);
        }
    }
}

/// Joining a layer onto another: every position where the joined layer
/// holds a non transparent cell shows that cell afterwards; every other
/// position shows what it showed before.
pub proof fn lemma_join_shows(g: Seq<Seq<DosChar>>, src: Seq<Seq<DosChar>>, qx: int, qy: int)
    ensures
        grid_get(join_rows(g, src, src.len() as int), qx, qy) == (if grid_cell(src, qx, qy) matches Some(c)
            && !c.spec_is_transparent() {
            src[qy][qx]
        } else {
            grid_get(g, qx, qy)
        }),
{
    lemma_join_rows_get(g, src, src.len() as int, qx, qy);
}

proof fn lemma_join_rows_get(g: Seq<Seq<DosChar>>, src: Seq<Seq<DosChar>>, n: int, qx: int, qy: int)
    requires
        n <= src.len(),
    ensures
        grid_get(join_rows(g, src, n), qx, qy) == (if 0 <= qy < n && 0 <= qx < src[qy].len()
            && !src[qy][qx].spec_is_transparent() {
            src[qy][qx]
        } else {
            grid_get(g, qx, qy)
        }),
    decreases n,
{
    if n > 0 {
        lemma_join_rows_get(g, src, n - 1, qx, qy);
        lemma_join_row_get(join_rows(g, src, n - 1), src[n - 1], n - 1, src[n - 1].len() as int, qx, qy);
    }
}

proof fn lemma_join_overlay_row_get(g: Seq<Seq<DosChar>>, row: Seq<Option<DosChar>>, y: int, n: int, qx: int, qy: int)
    requires
        0 <= y,
        n <= row.len(),
    ensures
        grid_get(join_overlay_row(g, row, y, n), qx, qy) == (if qy == y && 0 <= qx < n && row[qx] is Some {
            shown(row[qx]->0)
        } else {
            grid_get(g, qx, qy)
        }),
    decreases n,
{
    if n > 0 {
        lemma_join_overlay_row_get(g, row, y, n - 1, qx, qy);
        if let Some(c) = row[n - 1] {
            lemma_layer_read_after_write(join_overlay_row(g, row, y, n - 1), n - 1, y, c, qx, qy);
        }
    }
}

proof fn lemma_join_overlay_rows_get(g: Seq<Seq<DosChar>>, src: Seq<Seq<Option<DosChar>>>, n: int, qx: int, qy: int)
    requires
        n <= src.len(),
    ensures
        grid_get(join_overlay_rows(g, src, n), qx, qy) == (if 0 <= qy < n && 0 <= qx < src[qy].len() && src[qy][qx] is Some {
            shown(src[qy][qx]->0)
        } else {
            grid_get(g, qx, qy)
        }),
    decreases n,
{
    if n > 0 {
        lemma_join_overlay_rows_get(g, src, n - 1, qx, qy);
        lemma_join_overlay_row_get(join_overlay_rows(g, src, n - 1), src[n - 1], n - 1, src[n - 1].len() as int, qx, qy);
    }
}

/// Joining an overlay onto a layer: every position where the overlay holds
/// a cell shows that cell afterwards (the default cell for a transparent
/// one); every other position shows what it showed before.
pub proof fn lemma_join_overlay_shows(g: Seq<Seq<DosChar>>, src: Seq<Seq<Option<DosChar>>>, qx: int, qy: int)
    ensures
        grid_get(join_overlay_rows(g, src, src.len() as int), qx, qy) == (if 0 <= qy < src.len() && 0 <= qx
            < src[qy].len() && src[qy][qx] is Some {
            shown(src[qy][qx]->0)
        } else {
            grid_get(g, qx, qy)
        }),
{
    lemma_join_overlay_rows_get(g, src, src.len() as int, qx, qy);
}

} // verus!
