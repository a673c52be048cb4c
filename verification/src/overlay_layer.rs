use vstd::prelude::*;

use crate::dos_char::DosChar;
use crate::position::Position;

verus! {

/// One row of an overlay; `None` cells are holes.
#[derive(Clone, Debug)]
pub struct OverlayLine {
    pub chars: Vec<Option<DosChar>>,
}

impl OverlayLine {
    pub fn new() -> (l: Self)
        ensures
            l.chars@ == Seq::<Option<DosChar>>::empty(),
    {
        OverlayLine { chars: Vec::new() }
    }
}

pub open spec fn overlay_grid_of(lines: Seq<OverlayLine>) -> Seq<Seq<Option<DosChar>>> {
    Seq::new(lines.len(), |i: int| lines[i].chars@)
}

/// Writing `c` at column `x`, row `y`, growing the rows with holes.
pub open spec fn overlay_set(g: Seq<Seq<Option<DosChar>>>, x: int, y: int, c: DosChar) -> Seq<Seq<Option<DosChar>>> {
    if x < 0 || y < 0 {
        g
    } else {
        let g1 = if y >= g.len() {
            g + Seq::new((y + 1 - g.len()) as nat, |i: int| Seq::<Option<DosChar>>::empty())
        } else {
            g
        };
        let row = g1[y];
        let row1 = if x >= row.len() {
            row + Seq::new((x + 1 - row.len()) as nat, |i: int| None::<DosChar>)
        } else {
            row
        };
        g1.update(y, row1.update(x, Some(c)))
    }
}

pub open spec fn overlay_get(g: Seq<Seq<Option<DosChar>>>, x: int, y: int) -> Option<DosChar> {
    if 0 <= y < g.len() && 0 <= x < g[y].len() {
        g[y][x]
    } else {
        None
    }
}

/// A sparse layer drawn above all others, used for previews.
#[derive(Clone, Debug)]
pub struct OverlayLayer {
    pub lines: Vec<OverlayLine>,
}

impl OverlayLayer {
    pub open spec fn grid(&self) -> Seq<Seq<Option<DosChar>>> {
        overlay_grid_of(self.lines@)
    }

    pub fn new() -> (l: Self)
        ensures
            l.grid() == Seq::<Seq<Option<DosChar>>>::empty(),
    {
        let l = OverlayLayer { lines: Vec::new() };
        assert(l.grid() =~= Seq::<Seq<Option<DosChar>>>::empty());
        l
    }

    pub fn clear(&mut self)
        ensures
            final(self).grid() == Seq::<Seq<Option<DosChar>>>::empty(),
    {
        self.lines.clear();
        assert(self.grid() =~= Seq::<Seq<Option<DosChar>>>::empty());
    }

    pub fn set_char(&mut self, pos: Position, dos_char: DosChar)
        ensures
            final(self).grid() == overlay_set(old(self).grid(), pos.x as int, pos.y as int, dos_char),
    {
        if pos.x < 0 || pos.y < 0 {
            return;
        }
        let ghost g0 = self.grid();
        let y = pos.y as usize;
        let x = pos.x as usize;
        while self.lines.len() <= y
            invariant
                y == pos.y,
                0 <= pos.y,
                self.lines.len() > g0.len() ==> self.lines.len() <= y + 1,
                g0.len() <= self.lines.len(),
                forall|i: int| 0 <= i < g0.len() ==> self.lines@[i].chars@ == g0[i],
                forall|i: int| g0.len() <= i < self.lines.len() ==> self.lines@[i].chars@ == Seq::<Option<DosChar>>::empty(),
            decreases y + 1 - self.lines.len(),
        {
            self.lines.push(OverlayLine::new());
        }
        let ghost g1 = self.grid();
        proof {
            let gg = if y >= g0.len() {
                g0 + Seq::new((y + 1 - g0.len()) as nat, |i: int| Seq::<Option<DosChar>>::empty())
            } else {
                g0
            };
            assert(g1 =~= gg);
        }
        let ghost row0 = self.lines@[y as int].chars@;
        while self.lines[y].chars.len() <= x
            invariant
                y < self.lines.len(),
                x == pos.x,
                self.lines@[y as int].chars.len() > row0.len() ==> self.lines@[y as int].chars.len() <= x + 1,
                row0.len() <= self.lines@[y as int].chars.len(),
                self.lines.len() == g1.len(),
                forall|i: int| 0 <= i < g1.len() && i != y ==> self.lines@[i].chars@ == g1[i],
                forall|i: int| 0 <= i < row0.len() ==> self.lines@[y as int].chars@[i] == row0[i],
                forall|i: int| row0.len() <= i < self.lines@[y as int].chars.len() ==> self.lines@[y as int].chars@[i] == None::<DosChar>,
            decreases x + 1 - self.lines@[y as int].chars.len(),
        {
            self.lines[y].chars.push(None);
        }
        proof {
            let row1 = if x >= row0.len() {
                row0 + Seq::new((x + 1 - row0.len()) as nat, |i: int| None::<DosChar>)
            } else {
                row0
            };
            assert(self.lines@[y as int].chars@ =~= row1);
        }
        let ghost g2 = self.grid();
        self.lines[y].chars.set(x, Some(dos_char));
        proof {
            assert(self.grid() =~= g2.update(y as int, g2[y as int].update(x as int, Some(dos_char))));
            assert(self.grid() =~= overlay_set(g0, x as int, y as int, dos_char));
        }
    }

    pub fn get_char(&self, pos: Position) -> (r: Option<DosChar>)
        ensures
            r == overlay_get(self.grid(), pos.x as int, pos.y as int),
    {
        if pos.y < 0 || pos.x < 0 {
            return None;
        }
        let y = pos.y as usize;
        if self.lines.len() <= y {
            return None;
        }
        let x = pos.x as usize;
        if x < self.lines[y].chars.len() {
            self.lines[y].chars[x]
        } else {
            None
        }
    }
}

/// An overlay gives back what was last written at a position and keeps
/// every other position.
pub proof fn lemma_overlay_read_after_write(g: Seq<Seq<Option<DosChar>>>, x: int, y: int, c: DosChar, qx: int, qy: int)
    requires
        0 <= x,
        0 <= y,
    ensures
        overlay_get(overlay_set(g, x, y, c), x, y) == Some(c),
        (qx != x || qy != y) ==> overlay_get(overlay_set(g, x, y, c), qx, qy) == overlay_get(g, qx, qy),
{
    let g2 = overlay_set(g, x, y, c);
    if qx != x || qy != y {
        if 0 <= qy < g.len() && 0 <= qx < g[qy].len() {
            assert(g2[qy][qx] == g[qy][qx]);
        } else if 0 <= qy < g2.len() && 0 <= qx < g2[qy].len() {
            assert(g2[qy][qx] == None::<DosChar>);
        }
    }
}

} // verus!
