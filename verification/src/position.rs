use core::cmp::Ordering;
use vstd::prelude::*;
use vstd::std_specs::cmp::PartialOrdSpecImpl;

verus! {

/// A cell coordinate on a text canvas; `x` is the column, `y` the row.
#[derive(Copy, Clone, Debug, PartialEq, Eq, Structural)]
pub struct Position {
    pub x: i32,
    pub y: i32,
}

impl Position {
    pub fn new() -> (p: Self)
        ensures
            p.x == 0,
            p.y == 0,
    {
        Position { x: 0, y: 0 }
    }

    pub fn from(x: i32, y: i32) -> (p: Self)
        ensures
            p.x == x,
            p.y == y,
    {
        Position { x, y }
    }
}

impl Default for Position {
    fn default() -> (p: Self)
        ensures
            p.x == 0,
            p.y == 0,
    {
        Position::new()
    }
}

/// Positions in reading order: by row, then by column.
pub open spec fn position_order(a: Position, b: Position) -> Option<Ordering> {
    if a.y < b.y {
        Some(Ordering::Less)
    } else if a.y > b.y {
        Some(Ordering::Greater)
    } else if a.x < b.x {
        Some(Ordering::Less)
    } else if a.x > b.x {
        Some(Ordering::Greater)
    } else {
        Some(Ordering::Equal)
    }
}

impl PartialOrd for Position {
    fn partial_cmp(&self, other: &Self) -> (r: Option<Ordering>) {
        if self.y < other.y {
            return Some(Ordering::Less);
        }
        if self.y > other.y {
            return Some(Ordering::Greater);
        }
        if self.x < other.x {
            return Some(Ordering::Less);
        }
        if self.x > other.x {
            return Some(Ordering::Greater);
        }
        Some(Ordering::Equal)
    }
}

impl PartialOrdSpecImpl for Position {
    open spec fn obeys_partial_cmp_spec() -> bool {
        true
    }

    open spec fn partial_cmp_spec(&self, other: &Self) -> Option<Ordering> {
        position_order(*self, *other)
    }
}

/// Width and height of a rectangular area, in cells.
#[derive(Copy, Clone, Debug)]
pub struct Size {
    pub width: usize,
    pub height: usize,
}

impl Size {
    pub fn new() -> (s: Self)
        ensures
            s.width == 0,
            s.height == 0,
    {
        Size::from(0, 0)
    }

    pub fn from(width: usize, height: usize) -> (s: Self)
        ensures
            s.width == width,
            s.height == height,
    {
        Size { width, height }
    }
}

/// An axis aligned rectangle given by its top left corner and its size.
#[derive(Copy, Clone, Debug)]
pub struct Rectangle {
    pub start: Position,
    pub size: Size,
}

pub open spec fn spec_abs_diff(a: i32, b: i32) -> int {
    if a >= b { a - b } else { b - a }
}

pub open spec fn spec_min(a: int, b: int) -> int {
    if a <= b { a } else { b }
}

impl Rectangle {
    pub fn from(x: i32, y: i32, width: usize, height: usize) -> (r: Self)
        ensures
            r.start.x == x,
            r.start.y == y,
            r.size.width == width,
            r.size.height == height,
    {
        Rectangle { start: Position::from(x, y), size: Size::from(width, height) }
    }

    /// The rectangle spanned by two corner points; its size is the distance
    /// of the two points on each axis.
    pub fn from_pt(p1: Position, p2: Position) -> (r: Self)
        ensures
            r.start.x == spec_min(p1.x as int, p2.x as int),
            r.start.y == spec_min(p1.y as int, p2.y as int),
            r.size.width == spec_abs_diff(p1.x, p2.x),
            r.size.height == spec_abs_diff(p1.y, p2.y),
    {
        let sx = if p1.x <= p2.x { p1.x } else { p2.x };
        let sy = if p1.y <= p2.y { p1.y } else { p2.y };
        let w: u32 = if p1.x >= p2.x {
            (p1.x as i64 - p2.x as i64) as u32
        } else {
            (p2.x as i64 - p1.x as i64) as u32
        };
        let h: u32 = if p1.y >= p2.y {
            (p1.y as i64 - p2.y as i64) as u32
        } else {
            (p2.y as i64 - p1.y as i64) as u32
        };
        Rectangle { start: Position::from(sx, sy), size: Size::from(w as usize, h as usize) }
    }

    pub open spec fn spec_is_inside(&self, p: Position) -> bool {
        &&& self.start.x <= p.x
        &&& self.start.y <= p.y
        &&& p.x < self.start.x + self.size.width
        &&& p.y < self.start.y + self.size.height
    }

    /// Whether `p` lies in the rectangle (right and bottom edges excluded).
    pub fn is_inside(&self, p: Position) -> (r: bool)
        ensures
            r == self.spec_is_inside(p),
    {
        if self.start.x > p.x || self.start.y > p.y {
            return false;
        }
        let dx: u64 = (p.x as i64 - self.start.x as i64) as u64;
        let dy: u64 = (p.y as i64 - self.start.y as i64) as u64;
        (dx as u128) < (self.size.width as u128) && (dy as u128) < (self.size.height as u128)
    }
}

} // verus!
