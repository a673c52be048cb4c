use vstd::prelude::*;

use crate::buffer::Buffer;
use crate::dos_char::DosChar;
use crate::layer::{grid_get, grid_of, grid_set, lemma_layer_read_after_write, shown, Layer, Line};
use crate::overlay_layer::OverlayLayer;
use crate::position::{Position, Rectangle};
use crate::text_attribute::{spec_attr, TextAttribute};
use crate::undo::{chain, chain_fits, copy_layers, fits, grids_of, lemma_chain_group, lemma_chain_len, lemma_chain_push, lstate, redo_state, set_cell, swap_cells, undo_state, LState, UndoOperation};

verus! {

/// The text cursor of an editor: its position, the attribute typed text
/// gets, and whether typing inserts.
#[derive(Clone, Copy, Debug)]
pub struct Cursor {
    pub pos: Position,
    pub attr: TextAttribute,
    pub insert_mode: bool,
}

impl Cursor {
    pub fn get_attribute(&self) -> (r: TextAttribute)
        ensures
            r == self.attr,
    {
        self.attr
    }

    /// Sets the attribute of typed text; an attribute of the same colors
    /// leaves the cursor as it is.
    pub fn set_attribute(&mut self, attr: TextAttribute)
        ensures
            attr.spec_same(old(self).attr) ==> *final(self) == *old(self),
            !attr.spec_same(old(self).attr) ==> *final(self) == (Cursor { attr, ..*old(self) }),
    {
        if attr.same(&self.attr) {
            return;
        }
        self.attr = attr;
    }
}

impl Default for Cursor {
    fn default() -> (c: Self)
        ensures
            c.pos == (Position { x: 0, y: 0 }),
            c.attr == spec_attr(0, 0, false),
            !c.insert_mode,
    {
        Cursor { pos: Position::new(), attr: TextAttribute::from_color(0, 0), insert_mode: false }
    }
}

/// What an editor operation tells its view.
#[derive(Clone, Copy, Debug)]
pub enum Event {
    Nothing,
    CursorPositionChange(Position, Position),
}

/// The outline of a selection.
#[derive(Clone, Copy, Debug)]
pub enum Shape {
    Rectangle,
    Elipse,
}

/// A selected area of the picture.
#[derive(Clone, Copy, Debug)]
pub struct Selection {
    pub shape: Shape,
    pub rectangle: Rectangle,
    pub is_preview: bool,
}

impl Selection {
    /// An empty rectangular preview selection outside the picture.
    pub fn new() -> (s: Self)
        ensures
            s.shape == Shape::Rectangle,
            s.rectangle.start.x == -1 && s.rectangle.start.y == -1,
            s.rectangle.size.width == 0 && s.rectangle.size.height == 0,
            s.is_preview,
    {
        Selection { shape: Shape::Rectangle, rectangle: Rectangle::from(-1, -1, 0, 0), is_preview: true }
    }
}

impl Default for Selection {
    fn default() -> (s: Self)
        ensures
            s.shape == Shape::Rectangle,
            s.rectangle.start.x == -1 && s.rectangle.start.y == -1,
            s.rectangle.size.width == 0 && s.rectangle.size.height == 0,
            s.is_preview,
    {
        Selection::new()
    }
}

/// A buffer being edited: the cursor, the selection, the current layer and
/// outline style, and the start of each open group of edits that undo
/// treats as one.
pub struct Editor {
    pub id: usize,
    pub buf: Buffer,
    pub cursor: Cursor,
    pub cur_selection: Option<Selection>,
    pub cur_outline: i32,
    pub is_inactive: bool,
    pub reference_image: Option<String>,
    pub cur_layer: i32,
    pub atomic_undo_stack: Vec<usize>,
}

/// `v` kept inside `0..n`: at least 0, at most `n - 1` (which wins for an
/// empty range).
pub open spec fn clamp_to(v: i32, n: u16) -> i32 {
    let a: int = if v > 0 { v as int } else { 0 };
    let hi: int = n - 1;
    (if hi <= a { hi } else { a }) as i32
}

/// The buffer fields that edits of the layers leave alone.
pub open spec fn same_props(a: Buffer, b: Buffer) -> bool {
    &&& b.file_name == a.file_name
    &&& b.title == a.title
    &&& b.author == a.author
    &&& b.group == a.group
    &&& b.comments == a.comments
    &&& b.buffer_type == a.buffer_type
    &&& b.write_sauce == a.write_sauce
    &&& b.palette == a.palette
    &&& b.overlay_layer == a.overlay_layer
    &&& b.font_name == a.font_name
    &&& b.font == a.font
}

/// The editor fields that edits of the buffer leave alone.
pub open spec fn same_state(a: Editor, b: Editor) -> bool {
    &&& b.id == a.id
    &&& b.cursor == a.cursor
    &&& b.cur_selection == a.cur_selection
    &&& b.cur_outline == a.cur_outline
    &&& b.is_inactive == a.is_inactive
    &&& b.reference_image == a.reference_image
    &&& b.cur_layer == a.cur_layer
    &&& b.atomic_undo_stack@ == a.atomic_undo_stack@
}

/// The layer index of the current layer; a negative number names no layer.
pub open spec fn layer_index(cur_layer: i32) -> usize {
    if cur_layer >= 0 {
        cur_layer as usize
    } else {
        usize::MAX
    }
}

/// What layer `l` shows at `pos`; the default cell without such a layer.
pub open spec fn shows_at(b: Buffer, l: usize, pos: Position) -> DosChar {
    if (l as int) < b.layers.len() {
        grid_get(b.layers@[l as int].grid(), pos.x as int, pos.y as int)
    } else {
        DosChar::spec_new()
    }
}

/// The edit that writing `c` at `pos` of the current layer records; no
/// cell is written as a blank.
pub open spec fn set_char_op(e: Editor, pos: Position, c: Option<DosChar>) -> UndoOperation {
    let l = layer_index(e.cur_layer);
    UndoOperation::SetChar {
        layer: l,
        pos,
        old: shows_at(e.buf, l, pos),
        new: match c {
            Some(ch) => ch,
            None => DosChar::spec_new(),
        },
    }
}

/// The edits made since a group was opened at undo depth `u0.len()` on
/// state `s0`: they follow `u0` on the undo stack and, made one after
/// another from `s0`, give the picture.
pub open spec fn group_inv(e: Editor, s0: LState, u0: Seq<UndoOperation>, ps: Seq<UndoOperation>) -> bool {
    &&& made(e, s0, u0, ps)
    &&& chain_fits(s0, ps, ps.len() as int)
}

/// The edits `ps` made since undo depth `u0.len()` on state `s0` follow
/// `u0` on the undo stack and, made one after another from `s0`, give the
/// picture.
pub open spec fn made(e: Editor, s0: LState, u0: Seq<UndoOperation>, ps: Seq<UndoOperation>) -> bool {
    &&& e.buf.undo_stack@ == u0 + ps
    &&& lstate(e.buf) == chain(s0, ps, ps.len() as int)
}

/// What an editing operation leaves: either nothing changed and nothing
/// was recorded, or one edit was recorded whose making from the picture
/// before gives the picture after (and which was recorded from it).
pub open spec fn recorded(a: Buffer, b: Buffer) -> bool {
    &&& applied(a, b)
    &&& b.undo_stack@.len() > a.undo_stack@.len() ==> fits(lstate(a), b.undo_stack@.last())
}

/// Either nothing changed and nothing was recorded, or one edit was
/// recorded whose making from the picture before gives the picture after.
pub open spec fn applied(a: Buffer, b: Buffer) -> bool {
    ||| b.undo_stack@ == a.undo_stack@ && lstate(b) == lstate(a)
    ||| {
        &&& b.undo_stack@.len() == a.undo_stack@.len() + 1
        &&& b.undo_stack@.drop_last() == a.undo_stack@
        &&& lstate(b) == redo_state(lstate(a), b.undo_stack@.last())
    }
}

proof fn lemma_group_closed(s0: LState, u0: Seq<UndoOperation>, ps: Seq<UndoOperation>, a: Buffer, b: Buffer)
    requires
        lstate(a) == s0,
        a.undo_stack@ == u0,
        lstate(b) == chain(s0, ps, ps.len() as int),
        ps.len() == 0 ==> b.undo_stack@ == u0,
        ps.len() > 0 ==> b.undo_stack@.drop_last() == u0 && (b.undo_stack@.last() matches UndoOperation::Atomic { stack }
            && stack@ == ps.reverse()) && b.undo_stack@.len() > 0,
    ensures
        applied(a, b),
        chain_fits(s0, ps, ps.len() as int) ==> recorded(a, b),
{
    if ps.len() > 0 {
        lemma_chain_group(s0, ps, ps.len() as int);
        assert(ps.reverse().len() == ps.len());
    }
}

/// What layer `k` shows at `(x, y)` after editor `e` fills `rect` with
/// `c`: `c` (a missing cell as the default one, a transparent one as it
/// shows) on the current layer where the rectangle covers the position and
/// the editor may write there; elsewhere what the layer showed.
pub open spec fn filled(e: Editor, rect: Rectangle, c: Option<DosChar>, k: int, x: int, y: int) -> DosChar {
    let p = Position { x: x as i32, y: y as i32 };
    if k == layer_index(e.cur_layer) && rect.spec_is_inside(p) && e.valid_point(p) {
        shown(
            match c {
                Some(ch) => ch,
                None => DosChar::spec_new(),
            },
        )
    } else {
        grid_get(e.buf.layers@[k].grid(), x, y)
    }
}

/// What the current layer of editor `e` shows at column `x` of row `y`
/// after typing in insert mode carried the cells of the columns
/// `first..=x` one to the right, from the left: each position the editor
/// may write takes what its left neighbour showed by then, the others
/// keep what they showed.
pub open spec fn insert_shift(e: Editor, y: int, first: int, x: int) -> DosChar
    decreases x - first + 1,
{
    let g = e.buf.layers@[layer_index(e.cur_layer) as int].grid();
    if x < first {
        grid_get(g, x, y)
    } else if 0 <= x && 0 <= y && e.valid_point(Position { x: x as i32, y: y as i32 }) {
        if x - 1 >= first {
            insert_shift(e, y, first, x - 1)
        } else {
            grid_get(g, x - 1, y)
        }
    } else {
        grid_get(g, x, y)
    }
}

/// The outline characters, slot by slot: entry `15 * i + o` is character
/// `i` of outline style `o` (corners, edges and joints of a box).
pub open spec fn outline_table() -> Seq<u8> {
    seq![
        218u8, 201u8, 213u8, 214u8, 197u8, 176u8, 1u8, 24u8, 174u8, 227u8, 224u8, 128u8, 131u8, 136u8, 147u8,
        191u8, 187u8, 184u8, 183u8, 206u8, 177u8, 2u8, 25u8, 175u8, 241u8, 225u8, 135u8, 132u8, 137u8, 148u8,
        192u8, 200u8, 212u8, 211u8, 216u8, 178u8, 3u8, 30u8, 242u8, 244u8, 226u8, 165u8, 133u8, 138u8, 149u8,
        217u8, 188u8, 190u8, 189u8, 215u8, 219u8, 4u8, 31u8, 243u8, 245u8, 229u8, 164u8, 160u8, 130u8, 162u8,
        196u8, 205u8, 205u8, 196u8, 232u8, 223u8, 5u8, 16u8, 169u8, 234u8, 230u8, 152u8, 166u8, 144u8, 167u8,
        179u8, 186u8, 179u8, 186u8, 233u8, 220u8, 6u8, 17u8, 170u8, 157u8, 231u8, 159u8, 134u8, 140u8, 150u8,
        195u8, 204u8, 198u8, 199u8, 155u8, 221u8, 240u8, 18u8, 253u8, 228u8, 235u8, 247u8, 142u8, 139u8, 129u8,
        180u8, 185u8, 181u8, 182u8, 156u8, 222u8, 127u8, 29u8, 246u8, 248u8, 236u8, 249u8, 143u8, 141u8, 151u8,
        193u8, 202u8, 207u8, 208u8, 153u8, 254u8, 14u8, 20u8, 171u8, 251u8, 237u8, 173u8, 145u8, 161u8, 163u8,
        194u8, 203u8, 209u8, 210u8, 239u8, 250u8, 15u8, 21u8, 172u8, 252u8, 238u8, 168u8, 146u8, 158u8, 154u8,
    ]
}

fn outline_array() -> (t: [u8; 150])
    ensures
        t@ == outline_table(),
{
    let t: [u8; 150] = [
        218, 201, 213, 214, 197, 176, 1, 24, 174, 227, 224, 128, 131, 136, 147,
        191, 187, 184, 183, 206, 177, 2, 25, 175, 241, 225, 135, 132, 137, 148,
        192, 200, 212, 211, 216, 178, 3, 30, 242, 244, 226, 165, 133, 138, 149,
        217, 188, 190, 189, 215, 219, 4, 31, 243, 245, 229, 164, 160, 130, 162,
        196, 205, 205, 196, 232, 223, 5, 16, 169, 234, 230, 152, 166, 144, 167,
        179, 186, 179, 186, 233, 220, 6, 17, 170, 157, 231, 159, 134, 140, 150,
        195, 204, 198, 199, 155, 221, 240, 18, 253, 228, 235, 247, 142, 139, 129,
        180, 185, 181, 182, 156, 222, 127, 29, 246, 248, 236, 249, 143, 141, 151,
        193, 202, 207, 208, 153, 254, 14, 20, 171, 251, 237, 173, 145, 161, 163,
        194, 203, 209, 210, 239, 250, 15, 21, 172, 252, 238, 168, 146, 158, 154,
    ];
    assert(t@ =~= outline_table());
    t
}

/// Character `i` of outline style `o`.
pub open spec fn outline_char(o: int, i: int) -> u8 {
    outline_table()[15 * i + o]
}

/// The outline style and slot exist.
pub open spec fn outline_ok(o: i32, i: i32) -> bool {
    0 <= o < 15 && 0 <= i < 10
}

/// The block that block actions work on, as inclusive corners
/// `(x1, y1, x2, y2)`: the selection, else the cursor's row across the
/// picture.
pub open spec fn block(e: Editor) -> (int, int, int, int) {
    match e.cur_selection {
        Some(sel) => (
            sel.rectangle.start.x as int,
            sel.rectangle.start.y as int,
            sel.rectangle.start.x + sel.rectangle.size.width - 1,
            sel.rectangle.start.y + sel.rectangle.size.height - 1,
        ),
        None => (0, e.cursor.pos.y as int, e.buf.width - 1, e.cursor.pos.y as int),
    }
}

/// The block lies well inside the range of positions, so that no
/// coordinate computed from it overflows.
pub open spec fn block_ok(e: Editor) -> bool {
    match e.cur_selection {
        Some(sel) => {
            &&& -0x2000_0000 <= sel.rectangle.start.x <= 0x2000_0000
            &&& -0x2000_0000 <= sel.rectangle.start.y <= 0x2000_0000
            &&& sel.rectangle.size.width <= 0x2000_0000
            &&& sel.rectangle.size.height <= 0x2000_0000
        },
        None => -0x2000_0000 <= e.cursor.pos.y <= 0x2000_0000,
    }
}

/// What a grid shows at a position after the columns `x1..=x2` of the rows
/// `y1..=y2` are mirrored (for `x2 == x1 - 1`, the columns `x2` and `x1`
/// trade places).
pub open spec fn flipped_x(g: Seq<Seq<DosChar>>, x1: int, x2: int, y1: int, y2: int, x: int, y: int) -> DosChar {
    let lo = if x1 <= x2 { x1 } else { x2 };
    let hi = if x1 <= x2 { x2 } else { x1 };
    if lo <= x <= hi && y1 <= y <= y2 {
        grid_get(g, x1 + x2 - x, y)
    } else {
        grid_get(g, x, y)
    }
}

/// What a grid shows at a position after the rows `y1..=y2` of the columns
/// `x1..=x2` are mirrored (for `y2 == y1 - 1`, the rows `y2` and `y1`
/// trade places).
pub open spec fn flipped_y(g: Seq<Seq<DosChar>>, x1: int, x2: int, y1: int, y2: int, x: int, y: int) -> DosChar {
    let lo = if y1 <= y2 { y1 } else { y2 };
    let hi = if y1 <= y2 { y2 } else { y1 };
    if x1 <= x <= x2 && lo <= y <= hi {
        grid_get(g, x, y1 + y2 - y)
    } else {
        grid_get(g, x, y)
    }
}

/// What a grid shows, as a function of column and row.
pub open spec fn grid_view(g: Seq<Seq<DosChar>>) -> spec_fn(int, int) -> DosChar {
    |x: int, y: int| grid_get(g, x, y)
}

/// The blank cells of row `y` from column `x` rightwards, up to `x2`.
pub open spec fn lead_from(v: spec_fn(int, int) -> DosChar, x: int, x2: int, y: int) -> int
    decreases x2 + 1 - x,
{
    if x > x2 {
        0
    } else if v(x, y).spec_is_transparent() {
        1 + lead_from(v, x + 1, x2, y)
    } else {
        0
    }
}

/// The blank cells of row `y` from column `x` leftwards, down to `x1`.
pub open spec fn trail_from(v: spec_fn(int, int) -> DosChar, x1: int, x: int, y: int) -> int
    decreases x + 1 - x1,
{
    if x < x1 {
        0
    } else if v(x, y).spec_is_transparent() {
        1 + trail_from(v, x1, x - 1, y)
    } else {
        0
    }
}

/// What a position shows after the rows `y1..=y2` of the columns
/// `x1..=x2` are moved left over their leading blanks, filling up with
/// blanks; rows blank throughout stay.
pub open spec fn left_of(v: spec_fn(int, int) -> DosChar, x1: int, x2: int, y1: int, y2: int, x: int, y: int) -> DosChar {
    let r = lead_from(v, x1, x2, y);
    if y1 <= y <= y2 && x1 <= x <= x2 && r < x2 - x1 + 1 {
        if x + r <= x2 {
            v(x + r, y)
        } else {
            DosChar::spec_new()
        }
    } else {
        v(x, y)
    }
}

/// What a position shows after the rows `y1..=y2` of the columns
/// `x1..=x2` are moved right over their trailing blanks (over half of them
/// when `half`), filling up with blanks; rows blank throughout stay.
pub open spec fn right_of(v: spec_fn(int, int) -> DosChar, x1: int, x2: int, y1: int, y2: int, half: bool, x: int, y: int) -> DosChar {
    let t = trail_from(v, x1, x2, y);
    let r = if half {
        t / 2
    } else {
        t
    };
    if y1 <= y <= y2 && x1 <= x <= x2 && t < x2 - x1 + 1 {
        if x - r >= x1 {
            v(x - r, y)
        } else {
            DosChar::spec_new()
        }
    } else {
        v(x, y)
    }
}

/// What a grid shows after its block is moved left, as a function of
/// column and row.
pub open spec fn left_view(g: Seq<Seq<DosChar>>, x1: int, x2: int, y1: int, y2: int) -> spec_fn(int, int) -> DosChar {
    |x: int, y: int|
        if x >= 0 && y >= 0 {
            left_of(grid_view(g), x1, x2, y1, y2, x, y)
        } else {
            DosChar::spec_new()
        }
}

proof fn lemma_view_same_row(v: spec_fn(int, int) -> DosChar, w: spec_fn(int, int) -> DosChar, x1: int, x2: int, y: int)
    requires
        forall|x: int| #[trigger] v(x, y) == w(x, y),
    ensures
        lead_from(v, x1, x2, y) == lead_from(w, x1, x2, y),
        trail_from(v, x1, x2, y) == trail_from(w, x1, x2, y),
    decreases x2 + 1 - x1,
{
    if x1 <= x2 {
        lemma_view_same_row(v, w, x1 + 1, x2, y);
        lemma_view_same_row(v, w, x1, x2 - 1, y);
    }
}

proof fn lemma_lead_bounds(v: spec_fn(int, int) -> DosChar, x: int, x2: int, y: int)
    ensures
        0 <= lead_from(v, x, x2, y),
        x <= x2 + 1 ==> lead_from(v, x, x2, y) <= x2 + 1 - x,
    decreases x2 + 1 - x,
{
    if x <= x2 {
        lemma_lead_bounds(v, x + 1, x2, y);
    }
}

proof fn lemma_trail_bounds(v: spec_fn(int, int) -> DosChar, x1: int, x: int, y: int)
    ensures
        0 <= trail_from(v, x1, x, y),
        x1 - 1 <= x ==> trail_from(v, x1, x, y) <= x + 1 - x1,
    decreases x + 1 - x1,
{
    if x >= x1 {
        lemma_trail_bounds(v, x1, x - 1, y);
    }
}

/// Exchanging what a grid shows at two positions.
proof fn lemma_swap_get(g: Seq<Seq<DosChar>>, p1: Position, p2: Position, x: int, y: int)
    requires
        0 <= x,
        0 <= y,
    ensures
        ({
            let c1 = grid_get(g, p1.x as int, p1.y as int);
            let c2 = grid_get(g, p2.x as int, p2.y as int);
            let g1 = grid_set(grid_set(g, p1.x as int, p1.y as int, c2), p2.x as int, p2.y as int, c1);
            grid_get(g1, x, y) == (if x == p2.x && y == p2.y {
                c1
            } else if x == p1.x && y == p1.y {
                c2
            } else {
                grid_get(g, x, y)
            })
        }),
{
    let c1 = grid_get(g, p1.x as int, p1.y as int);
    let c2 = grid_get(g, p2.x as int, p2.y as int);
    let ga = grid_set(g, p1.x as int, p1.y as int, c2);
    assert(shown(c1) == c1 && shown(c2) == c2);
    if 0 <= p1.x && 0 <= p1.y {
        lemma_layer_read_after_write(g, p1.x as int, p1.y as int, c2, x, y);
    }
    if 0 <= p2.x && 0 <= p2.y {
        lemma_layer_read_after_write(ga, p2.x as int, p2.y as int, c1, x, y);
    }
}

impl Editor {
    pub fn new(id: usize, buf: Buffer) -> (e: Self)
        ensures
            e.id == id,
            e.buf == buf,
            e.cursor.pos == (Position { x: 0, y: 0 }),
            e.cursor.attr == spec_attr(0, 0, false),
            !e.cursor.insert_mode,
            e.cur_selection is None,
            e.cur_outline == 0,
            !e.is_inactive,
            e.reference_image is None,
            e.cur_layer == 0,
            e.atomic_undo_stack@.len() == 0,
    {
        Editor {
            id,
            buf,
            cursor: Cursor::default(),
            cur_selection: None,
            cur_outline: 0,
            is_inactive: false,
            reference_image: None,
            cur_layer: 0,
            atomic_undo_stack: Vec::new(),
        }
    }

    pub fn get_cursor_position(&self) -> (p: Position)
        ensures
            p == self.cursor.pos,
    {
        self.cursor.pos
    }

    /// Moves the cursor, kept inside the picture.
    pub fn set_cursor_position(&mut self, pos: Position)
        ensures
            final(self).cursor.pos == (Position { x: clamp_to(pos.x, old(self).buf.width), y: clamp_to(pos.y, old(self).buf.height) }),
            final(self).cursor.attr == old(self).cursor.attr,
            final(self).cursor.insert_mode == old(self).cursor.insert_mode,
            final(self).buf == old(self).buf,
            final(self).cur_selection == old(self).cur_selection,
            final(self).cur_layer == old(self).cur_layer,
            final(self).cur_outline == old(self).cur_outline,
            final(self).atomic_undo_stack == old(self).atomic_undo_stack,
    {
        let x0 = if pos.x > 0 { pos.x } else { 0 };
        let y0 = if pos.y > 0 { pos.y } else { 0 };
        let wx = self.buf.width as i32 - 1;
        let hy = self.buf.height as i32 - 1;
        let x = if wx <= x0 { wx } else { x0 };
        let y = if hy <= y0 { hy } else { y0 };
        self.cursor.pos = Position::from(x, y);
    }

    /// The current layer, if there is one.
    pub fn get_cur_layer(&self) -> (r: Option<&Layer>)
        ensures
            0 <= self.cur_layer < self.buf.layers.len() ==> r == Some(&self.buf.layers@[self.cur_layer as int]),
            !(0 <= self.cur_layer < self.buf.layers.len()) ==> r is None,
    {
        if self.cur_layer >= 0 && (self.cur_layer as usize) < self.buf.layers.len() {
            Some(&self.buf.layers[self.cur_layer as usize])
        } else {
            None
        }
    }

    /// The current layer, to change it in place; `None` where the current
    /// layer number names no layer.
    pub fn get_cur_layer_mut(&mut self) -> (r: Option<&mut Layer>)
        ensures
            0 <= old(self).cur_layer < old(self).buf.layers.len() ==> r is Some && *r->0 == old(self).buf.layers@[old(
                self,
            ).cur_layer as int] && final(self).buf.layers@ == old(self).buf.layers@.update(
                old(self).cur_layer as int,
                *final(r->0),
            ) && final(self).buf == (Buffer { layers: final(self).buf.layers, ..old(self).buf }) && *final(self) == (Editor {
                buf: final(self).buf,
                ..*old(self)
            }),
            !(0 <= old(self).cur_layer < old(self).buf.layers.len()) ==> r is None && *final(self) == *old(self),
    {
        if self.cur_layer >= 0 && (self.cur_layer as usize) < self.buf.layers.len() {
            let i = self.cur_layer as usize;
            Some(&mut self.buf.layers[i])
        } else {
            None
        }
    }

    /// The overlay of the buffer, created empty where there is none.
    pub fn get_overlay_layer(&mut self) -> (r: &mut Option<OverlayLayer>)
        ensures
            old(self).buf.overlay_layer is Some ==> *r == old(self).buf.overlay_layer,
            old(self).buf.overlay_layer is None ==> (*r) is Some && (*r)->0.grid().len() == 0,
            final(self).buf.overlay_layer == *final(r),
            final(self).buf.layers == old(self).buf.layers,
            final(self).buf.width == old(self).buf.width,
            final(self).buf.height == old(self).buf.height,
    {
        self.buf.get_overlay_layer()
    }

    /// Takes the color of what the picture shows at `pos` as the cursor's.
    pub fn pickup_color(&mut self, pos: Position)
        ensures
            final(self).cursor == (Cursor { attr: old(self).buf.spec_get_char(pos.x as int, pos.y as int).attribute, ..old(self).cursor }),
            *final(self) == (Editor { cursor: final(self).cursor, ..*old(self) }),
    {
        let ch = self.buf.get_char(pos);
        self.cursor.attr = ch.attribute;
    }

    /// Moves the cursor inside the picture and reports the move.
    pub fn set_cursor(&mut self, x: i32, y: i32) -> (ev: Event)
        ensures
            final(self).cursor.pos == (Position { x: clamp_to(x, old(self).buf.width), y: clamp_to(y, old(self).buf.height) }),
            ev == Event::CursorPositionChange(old(self).cursor.pos, final(self).cursor.pos),
            final(self).cursor.attr == old(self).cursor.attr,
            final(self).cursor.insert_mode == old(self).cursor.insert_mode,
            final(self).buf == old(self).buf,
            final(self).cur_selection == old(self).cur_selection,
            final(self).cur_layer == old(self).cur_layer,
            final(self).cur_outline == old(self).cur_outline,
            final(self).atomic_undo_stack == old(self).atomic_undo_stack,
    {
        let old_pos = self.cursor.pos;
        let x0 = if x > 0 { x } else { 0 };
        let y0 = if y > 0 { y } else { 0 };
        let wx = self.buf.width as i32 - 1;
        let hy = self.buf.height as i32 - 1;
        let cx = if x0 <= wx { x0 } else { wx };
        let cy = if y0 <= hy { y0 } else { hy };
        self.set_cursor_position(Position::from(cx, cy));
        Event::CursorPositionChange(old_pos, self.cursor.pos)
    }

    pub fn get_cur_outline(&self) -> (r: i32)
        ensures
            r == self.cur_outline,
    {
        self.cur_outline
    }

    pub fn set_cur_outline(&mut self, outline: i32)
        ensures
            *final(self) == (Editor { cur_outline: outline, ..*old(self) }),
    {
        self.cur_outline = outline;
    }

    /// What the picture shows at `pos`.
    pub fn get_char(&self, pos: Position) -> (r: DosChar)
        ensures
            r == self.buf.spec_get_char(pos.x as int, pos.y as int),
    {
        self.buf.get_char(pos)
    }

    /// What the current layer shows at `pos`; `None` past the last layer.
    pub fn get_char_from_cur_layer(&self, pos: Position) -> (r: Option<DosChar>)
        requires
            self.cur_layer >= 0,
        ensures
            self.cur_layer < self.buf.layers.len() ==> r == Some(shows_at(self.buf, self.cur_layer as usize, pos)),
            self.cur_layer >= self.buf.layers.len() ==> r is None,
    {
        if self.cur_layer as usize >= self.buf.layers.len() {
            return None;
        }
        Some(self.buf.layers[self.cur_layer as usize].get_char(pos))
    }

    /// A position where edits may write: inside the selection where there
    /// is one, else inside the picture.
    pub open spec fn valid_point(&self, pos: Position) -> bool {
        match self.cur_selection {
            Some(sel) => sel.rectangle.spec_is_inside(pos),
            None => 0 <= pos.x && 0 <= pos.y && pos.x < self.buf.width && pos.y < self.buf.height,
        }
    }

    pub fn point_is_valid(&self, pos: Position) -> (r: bool)
        ensures
            r == self.valid_point(pos),
    {
        match &self.cur_selection {
            Some(selection) => selection.rectangle.is_inside(pos),
            None => pos.x >= 0 && pos.y >= 0 && pos.x < self.buf.width as i32 && pos.y < self.buf.height as i32,
        }
    }

    fn cur_layer_index(&self) -> (l: usize)
        ensures
            l == layer_index(self.cur_layer),
    {
        if self.cur_layer >= 0 {
            self.cur_layer as usize
        } else {
            usize::MAX
        }
    }

    /// Writes `dos_char` (a blank for `None`) at `pos` of the current layer
    /// where edits may write, and records the edit for undo; a new edit
    /// drops what could be redone.
    pub fn set_char(&mut self, pos: Position, dos_char: Option<DosChar>)
        ensures
            !old(self).valid_point(pos) ==> *final(self) == *old(self),
            old(self).valid_point(pos) ==> {
                let op = set_char_op(*old(self), pos, dos_char);
                &&& final(self).buf.undo_stack@ == old(self).buf.undo_stack@.push(op)
                &&& final(self).buf.redo_stack@.len() == 0
                &&& lstate(final(self).buf) == redo_state(lstate(old(self).buf), op)
                &&& fits(lstate(old(self).buf), op)
                &&& same_props(old(self).buf, final(self).buf)
                &&& same_state(*old(self), *final(self))
            },
    {
        if self.point_is_valid(pos) {
            self.buf.redo_stack.clear();
            let l = self.cur_layer_index();
            let old_ch = match self.buf.get_char_from_layer(l, pos) {
                Some(c) => c,
                None => DosChar::new(),
            };
            let new_ch = match dos_char {
                Some(c) => c,
                None => DosChar::new(),
            };
            let ghost s0 = lstate(self.buf);
            self.buf.set_char(l, pos, new_ch);
            self.buf.undo_stack.push(UndoOperation::SetChar { layer: l, pos, old: old_ch, new: new_ch });
            proof {
                let op = set_char_op(*old(self), pos, dos_char);
                assert(lstate(self.buf).grids =~= redo_state(s0, op).grids);
            }
        }
    }

    /// Opens a group of edits that undo takes back at once.
    pub fn begin_atomic_undo(&mut self)
        ensures
            *final(self) == (Editor {
                atomic_undo_stack: final(self).atomic_undo_stack,
                ..*old(self)
            }),
            final(self).atomic_undo_stack@ == old(self).atomic_undo_stack@.push(old(self).buf.undo_stack.len()),
    {
        let n = self.buf.undo_stack.len();
        self.atomic_undo_stack.push(n);
    }

    /// Closes the last open group: the edits made since it was opened, if
    /// any, are replaced by one group edit holding them most recent first.
    pub fn end_atomic_undo(&mut self)
        requires
            old(self).atomic_undo_stack@.len() > 0,
        ensures
            ({
                let base = old(self).atomic_undo_stack@.last() as int;
                let count = old(self).buf.undo_stack@.len() as int;
                let u = old(self).buf.undo_stack@;
                &&& final(self).atomic_undo_stack@ == old(self).atomic_undo_stack@.drop_last()
                &&& base == count ==> final(self).buf.undo_stack@ == u
                &&& base > count ==> final(self).buf.undo_stack@.drop_last() == u
                    && (final(self).buf.undo_stack@.last() matches UndoOperation::Atomic { stack } && stack@.len() == 0)
                &&& base < count ==> final(self).buf.undo_stack@.drop_last() == u.subrange(0, base)
                    && (final(self).buf.undo_stack@.last() matches UndoOperation::Atomic { stack } && stack@ == u.subrange(base, count).reverse())
                &&& final(self).buf.undo_stack@.len() > 0 || base == count
                &&& final(self).buf.redo_stack == old(self).buf.redo_stack
                &&& final(self).buf.layers == old(self).buf.layers
                &&& final(self).buf.width == old(self).buf.width
                &&& final(self).buf.height == old(self).buf.height
                &&& same_props(old(self).buf, final(self).buf)
                &&& final(self).id == old(self).id
                &&& final(self).cursor == old(self).cursor
                &&& final(self).cur_selection == old(self).cur_selection
                &&& final(self).cur_outline == old(self).cur_outline
                &&& final(self).is_inactive == old(self).is_inactive
                &&& final(self).reference_image == old(self).reference_image
                &&& final(self).cur_layer == old(self).cur_layer
            }),
    {
        let base_count = match self.atomic_undo_stack.pop() {
            Some(b) => b,
            None => 0,
        };
        let count = self.buf.undo_stack.len();
        if base_count == count {
            return;
        }
        let ghost u = self.buf.undo_stack@;
        let mut stack: Vec<UndoOperation> = Vec::new();
        while base_count < self.buf.undo_stack.len()
            invariant
                base_count != count,
                count == u.len(),
                self.buf.undo_stack@.len() <= count,
                base_count < count ==> base_count <= self.buf.undo_stack@.len(),
                base_count > count ==> self.buf.undo_stack@.len() == count,
                self.buf.undo_stack@ == u.subrange(0, self.buf.undo_stack@.len() as int),
                stack@ == u.subrange(self.buf.undo_stack@.len() as int, count as int).reverse(),
                self.buf.redo_stack == old(self).buf.redo_stack,
                self.buf.layers == old(self).buf.layers,
                self.buf.width == old(self).buf.width,
                self.buf.height == old(self).buf.height,
                same_props(old(self).buf, self.buf),
                self.id == old(self).id,
                self.cursor == old(self).cursor,
                self.cur_selection == old(self).cur_selection,
                self.cur_outline == old(self).cur_outline,
                self.is_inactive == old(self).is_inactive,
                self.reference_image == old(self).reference_image,
                self.cur_layer == old(self).cur_layer,
                self.atomic_undo_stack@ == old(self).atomic_undo_stack@.drop_last(),
            decreases self.buf.undo_stack@.len(),
        {
            let ghost n = self.buf.undo_stack@.len() as int;
            match self.buf.undo_stack.pop() {
                Some(op) => {
                    stack.push(op);
                    proof {
                        assert(u.subrange(n - 1, count as int).reverse() =~= u.subrange(n, count as int).reverse().push(u[n - 1]));
                        assert(self.buf.undo_stack@ =~= u.subrange(0, n - 1));
                    }
                },
                None => {},
            }
        }
        proof {
            if base_count > count {
                assert(u.subrange(0, count as int) =~= u);
                assert(stack@ =~= Seq::<UndoOperation>::empty());
            }
        }
        self.buf.undo_stack.push(UndoOperation::Atomic { stack });
    }

    /// `set_char` inside an open group.
    pub(crate) fn put_char(
        &mut self,
        pos: Position,
        c: Option<DosChar>,
        Ghost(s0): Ghost<LState>,
        Ghost(u0): Ghost<Seq<UndoOperation>>,
        Ghost(ps): Ghost<Seq<UndoOperation>>,
    ) -> (ps2: Ghost<Seq<UndoOperation>>)
        requires
            group_inv(*old(self), s0, u0, ps),
        ensures
            group_inv(*final(self), s0, u0, ps2@),
            same_props(old(self).buf, final(self).buf),
            same_state(*old(self), *final(self)),
            old(self).valid_point(pos) ==> ps2@ == ps.push(set_char_op(*old(self), pos, c)),
            old(self).valid_point(pos) ==> lstate(final(self).buf) == redo_state(lstate(old(self).buf), set_char_op(*old(self), pos, c)),
            !old(self).valid_point(pos) ==> ps2@ == ps && *final(self) == *old(self),
    {
        let ghost before = *self;
        self.set_char(pos, c);
        if self.point_is_valid(pos) {
            proof {
                let op = set_char_op(before, pos, c);
                lemma_chain_push(s0, ps, op);
                assert(self.buf.undo_stack@ =~= u0 + ps.push(op));
            }
            Ghost(ps.push(set_char_op(before, pos, c)))
        } else {
            Ghost(ps)
        }
    }

    /// Opens a group and starts recording its edits.
    fn open_group(&mut self)
        ensures
            group_inv(*final(self), lstate(old(self).buf), old(self).buf.undo_stack@, Seq::empty()),
            final(self).atomic_undo_stack@ == old(self).atomic_undo_stack@.push(old(self).buf.undo_stack.len()),
            final(self).buf == old(self).buf,
            final(self).id == old(self).id,
            final(self).cursor == old(self).cursor,
            final(self).cur_selection == old(self).cur_selection,
            final(self).cur_outline == old(self).cur_outline,
            final(self).is_inactive == old(self).is_inactive,
            final(self).reference_image == old(self).reference_image,
            final(self).cur_layer == old(self).cur_layer,
    {
        self.begin_atomic_undo();
        assert(self.buf.undo_stack@ =~= old(self).buf.undo_stack@ + Seq::<UndoOperation>::empty());
    }

    /// Closes the group opened on `b0` with the edits `ps` recorded.
    fn close_group(&mut self, Ghost(b0): Ghost<Buffer>, Ghost(ps): Ghost<Seq<UndoOperation>>)
        requires
            made(*old(self), lstate(b0), b0.undo_stack@, ps),
            old(self).atomic_undo_stack@.len() > 0,
            old(self).atomic_undo_stack@.last() == b0.undo_stack.len(),
        ensures
            applied(b0, final(self).buf),
            chain_fits(lstate(b0), ps, ps.len() as int) ==> recorded(b0, final(self).buf),
            final(self).buf.layers == old(self).buf.layers,
            final(self).buf.width == old(self).buf.width,
            final(self).buf.height == old(self).buf.height,
            final(self).atomic_undo_stack@ == old(self).atomic_undo_stack@.drop_last(),
            final(self).buf.redo_stack == old(self).buf.redo_stack,
            same_props(old(self).buf, final(self).buf),
            final(self).id == old(self).id,
            final(self).cursor == old(self).cursor,
            final(self).cur_selection == old(self).cur_selection,
            final(self).cur_outline == old(self).cur_outline,
            final(self).is_inactive == old(self).is_inactive,
            final(self).reference_image == old(self).reference_image,
            final(self).cur_layer == old(self).cur_layer,
    {
        let ghost u0 = b0.undo_stack@;
        self.end_atomic_undo();
        proof {
            if ps.len() > 0 {
                assert((u0 + ps).subrange(u0.len() as int, (u0 + ps).len() as int) =~= ps);
                assert((u0 + ps).subrange(0, u0.len() as int) =~= u0);
            } else {
                assert(u0 + ps =~= u0);
            }
            lemma_group_closed(lstate(b0), u0, ps, b0, self.buf);
        }
    }

    /// Writes `dos_char` to every position of the rectangle where edits
    /// may write, as one group of edits.
    pub fn fill(&mut self, rect: Rectangle, dos_char: Option<DosChar>)
        requires
            rect.start.x + rect.size.width <= i32::MAX,
            rect.start.y + rect.size.height <= i32::MAX,
        ensures
            recorded(old(self).buf, final(self).buf),
            same_props(old(self).buf, final(self).buf),
            same_state(*old(self), *final(self)),
            final(self).buf.layers.len() == old(self).buf.layers.len(),
            final(self).buf.width == old(self).buf.width,
            final(self).buf.height == old(self).buf.height,
            forall|l: int, x: int, y: int|
                0 <= l < old(self).buf.layers.len() && 0 <= x <= i32::MAX && 0 <= y <= i32::MAX ==> #[trigger] grid_get(
                    final(self).buf.layers@[l].grid(),
                    x,
                    y,
                ) == filled(*old(self), rect, dos_char, l, x, y),
    {
        let ghost b0 = self.buf;
        let ghost e0 = *self;
        self.open_group();
        let ghost e1 = *self;
        let ghost mut ps: Seq<UndoOperation> = Seq::empty();
        let mut pos = rect.start;
        let mut r: usize = 0;
        while r < rect.size.height
            invariant
                r <= rect.size.height,
                pos.x == rect.start.x,
                pos.y == rect.start.y + r,
                rect.start.x + rect.size.width <= i32::MAX,
                rect.start.y + rect.size.height <= i32::MAX,
                group_inv(*self, lstate(b0), b0.undo_stack@, ps),
                same_props(e1.buf, self.buf),
                same_state(e1, *self),
                e1.buf == b0,
                e0.buf == b0,
                self.cur_selection == e0.cur_selection,
                self.cur_layer == e0.cur_layer,
                self.buf.layers.len() == b0.layers.len(),
                self.buf.width == b0.width,
                self.buf.height == b0.height,
                forall|l: int, x: int, y: int|
                    0 <= l < b0.layers.len() && 0 <= x <= i32::MAX && 0 <= y <= i32::MAX ==> #[trigger] grid_get(
                        self.buf.layers@[l].grid(),
                        x,
                        y,
                    ) == (if y < rect.start.y + r {
                        filled(e0, rect, dos_char, l, x, y)
                    } else {
                        grid_get(b0.layers@[l].grid(), x, y)
                    }),
            decreases rect.size.height - r,
        {
            let mut k: usize = 0;
            while k < rect.size.width
                invariant
                    k <= rect.size.width,
                    r < rect.size.height,
                    pos.x == rect.start.x + k,
                    pos.y == rect.start.y + r,
                    rect.start.x + rect.size.width <= i32::MAX,
                    rect.start.y + rect.size.height <= i32::MAX,
                    group_inv(*self, lstate(b0), b0.undo_stack@, ps),
                    same_props(e1.buf, self.buf),
                    same_state(e1, *self),
                    e1.buf == b0,
                    e0.buf == b0,
                    self.cur_selection == e0.cur_selection,
                    self.cur_layer == e0.cur_layer,
                    self.buf.layers.len() == b0.layers.len(),
                    self.buf.width == b0.width,
                    self.buf.height == b0.height,
                    forall|l: int, x: int, y: int|
                        0 <= l < b0.layers.len() && 0 <= x <= i32::MAX && 0 <= y <= i32::MAX ==> #[trigger] grid_get(
                            self.buf.layers@[l].grid(),
                            x,
                            y,
                        ) == (if y < rect.start.y + r || (y == rect.start.y + r && x < rect.start.x + k) {
                            filled(e0, rect, dos_char, l, x, y)
                        } else {
                            grid_get(b0.layers@[l].grid(), x, y)
                        }),
                decreases rect.size.width - k,
            {
                let ghost before = *self;
                let ghost gs = self.buf.layers@;
                let g = self.put_char(pos, dos_char, Ghost(lstate(b0)), Ghost(b0.undo_stack@), Ghost(ps));
                proof {
                    ps = g@;
                    assert(before.valid_point(pos) == e0.valid_point(pos));
                    if before.valid_point(pos) {
                        assert(lstate(self.buf).grids.len() == lstate(before.buf).grids.len());
                        assert(self.buf.layers.len() == lstate(self.buf).grids.len());
                    }
                    assert forall|l: int, x: int, y: int|
                        0 <= l < b0.layers.len() && 0 <= x <= i32::MAX && 0 <= y <= i32::MAX implies #[trigger] grid_get(
                            self.buf.layers@[l].grid(),
                            x,
                            y,
                        ) == (if y < rect.start.y + r || (y == rect.start.y + r && x < rect.start.x + k + 1) {
                            filled(e0, rect, dos_char, l, x, y)
                        } else {
                            grid_get(b0.layers@[l].grid(), x, y)
                        }) by {
                        if before.valid_point(pos) {
                            assert(self.buf.layers@[l].grid() == lstate(self.buf).grids[l]);
                            assert(gs[l].grid() == lstate(before.buf).grids[l]);
                            if l == layer_index(e0.cur_layer) && 0 <= pos.x && 0 <= pos.y {
                                lemma_layer_read_after_write(gs[l].grid(), pos.x as int, pos.y as int, match dos_char {
                                    Some(ch) => ch,
                                    None => DosChar::spec_new(),
                                }, x, y);
                            }
                        }
                    }
                }
                pos.x = pos.x + 1;
                k = k + 1;
            }
            pos.y = pos.y + 1;
            pos.x = rect.start.x;
            r = r + 1;
        }
        self.close_group(Ghost(b0), Ghost(ps));
        assert(self.atomic_undo_stack@ =~= old(self).atomic_undo_stack@);
    }

    /// Blanks the selection, as one group of edits, and drops it.
    pub fn delete_selection(&mut self)
        requires
            old(self).cur_selection matches Some(sel) ==> sel.rectangle.start.x + sel.rectangle.size.width <= i32::MAX
                && sel.rectangle.start.y + sel.rectangle.size.height <= i32::MAX,
        ensures
            old(self).cur_selection is None ==> *final(self) == *old(self),
            old(self).cur_selection is Some ==> {
                &&& recorded(old(self).buf, final(self).buf)
                &&& same_props(old(self).buf, final(self).buf)
                &&& final(self).cur_selection is None
                &&& final(self).cursor == old(self).cursor
                &&& final(self).cur_layer == old(self).cur_layer
                &&& final(self).cur_outline == old(self).cur_outline
                &&& final(self).atomic_undo_stack@ == old(self).atomic_undo_stack@
            },
    {
        let selection = match self.cur_selection {
            Some(s) => s,
            None => {
                return;
            },
        };
        let ghost b0 = self.buf;
        self.open_group();
        let ghost e1 = *self;
        let ghost mut ps: Seq<UndoOperation> = Seq::empty();
        let rect = selection.rectangle;
        let mut pos = rect.start;
        let mut r: usize = 0;
        while r < rect.size.height
            invariant
                r <= rect.size.height,
                pos.x == rect.start.x,
                pos.y == rect.start.y + r,
                rect.start.x + rect.size.width <= i32::MAX,
                rect.start.y + rect.size.height <= i32::MAX,
                group_inv(*self, lstate(b0), b0.undo_stack@, ps),
                same_props(e1.buf, self.buf),
                same_state(e1, *self),
            decreases rect.size.height - r,
        {
            let mut k: usize = 0;
            while k < rect.size.width
                invariant
                    k <= rect.size.width,
                    r < rect.size.height,
                    pos.x == rect.start.x + k,
                    pos.y == rect.start.y + r,
                    rect.start.x + rect.size.width <= i32::MAX,
                    rect.start.y + rect.size.height <= i32::MAX,
                    group_inv(*self, lstate(b0), b0.undo_stack@, ps),
                    same_props(e1.buf, self.buf),
                    same_state(e1, *self),
                decreases rect.size.width - k,
            {
                let is_last = if self.buf.layers.len() == 0 {
                    self.cur_layer == -1
                } else {
                    self.cur_layer >= 0 && self.cur_layer as usize == self.buf.layers.len() - 1
                };
                let g = if is_last {
                    self.put_char(pos, Some(DosChar::new()), Ghost(lstate(b0)), Ghost(b0.undo_stack@), Ghost(ps))
                } else {
                    self.put_char(pos, None, Ghost(lstate(b0)), Ghost(b0.undo_stack@), Ghost(ps))
                };
                proof {
                    ps = g@;
                }
                pos.x = pos.x + 1;
                k = k + 1;
            }
            pos.y = pos.y + 1;
            pos.x = rect.start.x;
            r = r + 1;
        }
        self.close_group(Ghost(b0), Ghost(ps));
        assert(self.atomic_undo_stack@ =~= old(self).atomic_undo_stack@);
        self.cur_selection = None;
    }

    /// Writes the cells of the overlay to the current layer where edits may
    /// write, as one group of edits, and removes the overlay.
    pub fn join_overlay(&mut self)
        requires
            old(self).buf.overlay_layer matches Some(o) ==> o.lines.len() <= i32::MAX && forall|y: int|
                0 <= y < o.lines.len() ==> #[trigger] o.lines@[y].chars.len() <= i32::MAX,
        ensures
            recorded(old(self).buf, final(self).buf),
            final(self).buf.overlay_layer is None,
            same_state(*old(self), *final(self)),
    {
        let ghost b0 = self.buf;
        self.open_group();
        let opt_layer = self.buf.remove_overlay();
        let ghost e1 = *self;
        let ghost mut ps: Seq<UndoOperation> = Seq::empty();
        proof {
            assert(lstate(self.buf) == lstate(b0));
        }
        if let Some(layer) = &opt_layer {
            let mut y: usize = 0;
            while y < layer.lines.len()
                invariant
                    y <= layer.lines.len(),
                    layer.lines.len() <= i32::MAX,
                    forall|k: int| 0 <= k < layer.lines.len() ==> #[trigger] layer.lines@[k].chars.len() <= i32::MAX,
                    group_inv(*self, lstate(b0), b0.undo_stack@, ps),
                    same_props(e1.buf, self.buf),
                    same_state(e1, *self),
                decreases layer.lines.len() - y,
            {
                let line = &layer.lines[y];
                let mut x: usize = 0;
                while x < line.chars.len()
                    invariant
                        x <= line.chars.len(),
                        line.chars.len() <= i32::MAX,
                        y < layer.lines.len() <= i32::MAX,
                        group_inv(*self, lstate(b0), b0.undo_stack@, ps),
                        same_props(e1.buf, self.buf),
                        same_state(e1, *self),
                    decreases line.chars.len() - x,
                {
                    let ch = line.chars[x];
                    if ch.is_some() {
                        let g = self.put_char(Position::from(x as i32, y as i32), ch, Ghost(lstate(b0)), Ghost(b0.undo_stack@), Ghost(ps));
                        proof {
                            ps = g@;
                        }
                    }
                    x = x + 1;
                }
                y = y + 1;
            }
        }
        self.close_group(Ghost(b0), Ghost(ps));
        assert(self.atomic_undo_stack@ =~= old(self).atomic_undo_stack@);
    }

    /// Types a character at the cursor with the cursor's attribute and
    /// moves the cursor right. In insert mode the cells from the last
    /// column up to the cursor's column are first each set to what the
    /// current layer shows one column to the left. Each write is recorded
    /// as an edit of its own.
    pub fn type_key(&mut self, char_code: u8)
        requires
            old(self).cur_layer >= 0,
            old(self).cursor.pos.x < i32::MAX,
        ensures
            exists|ps: Seq<UndoOperation>| group_inv(*final(self), lstate(old(self).buf), old(self).buf.undo_stack@, ps),
            ({
                let pos = old(self).cursor.pos;
                let l = old(self).cur_layer as usize;
                old(self).valid_point(pos) && 0 <= pos.x && 0 <= pos.y && (l as int) < old(self).buf.layers.len() ==> shows_at(final(self).buf, l, pos)
                    == shown(DosChar { char_code, attribute: old(self).cursor.attr })
            }),
            final(self).cursor.pos == (Position { x: clamp_to((old(self).cursor.pos.x + 1) as i32, old(self).buf.width), y: clamp_to(
                old(self).cursor.pos.y,
                old(self).buf.height,
            ) }),
            final(self).cursor.attr == old(self).cursor.attr,
            same_props(old(self).buf, final(self).buf),
            final(self).cur_layer == old(self).cur_layer,
            final(self).cur_selection == old(self).cur_selection,
            final(self).buf.layers.len() == old(self).buf.layers.len(),
            ({
                let pos = old(self).cursor.pos;
                let l = old(self).cur_layer as int;
                let first = old(self).buf.width - 1;
                forall|k: int, x: int, y: int|
                    0 <= k < old(self).buf.layers.len() && 0 <= x && 0 <= y ==> #[trigger] grid_get(final(self).buf.layers@[k].grid(), x, y)
                        == (if k == l && x == pos.x && y == pos.y && old(self).valid_point(pos) {
                        shown(DosChar { char_code, attribute: old(self).cursor.attr })
                    } else if k == l && old(self).cursor.insert_mode && y == pos.y && first <= x <= pos.x {
                        insert_shift(*old(self), y, first, x)
                    } else {
                        grid_get(old(self).buf.layers@[k].grid(), x, y)
                    })
            }),
    {
        let ghost b0 = self.buf;
        let ghost e0 = *self;
        let ghost mut ps: Seq<UndoOperation> = Seq::empty();
        assert(self.buf.undo_stack@ =~= b0.undo_stack@ + ps);
        let pos = self.cursor.pos;
        let first: i32 = self.buf.width as i32 - 1;
        if self.cursor.insert_mode && first <= pos.x {
            let mut i: i32 = first;
            while i <= pos.x
                invariant
                    pos == e0.cursor.pos,
                    pos.x < i32::MAX,
                    first <= i <= pos.x + 1,
                    first >= -1,
                    self.cur_layer >= 0,
                    forall|k: int| 0 <= k < ps.len() ==> (#[trigger] ps[k]) is SetChar,
                    group_inv(*self, lstate(b0), b0.undo_stack@, ps),
                    same_props(e0.buf, self.buf),
                    same_state(e0, *self),
                    e0.buf == b0,
                    first == e0.buf.width - 1,
                    self.buf.layers.len() == b0.layers.len(),
                    self.buf.width == b0.width,
                    self.buf.height == b0.height,
                    forall|k: int, x: int, y: int|
                        0 <= k < b0.layers.len() && 0 <= x && 0 <= y ==> #[trigger] grid_get(self.buf.layers@[k].grid(), x, y) == (if k
                            == e0.cur_layer && y == pos.y && first <= x < i {
                            insert_shift(e0, y, first as int, x)
                        } else {
                            grid_get(b0.layers@[k].grid(), x, y)
                        }),
                decreases pos.x + 1 - i,
            {
                let next = self.get_char_from_cur_layer(Position::from(i - 1, pos.y));
                let ghost before = *self;
                let ghost gs = self.buf.layers@;
                let ghost l = e0.cur_layer as int;
                proof {
                    if l < b0.layers.len() {
                        let v = shows_at(before.buf, l as usize, Position { x: (i - 1) as i32, y: pos.y });
                        if i - 1 >= 0 && pos.y >= 0 {
                            assert(grid_get(gs[l].grid(), i - 1, pos.y as int) == v);
                        }
                        assert(shown(v) == v);
                    }
                }
                let g = self.put_char(Position::from(i, pos.y), next, Ghost(lstate(b0)), Ghost(b0.undo_stack@), Ghost(ps));
                proof {
                    let p = Position { x: i, y: pos.y };
                    assert(before.valid_point(p) == e0.valid_point(p));
                    if before.valid_point(p) {
                        assert(lstate(self.buf).grids.len() == lstate(before.buf).grids.len());
                        assert(self.buf.layers.len() == lstate(self.buf).grids.len());
                    }
                    assert forall|k: int, x: int, y: int|
                        0 <= k < b0.layers.len() && 0 <= x && 0 <= y implies #[trigger] grid_get(self.buf.layers@[k].grid(), x, y) == (if k
                            == e0.cur_layer && y == pos.y && first <= x < i + 1 {
                            insert_shift(e0, y, first as int, x)
                        } else {
                            grid_get(b0.layers@[k].grid(), x, y)
                        }) by {
                        if before.valid_point(p) {
                            assert(self.buf.layers@[k].grid() == lstate(self.buf).grids[k]);
                            assert(gs[k].grid() == lstate(before.buf).grids[k]);
                            if k == l && 0 <= i && 0 <= pos.y {
                                lemma_layer_read_after_write(gs[k].grid(), i as int, pos.y as int, next.unwrap(), x, y);
                                if x == i && y == pos.y {
                                    let v = shows_at(before.buf, l as usize, Position { x: (i - 1) as i32, y: pos.y });
                                    assert(next.unwrap() == v);
                                    assert(layer_index(e0.cur_layer) as int == l);
                                    if i - 1 >= 0 {
                                        assert(grid_get(gs[l].grid(), i - 1, pos.y as int) == (if first <= i - 1 {
                                            insert_shift(e0, pos.y as int, first as int, i - 1)
                                        } else {
                                            grid_get(b0.layers@[l].grid(), i - 1, pos.y as int)
                                        }));
                                    }
                                    assert(Position { x: x as i32, y: y as i32 } == p);
                                    assert(e0.valid_point(p));
                                    assert(e0.buf.layers@[l].grid() == b0.layers@[l].grid());
                                    assert(v == grid_get(gs[l].grid(), i - 1, pos.y as int));
                                    if i - 1 < 0 {
                                        assert(grid_get(b0.layers@[l].grid(), i - 1, pos.y as int) == DosChar::spec_new());
                                        assert(v == DosChar::spec_new());
                                        if i - 1 >= first {
                                            assert(insert_shift(e0, y, first as int, i - 1) == grid_get(b0.layers@[l].grid(), i - 1, pos.y as int));
                                        }
                                    }
                                    assert(insert_shift(e0, y, first as int, x) == (if x - 1 >= first {
                                        insert_shift(e0, y, first as int, x - 1)
                                    } else {
                                        grid_get(b0.layers@[l].grid(), x - 1, y)
                                    }));
                                    assert(insert_shift(e0, y, first as int, x) == v);
                                }
                            }
                        } else if k == l && x == i && y == pos.y {
                            assert(layer_index(e0.cur_layer) as int == l);
                            assert(insert_shift(e0, y, first as int, x) == grid_get(b0.layers@[l].grid(), x, y));
                        }
                    }
                    assert forall|k: int| 0 <= k < g@.len() implies (#[trigger] g@[k]) is SetChar by {
                        if k < ps.len() {
                            assert(g@[k] == ps[k]);
                        }
                    }
                    ps = g@;
                }
                i = i + 1;
            }
        }
        let ghost mid = *self;
        let ghost ps0 = ps;
        let ghost first_g = e0.buf.width - 1;
        proof {
            if !(self.cursor.insert_mode && first <= pos.x) {
                assert forall|k: int, x: int, y: int|
                    0 <= k < b0.layers.len() && 0 <= x && 0 <= y implies #[trigger] grid_get(mid.buf.layers@[k].grid(), x, y) == (if k
                        == e0.cur_layer && e0.cursor.insert_mode && y == pos.y && first_g <= x < pos.x {
                        insert_shift(e0, y, first_g, x)
                    } else {
                        grid_get(b0.layers@[k].grid(), x, y)
                    }) by {
                    assert(mid.buf == b0);
                }
            }
        }
        let c = DosChar { char_code, attribute: self.cursor.attr };
        let g = self.put_char(pos, Some(c), Ghost(lstate(b0)), Ghost(b0.undo_stack@), Ghost(ps));
        proof {
            ps = g@;
            assert(mid.valid_point(pos) == e0.valid_point(pos));
            if mid.valid_point(pos) {
                assert(lstate(self.buf).grids.len() == lstate(mid.buf).grids.len());
                assert(self.buf.layers.len() == lstate(self.buf).grids.len());
            }
            assert forall|k: int, x: int, y: int|
                0 <= k < b0.layers.len() && 0 <= x && 0 <= y implies #[trigger] grid_get(self.buf.layers@[k].grid(), x, y) == (if k
                    == e0.cur_layer && x == pos.x && y == pos.y && e0.valid_point(pos) {
                    shown(c)
                } else if k == e0.cur_layer && e0.cursor.insert_mode && y == pos.y && first_g <= x <= pos.x {
                    insert_shift(e0, y, first_g, x)
                } else {
                    grid_get(b0.layers@[k].grid(), x, y)
                }) by {
                if mid.valid_point(pos) {
                    assert(self.buf.layers@[k].grid() == lstate(self.buf).grids[k]);
                    assert(mid.buf.layers@[k].grid() == lstate(mid.buf).grids[k]);
                    if k == e0.cur_layer && 0 <= pos.x && 0 <= pos.y {
                        lemma_layer_read_after_write(mid.buf.layers@[k].grid(), pos.x as int, pos.y as int, c, x, y);
                    }
                }
                if x == pos.x && y == pos.y && k == e0.cur_layer && e0.cursor.insert_mode && first_g <= x && !e0.valid_point(pos) {
                    assert(insert_shift(e0, y, first_g, x) == grid_get(b0.layers@[k].grid(), x, y));
                }
            }
            let l = e0.cur_layer as usize;
            assert(lstate(mid.buf).grids.len() == e0.buf.layers.len() && mid.buf.width == e0.buf.width && mid.buf.height == e0.buf.height) by {
                lemma_chain_len(lstate(b0), ps0, ps0.len() as int);
            }
            if e0.valid_point(pos) && 0 <= pos.x && 0 <= pos.y && (l as int) < e0.buf.layers.len() {
                assert(mid.valid_point(pos));
                let op = set_char_op(mid, pos, Some(c));
                lemma_chain_push(lstate(b0), ps0, op);
                let gg = mid.buf.layers@[l as int].grid();
                assert(lstate(mid.buf).grids[l as int] == gg);
                assert(lstate(self.buf) == redo_state(lstate(mid.buf), op));
                assert(lstate(self.buf).grids.len() == lstate(mid.buf).grids.len());
                assert(lstate(self.buf).grids[l as int] == self.buf.layers@[l as int].grid());
                lemma_layer_read_after_write(gg, pos.x as int, pos.y as int, c, pos.x as int, pos.y as int);
            }
        }
        proof {
            assert forall|k: int| 0 <= k < ps.len() implies (#[trigger] ps[k]) is SetChar by {
                if k < ps0.len() {
                    assert(ps[k] == ps0[k]);
                }
            }
            lemma_chain_len(lstate(b0), ps, ps.len() as int);
        }
        self.set_cursor(pos.x + 1, pos.y);
        assert(group_inv(*self, lstate(b0), b0.undo_stack@, ps));
    }

    /// Empties the current layer and records the edit.
    pub fn clear_cur_layer(&mut self)
        requires
            0 <= old(self).cur_layer < old(self).buf.layers.len(),
        ensures
            recorded(old(self).buf, final(self).buf),
            final(self).buf.layers@[old(self).cur_layer as int].grid().len() == 0,
            same_props(old(self).buf, final(self).buf),
            same_state(*old(self), *final(self)),
    {
        let ghost s0 = lstate(self.buf);
        let ghost b0 = self.buf;
        let op = self.buf.clear_layer(self.cur_layer as usize);
        let ghost opv = op;
        self.buf.undo_stack.push(op);
        proof {
            let l = self.cur_layer as int;
            assert(self.buf.layers@[l].grid() =~= Seq::<Seq<DosChar>>::empty());
            assert(lstate(self.buf).grids =~= redo_state(s0, opv).grids);
            assert(grid_of(b0.layers@[l].lines@) == s0.grids[l]);
            assert(fits(s0, opv));
            assert(self.buf.undo_stack@.drop_last() =~= b0.undo_stack@);
        }
    }

    /// Removes row `line` of the current layer (not recorded for undo).
    pub fn delete_line(&mut self, line: i32)
        requires
            0 <= old(self).cur_layer < old(self).buf.layers.len(),
        ensures
            ({
                let l = old(self).cur_layer as int;
                let g = old(self).buf.layers@[l].grid();
                &&& 0 <= line < g.len() ==> final(self).buf.layers@[l].grid() == g.remove(line as int)
                &&& !(0 <= line < g.len()) ==> final(self).buf.layers@[l].grid() == g
                &&& final(self).buf.layers.len() == old(self).buf.layers.len()
                &&& forall|k: int| 0 <= k < old(self).buf.layers.len() && k != l ==> final(self).buf.layers@[k] == old(self).buf.layers@[k]
            }),
            final(self).buf.undo_stack == old(self).buf.undo_stack,
            same_props(old(self).buf, final(self).buf),
            same_state(*old(self), *final(self)),
    {
        let l = self.cur_layer as usize;
        self.buf.layers[l].remove_line(line);
    }

    /// Inserts an empty row before row `line` of the current layer (not
    /// recorded for undo).
    pub fn insert_line(&mut self, line: i32)
        requires
            0 <= old(self).cur_layer < old(self).buf.layers.len(),
        ensures
            ({
                let l = old(self).cur_layer as int;
                let g = old(self).buf.layers@[l].grid();
                &&& 0 <= line <= g.len() ==> final(self).buf.layers@[l].grid() == g.insert(line as int, Seq::empty())
                &&& !(0 <= line <= g.len()) ==> final(self).buf.layers@[l].grid() == g
                &&& final(self).buf.layers.len() == old(self).buf.layers.len()
                &&& forall|k: int| 0 <= k < old(self).buf.layers.len() && k != l ==> final(self).buf.layers@[k] == old(self).buf.layers@[k]
            }),
            final(self).buf.undo_stack == old(self).buf.undo_stack,
            same_props(old(self).buf, final(self).buf),
            same_state(*old(self), *final(self)),
    {
        let l = self.cur_layer as usize;
        self.buf.layers[l].insert_line(line, Line::new());
    }

    /// Character `i` of the current outline style.
    pub fn get_outline_char_code(&self, i: i32) -> (r: Result<u8, &'static str>)
        requires
            !(0 <= self.cur_outline < 15 && i == 10),
        ensures
            !(0 <= self.cur_outline < 15) ==> r is Err && r->Err_0@ == "current outline out of range."@,
            0 <= self.cur_outline < 15 && !(0 <= i <= 10) ==> r is Err && r->Err_0@ == "outline char# out of range."@,
            outline_ok(self.cur_outline, i) ==> r == Ok::<u8, &'static str>(outline_char(self.cur_outline as int, i as int)),
    {
        Editor::get_outline_char_code_from(self.cur_outline, i)
    }

    /// Character `i` of outline style `outline`.
    pub fn get_outline_char_code_from(outline: i32, i: i32) -> (r: Result<u8, &'static str>)
        requires
            !(0 <= outline < 15 && i == 10),
        ensures
            !(0 <= outline < 15) ==> r is Err && r->Err_0@ == "current outline out of range."@,
            0 <= outline < 15 && !(0 <= i <= 10) ==> r is Err && r->Err_0@ == "outline char# out of range."@,
            outline_ok(outline, i) ==> r == Ok::<u8, &'static str>(outline_char(outline as int, i as int)),
    {
        if outline < 0 || outline >= 15 {
            return Err("current outline out of range.");
        }
        if !(0 <= i && i <= 10) {
            return Err("outline char# out of range.");
        }
        let t = outline_array();
        Ok(t[15 * i as usize + outline as usize])
    }

    fn get_blockaction_rectangle(&self) -> (r: (i32, i32, i32, i32))
        requires
            block_ok(*self),
        ensures
            (r.0 as int, r.1 as int, r.2 as int, r.3 as int) == block(*self),
    {
        match &self.cur_selection {
            Some(selection) => {
                let r = &selection.rectangle;
                (r.start.x, r.start.y, r.start.x + r.size.width as i32 - 1, r.start.y + r.size.height as i32 - 1)
            },
            None => (0, self.cursor.pos.y, self.buf.width as i32 - 1, self.cursor.pos.y),
        }
    }

    /// Writes `ch` at `pos` of layer `l` directly and records the edit.
    fn put_layer_char(
        &mut self,
        l: usize,
        pos: Position,
        ch: DosChar,
        Ghost(s0): Ghost<LState>,
        Ghost(u0): Ghost<Seq<UndoOperation>>,
        Ghost(ps): Ghost<Seq<UndoOperation>>,
    ) -> (ps2: Ghost<Seq<UndoOperation>>)
        requires
            l < old(self).buf.layers.len(),
            made(*old(self), s0, u0, ps),
        ensures
            made(*final(self), s0, u0, ps2@),
            chain_fits(s0, ps, ps.len() as int) ==> chain_fits(s0, ps2@, ps2@.len() as int),
            ps2@ == ps.push(UndoOperation::SetChar { layer: l, pos, old: shows_at(old(self).buf, l, pos), new: ch }),
            lstate(final(self).buf) == set_cell(lstate(old(self).buf), l as int, pos, ch),
            final(self).buf.layers.len() == old(self).buf.layers.len(),
            final(self).buf.width == old(self).buf.width,
            final(self).buf.height == old(self).buf.height,
            final(self).buf.redo_stack == old(self).buf.redo_stack,
            same_props(old(self).buf, final(self).buf),
            same_state(*old(self), *final(self)),
    {
        let old_ch = self.buf.layers[l].get_char(pos);
        let ghost st = lstate(self.buf);
        self.buf.layers[l].set_char(pos, ch);
        let op = UndoOperation::SetChar { layer: l, pos, old: old_ch, new: ch };
        let ghost opv = op;
        self.buf.undo_stack.push(op);
        proof {
            lemma_chain_push(s0, ps, opv);
            assert(lstate(self.buf).grids =~= redo_state(st, opv).grids);
            assert(self.buf.undo_stack@ =~= u0 + ps.push(opv));
            assert(lstate(self.buf) == set_cell(st, l as int, pos, ch));
        }
        Ghost(ps.push(opv))
    }

    /// Moves the content of each row of the block to the left edge of the
    /// block, as one group of edits: the blank cells that lead the row
    /// are dropped and the row is filled up with blanks at the right. Rows
    /// that are blank throughout stay as they are.
    pub fn justify_left(&mut self)
        requires
            0 <= old(self).cur_layer < old(self).buf.layers.len(),
            block_ok(*old(self)),
        ensures
            ({
                let (x1, y1, x2, y2) = block(*old(self));
                let c = old(self).cur_layer as int;
                &&& forall|x: int, y: int|
                    0 <= x && 0 <= y ==> #[trigger] grid_get(final(self).buf.layers@[c].grid(), x, y) == left_of(
                        grid_view(old(self).buf.layers@[c].grid()),
                        x1,
                        x2,
                        y1,
                        y2,
                        x,
                        y,
                    )
                &&& forall|k: int| 0 <= k < old(self).buf.layers.len() && k != c ==> #[trigger] final(self).buf.layers@[k].grid() == old(self).buf.layers@[k].grid()
            }),
            recorded(old(self).buf, final(self).buf),
            final(self).buf.layers.len() == old(self).buf.layers.len(),
            final(self).buf.width == old(self).buf.width,
            final(self).buf.height == old(self).buf.height,
            final(self).buf.redo_stack == old(self).buf.redo_stack,
            same_props(old(self).buf, final(self).buf),
            same_state(*old(self), *final(self)),
    {
        let ghost b0 = self.buf;
        self.open_group();
        let ghost e1 = *self;
        let ghost mut ps: Seq<UndoOperation> = Seq::empty();
        let (x1, y1, x2, y2) = self.get_blockaction_rectangle();
        let l = self.cur_layer as usize;
        let ghost g0 = b0.layers@[l as int].grid();
        let ghost v0 = grid_view(g0);
        let is_bg_layer = l == self.buf.layers.len() - 1;
        let mut y = y1;
        while y <= y2
            invariant
                y1 <= y <= y2 + 1,
                -0x2000_0000 <= x1 <= 0x2000_0000,
                -0x2000_0000 <= y1 <= 0x2000_0000,
                x1 - 1 <= x2 <= 0x4000_0000,
                x2 - x1 + 1 <= 0x2000_0000,
                y2 <= 0x4000_0000,
                l < self.buf.layers.len(),
                g0 == b0.layers@[l as int].grid(),
                v0 == grid_view(g0),
                group_inv(*self, lstate(b0), b0.undo_stack@, ps),
                self.buf.layers.len() == b0.layers.len(),
                self.buf.width == b0.width,
                self.buf.height == b0.height,
                self.buf.redo_stack == e1.buf.redo_stack,
                same_props(e1.buf, self.buf),
                same_state(e1, *self),
                forall|k: int| 0 <= k < self.buf.layers.len() && k != l ==> #[trigger] self.buf.layers@[k].grid() == b0.layers@[k].grid(),
                forall|px: int, py: int|
                    0 <= px && 0 <= py ==> #[trigger] grid_get(self.buf.layers@[l as int].grid(), px, py) == (if py < y {
                        left_of(v0, x1 as int, x2 as int, y1 as int, y2 as int, px, py)
                    } else {
                        v0(px, py)
                    }),
            decreases y2 + 1 - y,
        {
            let len = x2 - x1 + 1;
            let mut removed: i32 = 0;
            while removed < len
                invariant
                    0 <= removed <= len,
                    len == x2 - x1 + 1,
                    -0x2000_0000 <= x1 <= 0x2000_0000,
                    x1 - 1 <= x2 <= 0x4000_0000,
                    l < self.buf.layers.len(),
                    y1 <= y <= y2,
                    v0 == grid_view(g0),
                    forall|px: int| 0 <= px && 0 <= y ==> #[trigger] grid_get(self.buf.layers@[l as int].grid(), px, y as int) == v0(px, y as int),
                    lead_from(v0, x1 as int, x2 as int, y as int) == removed + lead_from(v0, x1 + removed, x2 as int, y as int),
                ensures
                    0 <= removed <= len,
                    lead_from(v0, x1 as int, x2 as int, y as int) == removed + lead_from(v0, x1 + removed, x2 as int, y as int),
                    removed == len || !v0(x1 + removed, y as int).spec_is_transparent(),
                decreases len - removed,
            {
                let ch = self.buf.layers[l].get_char(Position::from(x1 + removed, y));
                proof {
                    assert(ch == v0(x1 + removed, y as int));
                }
                if !ch.is_transparent() {
                    break;
                }
                removed = removed + 1;
            }
            proof {
                assert(lead_from(v0, x1 as int, x2 as int, y as int) == removed);
            }
            if len != removed {
                let mut x = x1;
                while x <= x2
                    invariant
                        x1 <= x <= x2 + 1,
                        0 <= removed < len,
                        len == x2 - x1 + 1,
                        len <= 0x2000_0000,
                        -0x2000_0000 <= x1 <= 0x2000_0000,
                        x1 - 1 <= x2 <= 0x4000_0000,
                        y1 <= y <= y2,
                        y2 <= 0x4000_0000,
                        l < self.buf.layers.len(),
                        g0 == b0.layers@[l as int].grid(),
                        v0 == grid_view(g0),
                        lead_from(v0, x1 as int, x2 as int, y as int) == removed,
                        group_inv(*self, lstate(b0), b0.undo_stack@, ps),
                        self.buf.layers.len() == b0.layers.len(),
                        self.buf.width == b0.width,
                        self.buf.height == b0.height,
                        self.buf.redo_stack == e1.buf.redo_stack,
                        same_props(e1.buf, self.buf),
                        same_state(e1, *self),
                        forall|k: int| 0 <= k < self.buf.layers.len() && k != l ==> #[trigger] self.buf.layers@[k].grid() == b0.layers@[k].grid(),
                        forall|px: int, py: int|
                            0 <= px && 0 <= py ==> #[trigger] grid_get(self.buf.layers@[l as int].grid(), px, py) == (if py < y || (py == y
                                && px < x) {
                                left_of(v0, x1 as int, x2 as int, y1 as int, y2 as int, px, py)
                            } else {
                                v0(px, py)
                            }),
                    decreases x2 + 1 - x,
                {
                    let ch = if x + removed <= x2 {
                        self.buf.layers[l].get_char(Position::from(x + removed, y))
                    } else if is_bg_layer {
                        DosChar::new()
                    } else {
                        DosChar::new()
                    };
                    let ghost gb = self.buf.layers@[l as int].grid();
                    let ghost lb = self.buf.layers@;
                    proof {
                        assert(ch == left_of(v0, x1 as int, x2 as int, y1 as int, y2 as int, x as int, y as int) || x < 0 || y < 0);
                        assert(shown(ch) == ch);
                    }
                    let g = self.put_layer_char(l, Position::from(x, y), ch, Ghost(lstate(b0)), Ghost(b0.undo_stack@), Ghost(ps));
                    proof {
                        ps = g@;
                        assert(self.buf.layers@[l as int].grid() == lstate(self.buf).grids[l as int]);
                        assert forall|k: int| 0 <= k < self.buf.layers.len() && k != l implies #[trigger] self.buf.layers@[k].grid()
                            == b0.layers@[k].grid() by {
                            assert(self.buf.layers@[k].grid() == lstate(self.buf).grids[k]);
                            assert(lb[k].grid() == b0.layers@[k].grid());
                        }
                        assert forall|px: int, py: int| 0 <= px && 0 <= py implies #[trigger] grid_get(self.buf.layers@[l as int].grid(), px, py)
                            == (if py < y || (py == y && px < x + 1) {
                            left_of(v0, x1 as int, x2 as int, y1 as int, y2 as int, px, py)
                        } else {
                            v0(px, py)
                        }) by {
                            if 0 <= x && 0 <= y {
                                lemma_layer_read_after_write(gb, x as int, y as int, ch, px, py);
                            }
                        }
                    }
                    x = x + 1;
                }
            }
            y = y + 1;
        }
        self.close_group(Ghost(b0), Ghost(ps));
        assert(self.atomic_undo_stack@ =~= old(self).atomic_undo_stack@);
    }

    /// Moves each row `y1..=y2` of the columns `x1..=x2` of layer `l` right
    /// over its trailing blanks (over half of them when `half`), recording
    /// each cell written in the open group.
    fn shift_rows_right(
        &mut self,
        l: usize,
        x1: i32,
        y1: i32,
        x2: i32,
        y2: i32,
        half: bool,
        Ghost(b0): Ghost<Buffer>,
        Ghost(ps): Ghost<Seq<UndoOperation>>,
    ) -> (ps2: Ghost<Seq<UndoOperation>>)
        requires
            l < old(self).buf.layers.len(),
            -0x2000_0000 <= x1 <= 0x2000_0000,
            -0x2000_0000 <= y1 <= 0x2000_0000,
            x1 - 1 <= x2 <= 0x4000_0000,
            x2 - x1 + 1 <= 0x2000_0000,
            y1 - 1 <= y2 <= 0x4000_0000,
            group_inv(*old(self), lstate(b0), b0.undo_stack@, ps),
        ensures
            group_inv(*final(self), lstate(b0), b0.undo_stack@, ps2@),
            forall|x: int, y: int|
                0 <= x && 0 <= y ==> #[trigger] grid_get(final(self).buf.layers@[l as int].grid(), x, y) == right_of(
                    grid_view(old(self).buf.layers@[l as int].grid()),
                    x1 as int,
                    x2 as int,
                    y1 as int,
                    y2 as int,
                    half,
                    x,
                    y,
                ),
            forall|k: int| 0 <= k < old(self).buf.layers.len() && k != l ==> #[trigger] final(self).buf.layers@[k].grid() == old(self).buf.layers@[k].grid(),
            final(self).buf.layers.len() == old(self).buf.layers.len(),
            final(self).buf.width == old(self).buf.width,
            final(self).buf.height == old(self).buf.height,
            final(self).buf.redo_stack == old(self).buf.redo_stack,
            same_props(old(self).buf, final(self).buf),
            same_state(*old(self), *final(self)),
    {
        let ghost e1 = *self;
        let ghost mut ps = ps;
        let ghost g0 = e1.buf.layers@[l as int].grid();
        let ghost v0 = grid_view(g0);
        let mut y = y1;
        while y <= y2
            invariant
                y1 <= y <= y2 + 1,
                -0x2000_0000 <= x1 <= 0x2000_0000,
                -0x2000_0000 <= y1 <= 0x2000_0000,
                x1 - 1 <= x2 <= 0x4000_0000,
                x2 - x1 + 1 <= 0x2000_0000,
                y2 <= 0x4000_0000,
                l < self.buf.layers.len(),
                g0 == e1.buf.layers@[l as int].grid(),
                v0 == grid_view(g0),
                group_inv(*self, lstate(b0), b0.undo_stack@, ps),
                self.buf.layers.len() == e1.buf.layers.len(),
                self.buf.width == e1.buf.width,
                self.buf.height == e1.buf.height,
                self.buf.redo_stack == e1.buf.redo_stack,
                same_props(e1.buf, self.buf),
                same_state(e1, *self),
                forall|k: int| 0 <= k < self.buf.layers.len() && k != l ==> #[trigger] self.buf.layers@[k].grid() == e1.buf.layers@[k].grid(),
                forall|px: int, py: int|
                    0 <= px && 0 <= py ==> #[trigger] grid_get(self.buf.layers@[l as int].grid(), px, py) == (if py < y {
                        right_of(v0, x1 as int, x2 as int, y1 as int, y2 as int, half, px, py)
                    } else {
                        v0(px, py)
                    }),
            decreases y2 + 1 - y,
        {
            let len = x2 - x1 + 1;
            let mut removed: i32 = 0;
            while removed < len
                invariant
                    0 <= removed <= len,
                    len == x2 - x1 + 1,
                    len <= 0x2000_0000,
                    -0x2000_0000 <= x1 <= 0x2000_0000,
                    x1 - 1 <= x2 <= 0x4000_0000,
                    l < self.buf.layers.len(),
                    y1 <= y <= y2,
                    v0 == grid_view(g0),
                    forall|px: int| 0 <= px && 0 <= y ==> #[trigger] grid_get(self.buf.layers@[l as int].grid(), px, y as int) == v0(px, y as int),
                    trail_from(v0, x1 as int, x2 as int, y as int) == removed + trail_from(v0, x1 as int, x2 - removed, y as int),
                ensures
                    0 <= removed <= len,
                    trail_from(v0, x1 as int, x2 as int, y as int) == removed + trail_from(v0, x1 as int, x2 - removed, y as int),
                    removed == len || !v0(x2 - removed, y as int).spec_is_transparent(),
                decreases len - removed,
            {
                let ch = self.buf.layers[l].get_char(Position::from(x2 - removed, y));
                proof {
                    assert(ch == v0(x2 - removed, y as int));
                }
                if !ch.is_transparent() {
                    break;
                }
                removed = removed + 1;
            }
            let ghost t = removed as int;
            proof {
                assert(trail_from(v0, x1 as int, x2 as int, y as int) == t);
            }
            if len != removed {
                if half {
                    removed = removed / 2;
                }
                let mut x: i32 = 0;
                while x < len
                    invariant
                        0 <= x <= len,
                        0 <= removed < len,
                        0 <= t < len,
                        removed == (if half { t / 2 } else { t }),
                        trail_from(v0, x1 as int, x2 as int, y as int) == t,
                        len == x2 - x1 + 1,
                        len <= 0x2000_0000,
                        -0x2000_0000 <= x1 <= 0x2000_0000,
                        x1 - 1 <= x2 <= 0x4000_0000,
                        y1 <= y <= y2,
                        y2 <= 0x4000_0000,
                        l < self.buf.layers.len(),
                        g0 == e1.buf.layers@[l as int].grid(),
                        v0 == grid_view(g0),
                        group_inv(*self, lstate(b0), b0.undo_stack@, ps),
                        self.buf.layers.len() == e1.buf.layers.len(),
                        self.buf.width == e1.buf.width,
                        self.buf.height == e1.buf.height,
                        self.buf.redo_stack == e1.buf.redo_stack,
                        same_props(e1.buf, self.buf),
                        same_state(e1, *self),
                        forall|k: int| 0 <= k < self.buf.layers.len() && k != l ==> #[trigger] self.buf.layers@[k].grid() == e1.buf.layers@[k].grid(),
                        forall|px: int, py: int|
                            0 <= px && 0 <= py ==> #[trigger] grid_get(self.buf.layers@[l as int].grid(), px, py) == (if py < y || (py == y
                                && px > x2 - x) {
                                right_of(v0, x1 as int, x2 as int, y1 as int, y2 as int, half, px, py)
                            } else {
                                v0(px, py)
                            }),
                    decreases len - x,
                {
                    let ch = if x2 - x - removed >= x1 {
                        self.buf.layers[l].get_char(Position::from(x2 - x - removed, y))
                    } else {
                        DosChar::new()
                    };
                    let ghost gb = self.buf.layers@[l as int].grid();
                    let ghost lb = self.buf.layers@;
                    let tx = x2 - x;
                    proof {
                        assert(ch == right_of(v0, x1 as int, x2 as int, y1 as int, y2 as int, half, tx as int, y as int) || tx < 0 || y < 0);
                        assert(shown(ch) == ch);
                    }
                    let g = self.put_layer_char(l, Position::from(tx, y), ch, Ghost(lstate(b0)), Ghost(b0.undo_stack@), Ghost(ps));
                    proof {
                        ps = g@;
                        assert(self.buf.layers@[l as int].grid() == lstate(self.buf).grids[l as int]);
                        assert forall|k: int| 0 <= k < self.buf.layers.len() && k != l implies #[trigger] self.buf.layers@[k].grid()
                            == e1.buf.layers@[k].grid() by {
                            assert(self.buf.layers@[k].grid() == lstate(self.buf).grids[k]);
                            assert(lb[k].grid() == e1.buf.layers@[k].grid());
                        }
                        assert forall|px: int, py: int| 0 <= px && 0 <= py implies #[trigger] grid_get(self.buf.layers@[l as int].grid(), px, py)
                            == (if py < y || (py == y && px > x2 - (x + 1)) {
                            right_of(v0, x1 as int, x2 as int, y1 as int, y2 as int, half, px, py)
                        } else {
                            v0(px, py)
                        }) by {
                            if 0 <= tx && 0 <= y {
                                lemma_layer_read_after_write(gb, tx as int, y as int, ch, px, py);
                            }
                        }
                    }
                    x = x + 1;
                }
            }
            y = y + 1;
        }
        Ghost(ps)
    }

    /// Moves the content of each row of the block to the right edge of
    /// the block, as one group of edits: the blank cells that end the row
    /// are dropped and the row is filled up with blanks at the left. Rows
    /// that are blank throughout stay as they are.
    pub fn justify_right(&mut self)
        requires
            0 <= old(self).cur_layer < old(self).buf.layers.len(),
            block_ok(*old(self)),
        ensures
            ({
                let (x1, y1, x2, y2) = block(*old(self));
                let c = old(self).cur_layer as int;
                &&& forall|x: int, y: int|
                    0 <= x && 0 <= y ==> #[trigger] grid_get(final(self).buf.layers@[c].grid(), x, y) == right_of(
                        grid_view(old(self).buf.layers@[c].grid()),
                        x1,
                        x2,
                        y1,
                        y2,
                        false,
                        x,
                        y,
                    )
                &&& forall|k: int| 0 <= k < old(self).buf.layers.len() && k != c ==> #[trigger] final(self).buf.layers@[k].grid() == old(self).buf.layers@[k].grid()
            }),
            recorded(old(self).buf, final(self).buf),
            final(self).buf.layers.len() == old(self).buf.layers.len(),
            final(self).buf.width == old(self).buf.width,
            final(self).buf.height == old(self).buf.height,
            final(self).buf.redo_stack == old(self).buf.redo_stack,
            same_props(old(self).buf, final(self).buf),
            same_state(*old(self), *final(self)),
    {
        let ghost b0 = self.buf;
        self.open_group();
        let (x1, y1, x2, y2) = self.get_blockaction_rectangle();
        let l = self.cur_layer as usize;
        let ps = self.shift_rows_right(l, x1, y1, x2, y2, false, Ghost(b0), Ghost(Seq::empty()));
        self.close_group(Ghost(b0), ps);
        assert(self.atomic_undo_stack@ =~= old(self).atomic_undo_stack@);
    }

    /// Centers the content of each row of the block, as one group of
    /// edits: the rows are first justified to the left (a group of its
    /// own inside this one), then shifted right by half of the blank
    /// cells that end them.
    pub fn justify_center(&mut self)
        requires
            0 <= old(self).cur_layer < old(self).buf.layers.len(),
            block_ok(*old(self)),
        ensures
            ({
                let (x1, y1, x2, y2) = block(*old(self));
                let c = old(self).cur_layer as int;
                &&& forall|x: int, y: int|
                    0 <= x && 0 <= y ==> #[trigger] grid_get(final(self).buf.layers@[c].grid(), x, y) == right_of(
                        left_view(old(self).buf.layers@[c].grid(), x1, x2, y1, y2),
                        x1,
                        x2,
                        y1,
                        y2,
                        true,
                        x,
                        y,
                    )
                &&& forall|k: int| 0 <= k < old(self).buf.layers.len() && k != c ==> #[trigger] final(self).buf.layers@[k].grid() == old(self).buf.layers@[k].grid()
            }),
            recorded(old(self).buf, final(self).buf),
            final(self).buf.layers.len() == old(self).buf.layers.len(),
            final(self).buf.width == old(self).buf.width,
            final(self).buf.height == old(self).buf.height,
            final(self).buf.redo_stack == old(self).buf.redo_stack,
            same_props(old(self).buf, final(self).buf),
            same_state(*old(self), *final(self)),
    {
        let ghost b0 = self.buf;
        self.open_group();
        let ghost mut ps: Seq<UndoOperation> = Seq::empty();
        let ghost before = self.buf;
        self.justify_left();
        proof {
            if self.buf.undo_stack@.len() > before.undo_stack@.len() {
                let op = self.buf.undo_stack@.last();
                lemma_chain_push(lstate(b0), ps, op);
                assert(self.buf.undo_stack@ =~= b0.undo_stack@ + ps.push(op));
                ps = ps.push(op);
            }
        }
        let ghost g1 = self.buf.layers@[self.cur_layer as int].grid();
        let (x1, y1, x2, y2) = self.get_blockaction_rectangle();
        let l = self.cur_layer as usize;
        proof {
            let g0 = b0.layers@[l as int].grid();
            assert(grid_view(g1) =~= left_view(g0, x1 as int, x2 as int, y1 as int, y2 as int)) by {
                assert forall|x: int, y: int| #[trigger] grid_view(g1)(x, y) == left_view(g0, x1 as int, x2 as int, y1 as int, y2 as int)(x, y) by {
                    if !(x >= 0 && y >= 0) {
                        assert(grid_get(g1, x, y) == DosChar::spec_new());
                    }
                }
            }
        }
        let psg = self.shift_rows_right(l, x1, y1, x2, y2, true, Ghost(b0), Ghost(ps));
        self.close_group(Ghost(b0), psg);
        assert(self.atomic_undo_stack@ =~= old(self).atomic_undo_stack@);
    }

    /// Exchanges the cells at `p1` and `p2` of layer `l` and records the
    /// edit.
    fn put_layer_swap(
        &mut self,
        l: usize,
        p1: Position,
        p2: Position,
        Ghost(s0): Ghost<LState>,
        Ghost(u0): Ghost<Seq<UndoOperation>>,
        Ghost(ps): Ghost<Seq<UndoOperation>>,
    ) -> (ps2: Ghost<Seq<UndoOperation>>)
        requires
            l < old(self).buf.layers.len(),
            made(*old(self), s0, u0, ps),
        ensures
            made(*final(self), s0, u0, ps2@),
            chain_fits(s0, ps, ps.len() as int) && 0 <= p1.x && 0 <= p1.y && 0 <= p2.x && 0 <= p2.y ==> chain_fits(
                s0,
                ps2@,
                ps2@.len() as int,
            ),
            ps2@ == ps.push(UndoOperation::SwapChar { layer: l, pos1: p1, pos2: p2 }),
            lstate(final(self).buf) == swap_cells(lstate(old(self).buf), l as int, p1, p2),
            final(self).buf.layers.len() == old(self).buf.layers.len(),
            final(self).buf.width == old(self).buf.width,
            final(self).buf.height == old(self).buf.height,
            final(self).buf.redo_stack == old(self).buf.redo_stack,
            same_props(old(self).buf, final(self).buf),
            same_state(*old(self), *final(self)),
    {
        let ghost st = lstate(self.buf);
        self.buf.layers[l].swap_char(p1, p2);
        let op = UndoOperation::SwapChar { layer: l, pos1: p1, pos2: p2 };
        let ghost opv = op;
        self.buf.undo_stack.push(op);
        proof {
            lemma_chain_push(s0, ps, opv);
            assert(lstate(self.buf).grids =~= redo_state(st, opv).grids);
            assert(self.buf.undo_stack@ =~= u0 + ps.push(opv));
            assert(lstate(self.buf) == swap_cells(st, l as int, p1, p2));
        }
        Ghost(ps.push(opv))
    }

    /// Mirrors the block left to right, as one group of edits.
    pub fn flip_x(&mut self)
        requires
            0 <= old(self).cur_layer < old(self).buf.layers.len(),
            block_ok(*old(self)),
        ensures
            ({
                let (x1, y1, x2, y2) = block(*old(self));
                let c = old(self).cur_layer as int;
                &&& forall|x: int, y: int|
                    0 <= x && 0 <= y ==> #[trigger] grid_get(final(self).buf.layers@[c].grid(), x, y) == flipped_x(
                        old(self).buf.layers@[c].grid(),
                        x1,
                        x2,
                        y1,
                        y2,
                        x,
                        y,
                    )
                &&& forall|k: int| 0 <= k < old(self).buf.layers.len() && k != c ==> #[trigger] final(self).buf.layers@[k].grid() == old(self).buf.layers@[k].grid()
            }),
            applied(old(self).buf, final(self).buf),
            ({
                let (x1, y1, x2, y2) = block(*old(self));
                0 <= x1 && 0 <= y1 && 0 <= x2 && 0 <= y2 ==> recorded(old(self).buf, final(self).buf)
            }),
            final(self).buf.width == old(self).buf.width,
            final(self).buf.height == old(self).buf.height,
            final(self).buf.redo_stack == old(self).buf.redo_stack,
            same_props(old(self).buf, final(self).buf),
            same_state(*old(self), *final(self)),
    {
        let ghost b0 = self.buf;
        self.open_group();
        let ghost e1 = *self;
        let ghost mut ps: Seq<UndoOperation> = Seq::empty();
        let (x1, y1, x2, y2) = self.get_blockaction_rectangle();
        let ghost nonneg = 0 <= x1 && 0 <= y1 && 0 <= x2 && 0 <= y2;
        let l = self.cur_layer as usize;
        let ghost g0 = b0.layers@[l as int].grid();
        let half = if x2 >= x1 { (x2 - x1) / 2 } else { 0 };
        let mut y = y1;
        while y <= y2
            invariant
                y1 <= y <= y2 + 1,
                -0x2000_0000 <= x1 <= 0x2000_0000,
                -0x2000_0000 <= y1 <= 0x2000_0000,
                x1 - 1 <= x2 <= 0x4000_0000,
                y2 <= 0x4000_0000,
                0 <= half,
                x2 >= x1 ==> 2 * half <= x2 - x1 <= 2 * half + 1,
                x2 < x1 ==> half == 0,
                nonneg == (0 <= x1 && 0 <= y1 && 0 <= x2 && 0 <= y2),
                l < self.buf.layers.len(),
                g0 == b0.layers@[l as int].grid(),
                made(*self, lstate(b0), b0.undo_stack@, ps),
                nonneg ==> chain_fits(lstate(b0), ps, ps.len() as int),
                self.buf.layers.len() == b0.layers.len(),
                self.buf.width == b0.width,
                self.buf.height == b0.height,
                self.buf.redo_stack == e1.buf.redo_stack,
                same_props(e1.buf, self.buf),
                same_state(e1, *self),
                forall|k: int| 0 <= k < self.buf.layers.len() && k != l ==> #[trigger] self.buf.layers@[k].grid() == b0.layers@[k].grid(),
                forall|px: int, py: int|
                    0 <= px && 0 <= py ==> #[trigger] grid_get(self.buf.layers@[l as int].grid(), px, py) == (if (if x1 <= x2 {
                        x1
                    } else {
                        x2
                    }) <= px <= (if x1 <= x2 {
                        x2
                    } else {
                        x1
                    }) && y1 <= py < y {
                        grid_get(g0, x1 + x2 - px, py)
                    } else {
                        grid_get(g0, px, py)
                    }),
            decreases y2 + 1 - y,
        {
            let mut x: i32 = 0;
            while x <= half
                invariant
                    0 <= x <= half + 1,
                    0 <= half,
                    x2 >= x1 ==> 2 * half <= x2 - x1 <= 2 * half + 1,
                    x2 < x1 ==> half == 0,
                    -0x2000_0000 <= x1 <= 0x2000_0000,
                    x1 - 1 <= x2 <= 0x4000_0000,
                    y1 <= y <= y2,
                    nonneg == (0 <= x1 && 0 <= y1 && 0 <= x2 && 0 <= y2),
                    l < self.buf.layers.len(),
                    g0 == b0.layers@[l as int].grid(),
                    made(*self, lstate(b0), b0.undo_stack@, ps),
                    nonneg ==> chain_fits(lstate(b0), ps, ps.len() as int),
                    self.buf.layers.len() == b0.layers.len(),
                    self.buf.width == b0.width,
                    self.buf.height == b0.height,
                    self.buf.redo_stack == e1.buf.redo_stack,
                    same_props(e1.buf, self.buf),
                    same_state(e1, *self),
                    forall|k: int| 0 <= k < self.buf.layers.len() && k != l ==> #[trigger] self.buf.layers@[k].grid() == b0.layers@[k].grid(),
                    forall|px: int, py: int|
                        0 <= px && 0 <= py ==> #[trigger] grid_get(self.buf.layers@[l as int].grid(), px, py) == (if ((if x1 <= x2 {
                            x1
                        } else {
                            x2
                        }) <= px <= (if x1 <= x2 {
                            x2
                        } else {
                            x1
                        }) && y1 <= py < y) || (py == y && (x1 <= px < x1 + x || x2 - x < px <= x2)) {
                            grid_get(g0, x1 + x2 - px, py)
                        } else {
                            grid_get(g0, px, py)
                        }),
                decreases half + 1 - x,
            {
                let p1 = Position::from(x1 + x, y);
                let p2 = Position::from(x2 - x, y);
                let ghost gb = self.buf.layers@[l as int].grid();
                let ghost lb = self.buf.layers@;
                let g = self.put_layer_swap(l, p1, p2, Ghost(lstate(b0)), Ghost(b0.undo_stack@), Ghost(ps));
                proof {
                    ps = g@;
                    assert(self.buf.layers@[l as int].grid() == lstate(self.buf).grids[l as int]);
                    assert forall|k: int| 0 <= k < self.buf.layers.len() && k != l implies #[trigger] self.buf.layers@[k].grid()
                        == b0.layers@[k].grid() by {
                        assert(self.buf.layers@[k].grid() == lstate(self.buf).grids[k]);
                        assert(lb[k].grid() == b0.layers@[k].grid());
                    }
                    assert forall|px: int, py: int| 0 <= px && 0 <= py implies #[trigger] grid_get(self.buf.layers@[l as int].grid(), px, py)
                        == (if ((if x1 <= x2 {
                        x1
                    } else {
                        x2
                    }) <= px <= (if x1 <= x2 {
                        x2
                    } else {
                        x1
                    }) && y1 <= py < y) || (py == y && (x1 <= px < x1 + x + 1 || x2 - (x + 1) < px <= x2)) {
                        grid_get(g0, x1 + x2 - px, py)
                    } else {
                        grid_get(g0, px, py)
                    }) by {
                        lemma_swap_get(gb, p1, p2, px, py);
                        assert(grid_get(gb, p1.x as int, p1.y as int) == grid_get(g0, p1.x as int, p1.y as int));
                        assert(grid_get(gb, p2.x as int, p2.y as int) == grid_get(g0, p2.x as int, p2.y as int));
                    }
                }
                x = x + 1;
            }
            y = y + 1;
        }
        self.close_group(Ghost(b0), Ghost(ps));
        assert(self.atomic_undo_stack@ =~= old(self).atomic_undo_stack@);
    }

    /// Mirrors the block top to bottom, as one group of edits.
    pub fn flip_y(&mut self)
        requires
            0 <= old(self).cur_layer < old(self).buf.layers.len(),
            block_ok(*old(self)),
        ensures
            ({
                let (x1, y1, x2, y2) = block(*old(self));
                let c = old(self).cur_layer as int;
                &&& forall|x: int, y: int|
                    0 <= x && 0 <= y ==> #[trigger] grid_get(final(self).buf.layers@[c].grid(), x, y) == flipped_y(
                        old(self).buf.layers@[c].grid(),
                        x1,
                        x2,
                        y1,
                        y2,
                        x,
                        y,
                    )
                &&& forall|k: int| 0 <= k < old(self).buf.layers.len() && k != c ==> #[trigger] final(self).buf.layers@[k].grid() == old(self).buf.layers@[k].grid()
            }),
            applied(old(self).buf, final(self).buf),
            ({
                let (x1, y1, x2, y2) = block(*old(self));
                0 <= x1 && 0 <= y1 && 0 <= x2 && 0 <= y2 ==> recorded(old(self).buf, final(self).buf)
            }),
            final(self).buf.width == old(self).buf.width,
            final(self).buf.height == old(self).buf.height,
            final(self).buf.redo_stack == old(self).buf.redo_stack,
            same_props(old(self).buf, final(self).buf),
            same_state(*old(self), *final(self)),
    {
        let ghost b0 = self.buf;
        self.open_group();
        let ghost e1 = *self;
        let ghost mut ps: Seq<UndoOperation> = Seq::empty();
        let (x1, y1, x2, y2) = self.get_blockaction_rectangle();
        let ghost nonneg = 0 <= x1 && 0 <= y1 && 0 <= x2 && 0 <= y2;
        let l = self.cur_layer as usize;
        let ghost g0 = b0.layers@[l as int].grid();
        let half = if y2 >= y1 { (y2 - y1) / 2 } else { 0 };
        let mut x = x1;
        while x <= x2
            invariant
                x1 <= x <= x2 + 1,
                -0x2000_0000 <= x1 <= 0x2000_0000,
                -0x2000_0000 <= y1 <= 0x2000_0000,
                x2 <= 0x4000_0000,
                y1 - 1 <= y2 <= 0x4000_0000,
                0 <= half,
                y2 >= y1 ==> 2 * half <= y2 - y1 <= 2 * half + 1,
                y2 < y1 ==> half == 0,
                nonneg == (0 <= x1 && 0 <= y1 && 0 <= x2 && 0 <= y2),
                l < self.buf.layers.len(),
                g0 == b0.layers@[l as int].grid(),
                made(*self, lstate(b0), b0.undo_stack@, ps),
                nonneg ==> chain_fits(lstate(b0), ps, ps.len() as int),
                self.buf.layers.len() == b0.layers.len(),
                self.buf.width == b0.width,
                self.buf.height == b0.height,
                self.buf.redo_stack == e1.buf.redo_stack,
                same_props(e1.buf, self.buf),
                same_state(e1, *self),
                forall|k: int| 0 <= k < self.buf.layers.len() && k != l ==> #[trigger] self.buf.layers@[k].grid() == b0.layers@[k].grid(),
                forall|px: int, py: int|
                    0 <= px && 0 <= py ==> #[trigger] grid_get(self.buf.layers@[l as int].grid(), px, py) == (if x1 <= px < x && (if y1
                        <= y2 {
                        y1
                    } else {
                        y2
                    }) <= py <= (if y1 <= y2 {
                        y2
                    } else {
                        y1
                    }) {
                        grid_get(g0, px, y1 + y2 - py)
                    } else {
                        grid_get(g0, px, py)
                    }),
            decreases x2 + 1 - x,
        {
            let mut y: i32 = 0;
            while y <= half
                invariant
                    0 <= y <= half + 1,
                    0 <= half,
                    y2 >= y1 ==> 2 * half <= y2 - y1 <= 2 * half + 1,
                    y2 < y1 ==> half == 0,
                    -0x2000_0000 <= y1 <= 0x2000_0000,
                    y1 - 1 <= y2 <= 0x4000_0000,
                    x1 <= x <= x2,
                    nonneg == (0 <= x1 && 0 <= y1 && 0 <= x2 && 0 <= y2),
                    l < self.buf.layers.len(),
                    g0 == b0.layers@[l as int].grid(),
                    made(*self, lstate(b0), b0.undo_stack@, ps),
                    nonneg ==> chain_fits(lstate(b0), ps, ps.len() as int),
                    self.buf.layers.len() == b0.layers.len(),
                    self.buf.width == b0.width,
                    self.buf.height == b0.height,
                    self.buf.redo_stack == e1.buf.redo_stack,
                    same_props(e1.buf, self.buf),
                    same_state(e1, *self),
                    forall|k: int| 0 <= k < self.buf.layers.len() && k != l ==> #[trigger] self.buf.layers@[k].grid() == b0.layers@[k].grid(),
                    forall|px: int, py: int|
                        0 <= px && 0 <= py ==> #[trigger] grid_get(self.buf.layers@[l as int].grid(), px, py) == (if (x1 <= px < x && (if y1
                            <= y2 {
                            y1
                        } else {
                            y2
                        }) <= py <= (if y1 <= y2 {
                            y2
                        } else {
                            y1
                        })) || (px == x && (y1 <= py < y1 + y || y2 - y < py <= y2)) {
                            grid_get(g0, px, y1 + y2 - py)
                        } else {
                            grid_get(g0, px, py)
                        }),
                decreases half + 1 - y,
            {
                let p1 = Position::from(x, y1 + y);
                let p2 = Position::from(x, y2 - y);
                let ghost gb = self.buf.layers@[l as int].grid();
                let ghost lb = self.buf.layers@;
                let g = self.put_layer_swap(l, p1, p2, Ghost(lstate(b0)), Ghost(b0.undo_stack@), Ghost(ps));
                proof {
                    ps = g@;
                    assert(self.buf.layers@[l as int].grid() == lstate(self.buf).grids[l as int]);
                    assert forall|k: int| 0 <= k < self.buf.layers.len() && k != l implies #[trigger] self.buf.layers@[k].grid()
                        == b0.layers@[k].grid() by {
                        assert(self.buf.layers@[k].grid() == lstate(self.buf).grids[k]);
                        assert(lb[k].grid() == b0.layers@[k].grid());
                    }
                    assert forall|px: int, py: int| 0 <= px && 0 <= py implies #[trigger] grid_get(self.buf.layers@[l as int].grid(), px, py)
                        == (if (x1 <= px < x && (if y1 <= y2 {
                        y1
                    } else {
                        y2
                    }) <= py <= (if y1 <= y2 {
                        y2
                    } else {
                        y1
                    })) || (px == x && (y1 <= py < y1 + y + 1 || y2 - (y + 1) < py <= y2)) {
                        grid_get(g0, px, y1 + y2 - py)
                    } else {
                        grid_get(g0, px, py)
                    }) by {
                        lemma_swap_get(gb, p1, p2, px, py);
                        assert(grid_get(gb, p1.x as int, p1.y as int) == grid_get(g0, p1.x as int, p1.y as int));
                        assert(grid_get(gb, p2.x as int, p2.y as int) == grid_get(g0, p2.x as int, p2.y as int));
                    }
                }
                y = y + 1;
            }
            x = x + 1;
        }
        self.close_group(Ghost(b0), Ghost(ps));
        assert(self.atomic_undo_stack@ =~= old(self).atomic_undo_stack@);
    }

    /// The part of a layer from `(x1, y1)` to `(x2, y2)`, moved to the top
    /// left corner.
    fn crop_layer(old_layer: &Layer, x1: i32, y1: i32, x2: i32, y2: i32) -> (r: Layer)
        requires
            -0x2000_0000 <= x1 <= 0x2000_0000,
            -0x2000_0000 <= y1 <= 0x2000_0000,
            x2 <= 0x4000_0000,
            y2 <= 0x4000_0000,
        ensures
            r.name == old_layer.name,
            r.is_visible == old_layer.is_visible,
            r.size == old_layer.size,
            forall|a: int, b: int|
                0 <= a <= x2 - x1 && 0 <= b <= y2 - y1 ==> #[trigger] grid_get(r.grid(), a, b) == grid_get(
                    old_layer.grid(),
                    x1 + a,
                    y1 + b,
                ),
    {
        let mut new_layer = Layer { name: old_layer.name.clone(), is_visible: old_layer.is_visible, size: old_layer.size, lines: Vec::new() };
        let ghost og = old_layer.grid();
        let mut y = y1;
        while y <= y2
            invariant
                y1 <= y,
                y <= y2 + 1 || y2 < y1,
                -0x2000_0000 <= x1 <= 0x2000_0000,
                -0x2000_0000 <= y1 <= 0x2000_0000,
                x2 <= 0x4000_0000,
                y2 <= 0x4000_0000,
                og == old_layer.grid(),
                new_layer.name == old_layer.name,
                new_layer.is_visible == old_layer.is_visible,
                new_layer.size == old_layer.size,
                forall|a: int, b: int|
                    0 <= a <= x2 - x1 && 0 <= b < y - y1 ==> #[trigger] grid_get(new_layer.grid(), a, b) == grid_get(og, x1 + a, y1 + b),
            decreases y2 + 1 - y,
        {
            let mut x = x1;
            while x <= x2
                invariant
                    x1 <= x,
                    x <= x2 + 1 || x2 < x1,
                    y1 <= y <= y2,
                    -0x2000_0000 <= x1 <= 0x2000_0000,
                    -0x2000_0000 <= y1 <= 0x2000_0000,
                    x2 <= 0x4000_0000,
                    y2 <= 0x4000_0000,
                    og == old_layer.grid(),
                    new_layer.name == old_layer.name,
                    new_layer.is_visible == old_layer.is_visible,
                    new_layer.size == old_layer.size,
                    forall|a: int, b: int|
                        0 <= a <= x2 - x1 && 0 <= b < y - y1 ==> #[trigger] grid_get(new_layer.grid(), a, b) == grid_get(og, x1 + a, y1 + b),
                    forall|a: int| 0 <= a < x - x1 ==> #[trigger] grid_get(new_layer.grid(), a, y - y1) == grid_get(og, x1 + a, y as int),
                decreases x2 + 1 - x,
            {
                let c = old_layer.get_char(Position::from(x, y));
                let ghost g0 = new_layer.grid();
                new_layer.set_char(Position::from(x - x1, y - y1), c);
                proof {
                    assert forall|a: int, b: int| 0 <= a <= x2 - x1 && 0 <= b < y - y1 implies #[trigger] grid_get(new_layer.grid(), a, b) == grid_get(og, x1 + a, y1 + b) by {
                        lemma_layer_read_after_write(g0, (x - x1) as int, (y - y1) as int, c, a, b);
                    }
                    assert forall|a: int| 0 <= a < x + 1 - x1 implies #[trigger] grid_get(new_layer.grid(), a, y - y1) == grid_get(og, x1 + a, y as int) by {
                        lemma_layer_read_after_write(g0, (x - x1) as int, (y - y1) as int, c, a, (y - y1) as int);
                    }
                }
                x = x + 1;
            }
            proof {
                assert forall|a: int, b: int| 0 <= a <= x2 - x1 && 0 <= b < y + 1 - y1 implies #[trigger] grid_get(new_layer.grid(), a, b) == grid_get(og, x1 + a, y1 + b) by {
                    if b == y - y1 {
                        assert(grid_get(new_layer.grid(), a, y - y1) == grid_get(og, x1 + a, y as int));
                    }
                }
            }
            y = y + 1;
        }
        new_layer
    }

    /// Cuts the picture down to the block, as one group of edits: every
    /// layer keeps the block's cells, moved to the top left corner, and
    /// the picture gets the block's size less one in each direction. Where
    /// that is the current size nothing changes, and the group opened for
    /// the edit stays open.
    pub fn crop(&mut self)
        requires
            block_ok(*old(self)),
        ensures
            ({
                let (x1, y1, x2, y2) = block(*old(self));
                let nw = (x2 - x1) as u16;
                let nh = (y2 - y1) as u16;
                &&& nw == old(self).buf.width && nh == old(self).buf.height ==> {
                    &&& final(self).buf == old(self).buf
                    &&& final(self).atomic_undo_stack@ == old(self).atomic_undo_stack@.push(old(self).buf.undo_stack.len())
                }
                &&& !(nw == old(self).buf.width && nh == old(self).buf.height) ==> {
                    &&& recorded(old(self).buf, final(self).buf)
                    &&& final(self).buf.width == nw
                    &&& final(self).buf.height == nh
                    &&& final(self).buf.layers.len() == old(self).buf.layers.len()
                    &&& forall|l: int, a: int, b: int|
                        0 <= l < old(self).buf.layers.len() && 0 <= a <= x2 - x1 && 0 <= b <= y2 - y1 ==> #[trigger] grid_get(
                            final(self).buf.layers@[l].grid(),
                            a,
                            b,
                        ) == grid_get(old(self).buf.layers@[l].grid(), x1 + a, y1 + b)
                    &&& final(self).atomic_undo_stack@ == old(self).atomic_undo_stack@
                    &&& same_props(old(self).buf, final(self).buf)
                }
            }),
            final(self).id == old(self).id,
            final(self).cursor == old(self).cursor,
            final(self).cur_selection == old(self).cur_selection,
            final(self).cur_layer == old(self).cur_layer,
            final(self).cur_outline == old(self).cur_outline,
    {
        let ghost b0 = self.buf;
        self.begin_atomic_undo();
        let (x1, y1, x2, y2) = self.get_blockaction_rectangle();
        let new_height = (y2 - y1) as u16;
        let new_width = (x2 - x1) as u16;
        if new_height == self.buf.height && new_width == self.buf.width {
            return;
        }
        let mut new_layers: Vec<Layer> = Vec::new();
        let mut l: usize = 0;
        while l < self.buf.layers.len()
            invariant
                l <= self.buf.layers.len(),
                self.buf == b0,
                new_layers.len() == l,
                -0x2000_0000 <= x1 <= 0x2000_0000,
                -0x2000_0000 <= y1 <= 0x2000_0000,
                x2 <= 0x4000_0000,
                y2 <= 0x4000_0000,
                forall|k: int, a: int, b: int|
                    0 <= k < l && 0 <= a <= x2 - x1 && 0 <= b <= y2 - y1 ==> #[trigger] grid_get(new_layers@[k].grid(), a, b)
                        == grid_get(b0.layers@[k].grid(), x1 + a, y1 + b),
            decreases self.buf.layers.len() - l,
        {
            let nl = Editor::crop_layer(&self.buf.layers[l], x1, y1, x2, y2);
            new_layers.push(nl);
            proof {
                assert forall|k: int, a: int, b: int|
                    0 <= k < l + 1 && 0 <= a <= x2 - x1 && 0 <= b <= y2 - y1 implies #[trigger] grid_get(new_layers@[k].grid(), a, b)
                        == grid_get(b0.layers@[k].grid(), x1 + a, y1 + b) by {
                    if k == l {
                        assert(grid_get(nl.grid(), a, b) == grid_get(b0.layers@[k].grid(), x1 + a, y1 + b));
                    }
                }
            }
            l = l + 1;
        }
        let old_layers = copy_layers(&self.buf.layers);
        let new_copy = copy_layers(&new_layers);
        let op = UndoOperation::ReplaceLayers {
            old_layers,
            new_layers: new_copy,
            old_size: (self.buf.width, self.buf.height),
            new_size: (new_width, new_height),
        };
        let ghost opv = op;
        self.buf.undo_stack.push(op);
        self.buf.layers = new_layers;
        self.buf.width = new_width;
        self.buf.height = new_height;
        let ghost ps = seq![opv];
        proof {
            assert(ps.len() == 1 && ps[0] == opv);
            assert(chain(lstate(b0), ps, 0) == lstate(b0));
            assert(lstate(self.buf) == chain(lstate(b0), ps, 1));
            assert(fits(lstate(b0), opv));
            assert(chain_fits(lstate(b0), ps, 0));
            assert(fits(chain(lstate(b0), ps, 0), ps[0]));
            reveal_with_fuel(chain_fits, 2);
            assert(chain_fits(lstate(b0), ps, 1));
            assert(self.buf.undo_stack@ =~= b0.undo_stack@ + ps);
        }
        self.close_group(Ghost(b0), Ghost(ps));
        assert(self.atomic_undo_stack@ =~= old(self).atomic_undo_stack@);
    }

    /// Takes the last edit back and keeps it for redo.
    pub fn undo(&mut self)
        ensures
            old(self).buf.undo_stack@.len() == 0 ==> *final(self) == *old(self),
            old(self).buf.undo_stack@.len() > 0 ==> {
                let op = old(self).buf.undo_stack@.last();
                &&& final(self).buf.undo_stack@ == old(self).buf.undo_stack@.drop_last()
                &&& final(self).buf.redo_stack@ == old(self).buf.redo_stack@.push(op)
                &&& lstate(final(self).buf) == undo_state(lstate(old(self).buf), op)
                &&& same_props(old(self).buf, final(self).buf)
                &&& same_state(*old(self), *final(self))
            },
    {
        if self.buf.undo_stack.len() == 0 {
            return;
        }
        match self.buf.undo_stack.pop() {
            Some(op) => {
                op.undo(&mut self.buf);
                self.buf.redo_stack.push(op);
            },
            None => {},
        }
    }

    /// Makes the last undone edit again.
    pub fn redo(&mut self)
        ensures
            old(self).buf.redo_stack@.len() == 0 ==> *final(self) == *old(self),
            old(self).buf.redo_stack@.len() > 0 ==> {
                let op = old(self).buf.redo_stack@.last();
                &&& final(self).buf.redo_stack@ == old(self).buf.redo_stack@.drop_last()
                &&& final(self).buf.undo_stack@ == old(self).buf.undo_stack@.push(op)
                &&& lstate(final(self).buf) == redo_state(lstate(old(self).buf), op)
                &&& same_props(old(self).buf, final(self).buf)
                &&& same_state(*old(self), *final(self))
            },
    {
        if self.buf.redo_stack.len() == 0 {
            return;
        }
        match self.buf.redo_stack.pop() {
            Some(op) => {
                op.redo(&mut self.buf);
                self.buf.undo_stack.push(op);
            },
            None => {},
        }
    }
}

} // verus!
