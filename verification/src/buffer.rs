use vstd::prelude::*;

use crate::dos_char::DosChar;
use crate::layer::{grid_get, grid_set, lemma_layer_read_after_write, Layer, Line};
use crate::overlay_layer::{overlay_get, OverlayLayer};
use crate::palette::Palette;
use crate::position::{Position, Size};
use crate::sauce_string::SauceString;
use crate::text_attribute::BufferType;
use crate::undo::UndoOperation;

verus! {

/// A bitmap font: `size.height` scanlines per character, one `u32` per
/// scanline, characters stored one after another.
#[derive(Debug)]
pub struct BitFont {
    pub name: SauceString<22, 0>,
    pub size: Size,
    pub data: Vec<u32>,
}

/// What the visible layers from index `i` on show at a position: the first
/// visible layer with a non transparent cell there, else the default cell.
pub open spec fn layers_show(layers: Seq<Layer>, i: int, x: int, y: int) -> DosChar
    decreases layers.len() - i,
{
    if i < 0 || i >= layers.len() {
        DosChar::spec_new()
    } else if layers[i].is_visible && !grid_get(layers[i].grid(), x, y).spec_is_transparent() {
        grid_get(layers[i].grid(), x, y)
    } else {
        layers_show(layers, i + 1, x, y)
    }
}

/// A text mode picture: its layers, size, color model, palette, font and
/// SAUCE metadata, and the edit history.
pub struct Buffer {
    pub file_name: Option<String>,
    pub title: SauceString<35, 32>,
    pub author: SauceString<20, 32>,
    pub group: SauceString<20, 32>,
    pub comments: Vec<SauceString<64, 0>>,
    pub width: u16,
    pub height: u16,
    pub buffer_type: BufferType,
    pub write_sauce: bool,
    pub palette: Palette,
    pub overlay_layer: Option<OverlayLayer>,
    /// The font name of a SAUCE record, kept for writing it back.
    pub font_name: Option<SauceString<22, 0>>,
    /// A font the file brought along; `None` is the built-in 8x16 font.
    pub font: Option<BitFont>,
    pub layers: Vec<Layer>,
    pub undo_stack: Vec<UndoOperation>,
    pub redo_stack: Vec<UndoOperation>,
}

impl Buffer {
    /// Everything but the layers and the size is the same in `a` and `b`.
    /// The SAUCE text fields, the comments and the font name are equal.
    pub open spec fn same_text(a: Buffer, b: Buffer) -> bool {
        &&& b.title == a.title
        &&& b.author == a.author
        &&& b.group == a.group
        &&& b.comments == a.comments
        &&& b.font_name == a.font_name
    }

    pub open spec fn same_meta(a: Buffer, b: Buffer) -> bool {
        &&& b.file_name == a.file_name
        &&& b.title == a.title
        &&& b.author == a.author
        &&& b.group == a.group
        &&& b.comments == a.comments
        &&& b.buffer_type == a.buffer_type
        &&& b.write_sauce == a.write_sauce
        &&& b.palette == a.palette
        &&& b.overlay_layer == a.overlay_layer
        &&& b.font_name == a.font_name
        &&& b.font == a.font
        &&& b.undo_stack == a.undo_stack
        &&& b.redo_stack == a.redo_stack
    }

    /// What the buffer shows at a position: the overlay where it has a
    /// cell, else the stack of visible layers.
    pub open spec fn spec_get_char(&self, x: int, y: int) -> DosChar {
        match self.overlay_layer {
            Some(o) => match overlay_get(o.grid(), x, y) {
                Some(c) => c,
                None => layers_show(self.layers@, 0, x, y),
            },
            None => layers_show(self.layers@, 0, x, y),
        }
    }

    /// What layer `l` alone shows at a position.
    pub open spec fn layer_shows(&self, l: int, x: int, y: int) -> DosChar {
        grid_get(self.layers@[l].grid(), x, y)
    }

    pub open spec fn is_fresh(&self) -> bool {
        &&& self.file_name is None
        &&& self.title.0@.len() == 0
        &&& self.author.0@.len() == 0
        &&& self.group.0@.len() == 0
        &&& self.comments@.len() == 0
        &&& self.buffer_type == BufferType::LegacyDos
        &&& !self.write_sauce
        &&& self.overlay_layer is None
        &&& self.font_name is None
        &&& self.font is None
        &&& self.layers@.len() == 1
        &&& self.layers@[0].grid() == Seq::<Seq<DosChar>>::empty()
        &&& self.layers@[0].is_visible
        &&& self.undo_stack@.len() == 0
        &&& self.redo_stack@.len() == 0
    }

    /// An empty 80x25 picture with one visible layer and the default palette.
    pub fn new() -> (b: Self)
        ensures
            b.is_fresh(),
            b.width == 80,
            b.height == 25,
            b.palette.colors@ == crate::palette::dos_default_palette(),
    {
        Buffer {
            file_name: None,
            width: 80,
            height: 25,
            title: SauceString::new(),
            author: SauceString::new(),
            group: SauceString::new(),
            comments: Vec::new(),
            buffer_type: BufferType::LegacyDos,
            write_sauce: false,
            palette: Palette::new(),
            overlay_layer: None,
            font_name: None,
            font: None,
            layers: vec![Layer::new()],
            undo_stack: Vec::new(),
            redo_stack: Vec::new(),
        }
    }

    pub fn create(width: u16, height: u16) -> (b: Self)
        ensures
            b.is_fresh(),
            b.width == width,
            b.height == height,
            b.palette.colors@ == crate::palette::dos_default_palette(),
    {
        let mut res = Buffer::new();
        res.width = width;
        res.height = height;
        res
    }

    /// Number of scanlines per character and pixel width of the font.
    pub fn get_font_dimensions(&self) -> (s: Size)
        ensures
            self.font is Some ==> s == self.font->0.size,
            self.font is None ==> s.width == 8 && s.height == 16,
    {
        match &self.font {
            Some(font) => font.size,
            None => Size::from(8, 16),
        }
    }

    /// Scanline `y` of character `ch` of the buffer's own font; 0 where the
    /// font has no such scanline and for the built-in font, whose bitmap
    /// this crate does not carry.
    pub fn get_font_scanline(&self, ch: u8, y: usize) -> (r: u32)
        ensures
            ({
                let idx = ch as int * (if self.font is Some { self.font->0.size.height as int } else { 0 }) + y;
                r == (if self.font is Some && idx < self.font->0.data.len() {
                    self.font->0.data@[idx]
                } else {
                    0
                })
            }),
    {
        match &self.font {
            Some(font) => {
                let h = font.size.height as u128;
                assert((ch as u128) * h <= 255 * 0x1_0000_0000_0000_0000) by (nonlinear_arith)
                    requires
                        ch <= 255,
                        h <= 0x1_0000_0000_0000_0000,
                ;
                let idx: u128 = (ch as u128) * h + (y as u128);
                if idx < font.data.len() as u128 {
                    font.data[idx as usize]
                } else {
                    0
                }
            },
            None => 0,
        }
    }

    /// Makes sure the buffer has an overlay and gives access to it.
    pub fn get_overlay_layer(&mut self) -> (r: &mut Option<OverlayLayer>)
        ensures
            old(self).overlay_layer is Some ==> *r == old(self).overlay_layer,
            old(self).overlay_layer is None ==> (*r) is Some && (*r)->0.grid().len() == 0,
            final(self).overlay_layer == *final(r),
            final(self).layers == old(self).layers,
            final(self).width == old(self).width,
            final(self).height == old(self).height,
    {
        if self.overlay_layer.is_none() {
            self.overlay_layer = Some(OverlayLayer::new());
        }
        &mut self.overlay_layer
    }

    /// Takes the overlay out of the buffer.
    pub fn remove_overlay(&mut self) -> (r: Option<OverlayLayer>)
        ensures
            r == old(self).overlay_layer,
            *final(self) == (Buffer { overlay_layer: None, ..*old(self) }),
    {
        let mut res: Option<OverlayLayer> = None;
        std::mem::swap(&mut res, &mut self.overlay_layer);
        res
    }

    /// Writes a cell to layer `layer`; a missing layer leaves the buffer
    /// unchanged.
    pub fn set_char(&mut self, layer: usize, pos: Position, dos_char: DosChar)
        ensures
            final(self).layers.len() == old(self).layers.len(),
            layer < old(self).layers.len() ==> final(self).layers@[layer as int].grid() == grid_set(
                old(self).layers@[layer as int].grid(),
                pos.x as int,
                pos.y as int,
                dos_char,
            ),
            layer < old(self).layers.len() ==> final(self).layers@[layer as int].is_visible
                == old(self).layers@[layer as int].is_visible,
            forall|l: int| 0 <= l < old(self).layers.len() && l != layer ==> final(self).layers@[l]
                == old(self).layers@[l],
            layer >= old(self).layers.len() ==> final(self).layers == old(self).layers,
            final(self).width == old(self).width,
            final(self).height == old(self).height,
            Buffer::same_meta(*old(self), *final(self)),
    {
        if layer >= self.layers.len() {
            return;
        }
        self.layers[layer].set_char(pos, dos_char);
    }

    /// What layer `layer` shows at `pos`, or `None` without such a layer.
    pub fn get_char_from_layer(&self, layer: usize, pos: Position) -> (r: Option<DosChar>)
        ensures
            layer < self.layers.len() ==> r == Some(self.layer_shows(layer as int, pos.x as int, pos.y as int)),
            layer >= self.layers.len() ==> r is None,
    {
        if layer < self.layers.len() {
            Some(self.layers[layer].get_char(pos))
        } else {
            None
        }
    }

    /// What the buffer shows at `pos`.
    pub fn get_char(&self, pos: Position) -> (r: DosChar)
        ensures
            r == self.spec_get_char(pos.x as int, pos.y as int),
    {
        if let Some(overlay) = &self.overlay_layer {
            let ch = overlay.get_char(pos);
            if let Some(c) = ch {
                return c;
            }
        }
        let mut i: usize = 0;
        while i < self.layers.len()
            invariant
                i <= self.layers.len(),
                self.spec_get_char(pos.x as int, pos.y as int) == layers_show(self.layers@, 0, pos.x as int, pos.y as int),
                layers_show(self.layers@, 0, pos.x as int, pos.y as int) == layers_show(self.layers@, i as int, pos.x as int, pos.y as int),
            decreases self.layers.len() - i,
        {
            if self.layers[i].is_visible {
                let ch = self.layers[i].get_char(pos);
                if !ch.is_transparent() {
                    return ch;
                }
            }
            i = i + 1;
        }
        DosChar::new()
    }
}

/// Whether a position lies in the half open box `[x0, x1) x [y0, y1)`.
pub open spec fn in_box(qx: int, qy: int, x0: int, x1: int, y0: int, y1: int) -> bool {
    x0 <= qx < x1 && y0 <= qy < y1
}

impl Buffer {
    /// Layer `layer` of `b` shows the default cell inside the box and what
    /// layer `layer` of `a` shows outside it; the other layers and the
    /// rest of the buffer are unchanged.
    pub open spec fn cleared_box(a: &Buffer, b: &Buffer, layer: int, x0: int, x1: int, y0: int, y1: int) -> bool {
        &&& b.layers.len() == a.layers.len()
        &&& b.width == a.width
        &&& b.height == a.height
        &&& b.overlay_layer == a.overlay_layer
        &&& b.buffer_type == a.buffer_type
        &&& b.undo_stack == a.undo_stack
        &&& b.redo_stack == a.redo_stack
        &&& forall|l: int| 0 <= l < a.layers.len() && l != layer ==> b.layers@[l] == a.layers@[l]
        &&& (0 <= layer < a.layers.len() ==> {
            &&& b.layers@[layer].is_visible == a.layers@[layer].is_visible
            &&& forall|qx: int, qy: int| #[trigger] b.layer_shows(layer, qx, qy) == (if in_box(qx, qy, x0, x1, y0, y1) {
                DosChar::spec_new()
            } else {
                a.layer_shows(layer, qx, qy)
            })
        })
        &&& (layer >= a.layers.len() ==> b.layers == a.layers)
    }

    /// Sets every cell of the box `[x0, x1) x [y0, y1)` of layer `layer` to
    /// the default cell.
    fn clear_box(&mut self, layer: usize, x0: i32, x1: i32, y0: i32, y1: i32)
        ensures
            Buffer::cleared_box(old(self), final(self), layer as int, x0 as int, x1 as int, y0 as int, y1 as int),
    {
        let mut y = y0;
        while y < y1
            invariant
                y0 <= y,
                y <= y1 || y == y0,
                Buffer::cleared_box(old(self), self, layer as int, x0 as int, x1 as int, y0 as int, y as int),
            decreases y1 - y,
        {
            let mut x = x0;
            while x < x1
                invariant
                    y0 <= y < y1,
                    x0 <= x,
                    x <= x1 || x == x0,
                    forall|l: int| 0 <= l < old(self).layers.len() && l != layer ==> self.layers@[l] == old(self).layers@[l],
                    self.layers.len() == old(self).layers.len(),
                    self.width == old(self).width,
                    self.height == old(self).height,
                    self.overlay_layer == old(self).overlay_layer,
                    self.buffer_type == old(self).buffer_type,
                    self.undo_stack == old(self).undo_stack,
                    self.redo_stack == old(self).redo_stack,
                    layer >= old(self).layers.len() ==> self.layers == old(self).layers,
                    layer < old(self).layers.len() ==> {
                        &&& self.layers@[layer as int].is_visible == old(self).layers@[layer as int].is_visible
                        &&& forall|qx: int, qy: int| #[trigger] self.layer_shows(layer as int, qx, qy) == (if in_box(qx, qy, x0 as int, x1 as int, y0 as int, y as int)
                            || in_box(qx, qy, x0 as int, x as int, y as int, y + 1) {
                            DosChar::spec_new()
                        } else {
                            old(self).layer_shows(layer as int, qx, qy)
                        })
                    },
                decreases x1 - x,
            {
                let ghost before = *self;
                self.set_char(layer, Position::from(x, y), DosChar::new());
                proof {
                    if layer < before.layers.len() {
                        assert forall|qx: int, qy: int| #[trigger] self.layer_shows(layer as int, qx, qy) == (if in_box(qx, qy, x0 as int, x1 as int, y0 as int, y as int)
                            || in_box(qx, qy, x0 as int, x + 1, y as int, y + 1) {
                            DosChar::spec_new()
                        } else {
                            old(self).layer_shows(layer as int, qx, qy)
                        }) by {
                            let _ = before.layer_shows(layer as int, qx, qy);
                            if x >= 0 && y >= 0 {
                                lemma_layer_read_after_write(before.layers@[layer as int].grid(), x as int, y as int, DosChar::spec_new(), qx, qy);
                            } else {
                                assert(grid_get(self.layers@[layer as int].grid(), qx, qy) == grid_get(before.layers@[layer as int].grid(), qx, qy));
                            }
                        }
                    }
                }
                x = x + 1;
            }
            proof {
                if layer < old(self).layers.len() {
                    assert forall|qx: int, qy: int| #[trigger] self.layer_shows(layer as int, qx, qy) == (if in_box(qx, qy, x0 as int, x1 as int, y0 as int, y + 1) {
                        DosChar::spec_new()
                    } else {
                        old(self).layer_shows(layer as int, qx, qy)
                    }) by {}
                }
            }
            y = y + 1;
        }
        proof {
            if layer < old(self).layers.len() {
                assert forall|qx: int, qy: int| #[trigger] self.layer_shows(layer as int, qx, qy) == (if in_box(qx, qy, x0 as int, x1 as int, y0 as int, y1 as int) {
                    DosChar::spec_new()
                } else {
                    old(self).layer_shows(layer as int, qx, qy)
                }) by {}
            }
        }
    }

    /// Clears the rows from `y` to the bottom of the buffer.
    pub fn clear_buffer_down(&mut self, layer: usize, y: i32)
        ensures
            Buffer::cleared_box(old(self), final(self), layer as int, 0, old(self).width as int, y as int, old(self).height as int),
    {
        let w = self.width as i32;
        let h = self.height as i32;
        self.clear_box(layer, 0, w, y, h);
    }

    /// Clears the rows above row `y`.
    pub fn clear_buffer_up(&mut self, layer: usize, y: i32)
        ensures
            Buffer::cleared_box(old(self), final(self), layer as int, 0, old(self).width as int, 0, y as int),
    {
        let w = self.width as i32;
        self.clear_box(layer, 0, w, 0, y);
    }

    /// Clears row `y`.
    pub fn clear_line(&mut self, layer: usize, y: i32)
        requires
            y < i32::MAX,
        ensures
            Buffer::cleared_box(old(self), final(self), layer as int, 0, old(self).width as int, y as int, y + 1),
    {
        let w = self.width as i32;
        self.clear_box(layer, 0, w, y, y + 1);
    }

    /// Clears row `pos.y` from column `pos.x` to the right edge.
    pub fn clear_line_end(&mut self, layer: usize, pos: &Position)
        requires
            pos.y < i32::MAX,
        ensures
            Buffer::cleared_box(old(self), final(self), layer as int, pos.x as int, old(self).width as int, pos.y as int, pos.y + 1),
    {
        let w = self.width as i32;
        self.clear_box(layer, pos.x, w, pos.y, pos.y + 1);
    }

    /// Clears row `pos.y` left of column `pos.x`.
    pub fn clear_line_start(&mut self, layer: usize, pos: &Position)
        requires
            pos.y < i32::MAX,
        ensures
            Buffer::cleared_box(old(self), final(self), layer as int, 0, pos.x as int, pos.y as int, pos.y + 1),
    {
        self.clear_box(layer, 0, pos.x, pos.y, pos.y + 1);
    }
}

impl Buffer {
    /// Sets the height so that row `pos.y` is the last row, or the row
    /// before it when `pos` is at the start of a row.
    pub fn set_height_for_pos(&mut self, pos: Position)
        ensures
            final(self).height == (if pos.x == 0 {
                pos.y as u16
            } else if pos.y as u16 == 65535 {
                0
            } else {
                (pos.y as u16 + 1) as u16
            }),
            final(self).width == old(self).width,
            final(self).layers == old(self).layers,
            Buffer::same_meta(*old(self), *final(self)),
    {
        if pos.x == 0 {
            self.height = pos.y as u16;
        } else {
            let h = pos.y as u16;
            self.height = if h == 65535 { 0 } else { h + 1 };
        }
    }

    /// Columns of row `line` up to the last one that shows a character, or
    /// a blank following a cell with a background color.
    pub open spec fn line_length_upto(&self, line: int, n: int) -> int
        decreases n,
    {
        if n <= 0 {
            0
        } else {
            let x = n - 1;
            let ch = self.spec_get_char(x, line);
            if x > 0 && ch.spec_is_transparent() {
                if self.spec_get_char(x - 1, line).attribute.background_color > 0 {
                    x + 1
                } else {
                    self.line_length_upto(line, n - 1)
                }
            } else if !ch.spec_is_transparent() {
                x + 1
            } else {
                self.line_length_upto(line, n - 1)
            }
        }
    }

    pub proof fn lemma_line_length_bounds(&self, line: int, n: int)
        ensures
            0 <= self.line_length_upto(line, n),
            n >= 0 ==> self.line_length_upto(line, n) <= n,
        decreases n,
    {
        if n > 0 {
            self.lemma_line_length_bounds(line, n - 1);
        }
    }

    pub fn get_line_length(&self, line: i32) -> (r: i32)
        ensures
            r == self.line_length_upto(line as int, self.width as int),
            0 <= r <= self.width,
    {
        let mut length: i32 = 0;
        let mut x: i32 = 0;
        let w = self.width as i32;
        while x < w
            invariant
                0 <= x <= w,
                w == self.width,
                length == self.line_length_upto(line as int, x as int),
                0 <= length <= x,
            decreases w - x,
        {
            let ch = self.get_char(Position::from(x, line));
            if x > 0 && ch.is_transparent() {
                let prev = self.get_char(Position::from(x - 1, line));
                if prev.attribute.get_background() > 0 {
                    length = x + 1;
                }
            } else if !ch.is_transparent() {
                length = x + 1;
            }
            x = x + 1;
        }
        length
    }

    /// Empties layer `layer_num` and returns the edit that restores it.
    pub fn clear_layer(&mut self, layer_num: usize) -> (op: UndoOperation)
        requires
            layer_num < old(self).layers.len(),
        ensures
            op == (UndoOperation::ClearLayer { layer_num, lines: old(self).layers@[layer_num as int].lines }),
            final(self).layers@[layer_num as int].lines@ == Seq::<Line>::empty(),
            final(self).layers@[layer_num as int].name == old(self).layers@[layer_num as int].name,
            final(self).layers@[layer_num as int].is_visible == old(self).layers@[layer_num as int].is_visible,
            final(self).layers@[layer_num as int].size == old(self).layers@[layer_num as int].size,
            final(self).layers.len() == old(self).layers.len(),
            forall|l: int| 0 <= l < old(self).layers.len() && l != layer_num ==> final(self).layers@[l] == old(self).layers@[l],
            final(self).width == old(self).width,
            final(self).height == old(self).height,
            Buffer::same_meta(*old(self), *final(self)),
    {
        let mut lines: Vec<Line> = Vec::new();
        std::mem::swap(&mut lines, &mut self.layers[layer_num].lines);
        UndoOperation::ClearLayer { layer_num, lines }
    }

    /// The picture carries metadata worth a SAUCE record: a title, author,
    /// group, comments, or a font of its own.
    pub open spec fn has_sauce_data(&self) -> bool {
        crate::sauce_string::trimmed_len(self.title.0@) > 0 || crate::sauce_string::trimmed_len(self.group.0@) > 0
            || crate::sauce_string::trimmed_len(self.author.0@) > 0 || self.comments@.len() > 0 || self.font is Some
    }

    /// Whether the picture carries metadata worth a SAUCE record.
    pub fn has_sauce_relevant_data(&self) -> (r: bool)
        ensures
            r == self.has_sauce_data(),
    {
        self.title.len() > 0 || self.group.len() > 0 || self.author.len() > 0 || self.comments.len() > 0
            || self.font.is_some()
    }
}

} // verus!
