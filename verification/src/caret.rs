use vstd::prelude::*;

use crate::position::Position;
use crate::text_attribute::TextAttribute;

verus! {

/// A text caret: where typing goes, the attribute it gets, and whether it
/// inserts.
#[derive(Clone, Copy, Debug)]
pub struct Caret {
    pos: Position,
    attr: TextAttribute,
    pub insert_mode: bool,
}

impl Caret {
    pub closed spec fn spec_pos(&self) -> Position {
        self.pos
    }

    pub closed spec fn spec_attr(&self) -> TextAttribute {
        self.attr
    }

    pub closed spec fn spec_insert_mode(&self) -> bool {
        self.insert_mode
    }

    pub fn get_attribute(&self) -> (r: TextAttribute)
        ensures
            r == self.spec_attr(),
    {
        self.attr
    }

    pub fn get_position(&self) -> (r: Position)
        ensures
            r == self.spec_pos(),
    {
        self.pos
    }
}

impl Default for Caret {
    /// At the origin, light gray on black, overwriting.
    fn default() -> (c: Self)
        ensures
            c.spec_pos() == (Position { x: 0, y: 0 }),
            c.spec_attr() == TextAttribute::spec_default(),
            !c.spec_insert_mode(),
    {
        Caret { pos: Position::new(), attr: TextAttribute::default_attribute(), insert_mode: false }
    }
}

impl PartialEq for Caret {
    /// Two carets are equal when they stand at the same position with
    /// attributes of the same colors; the insert mode is not compared.
    fn eq(&self, other: &Caret) -> (r: bool) {
        self.pos == other.pos && self.attr.same(&other.attr)
    }
}

impl vstd::std_specs::cmp::PartialEqSpecImpl for Caret {
    open spec fn obeys_eq_spec() -> bool {
        true
    }

    open spec fn eq_spec(&self, other: &Caret) -> bool {
        self.spec_pos() == other.spec_pos() && self.spec_attr().spec_same(other.spec_attr())
    }
}

} // verus!
