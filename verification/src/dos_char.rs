use vstd::prelude::*;

use crate::text_attribute::{spec_attr, TextAttribute};

verus! {

/// One cell of a text canvas: a code page 437 character and its colors.
#[derive(Clone, Copy, Debug)]
pub struct DosChar {
    pub char_code: u8,
    pub attribute: TextAttribute,
}

impl DosChar {
    /// A space in the default attribute.
    pub open spec fn spec_new() -> DosChar {
        DosChar { char_code: 32, attribute: spec_attr(7, 0, false) }
    }

    pub fn new() -> (r: Self)
        ensures
            r == Self::spec_new(),
    {
        DosChar { char_code: 32u8, attribute: TextAttribute::default_attribute() }
    }

    /// A cell that lets lower layers show through: a blank (NUL or space)
    /// on background color 0.
    pub open spec fn spec_is_transparent(self) -> bool {
        (self.char_code == 0 || self.char_code == 32) && self.attribute.background_color == 0
    }

    pub fn is_transparent(self) -> (r: bool)
        ensures
            r == self.spec_is_transparent(),
    {
        (self.char_code == 0 || self.char_code == 32u8) && self.attribute.get_background() == 0
    }

    /// Cells compare by character and colors; blink is ignored.
    pub open spec fn spec_same(self, other: DosChar) -> bool {
        self.char_code == other.char_code && self.attribute.spec_same(other.attribute)
    }

    pub fn same(&self, other: &DosChar) -> (r: bool)
        ensures
            r == self.spec_same(*other),
    {
        self.char_code == other.char_code && self.attribute.same(&other.attribute)
    }
}

impl Default for DosChar {
    fn default() -> (r: Self)
        ensures
            r == DosChar::spec_new(),
    {
        DosChar::new()
    }
}

} // verus!
