use vstd::prelude::*;

verus! {

/// The color model of a buffer: how many foreground and background colors
/// it has, whether the high background bit means blink, and whether the
/// font has 512 characters.
#[derive(Clone, Copy, Debug, PartialEq, Eq, Structural)]
pub enum BufferType {
    /// 0-15 fg, 0-7 bg, blink
    LegacyDos,
    /// 0-15 fg, 0-15 bg
    LegacyIce,
    /// 0-7 fg, 0-7 bg, blink + extended font
    ExtFont,
    /// 0-7 fg, 0-15 bg + extended font
    ExtFontIce,
    /// free colors, blink + extended font
    NoLimits,
}

impl BufferType {
    pub open spec fn spec_use_ice_colors(self) -> bool {
        self == BufferType::LegacyIce || self == BufferType::ExtFontIce
    }

    pub open spec fn spec_use_extended_font(self) -> bool {
        self == BufferType::ExtFont || self == BufferType::ExtFontIce || self == BufferType::NoLimits
    }

    pub fn use_ice_colors(self) -> (r: bool)
        ensures
            r == self.spec_use_ice_colors(),
    {
        self == BufferType::LegacyIce || self == BufferType::ExtFontIce
    }

    pub fn use_blink(self) -> (r: bool)
        ensures
            r == (self == BufferType::LegacyDos || self == BufferType::ExtFont || self
                == BufferType::NoLimits),
    {
        self == BufferType::LegacyDos || self == BufferType::ExtFont || self == BufferType::NoLimits
    }

    pub fn use_extended_font(self) -> (r: bool)
        ensures
            r == self.spec_use_extended_font(),
    {
        self == BufferType::ExtFont || self == BufferType::ExtFontIce || self == BufferType::NoLimits
    }

    /// Number of usable foreground colors.
    pub fn get_fg_colors(self) -> (r: u8)
        ensures
            r == (if self == BufferType::ExtFont || self == BufferType::ExtFontIce { 8u8 } else { 16u8 }),
    {
        match self {
            BufferType::LegacyDos | BufferType::LegacyIce | BufferType::NoLimits => 16,
            BufferType::ExtFont | BufferType::ExtFontIce => 8,
        }
    }

    /// Number of usable background colors.
    pub fn get_bg_colors(self) -> (r: u8)
        ensures
            r == (if self == BufferType::LegacyDos || self == BufferType::ExtFont {
                8u8
            } else {
                16u8
            }),
    {
        match self {
            BufferType::LegacyDos | BufferType::ExtFont => 8,
            BufferType::LegacyIce | BufferType::ExtFontIce | BufferType::NoLimits => 16,
        }
    }

    /// The buffer type that a pair of flags (non-blink mode, 512 character
    /// font) selects.
    pub open spec fn spec_from_flags(ice: bool, extended_font: bool) -> BufferType {
        if ice {
            if extended_font { BufferType::ExtFontIce } else { BufferType::LegacyIce }
        } else {
            if extended_font { BufferType::ExtFont } else { BufferType::LegacyDos }
        }
    }

    pub fn from_flags(ice: bool, extended_font: bool) -> (r: BufferType)
        ensures
            r == Self::spec_from_flags(ice, extended_font),
    {
        if ice {
            if extended_font { BufferType::ExtFontIce } else { BufferType::LegacyIce }
        } else {
            if extended_font { BufferType::ExtFont } else { BufferType::LegacyDos }
        }
    }
}

/// Foreground and background color index of a cell, plus the blink flag.
#[derive(Clone, Copy, Debug)]
pub struct TextAttribute {
    pub foreground_color: u8,
    pub background_color: u8,
    pub blink: bool,
}

pub open spec fn spec_attr(fg: u8, bg: u8, blink: bool) -> TextAttribute {
    TextAttribute { foreground_color: fg, background_color: bg, blink }
}

impl TextAttribute {
    /// Light gray on black, no blink.
    pub open spec fn spec_default() -> TextAttribute {
        spec_attr(7, 0, false)
    }

    pub fn default_attribute() -> (r: TextAttribute)
        ensures
            r == Self::spec_default(),
    {
        TextAttribute { foreground_color: 7, background_color: 0, blink: false }
    }

    /// Decodes a DOS attribute byte: the low nibble is the foreground (low
    /// three bits only with an extended font), the high nibble the
    /// background; without ice colors its top bit is the blink flag.
    pub open spec fn spec_from_u8(attr: u8, buffer_type: BufferType) -> TextAttribute {
        let ice = buffer_type.spec_use_ice_colors();
        let bg: u8 = if ice { attr >> 4u8 } else { (attr >> 4u8) & 7u8 };
        let blink: bool = if ice { false } else { attr & 0x80u8 != 0 };
        let fg: u8 = if buffer_type.spec_use_extended_font() { attr & 7u8 } else { attr & 15u8 };
        spec_attr(fg, bg, blink)
    }

    pub fn from_u8(attr: u8, buffer_type: BufferType) -> (r: Self)
        ensures
            r == Self::spec_from_u8(attr, buffer_type),
    {
        let mut blink = false;
        let background_color = if buffer_type.use_ice_colors() {
            attr >> 4
        } else {
            blink = attr & 0b1000_0000 != 0;
            (attr >> 4) & 0b0111
        };
        let foreground_color = if buffer_type.use_extended_font() {
            attr & 0b0111
        } else {
            attr & 0b1111
        };
        TextAttribute { foreground_color, background_color, blink }
    }

    pub fn from_color(fg: u8, bg: u8) -> (r: Self)
        ensures
            r == spec_attr(fg, bg, false),
    {
        TextAttribute { foreground_color: fg, background_color: bg, blink: false }
    }

    /// The attribute byte: low nibble foreground, high nibble background.
    pub open spec fn spec_as_u8(self) -> u8 {
        (self.foreground_color & 0xFu8) | ((self.background_color & 0xFu8) << 4u8)
    }

    pub fn as_u8(self) -> (r: u8)
        ensures
            r == self.spec_as_u8(),
    {
        self.foreground_color & 0xF | ((self.background_color & 0xF) << 4)
    }

    pub open spec fn spec_is_bold(self) -> bool {
        self.foreground_color < 16 && (self.foreground_color & 8u8) != 0
    }

    pub fn is_bold(self) -> (r: bool)
        ensures
            r == self.spec_is_bold(),
    {
        self.foreground_color < 16 && (self.foreground_color & 0b1000) != 0
    }

    pub fn set_foreground_bold(&mut self, is_bold: bool)
        ensures
            final(self).background_color == old(self).background_color,
            final(self).blink == old(self).blink,
            final(self).foreground_color == (if old(self).foreground_color < 16 {
                if is_bold {
                    old(self).foreground_color | 8u8
                } else {
                    old(self).foreground_color & 0xF7u8
                }
            } else {
                old(self).foreground_color
            }),
    {
        if self.foreground_color < 16 {
            if is_bold {
                self.foreground_color = self.foreground_color | 0b0000_1000;
            } else {
                self.foreground_color = self.foreground_color & 0b1111_0111;
            }
        }
    }

    pub fn set_background_bold(&mut self, is_bold: bool)
        ensures
            final(self).foreground_color == old(self).foreground_color,
            final(self).blink == old(self).blink,
            final(self).background_color == (if old(self).background_color < 16 {
                if is_bold {
                    old(self).background_color | 8u8
                } else {
                    old(self).background_color & 0xF7u8
                }
            } else {
                old(self).background_color
            }),
    {
        if self.background_color < 16 {
            if is_bold {
                self.background_color = self.background_color | 0b0000_1000;
            } else {
                self.background_color = self.background_color & 0b1111_0111;
            }
        }
    }

    pub fn is_blink(self) -> (r: bool)
        ensures
            r == self.blink,
    {
        self.blink
    }

    pub fn set_blink(&mut self, is_blink: bool)
        ensures
            *final(self) == spec_attr(old(self).foreground_color, old(self).background_color, is_blink),
    {
        self.blink = is_blink;
    }

    pub fn get_foreground(self) -> (r: u8)
        ensures
            r == self.foreground_color,
    {
        self.foreground_color
    }

    pub fn get_foreground_without_bold(self) -> (r: u8)
        ensures
            r == self.foreground_color & 7u8,
            r < 8,
    {
        let f = self.foreground_color;
        let r = f & 0b0000_0111;
        assert(f & 7u8 < 8) by (bit_vector);
        r
    }

    pub fn set_foreground(&mut self, color: u8)
        ensures
            *final(self) == spec_attr(color, old(self).background_color, old(self).blink),
    {
        self.foreground_color = color;
    }

    /// Replaces the low three bits of the foreground color and keeps the
    /// bold bit.
    pub fn set_foreground_without_bold(&mut self, color: u8)
        requires
            color < 8,
        ensures
            final(self).background_color == old(self).background_color,
            final(self).blink == old(self).blink,
            final(self).foreground_color == (if old(self).foreground_color < 16 {
                (8u8 & old(self).foreground_color) | color
            } else {
                old(self).foreground_color
            }),
    {
        if self.foreground_color < 16 {
            self.foreground_color = (0b1000 & self.foreground_color) | color;
        }
    }

    /// Replaces the low three bits of the background color and keeps its
    /// high bit.
    pub fn set_background_without_bold(&mut self, color: u8)
        requires
            color < 8,
        ensures
            final(self).foreground_color == old(self).foreground_color,
            final(self).blink == old(self).blink,
            final(self).background_color == (if old(self).background_color < 16 {
                (8u8 & old(self).background_color) | color
            } else {
                old(self).background_color
            }),
    {
        if self.background_color < 16 {
            self.background_color = (0b1000 & self.background_color) | color;
        }
    }

    pub fn get_background(self) -> (r: u8)
        ensures
            r == self.background_color,
    {
        self.background_color
    }

    pub fn get_background_low(self) -> (r: u8)
        ensures
            r == self.background_color % 8,
    {
        self.background_color % 8
    }

    pub fn set_background(&mut self, color: u8)
        ensures
            *final(self) == spec_attr(old(self).foreground_color, color, old(self).blink),
    {
        self.background_color = color;
    }

    /// Attributes are compared by their colors; the blink flag is not part
    /// of the comparison.
    pub open spec fn spec_same(self, other: TextAttribute) -> bool {
        self.foreground_color == other.foreground_color && self.background_color
            == other.background_color
    }

    pub fn same(&self, other: &TextAttribute) -> (r: bool)
        ensures
            r == self.spec_same(*other),
    {
        self.foreground_color == other.foreground_color && self.background_color
            == other.background_color
    }
}

/// Decoding the byte that `as_u8` produces gives back the colors in ice
/// mode, for every attribute whose colors fit in four bits.
pub proof fn lemma_attribute_byte_roundtrip(a: TextAttribute)
    requires
        a.foreground_color < 16,
        a.background_color < 16,
    ensures
        TextAttribute::spec_from_u8(a.spec_as_u8(), BufferType::LegacyIce).spec_same(a),
{
    let fg = a.foreground_color;
    let bg = a.background_color;
    assert((((fg & 0xFu8) | ((bg & 0xFu8) << 4u8)) >> 4u8) == bg) by (bit_vector)
        requires
            fg < 16,
            bg < 16,
    ;
    assert((((fg & 0xFu8) | ((bg & 0xFu8) << 4u8)) & 15u8) == fg) by (bit_vector)
        requires
            fg < 16,
            bg < 16,
    ;
}

/// Encoding a decoded byte gives back the byte in ice mode.
pub proof fn lemma_byte_attribute_roundtrip(b: u8)
    ensures
        TextAttribute::spec_from_u8(b, BufferType::LegacyIce).spec_as_u8() == b,
{
    assert((((b & 15u8) & 0xFu8) | (((b >> 4u8) & 0xFu8) << 4u8)) == b) by (bit_vector);
}

} // verus!
