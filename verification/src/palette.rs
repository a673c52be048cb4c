use vstd::prelude::*;

verus! {

/// An RGB color with eight bits per channel.
#[derive(Debug, Clone, Copy)]
pub struct Color {
    pub r: u8,
    pub g: u8,
    pub b: u8,
}

pub open spec fn rgb(r: u8, g: u8, b: u8) -> Color {
    Color { r, g, b }
}

impl Color {
    pub fn new(r: u8, g: u8, b: u8) -> (c: Self)
        ensures
            c == rgb(r, g, b),
    {
        Color { r, g, b }
    }

    pub fn get_rgb(self) -> (t: (u8, u8, u8))
        ensures
            t == (self.r, self.g, self.b),
    {
        (self.r, self.g, self.b)
    }
}

/// The sixteen colors of the standard DOS text mode palette.
pub open spec fn dos_default_palette() -> Seq<Color> {
    seq![
        rgb(0x00, 0x00, 0x00), rgb(0x00, 0x00, 0xAA), rgb(0x00, 0xAA, 0x00), rgb(0x00, 0xAA, 0xAA),
        rgb(0xAA, 0x00, 0x00), rgb(0xAA, 0x00, 0xAA), rgb(0xAA, 0x55, 0x00), rgb(0xAA, 0xAA, 0xAA),
        rgb(0x55, 0x55, 0x55), rgb(0x55, 0x55, 0xFF), rgb(0x55, 0xFF, 0x55), rgb(0x55, 0xFF, 0xFF),
        rgb(0xFF, 0x55, 0x55), rgb(0xFF, 0x55, 0xFF), rgb(0xFF, 0xFF, 0x55), rgb(0xFF, 0xFF, 0xFF),
    ]
}

pub fn dos_default_palette_vec() -> (v: Vec<Color>)
    ensures
        v@ == dos_default_palette(),
{
    let v = vec![
        Color { r: 0x00, g: 0x00, b: 0x00 }, Color { r: 0x00, g: 0x00, b: 0xAA },
        Color { r: 0x00, g: 0xAA, b: 0x00 }, Color { r: 0x00, g: 0xAA, b: 0xAA },
        Color { r: 0xAA, g: 0x00, b: 0x00 }, Color { r: 0xAA, g: 0x00, b: 0xAA },
        Color { r: 0xAA, g: 0x55, b: 0x00 }, Color { r: 0xAA, g: 0xAA, b: 0xAA },
        Color { r: 0x55, g: 0x55, b: 0x55 }, Color { r: 0x55, g: 0x55, b: 0xFF },
        Color { r: 0x55, g: 0xFF, b: 0x55 }, Color { r: 0x55, g: 0xFF, b: 0xFF },
        Color { r: 0xFF, g: 0x55, b: 0x55 }, Color { r: 0xFF, g: 0x55, b: 0xFF },
        Color { r: 0xFF, g: 0xFF, b: 0x55 }, Color { r: 0xFF, g: 0xFF, b: 0xFF },
    ];
    assert(v@ =~= dos_default_palette());
    v
}

/// The 64 colors of the EGA palette; index bits are `rgbRGB`.
pub open spec fn ega_palette() -> Seq<Color> {
    Seq::new(64, |i: int| ega_color(i))
}

/// Channel intensity of EGA color `i` for the high and low bit of a channel.
pub open spec fn ega_channel(hi: bool, lo: bool) -> u8 {
    if hi {
        if lo { 0xFF } else { 0xAA }
    } else {
        if lo { 0x55 } else { 0x00 }
    }
}

pub open spec fn ega_color(i: int) -> Color {
    rgb(
        ega_channel((i / 4) % 2 == 1, (i / 32) % 2 == 1),
        ega_channel((i / 2) % 2 == 1, (i / 16) % 2 == 1),
        ega_channel(i % 2 == 1, (i / 8) % 2 == 1),
    )
}

fn ega_channel_exec(hi: bool, lo: bool) -> (c: u8)
    ensures
        c == ega_channel(hi, lo),
{
    if hi {
        if lo { 0xFF } else { 0xAA }
    } else {
        if lo { 0x55 } else { 0x00 }
    }
}

pub fn ega_palette_vec() -> (v: Vec<Color>)
    ensures
        v@ == ega_palette(),
{
    let mut v: Vec<Color> = Vec::new();
    let mut i: usize = 0;
    while i < 64
        invariant
            i <= 64,
            v@.len() == i,
            forall|j: int| 0 <= j < i ==> v@[j] == ega_color(j),
        decreases 64 - i,
    {
        let c = Color {
            r: ega_channel_exec((i / 4) % 2 == 1, (i / 32) % 2 == 1),
            g: ega_channel_exec((i / 2) % 2 == 1, (i / 16) % 2 == 1),
            b: ega_channel_exec(i % 2 == 1, (i / 8) % 2 == 1),
        };
        v.push(c);
        i = i + 1;
    }
    assert(v@ =~= ega_palette());
    v
}

/// Where the sixteen text mode colors sit in the 64 color EGA palette.
pub open spec fn ega_color_offset(i: int) -> int {
    if i == 6 {
        20
    } else if i >= 8 {
        48 + i
    } else {
        i
    }
}

pub fn ega_color_offset_exec(i: usize) -> (o: usize)
    requires
        i < 16,
    ensures
        o == ega_color_offset(i as int),
        o < 64,
{
    if i == 6 {
        20
    } else if i >= 8 {
        48 + i
    } else {
        i
    }
}

/// A 6-bit VGA DAC channel value widened to eight bits.
pub open spec fn expand_6bit(v: u8) -> u8 {
    (v << 2u8) | (v >> 4u8)
}

/// An eight bit channel value in the form the palette writers store.
pub open spec fn pack_channel(v: u8) -> u8 {
    (v >> 2u8) | (v << 4u8)
}

pub fn expand_6bit_exec(v: u8) -> (r: u8)
    ensures
        r == expand_6bit(v),
{
    (v << 2) | (v >> 4)
}

pub fn pack_channel_exec(v: u8) -> (r: u8)
    ensures
        r == pack_channel(v),
{
    (v >> 2) | (v << 4)
}

pub open spec fn packed_colors(cols: Seq<Color>) -> Seq<u8> {
    Seq::new(
        (3 * cols.len()) as nat,
        |k: int| {
            let c = cols[k / 3];
            if k % 3 == 0 {
                pack_channel(c.r)
            } else if k % 3 == 1 {
                pack_channel(c.g)
            } else {
                pack_channel(c.b)
            }
        },
    )
}

/// Appends the packed channels of `cols` to `res`.
pub fn push_packed_colors(res: &mut Vec<u8>, cols: &Vec<Color>)
    requires
        old(res).len() + 3 * cols.len() <= usize::MAX,
    ensures
        final(res)@ == old(res)@ + packed_colors(cols@),
{
    let ghost start = res@;
    let mut i: usize = 0;
    while i < cols.len()
        invariant
            i <= cols.len(),
            start.len() + 3 * cols.len() <= usize::MAX,
            res@ == start + packed_colors(cols@.subrange(0, i as int)),
        decreases cols.len() - i,
    {
        let c = cols[i];
        res.push(pack_channel_exec(c.r));
        res.push(pack_channel_exec(c.g));
        res.push(pack_channel_exec(c.b));
        proof {
            assert(packed_colors(cols@.subrange(0, i + 1)) =~= packed_colors(cols@.subrange(0, i as int))
                + seq![pack_channel(c.r), pack_channel(c.g), pack_channel(c.b)]);
        }
        i = i + 1;
    }
    assert(cols@.subrange(0, cols.len() as int) =~= cols@);
}

/// The first index below `n` of a color equal to `c`, or -1.
pub open spec fn first_color(cols: Seq<Color>, c: Color, n: int) -> int
    decreases n,
{
    if n <= 0 {
        -1
    } else if first_color(cols, c, n - 1) >= 0 {
        first_color(cols, c, n - 1)
    } else if cols[n - 1] == c {
        n - 1
    } else {
        -1
    }
}

pub proof fn lemma_first_color(cols: Seq<Color>, c: Color, n: int)
    requires
        0 <= n <= cols.len(),
    ensures
        first_color(cols, c, n) == -1 <==> (forall|j: int| 0 <= j < n ==> cols[j] != c),
        first_color(cols, c, n) >= 0 ==> {
            let f = first_color(cols, c, n);
            &&& 0 <= f < n
            &&& cols[f] == c
            &&& forall|j: int| 0 <= j < f ==> cols[j] != c
        },
        first_color(cols, c, n) >= -1,
    decreases n,
{
    if n > 0 {
        lemma_first_color(cols, c, n - 1);
    }
}

/// What `get_color` leaves in the palette and returns: the index of the
/// first equal color, or the color appended and its index.
pub open spec fn get_color_next(cols: Seq<Color>, r: u8, g: u8, b: u8) -> (Seq<Color>, u8) {
    let f = first_color(cols, rgb(r, g, b), cols.len() as int);
    if f >= 0 {
        (cols, f as u8)
    } else {
        (cols.push(rgb(r, g, b)), cols.len() as u8)
    }
}

/// The first index of a color with the given channels, if any.
pub open spec fn color_index(cols: Seq<Color>, r: u8, g: u8, b: u8, i: int) -> bool {
    &&& 0 <= i < cols.len()
    &&& cols[i] == rgb(r, g, b)
    &&& forall|j: int| 0 <= j < i ==> cols[j] != rgb(r, g, b)
}

/// The 64 color EGA palette with text mode colors `i` and
/// `ega_color_offset(i)` swapped for the sixteen text colors in turn.
pub open spec fn ega_cycle(cols: Seq<Color>, n: int) -> Seq<Color>
    decreases n,
{
    if n <= 0 {
        cols
    } else {
        let prev = ega_cycle(cols, n - 1);
        let o = ega_color_offset(n - 1);
        if o == n - 1 {
            prev
        } else {
            prev.update(n - 1, prev[o]).update(o, prev[n - 1])
        }
    }
}

/// Where entry `i` of the palette comes from once the first `n` text
/// colors were swapped with their EGA entries.
pub open spec fn ega_source(n: int, i: int) -> int {
    if 0 <= i < n {
        ega_color_offset(i)
    } else if i == 20 && n > 6 {
        6
    } else if 56 <= i < 64 && i - 48 < n {
        i - 48
    } else {
        i
    }
}

proof fn lemma_ega_cycle_source(cols: Seq<Color>, n: int)
    requires
        cols.len() >= 64,
        0 <= n <= 16,
    ensures
        ega_cycle(cols, n) =~= Seq::new(cols.len(), |i: int| cols[ega_source(n, i)]),
    decreases n,
{
    if n > 0 {
        lemma_ega_cycle_source(cols, n - 1);
    }
}

/// Swapping the text colors with their EGA entries twice gives the palette
/// back: the swaps are of disjoint pairs.
pub proof fn lemma_ega_cycle_twice(cols: Seq<Color>)
    requires
        cols.len() >= 64,
    ensures
        ega_cycle(ega_cycle(cols, 16), 16) == cols,
{
    lemma_ega_cycle_source(cols, 16);
    let c1 = ega_cycle(cols, 16);
    lemma_ega_cycle_source(c1, 16);
    assert(ega_cycle(c1, 16) =~= cols);
}

/// A channel value that a 6-bit VGA DAC value expands to.
pub open spec fn dac_channel(c: u8) -> bool {
    exists|v: u8| v < 64 && c == expand_6bit(v)
}

/// A color whose three channels are 6-bit DAC values expanded.
pub open spec fn dac_color(c: Color) -> bool {
    dac_channel(c.r) && dac_channel(c.g) && dac_channel(c.b)
}

proof fn lemma_dac_channel_back(c: u8)
    requires
        dac_channel(c),
    ensures
        expand_6bit(pack_channel(c)) == c,
{
    let v = choose|v: u8| v < 64 && c == expand_6bit(v);
    assert(v < 64 ==> ((((v << 2u8) | (v >> 4u8)) >> 2u8) | (((v << 2u8) | (v >> 4u8)) << 4u8)) << 2u8 | (((((v << 2u8)
        | (v >> 4u8)) >> 2u8) | (((v << 2u8) | (v >> 4u8)) << 4u8)) >> 4u8) == (v << 2u8) | (v >> 4u8)) by (bit_vector);
}

/// Packing the sixteen text colors and reading them back as DAC triples
/// gives them again, where each channel is an expanded 6-bit value.
pub proof fn lemma_sixteen_colors_back(cols: Seq<Color>)
    requires
        forall|i: int| 0 <= i < 16 && i < cols.len() ==> #[trigger] dac_color(cols[i]),
    ensures
        packed_colors(sixteen_colors(cols)).len() == 48,
        palette_from(packed_colors(sixteen_colors(cols))) == sixteen_colors(cols),
{
    let s = sixteen_colors(cols);
    let p = packed_colors(s);
    assert(expand_6bit(0u8) == 0u8 && expand_6bit(0x2au8) == 0xAAu8 && expand_6bit(0x15u8) == 0x55u8 && expand_6bit(0x3fu8)
        == 0xFFu8) by (bit_vector);
    assert forall|i: int| 0 <= i < 16 implies #[trigger] dac_color(s[i]) by {
        if i >= cols.len() {
            assert(dac_channel(0u8) && dac_channel(0xAAu8) && dac_channel(0x55u8) && dac_channel(0xFFu8));
        }
    }
    assert forall|i: int| 0 <= i < 16 implies #[trigger] palette_from(p)[i] == s[i] by {
        assert(dac_color(s[i]));
        lemma_dac_channel_back(s[i].r);
        lemma_dac_channel_back(s[i].g);
        lemma_dac_channel_back(s[i].b);
        assert(p[3 * i] == pack_channel(s[i].r));
        assert(p[3 * i + 1] == pack_channel(s[i].g));
        assert(p[3 * i + 2] == pack_channel(s[i].b));
    }
    assert(palette_from(p) =~= s);
}

pub proof fn lemma_ega_cycle_len(cols: Seq<Color>, n: int)
    requires
        cols.len() >= 64,
        n <= 16,
    ensures
        ega_cycle(cols, n).len() == cols.len(),
    decreases n,
{
    if n > 0 {
        lemma_ega_cycle_len(cols, n - 1);
    }
}

/// The first sixteen colors of `cols` written over the EGA palette at their
/// EGA offsets.
pub open spec fn ega_with_text_colors(cols: Seq<Color>, n: int) -> Seq<Color>
    decreases n,
{
    if n <= 0 {
        ega_palette()
    } else {
        let prev = ega_with_text_colors(cols, n - 1);
        if n - 1 < cols.len() {
            prev.update(ega_color_offset(n - 1), cols[n - 1])
        } else {
            prev
        }
    }
}

pub proof fn lemma_ega_with_len(cols: Seq<Color>, n: int)
    requires
        n <= 16,
    ensures
        ega_with_text_colors(cols, n).len() == 64,
    decreases n,
{
    if n > 0 {
        lemma_ega_with_len(cols, n - 1);
    }
}

/// The sixteen text mode colors: the palette's own where it has them, the
/// DOS defaults after its end.
pub open spec fn sixteen_colors(cols: Seq<Color>) -> Seq<Color> {
    Seq::new(16, |i: int| if i < cols.len() { cols[i] } else { dos_default_palette()[i] })
}

/// The colors that a list of 6-bit VGA DAC triples describes.
pub open spec fn palette_from(pal: Seq<u8>) -> Seq<Color> {
    Seq::new(
        (pal.len() / 3) as nat,
        |i: int| rgb(expand_6bit(pal[3 * i]), expand_6bit(pal[3 * i + 1]), expand_6bit(pal[3 * i + 2])),
    )
}

/// The colors a buffer may refer to by index.
#[derive(Debug, Clone)]
pub struct Palette {
    pub colors: Vec<Color>,
}

impl Palette {
    pub fn new() -> (p: Self)
        ensures
            p.colors@ == dos_default_palette(),
    {
        Palette { colors: dos_default_palette_vec() }
    }

    pub fn len(&self) -> (r: u32)
        ensures
            r == self.colors.len() as u32,
    {
        self.colors.len() as u32
    }

    pub fn clear(&mut self)
        ensures
            final(self).colors@ == Seq::<Color>::empty(),
    {
        self.colors.clear();
    }

    /// Completes a palette of fewer than sixteen colors with the DOS
    /// defaults that follow its last color.
    pub fn fill_to_16(&mut self)
        ensures
            old(self).colors.len() < 16 ==> final(self).colors@ == old(self).colors@
                + dos_default_palette().subrange(old(self).colors.len() as int, 16),
            old(self).colors.len() >= 16 ==> final(self).colors@ == old(self).colors@,
    {
        let defaults = dos_default_palette_vec();
        let n = self.colors.len();
        if n < 16 {
            let ghost start = self.colors@;
            let mut i = n;
            while i < 16
                invariant
                    n <= i <= 16,
                    n == start.len(),
                    defaults@ == dos_default_palette(),
                    self.colors@ == start + dos_default_palette().subrange(n as int, i as int),
                decreases 16 - i,
            {
                self.colors.push(defaults[i]);
                proof {
                    assert(dos_default_palette().subrange(n as int, i + 1) =~= dos_default_palette().subrange(n as int, i as int).push(defaults@[i as int]));
                }
                i = i + 1;
            }
        }
    }

    pub fn is_default(&self) -> (r: bool)
        ensures
            r == (self.colors@ == dos_default_palette()),
    {
        let defaults = dos_default_palette_vec();
        if self.colors.len() != 16 {
            return false;
        }
        let mut i: usize = 0;
        while i < 16
            invariant
                i <= 16,
                self.colors.len() == 16,
                defaults@ == dos_default_palette(),
                forall|j: int| 0 <= j < i ==> self.colors@[j] == defaults@[j],
            decreases 16 - i,
        {
            let a = self.colors[i];
            let b = defaults[i];
            if a.r != b.r || a.g != b.g || a.b != b.b {
                return false;
            }
            i = i + 1;
        }
        assert(self.colors@ =~= dos_default_palette());
        true
    }

    /// The index of the first color with the given channels; a color not in
    /// the palette is appended first. The index is truncated to eight bits.
    pub fn get_color(&mut self, r: u8, g: u8, b: u8) -> (idx: u8)
        requires
            old(self).colors.len() < usize::MAX,
        ensures
            (exists|i: int| color_index(old(self).colors@, r, g, b, i)) ==> {
                &&& final(self).colors@ == old(self).colors@
                &&& exists|i: int| color_index(old(self).colors@, r, g, b, i) && idx == i as u8
            },
            !(exists|i: int| color_index(old(self).colors@, r, g, b, i)) ==> {
                &&& final(self).colors@ == old(self).colors@.push(rgb(r, g, b))
                &&& idx == old(self).colors.len() as u8
            },
            (final(self).colors@, idx) == get_color_next(old(self).colors@, r, g, b),
    {
        proof {
            lemma_first_color(self.colors@, rgb(r, g, b), self.colors@.len() as int);
        }
        let mut i: usize = 0;
        while i < self.colors.len()
            invariant
                i <= self.colors.len(),
                self.colors@ == old(self).colors@,
                forall|j: int| 0 <= j < i ==> self.colors@[j] != rgb(r, g, b),
            decreases self.colors.len() - i,
        {
            let col = self.colors[i];
            if col.r == r && col.g == g && col.b == b {
                assert(color_index(old(self).colors@, r, g, b, i as int));
                proof {
                    lemma_first_color(self.colors@, rgb(r, g, b), self.colors@.len() as int);
                    let f = first_color(self.colors@, rgb(r, g, b), self.colors@.len() as int);
                    assert(f >= 0);
                    if f < i {
                        assert(self.colors@[f] != rgb(r, g, b));
                    }
                    if f > i {
                        assert(self.colors@[i as int] != rgb(r, g, b));
                    }
                }
                return i as u8;
            }
            i = i + 1;
        }
        assert forall|k: int| !color_index(old(self).colors@, r, g, b, k) by {}
        let n = self.colors.len();
        self.colors.push(Color { r, g, b });
        n as u8
    }

    /// Reads a palette of 6-bit VGA DAC triples.
    pub fn from(pal: &[u8]) -> (p: Self)
        requires
            pal.len() % 3 == 0,
        ensures
            p.colors@ == palette_from(pal@),
            p.colors.len() == pal.len() / 3,
            forall|i: int| 0 <= i < p.colors.len() ==> p.colors@[i] == rgb(
                expand_6bit(pal@[3 * i]),
                expand_6bit(pal@[3 * i + 1]),
                expand_6bit(pal@[3 * i + 2]),
            ),
    {
        let mut colors: Vec<Color> = Vec::new();
        let mut o: usize = 0;
        while o < pal.len()
            invariant
                o <= pal.len(),
                o % 3 == 0,
                pal.len() % 3 == 0,
                colors.len() == o / 3,
                forall|i: int| 0 <= i < colors.len() ==> colors@[i] == rgb(
                    expand_6bit(pal@[3 * i]),
                    expand_6bit(pal@[3 * i + 1]),
                    expand_6bit(pal@[3 * i + 2]),
                ),
            decreases pal.len() - o,
        {
            colors.push(Color {
                r: expand_6bit_exec(pal[o]),
                g: expand_6bit_exec(pal[o + 1]),
                b: expand_6bit_exec(pal[o + 2]),
            });
            o = o + 3;
        }
        assert(colors@ =~= palette_from(pal@));
        Palette { colors }
    }

    /// A 64 color EGA palette with each text mode color swapped with the
    /// color at its EGA offset.
    pub fn cycle_ega_colors(&self) -> (p: Palette)
        requires
            self.colors.len() >= 64,
        ensures
            p.colors@ == ega_cycle(self.colors@, 16),
    {
        let mut colors = self.colors.clone();
        assert(colors@ =~= self.colors@);
        let mut i: usize = 0;
        while i < 16
            invariant
                i <= 16,
                self.colors.len() >= 64,
                colors@ == ega_cycle(self.colors@, i as int),
            decreases 16 - i,
        {
            proof {
                lemma_ega_cycle_len(self.colors@, i as int);
            }
            let offset = ega_color_offset_exec(i);
            if i != offset {
                let a = colors[i];
                let b = colors[offset];
                colors.set(i, b);
                colors.set(offset, a);
            }
            i = i + 1;
        }
        Palette { colors }
    }

    /// The palette as a 64 color EGA palette in the packed channel form.
    pub fn to_ega_palette(&self) -> (res: Vec<u8>)
        ensures
            self.colors.len() == 64 ==> res@ == packed_colors(ega_cycle(self.colors@, 16)),
            self.colors.len() != 64 ==> res@ == packed_colors(ega_with_text_colors(self.colors@, 16)),
    {
        let ega_colors;
        if self.colors.len() == 64 {
            ega_colors = self.cycle_ega_colors().colors;
        } else {
            let mut cols = ega_palette_vec();
            let mut i: usize = 0;
            while i < 16
                invariant
                    i <= 16,
                    cols@ == ega_with_text_colors(self.colors@, i as int),
                decreases 16 - i,
            {
                proof {
                    lemma_ega_with_len(self.colors@, i as int);
                }
                if i < self.colors.len() {
                    let o = ega_color_offset_exec(i);
                    cols.set(o, self.colors[i]);
                }
                i = i + 1;
            }
            ega_colors = cols;
        }
        proof {
            if self.colors.len() == 64 {
                lemma_ega_cycle_len(self.colors@, 16);
            }
            lemma_ega_with_len(self.colors@, 16);
        }
        let mut res = Vec::new();
        push_packed_colors(&mut res, &ega_colors);
        assert(res@ =~= packed_colors(ega_colors@));
        res
    }

    /// The sixteen text mode colors in the packed channel form.
    pub fn to_16color_vec(&self) -> (res: Vec<u8>)
        ensures
            res@ == packed_colors(sixteen_colors(self.colors@)),
    {
        let defaults = dos_default_palette_vec();
        let mut cols: Vec<Color> = Vec::new();
        let mut i: usize = 0;
        while i < 16
            invariant
                i <= 16,
                defaults@ == dos_default_palette(),
                cols@ == sixteen_colors(self.colors@).subrange(0, i as int),
            decreases 16 - i,
        {
            let col = if i < self.colors.len() { self.colors[i] } else { defaults[i] };
            cols.push(col);
            proof {
                assert(cols@ =~= sixteen_colors(self.colors@).subrange(0, i + 1));
            }
            i = i + 1;
        }
        assert(cols@ =~= sixteen_colors(self.colors@));
        let mut res = Vec::new();
        push_packed_colors(&mut res, &cols);
        assert(res@ =~= packed_colors(cols@));
        res
    }

    /// `3 * len` zero bytes followed by the packed channels of every color.
    pub fn to_vec(&self) -> (res: Vec<u8>)
        requires
            6 * self.colors.len() <= usize::MAX,
        ensures
            res@ == Seq::new((3 * self.colors.len()) as nat, |i: int| 0u8) + packed_colors(self.colors@),
    {
        let mut res: Vec<u8> = Vec::new();
        let n = 3 * self.colors.len();
        let mut i: usize = 0;
        while i < n
            invariant
                i <= n,
                n == 3 * self.colors.len(),
                res@ == Seq::new(i as nat, |k: int| 0u8),
            decreases n - i,
        {
            res.push(0);
            proof {
                assert(res@ =~= Seq::new((i + 1) as nat, |k: int| 0u8));
            }
            i = i + 1;
        }
        push_packed_colors(&mut res, &self.colors);
        res
    }
}

impl Default for Palette {
    fn default() -> (p: Self)
        ensures
            p.colors@ == dos_default_palette(),
    {
        Palette::new()
    }
}

} // verus!
