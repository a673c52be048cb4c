use vstd::prelude::*;

use crate::bin::{bin_cells, push_screen_bytes, screen_bytes};
use crate::buffer::{BitFont, Buffer};
use crate::layer::write_run;
use crate::palette::{ega_cycle, ega_with_text_colors, packed_colors, palette_from, Palette};
use crate::position::Size;
use crate::sauce_string::SauceString;
use crate::xbinary::{layer0_frame, read_data_uncompressed, tail};

verus! {

/// The bytes of a font bitmap: one per scanline.
pub open spec fn font_u32(d: Seq<u8>, start: int, len: int) -> Seq<u32> {
    Seq::new(len as nat, |i: int| d[start + i] as u32)
}

/// Reads an ArtWorx file: a version byte, a 64 color EGA palette, an 8x16
/// font and the cells, 80 to a row, up to `file_size`. The height counts
/// the rows that were filled completely.
pub fn read_adf(result: &mut Buffer, bytes: &[u8], file_size: usize)
    requires
        old(result).layers.len() > 0,
        bytes.len() >= 1 + 3 * 64 + 4096,
        file_size <= bytes.len(),
        file_size <= 0x7fff_0000,
    ensures
        Buffer::same_text(*old(result), *final(result)),
        final(result).file_name == old(result).file_name,
        ({
            let n = if file_size >= 4289 { (file_size - 4289) / 2 } else { 0 };
            &&& final(result).width == 80
            &&& final(result).height == ((n / 80) % 65536) as u16
            &&& final(result).palette.colors@ == ega_cycle(palette_from(bytes@.subrange(1, 193)), 16)
            &&& final(result).font == Some(BitFont {
                name: final(result).font->0.name,
                size: Size { width: 8, height: 16 },
                data: final(result).font->0.data,
            })
            &&& final(result).font->0.name.0@ == Seq::<u8>::empty()
            &&& final(result).font->0.data@ == font_u32(bytes@, 193, 4096)
            &&& final(result).buffer_type == old(result).buffer_type
            &&& final(result).layers.len() == old(result).layers.len()
            &&& forall|l: int| 1 <= l < old(result).layers.len() ==> final(result).layers@[l] == old(result).layers@[l]
            &&& final(result).layers@[0].grid() == write_run(
                old(result).layers@[0].grid(),
                bin_cells(tail(bytes@, 4289), n, old(result).buffer_type),
                80,
            )
        }),
{
    result.width = 80;
    let pal = Palette::from(vstd::slice::slice_subrange(bytes, 1, 193));
    result.palette = pal.cycle_ega_colors();
    let mut data: Vec<u32> = Vec::new();
    let mut i: usize = 0;
    while i < 4096
        invariant
            i <= 4096,
            bytes.len() >= 4289,
            data@ == font_u32(bytes@, 193, i as int),
        decreases 4096 - i,
    {
        data.push(bytes[193 + i] as u32);
        proof {
            assert(data@ =~= font_u32(bytes@, 193, i + 1));
        }
        i = i + 1;
    }
    result.font = Some(BitFont { name: SauceString::new(), size: Size::from(8, 16), data });
    let n: usize = if file_size >= 4289 { (file_size - 4289) / 2 } else { 0 };
    let rest = vstd::slice::slice_subrange(bytes, 4289, bytes.len());
    let _ = read_data_uncompressed(result, rest, 2 * n);
    assert((2 * n) / 2 == n);
    let rows = n / 80;
    result.height = (rows % 65536) as u16;
}

/// The font an ArtWorx or iCE Draw file gets: the buffer's own font where it
/// is an 8x16 font of 256 characters, else the built-in font.
pub open spec fn font_bytes(buf: Buffer, default_font: Seq<u8>) -> Seq<u8> {
    if buf.font is Some && buf.font->0.data.len() == 4096 {
        Seq::new(4096, |i: int| buf.font->0.data@[i] as u8)
    } else {
        default_font
    }
}

/// Appends the font of an ArtWorx or iCE Draw file.
pub fn push_font_bytes(buf: &Buffer, default_font: &[u8], result: &mut Vec<u8>)
    requires
        old(result).len() + 4096 + default_font.len() <= usize::MAX,
    ensures
        final(result)@ == old(result)@ + font_bytes(*buf, default_font@),
{
    let ghost start = result@;
    match &buf.font {
        Some(font) => {
            if font.data.len() == 4096 {
                let mut i: usize = 0;
                while i < 4096
                    invariant
                        i <= 4096,
                        font.data.len() == 4096,
                        start.len() + 4096 <= usize::MAX,
                        result@ == start + Seq::new(i as nat, |k: int| font.data@[k] as u8),
                    decreases 4096 - i,
                {
                    result.push(font.data[i] as u8);
                    proof {
                        assert(result@ =~= start + Seq::new((i + 1) as nat, |k: int| font.data@[k] as u8));
                    }
                    i = i + 1;
                }
                return;
            }
        },
        None => {},
    }
    let mut i: usize = 0;
    while i < default_font.len()
        invariant
            i <= default_font.len(),
            start.len() + default_font.len() <= usize::MAX,
            result@ == start + default_font@.subrange(0, i as int),
        decreases default_font.len() - i,
    {
        result.push(default_font[i]);
        proof {
            assert(result@ =~= start + default_font@.subrange(0, i + 1));
        }
        i = i + 1;
    }
    assert(default_font@.subrange(0, default_font.len() as int) =~= default_font@);
}

/// The picture as an ArtWorx file: version 1, the palette as 64 EGA
/// colors, the font (`default_font` standing for the built-in one) and the
/// cells of every row.
pub fn convert_to_adf(buf: &Buffer, default_font: &[u8]) -> (res: Vec<u8>)
    requires
        1 + 192 + 4096 + default_font.len() + 2 * buf.width * buf.height <= usize::MAX,
    ensures
        res@ == seq![1u8] + (if buf.palette.colors.len() == 64 {
            packed_colors(ega_cycle(buf.palette.colors@, 16))
        } else {
            packed_colors(ega_with_text_colors(buf.palette.colors@, 16))
        }) + font_bytes(*buf, default_font@) + screen_bytes(*buf),
{
    let mut result: Vec<u8> = Vec::new();
    result.push(1);
    let pal = buf.palette.to_ega_palette();
    proof {
        if buf.palette.colors.len() == 64 {
            crate::palette::lemma_ega_cycle_len(buf.palette.colors@, 16);
        }
        crate::palette::lemma_ega_with_len(buf.palette.colors@, 16);
    }
    let mut i: usize = 0;
    let ghost start = result@;
    while i < pal.len()
        invariant
            i <= pal.len(),
            pal.len() == 192,
            start == seq![1u8],
            result@ == start + pal@.subrange(0, i as int),
        decreases pal.len() - i,
    {
        result.push(pal[i]);
        proof {
            assert(result@ =~= start + pal@.subrange(0, i + 1));
        }
        i = i + 1;
    }
    assert(pal@.subrange(0, pal.len() as int) =~= pal@);
    push_font_bytes(buf, default_font, &mut result);
    push_screen_bytes(buf, &mut result);
    result
}

} // verus!
