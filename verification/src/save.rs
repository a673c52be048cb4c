use vstd::prelude::*;

use crate::ansi::{ans_colors_ok, ans_rows, convert_to_ans};
use crate::artworx::{convert_to_adf, font_bytes};
use crate::ascii::{asc_rows, convert_to_asc, get_save_sauce_default_asc};
use crate::avatar::{avt_rows, convert_to_avt};
use crate::bin::{convert_to_binary, get_save_sauce_default_binary, screen_bytes};
use crate::buffer::Buffer;
use crate::ice_draw::{convert_to_idf, idf_encode, screen_cells};
use crate::loader::FileExt;
use crate::palette::{ega_cycle, ega_with_text_colors, packed_colors, sixteen_colors};
use crate::pcboard::{colors_fit, convert_to_pcb, get_save_sauce_default_pcb, pcb_rows};
use crate::sauce::{le16, sauce_head, sauce_tail, SauceError, SauceFileType};
use crate::save_options::{SaveOptions, ScreenPreperation};
use crate::tnd_save::{convert_to_tnd, tnd_fits, tnd_output};
use crate::xb_save::{convert_to_xb, xb_font_len, xb_saved};
use crate::mystic_draw::{convert_to_mdf, grid_width, mdf_max_index, mdf_saved, mdf_size};

verus! {

/// Why a picture could not be written.
#[derive(Clone, Copy, Debug, PartialEq, Eq, Structural)]
pub enum SaveError {
    /// Writing the SAUCE record failed.
    Sauce(SauceError),
    /// The format cannot hold the picture's font: XBin takes fonts eight
    /// pixels wide and one to 32 high.
    UnsupportedFont,
    /// A Mystic Draw file holds at most 255 comments.
    MdfTooManyComments,
}

/// The format that a save extension names, as written (no case folding):
/// `mdf`, `bin`, `xb`, `ans`, `ice`, `avt`, `pcb`, `adf`, `idf`, `tnd`;
/// anything else is plain text.
pub open spec fn save_format(e: Seq<char>) -> FileExt {
    if e == seq!['m', 'd', 'f'] {
        FileExt::Mdf
    } else if e == seq!['b', 'i', 'n'] {
        FileExt::Bin
    } else if e == seq!['x', 'b'] {
        FileExt::Xb
    } else if e == seq!['a', 'n', 's'] {
        FileExt::Ans
    } else if e == seq!['i', 'c', 'e'] {
        FileExt::Ice
    } else if e == seq!['a', 'v', 't'] {
        FileExt::Avt
    } else if e == seq!['p', 'c', 'b'] {
        FileExt::Pcb
    } else if e == seq!['a', 'd', 'f'] {
        FileExt::Adf
    } else if e == seq!['i', 'd', 'f'] {
        FileExt::Idf
    } else if e == seq!['t', 'n', 'd'] {
        FileExt::Tnd
    } else {
        FileExt::Other
    }
}

fn chars_are(e: &Vec<char>, lit: &[char]) -> (r: bool)
    ensures
        r == (e@ == lit@),
{
    if e.len() != lit.len() {
        return false;
    }
    let mut i: usize = 0;
    while i < e.len()
        invariant
            e.len() == lit.len(),
            i <= e.len(),
            forall|k: int| 0 <= k < i ==> e@[k] == lit@[k],
        decreases e.len() - i,
    {
        if e[i] != lit[i] {
            return false;
        }
        i = i + 1;
    }
    assert(e@ =~= lit@);
    true
}

fn format_of(extension: &str) -> (f: FileExt)
    ensures
        f == save_format(extension@),
{
    let mut e: Vec<char> = Vec::new();
    for c in it: extension.chars()
        invariant
            e@ == extension@.subrange(0, it.index() as int),
            it.seq() == extension@,
    {
        e.push(c);
        proof {
            assert(e@ =~= extension@.subrange(0, it.index() + 1));
        }
    }
    assert(e@ =~= extension@);
    let mdf: [char; 3] = ['m', 'd', 'f'];
    let bin: [char; 3] = ['b', 'i', 'n'];
    let xb: [char; 2] = ['x', 'b'];
    let ans: [char; 3] = ['a', 'n', 's'];
    let ice: [char; 3] = ['i', 'c', 'e'];
    let avt: [char; 3] = ['a', 'v', 't'];
    let pcb: [char; 3] = ['p', 'c', 'b'];
    let adf: [char; 3] = ['a', 'd', 'f'];
    let idf: [char; 3] = ['i', 'd', 'f'];
    let tnd: [char; 3] = ['t', 'n', 'd'];
    assert(mdf@ =~= seq!['m', 'd', 'f']);
    assert(bin@ =~= seq!['b', 'i', 'n']);
    assert(xb@ =~= seq!['x', 'b']);
    assert(ans@ =~= seq!['a', 'n', 's']);
    assert(ice@ =~= seq!['i', 'c', 'e']);
    assert(avt@ =~= seq!['a', 'v', 't']);
    assert(pcb@ =~= seq!['p', 'c', 'b']);
    assert(adf@ =~= seq!['a', 'd', 'f']);
    assert(idf@ =~= seq!['i', 'd', 'f']);
    assert(tnd@ =~= seq!['t', 'n', 'd']);
    if chars_are(&e, &mdf) {
        FileExt::Mdf
    } else if chars_are(&e, &bin) {
        FileExt::Bin
    } else if chars_are(&e, &xb) {
        FileExt::Xb
    } else if chars_are(&e, &ans) {
        FileExt::Ans
    } else if chars_are(&e, &ice) {
        FileExt::Ice
    } else if chars_are(&e, &avt) {
        FileExt::Avt
    } else if chars_are(&e, &pcb) {
        FileExt::Pcb
    } else if chars_are(&e, &adf) {
        FileExt::Adf
    } else if chars_are(&e, &idf) {
        FileExt::Idf
    } else if chars_are(&e, &tnd) {
        FileExt::Tnd
    } else {
        FileExt::Other
    }
}

/// The text of a picture, followed by the end of file byte and a SAUCE
/// record of the given kind when one is written.
pub open spec fn with_sauce(b: Buffer, text: Seq<u8>, kind: SauceFileType, save: bool) -> Result<Seq<u8>, SauceError> {
    if !save {
        Ok(text)
    } else if b.comments@.len() > 255 {
        Err(SauceError::TooManyComments)
    } else {
        Ok(text.push(26) + sauce_head(b, (text.len() + 1) as u32) + sauce_tail(b, kind))
    }
}

/// A writer's result is the given bytes, or the given SAUCE error.
pub open spec fn saved_as(res: Result<Vec<u8>, SaveError>, r: Result<Seq<u8>, SauceError>) -> bool {
    match r {
        Ok(v) => res is Ok && res->Ok_0@ == v,
        Err(e) => res == Err::<Vec<u8>, SaveError>(SaveError::Sauce(e)),
    }
}

/// The PCBoard text: `@CLS@` when the screen is cleared first, then the
/// rows.
pub open spec fn pcb_text(b: Buffer, options: SaveOptions) -> Seq<u8> {
    (if options.screen_preparation == ScreenPreperation::ClearScreen {
        seq![64u8, 67u8, 76u8, 83u8, 64u8]
    } else {
        Seq::empty()
    }) + pcb_rows(b, b.height as int).0
}

/// A BIN file: the cells, and when a record is written the end of file
/// byte, the record, and an error for a picture too wide for it.
pub open spec fn bin_output(b: Buffer, save: bool) -> Result<Seq<u8>, SauceError> {
    let data = screen_bytes(b);
    if !save {
        Ok(data)
    } else if b.comments@.len() > 255 {
        Err(SauceError::TooManyComments)
    } else if b.width / 2 > 255 {
        Err(SauceError::BinTooWide)
    } else {
        Ok(data.push(26) + sauce_head(b, (data.len() + 1) as u32) + sauce_tail(b, SauceFileType::Bin))
    }
}

/// An Artworx file: version, palette, font and cells.
pub open spec fn adf_output(b: Buffer, default_font: Seq<u8>) -> Seq<u8> {
    seq![1u8] + (if b.palette.colors.len() == 64 {
        packed_colors(ega_cycle(b.palette.colors@, 16))
    } else {
        packed_colors(ega_with_text_colors(b.palette.colors@, 16))
    }) + font_bytes(b, default_font) + screen_bytes(b)
}

/// An iCE Draw file: header, run length coded cells, font and colors.
pub open spec fn idf_output(b: Buffer, default_font: Seq<u8>) -> Seq<u8> {
    seq![4u8, 49u8, 46u8, 52u8, 0u8, 0u8, 0u8, 0u8] + le16((b.width - 1) as u16) + le16((b.height - 1) as u16)
        + idf_encode(screen_cells(b), 0) + font_bytes(b, default_font) + packed_colors(sixteen_colors(b.palette.colors@))
}

/// What a writer needs of the picture: the colors that ANSI, PCBoard and
/// TundraDraw look up exist, an iCE Draw picture is not empty, and the
/// output fits in memory.
pub open spec fn save_pre(b: Buffer, f: FileExt, font_len: int) -> bool {
    let w = b.width as int;
    let h = b.height as int;
    let sh = sauce_head(b, 0).len() as int;
    match f {
        FileExt::Mdf => mdf_size(b) <= usize::MAX && forall|k: int|
            0 <= k < b.layers@.len() ==> grid_width((#[trigger] b.layers@[k]).grid()) * b.layers@[k].lines.len() <= mdf_max_index(),
        FileExt::Bin => 2 * w * h + 1 + sh + sauce_tail(b, SauceFileType::Bin).len() + 100 <= usize::MAX,
        FileExt::Xb => 59 + xb_font_len(b) + 3 * w * h + 1 + sh + sauce_tail(b, SauceFileType::XBin).len() + 400
            <= usize::MAX,
        FileExt::Ans | FileExt::Ice => ans_colors_ok(b) && (40 * w + 4) * h + 1 + sh + sauce_tail(b, SauceFileType::Ansi).len()
            + 100 <= usize::MAX,
        FileExt::Avt => (6 * w + 2) * h + 1 + sh + sauce_tail(b, SauceFileType::Avatar).len() + 100 <= usize::MAX,
        FileExt::Pcb => colors_fit(b) && 5 + (5 * w + 2) * h + 1 + sh + sauce_tail(b, SauceFileType::PCBoard).len() + 100
            <= usize::MAX,
        FileExt::Adf => 1 + 192 + 4096 + font_len + 2 * w * h <= usize::MAX,
        FileExt::Idf => w > 0 && h > 0 && 12 + 6 * w * h + 4096 + font_len + 48 <= usize::MAX,
        FileExt::Tnd => tnd_fits(b) && 9 + 23 * w * h + 1 + sh + sauce_tail(b, SauceFileType::TundraDraw).len() + 100
            <= usize::MAX,
        _ => (w + 3) * h + 1 + sh + sauce_tail(b, SauceFileType::Ascii).len() + 100 <= usize::MAX,
    }
}

/// What saving in a format gives.
pub open spec fn saved_in(b: Buffer, f: FileExt, options: SaveOptions, default_font: Seq<u8>, res: Result<Vec<u8>, SaveError>) -> bool {
    match f {
        FileExt::Mdf => if b.comments@.len() > 255 {
            res == Err::<Vec<u8>, SaveError>(SaveError::MdfTooManyComments)
        } else {
            res is Ok && mdf_saved(b, res->Ok_0@)
        },
        FileExt::Bin => saved_as(res, bin_output(b, options.save_sauce)),
        FileExt::Xb => xb_saved(b, res),
        FileExt::Ans | FileExt::Ice => saved_as(
            res,
            with_sauce(b, ans_rows(b, b.height as int).0, SauceFileType::Ansi, options.save_sauce),
        ),
        FileExt::Avt => saved_as(
            res,
            with_sauce(b, avt_rows(b, b.height as int).0, SauceFileType::Avatar, b.write_sauce),
        ),
        FileExt::Pcb => saved_as(res, with_sauce(b, pcb_text(b, options), SauceFileType::PCBoard, options.save_sauce)),
        FileExt::Adf => saved_as(res, Ok(adf_output(b, default_font))),
        FileExt::Idf => saved_as(res, Ok(idf_output(b, default_font))),
        FileExt::Tnd => saved_as(
            res,
            with_sauce(b, tnd_output(b), SauceFileType::TundraDraw, b.write_sauce || b.width != 80),
        ),
        _ => saved_as(res, with_sauce(b, asc_rows(b, b.height as int), SauceFileType::Ascii, options.save_sauce)),
    }
}

fn sauce_result(r: Result<Vec<u8>, SauceError>) -> (res: Result<Vec<u8>, SaveError>)
    ensures
        match r {
            Ok(v) => res is Ok && res->Ok_0@ == v@,
            Err(e) => res == Err::<Vec<u8>, SaveError>(SaveError::Sauce(e)),
        },
{
    match r {
        Ok(v) => Ok(v),
        Err(e) => Err(SaveError::Sauce(e)),
    }
}

impl Buffer {
    /// The picture in the format that the extension names; plain text for
    /// an extension that names none. `default_font` stands for the
    /// built-in font where a format stores one and the buffer has none.
    pub fn to_bytes(&self, extension: &str, options: &SaveOptions, default_font: &[u8]) -> (res: Result<Vec<u8>, SaveError>)
        requires
            save_pre(*self, save_format(extension@), default_font.len() as int),
        ensures
            saved_in(*self, save_format(extension@), *options, default_font@, res),
    {
        let f = format_of(extension);
        match f {
            FileExt::Mdf => convert_to_mdf(self),
            FileExt::Bin => sauce_result(convert_to_binary(self, options)),
            FileExt::Xb => convert_to_xb(self),
            FileExt::Ans | FileExt::Ice => sauce_result(convert_to_ans(self, options)),
            FileExt::Avt => sauce_result(convert_to_avt(self)),
            FileExt::Pcb => sauce_result(convert_to_pcb(self, options)),
            FileExt::Adf => Ok(convert_to_adf(self, default_font)),
            FileExt::Idf => Ok(convert_to_idf(self, default_font)),
            FileExt::Tnd => sauce_result(convert_to_tnd(self)),
            _ => sauce_result(convert_to_asc(self, options)),
        }
    }

    /// Whether saving in the format that the extension names should add a
    /// SAUCE record, and why: BIN pictures other than 160 columns wide,
    /// PCBoard and every other format other than 80 columns wide, and any
    /// picture with metadata.
    pub fn get_save_sauce_default(&self, extension: &str) -> (r: (bool, String))
        ensures
            ({
                let f = save_format(extension@);
                let needed: u16 = if f == FileExt::Bin { 160 } else { 80 };
                let why: Seq<char> = if f == FileExt::Bin { "width != 160"@ } else { "width != 80"@ };
                &&& r.0 == (self.width != needed || self.has_sauce_data())
                &&& self.width != needed ==> r.1@ == why
                &&& self.width == needed ==> r.1@ == Seq::<char>::empty()
            }),
    {
        match format_of(extension) {
            FileExt::Bin => get_save_sauce_default_binary(self),
            FileExt::Pcb => get_save_sauce_default_pcb(self),
            _ => get_save_sauce_default_asc(self),
        }
    }
}

} // verus!
