use vstd::prelude::*;

use crate::buffer::{BitFont, Buffer};
use crate::dos_char::DosChar;
use crate::layer::{grid_get, grid_set, lemma_layer_read_after_write, shown, Layer};
use crate::load_error::LoadError;
use crate::save::SaveError;
use crate::palette::{dos_default_palette, rgb, Color};
use crate::position::{Position, Size};
use crate::sauce_string::{lemma_read_count_bounds, lemma_read_count_mono, lemma_read_into_empty, lemma_read_padded_nul, lemma_read_padded_spaces, padded, read_count, read_field, read_into, trimmed, SauceString};
use crate::sauce::{comment_lines, field_fits, lemma_comment_lines_at, lemma_comment_lines_len};
use crate::tdf_font::{lossy_string, utf8_lossy};
use crate::layer::Line;
use crate::text_attribute::{spec_attr, BufferType, TextAttribute};

verus! {

/// The CRC register after `k` more bit steps of the reflected CRC-32
/// polynomial `0xEDB88320`.
pub open spec fn crc32_bits(c: u32, k: nat) -> u32
    decreases k,
{
    if k == 0 {
        c
    } else {
        crc32_bits(if c & 1 == 1 { (c >> 1u32) ^ 0xEDB8_8320u32 } else { c >> 1u32 }, (k - 1) as nat)
    }
}

/// The CRC register after the first `n` bytes of `data`, starting from all
/// ones.
pub open spec fn crc32_reg(data: Seq<u8>, n: int) -> u32
    decreases n,
{
    if n <= 0 {
        0xFFFF_FFFFu32
    } else {
        crc32_bits(crc32_reg(data, n - 1) ^ (data[n - 1] as u32), 8)
    }
}

/// The CRC-32 (IEEE 802.3) checksum of a byte sequence: the final register
/// with all bits inverted.
pub open spec fn crc32(data: Seq<u8>) -> u32 {
    !crc32_reg(data, data.len() as int)
}

/// `crc32fast::hash`: the CRC-32 (IEEE) checksum of the bytes, as the
/// crate documents it.
#[verifier::external_body]
fn crc32_hash(data: &[u8]) -> (r: u32)
    ensures
        r == crc32(data@),
{
    crc32fast::hash(data)
}

/// `MDf`, the first three bytes of a Mystic Draw file.
pub open spec fn mdf_id() -> Seq<u8> {
    seq![77u8, 68u8, 102u8]
}

/// The fixed part of a file: id, checksum, version, the three text fields,
/// size and flags.
pub open spec fn mdf_min_len() -> int {
    91
}

/// The largest cell index a layer may reach.
pub open spec fn mdf_max_index() -> int {
    0x7FFF_FFFF
}

/// The bytes from `o` to the end, zero past the end.
pub open spec fn rest(b: Seq<u8>, o: int) -> int {
    if o < b.len() {
        b.len() - o
    } else {
        0
    }
}

/// The big endian 16 bit number at `o`.
pub open spec fn be16(b: Seq<u8>, o: int) -> int {
    b[o] * 256 + b[o + 1]
}

/// The big endian 32 bit number at `o`.
pub open spec fn be32(b: Seq<u8>, o: int) -> int {
    b[o] * 16777216 + b[o + 1] * 65536 + b[o + 2] * 256 + b[o + 3]
}

/// The buffer type the low three bits of the flags word select.
pub open spec fn mdf_buffer_type(flags: u16) -> Option<BufferType> {
    let t = flags & 7u16;
    if t == 0 {
        Some(BufferType::LegacyDos)
    } else if t == 1 {
        Some(BufferType::LegacyIce)
    } else if t == 2 {
        Some(BufferType::ExtFont)
    } else if t == 3 {
        Some(BufferType::ExtFontIce)
    } else if t == 7 {
        Some(BufferType::NoLimits)
    } else {
        None
    }
}

/// Bytes per stored character: two with an extended font.
pub open spec fn char_width(bt: BufferType) -> int {
    if bt.spec_use_extended_font() {
        2
    } else {
        1
    }
}

/// Bytes per stored attribute in an attribute mode: one DOS attribute
/// byte, or a foreground and a background color of one, two or four bytes.
pub open spec fn attr_width(mode: u16) -> int {
    if mode == 0 {
        1
    } else if mode == 2 {
        2
    } else if mode == 4 {
        4
    } else {
        8
    }
}

pub open spec fn cell_width(bt: BufferType, mode: u16) -> int {
    char_width(bt) + attr_width(mode)
}

/// The character stored at `o`: the low byte of a big endian 16 bit code
/// with an extended font.
pub open spec fn char_at(b: Seq<u8>, o: int, bt: BufferType) -> u8 {
    if bt.spec_use_extended_font() {
        b[o + 1]
    } else {
        b[o]
    }
}

/// The attribute stored at `o`; colors keep their low byte.
pub open spec fn attr_at(b: Seq<u8>, o: int, mode: u16, bt: BufferType) -> TextAttribute {
    if mode == 0 {
        TextAttribute::spec_from_u8(b[o], bt)
    } else if mode == 2 {
        spec_attr(b[o], b[o + 1], false)
    } else if mode == 4 {
        spec_attr(b[o + 1], b[o + 3], false)
    } else {
        spec_attr(b[o + 3], b[o + 7], false)
    }
}

/// A character followed by its attribute, stored at `o`.
pub open spec fn cell_at(b: Seq<u8>, o: int, mode: u16, bt: BufferType) -> DosChar {
    DosChar { char_code: char_at(b, o, bt), attribute: attr_at(b, o + char_width(bt), mode, bt) }
}

/// The bytes after the header byte of a compressed run of `cnt` cells:
/// every cell (kind 0), one character and every attribute (1), one
/// attribute and every character (2), or one cell for all (3).
pub open spec fn run_size(comp: int, cnt: int, bt: BufferType, mode: u16) -> int {
    if comp == 0 {
        cnt * cell_width(bt, mode)
    } else if comp == 1 {
        char_width(bt) + cnt * attr_width(mode)
    } else if comp == 2 {
        attr_width(mode) + cnt * char_width(bt)
    } else {
        cell_width(bt, mode)
    }
}

/// Cell `j` of a run of kind `comp` whose data starts at `p`.
pub open spec fn run_cell(b: Seq<u8>, p: int, comp: int, j: int, mode: u16, bt: BufferType) -> DosChar {
    if comp == 0 {
        cell_at(b, p + j * cell_width(bt, mode), mode, bt)
    } else if comp == 1 {
        DosChar { char_code: char_at(b, p, bt), attribute: attr_at(b, p + char_width(bt) + j * attr_width(mode), mode, bt) }
    } else if comp == 2 {
        DosChar { char_code: char_at(b, p + attr_width(mode) + j * char_width(bt), bt), attribute: attr_at(b, p, mode, bt) }
    } else {
        cell_at(b, p, mode, bt)
    }
}

pub open spec fn run_cells(b: Seq<u8>, p: int, comp: int, cnt: int, mode: u16, bt: BufferType) -> Seq<DosChar> {
    Seq::new(cnt as nat, |j: int| run_cell(b, p, comp, j, mode, bt))
}

/// `g` with the cells of `cs` written from cell index `s` on, in rows of
/// `w` columns: index `k` is column `k % w` of row `k / w`.
pub open spec fn write_at(g: Seq<Seq<DosChar>>, s: int, cs: Seq<DosChar>, w: int) -> Seq<Seq<DosChar>>
    decreases cs.len(),
{
    if cs.len() == 0 {
        g
    } else {
        let k = s + cs.len() - 1;
        grid_set(write_at(g, s, cs.drop_last(), w), k % w, k / w, cs.last())
    }
}

pub proof fn lemma_run_size_nonneg(comp: int, cnt: int, bt: BufferType, mode: u16)
    requires
        cnt >= 0,
    ensures
        run_size(comp, cnt, bt, mode) >= 0,
{
    let cw = char_width(bt);
    let aw = attr_width(mode);
    assert(cnt * (cw + aw) >= 0 && cnt * aw >= 0 && cnt * cw >= 0) by (nonlinear_arith)
        requires
            cnt >= 0,
            cw >= 1,
            aw >= 1,
    ;
}

/// Decoding compressed runs from `o` on, writing from cell `i` on until
/// cell `end` is reached: where the data ends and what the grid becomes.
pub open spec fn mdf_runs(
    b: Seq<u8>,
    o: int,
    i: int,
    end: int,
    w: int,
    mode: u16,
    bt: BufferType,
    g: Seq<Seq<DosChar>>,
) -> Result<(int, Seq<Seq<DosChar>>), LoadError>
    decreases rest(b, o),
{
    if i >= end {
        Ok((o, g))
    } else if o < 0 || o >= b.len() {
        Err(LoadError::MdfTruncated)
    } else {
        let comp = b[o] / 64;
        let cnt = b[o] % 64 + 1;
        let size = run_size(comp as int, cnt as int, bt, mode);
        if o + 1 + size > b.len() {
            Err(LoadError::MdfTruncated)
        } else if i + cnt > mdf_max_index() {
            Err(LoadError::MdfLayerTooLarge)
        } else {
            proof {
                lemma_run_size_nonneg(comp as int, cnt as int, bt, mode);
            }
            mdf_runs(
                b,
                o + 1 + size,
                i + cnt,
                end,
                w,
                mode,
                bt,
                write_at(g, i, run_cells(b, o + 1, comp as int, cnt as int, mode, bt), w),
            )
        }
    }
}

pub proof fn lemma_runs_advance(
    b: Seq<u8>,
    o: int,
    i: int,
    end: int,
    w: int,
    mode: u16,
    bt: BufferType,
    g: Seq<Seq<DosChar>>,
)
    ensures
        mdf_runs(b, o, i, end, w, mode, bt, g) is Ok ==> mdf_runs(b, o, i, end, w, mode, bt, g)->Ok_0.0 >= o,
        mdf_runs(b, o, i, end, w, mode, bt, g) is Ok && o <= b.len() ==> mdf_runs(b, o, i, end, w, mode, bt, g)->Ok_0.0
            <= b.len(),
    decreases rest(b, o),
{
    if i < end && 0 <= o < b.len() {
        let comp = b[o] / 64;
        let cnt = b[o] % 64 + 1;
        let size = run_size(comp as int, cnt as int, bt, mode);
        lemma_run_size_nonneg(comp as int, cnt as int, bt, mode);
        if o + 1 + size <= b.len() && i + cnt <= mdf_max_index() {
            lemma_runs_advance(
                b,
                o + 1 + size,
                i + cnt,
                end,
                w,
                mode,
                bt,
                write_at(g, i, run_cells(b, o + 1, comp as int, cnt as int, mode, bt), w),
            );
        }
    }
}

/// Decoding the cell data of a layer from `o` on: runs of empty cells,
/// runs of stored cells (compressed or not) and a zero word at the end.
pub open spec fn mdf_cells(
    b: Seq<u8>,
    o: int,
    i: int,
    w: int,
    compressed: bool,
    mode: u16,
    bt: BufferType,
    g: Seq<Seq<DosChar>>,
) -> Result<(int, Seq<Seq<DosChar>>), LoadError>
    decreases rest(b, o),
{
    if o < 0 || o + 2 > b.len() {
        Err(LoadError::MdfTruncated)
    } else {
        let len = be16(b, o);
        let n = len % 32768;
        if len == 0 {
            Ok((o + 2, g))
        } else if i + n > mdf_max_index() {
            Err(LoadError::MdfLayerTooLarge)
        } else if len >= 32768 {
            mdf_cells(b, o + 2, i + n, w, compressed, mode, bt, g)
        } else if compressed {
            match mdf_runs(b, o + 2, i, i + n, w, mode, bt, g) {
                Err(e) => Err(e),
                Ok(r) => {
                    proof {
                        lemma_runs_advance(b, o + 2, i, i + n, w, mode, bt, g);
                    }
                    mdf_cells(b, r.0, i + n, w, compressed, mode, bt, r.1)
                },
            }
        } else {
            let size = n * cell_width(bt, mode);
            proof {
                lemma_run_size_nonneg(0, n, bt, mode);
            }
            if o + 2 + size > b.len() {
                Err(LoadError::MdfTruncated)
            } else {
                mdf_cells(b, o + 2 + size, i + n, w, compressed, mode, bt, write_at(g, i, run_cells(b, o + 2, 0, n, mode, bt), w))
            }
        }
    }
}

pub proof fn lemma_cells_advance(
    b: Seq<u8>,
    o: int,
    i: int,
    w: int,
    compressed: bool,
    mode: u16,
    bt: BufferType,
    g: Seq<Seq<DosChar>>,
)
    ensures
        mdf_cells(b, o, i, w, compressed, mode, bt, g) is Ok ==> mdf_cells(b, o, i, w, compressed, mode, bt, g)->Ok_0.0 > o,
        mdf_cells(b, o, i, w, compressed, mode, bt, g) is Ok ==> mdf_cells(b, o, i, w, compressed, mode, bt, g)->Ok_0.0
            <= b.len(),
    decreases rest(b, o),
{
    if 0 <= o && o + 2 <= b.len() {
        let len = be16(b, o);
        let n = len % 32768;
        if len != 0 && i + n <= mdf_max_index() {
            if len >= 32768 {
                lemma_cells_advance(b, o + 2, i + n, w, compressed, mode, bt, g);
            } else if compressed {
                lemma_runs_advance(b, o + 2, i, i + n, w, mode, bt, g);
                match mdf_runs(b, o + 2, i, i + n, w, mode, bt, g) {
                    Err(e) => {},
                    Ok(r) => {
                        lemma_cells_advance(b, r.0, i + n, w, compressed, mode, bt, r.1);
                    },
                }
            } else {
                lemma_run_size_nonneg(0, n, bt, mode);
                let size = n * cell_width(bt, mode);
                if o + 2 + size <= b.len() {
                    lemma_cells_advance(
                        b,
                        o + 2 + size,
                        i + n,
                        w,
                        compressed,
                        mode,
                        bt,
                        write_at(g, i, run_cells(b, o + 2, 0, n, mode, bt), w),
                    );
                }
            }
        }
    }
}

/// The text of a layer name: the UTF-8 decoding of its bytes.
pub open spec fn lossy_text(b: Seq<u8>) -> Seq<char> {
    if vstd::utf8::valid_utf8(b) {
        vstd::utf8::decode_utf8(b)
    } else {
        utf8_lossy(b)
    }
}

/// A layer as its block describes it.
pub struct MdfLayer {
    pub name: Seq<char>,
    pub visible: bool,
    pub grid: Seq<Seq<DosChar>>,
}

/// Decoding a layer block whose data starts at `o`: the name, a mode
/// byte, the flags, the offset, the width and the cell data.
pub open spec fn mdf_layer(b: Seq<u8>, o: int, bt: BufferType) -> Result<(int, MdfLayer), LoadError> {
    if o < 0 || o + 2 > b.len() {
        Err(LoadError::MdfTruncated)
    } else {
        let t = o + 2 + be16(b, o);
        if t + 13 > b.len() {
            Err(LoadError::MdfTruncated)
        } else {
            let name = lossy_text(b.subrange(o + 2, t));
            let flags = be16(b, t + 1) as u16;
            let visible = flags & 0x20u16 == 0x20u16;
            let w = be16(b, t + 11);
            if w > 0 {
                match mdf_cells(b, t + 13, 0, w, flags & 1u16 == 1u16, flags & 6u16, bt, Seq::empty()) {
                    Err(e) => Err(e),
                    Ok(r) => Ok((r.0, MdfLayer { name, visible, grid: r.1 })),
                }
            } else {
                Ok((t + 13, MdfLayer { name, visible, grid: Seq::empty() }))
            }
        }
    }
}

/// Whether a text field of width `len` can be read from the start of `d`:
/// the bytes it takes, and with NUL padding the NUL that ends it, exist.
pub open spec fn field_readable(d: Seq<u8>, len: int, empty: u8) -> bool {
    if read_count(d, len, empty) < len {
        read_count(d, len, empty) < d.len()
    } else {
        len <= d.len()
    }
}

pub open spec fn field_ok(b: Seq<u8>, o: int, len: int, empty: u8) -> bool {
    0 <= o <= b.len() && field_readable(b.subrange(o, b.len() as int), len, empty)
}

/// The text field of width `len` read at `o`.
pub open spec fn field_at(b: Seq<u8>, o: int, len: int, empty: u8) -> Seq<u8> {
    read_field(b.subrange(o, b.len() as int), len, empty)
}

/// A font as its block describes it.
pub struct MdfFont {
    pub name: Seq<u8>,
    pub width: u8,
    pub height: u8,
    pub data: Seq<u32>,
}

/// Bytes per scanline of a font `width` pixels wide.
pub open spec fn scan_width(width: u8) -> int {
    if width < 9 {
        1
    } else {
        2
    }
}

/// What the blocks of a file set: comments to append, a palette, the
/// first font (by name or with its bitmaps), whether a font came yet, and
/// the layers.
pub struct MdfBlocks {
    pub comments: Seq<Seq<u8>>,
    pub palette: Option<Seq<Color>>,
    pub font_name: Option<Seq<u8>>,
    pub font: Option<MdfFont>,
    pub font_seen: bool,
    pub layers: Seq<MdfLayer>,
}

pub open spec fn no_blocks() -> MdfBlocks {
    MdfBlocks {
        comments: Seq::empty(),
        palette: None,
        font_name: None,
        font: None,
        font_seen: false,
        layers: Seq::empty(),
    }
}

/// Whether the `n` comment fields from `o` on can all be read.
pub open spec fn comments_ok(b: Seq<u8>, o: int, n: int) -> bool {
    forall|k: int| 0 <= k < n ==> #[trigger] field_ok(b, o + 64 * k, 64, 0)
}

pub open spec fn comments_at(b: Seq<u8>, o: int, n: int) -> Seq<Seq<u8>> {
    Seq::new(n as nat, |k: int| field_at(b, o + 64 * k, 64, 0))
}

pub open spec fn colors_at(b: Seq<u8>, o: int, n: int) -> Seq<Color> {
    Seq::new(n as nat, |k: int| rgb(b[o + 3 * k], b[o + 3 * k + 1], b[o + 3 * k + 2]))
}

pub open spec fn scanlines_at(b: Seq<u8>, o: int, n: int, width: u8) -> Seq<u32> {
    Seq::new(n as nat, |k: int| if width < 9 { b[o + k] as u32 } else { be16(b, o + 2 * k) as u32 })
}

/// Decoding the block at `o`: where the next block starts and what the
/// blocks set so far.
pub open spec fn mdf_block(b: Seq<u8>, o: int, bt: BufferType, st: MdfBlocks) -> Result<(int, MdfBlocks), LoadError> {
    let p = o + 1;
    let blk = b[o];
    if blk == 1 {
        if p >= b.len() {
            Err(LoadError::MdfTruncated)
        } else if !comments_ok(b, p + 1, b[p] as int) {
            Err(LoadError::MdfTruncated)
        } else {
            let n = b[p] as int;
            Ok((p + 1 + 64 * n, MdfBlocks { comments: st.comments + comments_at(b, p + 1, n), ..st }))
        }
    } else if blk == 2 {
        if p + 4 > b.len() || p + 4 + 3 * be32(b, p) > b.len() {
            Err(LoadError::MdfTruncated)
        } else {
            Ok((p + 4 + 3 * be32(b, p), MdfBlocks { palette: Some(colors_at(b, p + 4, be32(b, p))), ..st }))
        }
    } else if blk == 3 {
        if !field_ok(b, p, 22, 0) {
            Err(LoadError::MdfTruncated)
        } else if !st.font_seen {
            Ok((p + 22, MdfBlocks { font_name: Some(field_at(b, p, 22, 0)), font_seen: true, ..st }))
        } else {
            Ok((p + 22, st))
        }
    } else if blk == 4 {
        if p + 25 > b.len() {
            Err(LoadError::MdfTruncated)
        } else {
            let width = b[p + 22];
            let height = b[p + 23];
            let size = 256 * height * scan_width(width);
            if p + 25 + size > b.len() {
                Err(LoadError::MdfTruncated)
            } else if !st.font_seen {
                let f = MdfFont {
                    name: field_at(b, p, 22, 0),
                    width,
                    height,
                    data: scanlines_at(b, p + 25, 256 * height, width),
                };
                Ok((p + 25 + size, MdfBlocks { font: Some(f), font_seen: true, ..st }))
            } else {
                Ok((p + 25 + size, st))
            }
        }
    } else if blk == 5 {
        match mdf_layer(b, p, bt) {
            Err(e) => Err(e),
            Ok(r) => Ok((r.0, MdfBlocks { layers: st.layers.push(r.1), ..st })),
        }
    } else {
        Err(LoadError::MdfUnsupportedBlock(blk))
    }
}

pub proof fn lemma_block_advance(b: Seq<u8>, o: int, bt: BufferType, st: MdfBlocks)
    requires
        0 <= o < b.len(),
    ensures
        mdf_block(b, o, bt, st) is Ok ==> mdf_block(b, o, bt, st)->Ok_0.0 > o,
        mdf_block(b, o, bt, st) is Ok ==> mdf_block(b, o, bt, st)->Ok_0.0 <= b.len() + 64 * 256,
{
    lemma_layer_advance(b, o + 1, bt);
    assert(256 * b[o + 24] * scan_width(b[o + 23]) >= 0) by (nonlinear_arith)
        requires
            scan_width(b[o + 23]) >= 1,
    ;
}

/// Decoding the blocks from `o` to the end of the data.
pub open spec fn mdf_blocks(b: Seq<u8>, o: int, bt: BufferType, st: MdfBlocks) -> Result<MdfBlocks, LoadError>
    decreases rest(b, o),
{
    if o < 0 || o >= b.len() {
        Ok(st)
    } else {
        match mdf_block(b, o, bt, st) {
            Err(e) => Err(e),
            Ok(r) => {
                proof {
                    lemma_block_advance(b, o, bt, st);
                }
                mdf_blocks(b, r.0, bt, r.1)
            },
        }
    }
}

pub proof fn lemma_layer_advance(b: Seq<u8>, o: int, bt: BufferType)
    ensures
        mdf_layer(b, o, bt) is Ok ==> mdf_layer(b, o, bt)->Ok_0.0 > o,
        mdf_layer(b, o, bt) is Ok ==> mdf_layer(b, o, bt)->Ok_0.0 <= b.len(),
{
    if 0 <= o && o + 2 <= b.len() {
        let t = o + 2 + be16(b, o);
        if t + 13 <= b.len() {
            let flags = be16(b, t + 1) as u16;
            let w = be16(b, t + 11);
            lemma_cells_advance(b, t + 13, 0, w, flags & 1u16 == 1u16, flags & 6u16, bt, Seq::empty());
        }
    }
}

/// Why the fixed part of a file is refused, if it is: too short, a wrong
/// id, a checksum over everything after it that does not match, or an
/// unknown buffer type.
pub open spec fn mdf_header_err(b: Seq<u8>) -> Option<LoadError> {
    if b.len() < mdf_min_len() {
        Some(LoadError::MdfTooShort)
    } else if b.subrange(0, 3) != mdf_id() {
        Some(LoadError::MdfInvalidHeader)
    } else if crc32(b.subrange(8, b.len() as int)) as int != be32(b, 4) {
        Some(LoadError::MdfCrcMismatch)
    } else if mdf_buffer_type(be16(b, 89) as u16) is None {
        Some(LoadError::MdfInvalidBufferType)
    } else {
        None
    }
}

/// What reading a file gives: the error, or what its blocks set.
pub open spec fn mdf_parse(b: Seq<u8>) -> Result<MdfBlocks, LoadError> {
    match mdf_header_err(b) {
        Some(e) => Err(e),
        None => mdf_blocks(b, mdf_min_len(), mdf_buffer_type(be16(b, 89) as u16)->0, no_blocks()),
    }
}

fn be16_at(b: &[u8], o: usize) -> (r: u16)
    requires
        o + 2 <= b.len(),
    ensures
        r as int == be16(b@, o as int),
{
    (b[o] as u16) * 256 + b[o + 1] as u16
}

fn be32_at(b: &[u8], o: usize) -> (r: u32)
    requires
        o + 4 <= b.len(),
    ensures
        r as int == be32(b@, o as int),
{
    (b[o] as u32) * 16777216 + (b[o + 1] as u32) * 65536 + (b[o + 2] as u32) * 256 + b[o + 3] as u32
}

fn mdf_char(b: &[u8], o: usize, bt: BufferType) -> (c: u8)
    requires
        o + char_width(bt) <= b.len(),
    ensures
        c == char_at(b@, o as int, bt),
{
    if bt.use_extended_font() {
        b[o + 1]
    } else {
        b[o]
    }
}

fn mdf_attr(b: &[u8], o: usize, mode: u16, bt: BufferType) -> (a: TextAttribute)
    requires
        o + attr_width(mode) <= b.len(),
    ensures
        a == attr_at(b@, o as int, mode, bt),
{
    if mode == 0 {
        TextAttribute::from_u8(b[o], bt)
    } else if mode == 2 {
        TextAttribute::from_color(b[o], b[o + 1])
    } else if mode == 4 {
        TextAttribute::from_color(b[o + 1], b[o + 3])
    } else {
        TextAttribute::from_color(b[o + 3], b[o + 7])
    }
}

proof fn lemma_run_offsets(cnt: int, j: int, cw: int, aw: int)
    by (nonlinear_arith)
    requires
        0 <= j < cnt,
        cw >= 1,
        aw >= 1,
    ensures
        j * (cw + aw) + cw + aw <= cnt * (cw + aw),
        j * aw + aw <= cnt * aw,
        j * cw + cw <= cnt * cw,
        j * (cw + aw) >= 0,
        j * aw >= 0,
        j * cw >= 0,
{
}

/// Writes the `cnt` cells of a run of kind `comp` whose data starts at `p`
/// from cell index `i` on.
fn mdf_write_run(
    layer: &mut Layer,
    b: &[u8],
    p: usize,
    comp: u8,
    cnt: usize,
    i: usize,
    w: usize,
    mode: u16,
    bt: BufferType,
)
    requires
        comp <= 3,
        p + run_size(comp as int, cnt as int, bt, mode) <= b.len(),
        1 <= w <= 65535,
        i + cnt <= mdf_max_index(),
    ensures
        final(layer).grid() == write_at(old(layer).grid(), i as int, run_cells(b@, p as int, comp as int, cnt as int, mode, bt), w as int),
        final(layer).name == old(layer).name,
        final(layer).is_visible == old(layer).is_visible,
        final(layer).size == old(layer).size,
{
    let ghost g0 = layer.grid();
    let ghost cells = run_cells(b@, p as int, comp as int, cnt as int, mode, bt);
    let cw: usize = if bt.use_extended_font() { 2 } else { 1 };
    let aw: usize = if mode == 0 {
        1
    } else if mode == 2 {
        2
    } else if mode == 4 {
        4
    } else {
        8
    };
    let mut j: usize = 0;
    while j < cnt
        invariant
            j <= cnt,
            comp <= 3,
            cw as int == char_width(bt),
            aw as int == attr_width(mode),
            p + run_size(comp as int, cnt as int, bt, mode) <= b.len(),
            1 <= w <= 65535,
            i + cnt <= mdf_max_index(),
            cells == run_cells(b@, p as int, comp as int, cnt as int, mode, bt),
            layer.grid() == write_at(g0, i as int, cells.take(j as int), w as int),
            layer.name == old(layer).name,
            layer.is_visible == old(layer).is_visible,
            layer.size == old(layer).size,
        decreases cnt - j,
    {
        proof {
            lemma_run_offsets(cnt as int, j as int, cw as int, aw as int);
        }
        let cq: usize;
        let aq: usize;
        if comp == 0 {
            cq = p + j * (cw + aw);
            aq = cq + cw;
        } else if comp == 1 {
            cq = p;
            aq = p + cw + j * aw;
        } else if comp == 2 {
            aq = p;
            cq = p + aw + j * cw;
        } else {
            cq = p;
            aq = p + cw;
        }
        let c = mdf_char(b, cq, bt);
        let a = mdf_attr(b, aq, mode, bt);
        let cell = DosChar { char_code: c, attribute: a };
        assert(cell == run_cell(b@, p as int, comp as int, j as int, mode, bt));
        let k = i + j;
        let x = (k % w) as i32;
        let y = (k / w) as i32;
        layer.set_char(Position { x, y }, cell);
        proof {
            assert(cells.take(j + 1).drop_last() =~= cells.take(j as int));
            assert(cells.take(j + 1).last() == cell);
        }
        j = j + 1;
    }
    assert(cells.take(cnt as int) =~= cells);
}

fn run_size_exec(comp: u8, cnt: usize, bt: BufferType, mode: u16) -> (r: usize)
    requires
        comp <= 3,
        1 <= cnt <= 64,
    ensures
        r as int == run_size(comp as int, cnt as int, bt, mode),
        r <= 640,
{
    let cw: usize = if bt.use_extended_font() { 2 } else { 1 };
    let aw: usize = if mode == 0 {
        1
    } else if mode == 2 {
        2
    } else if mode == 4 {
        4
    } else {
        8
    };
    assert(cnt * (cw + aw) <= 640 && cnt * aw <= 512 && cnt * cw <= 128) by (nonlinear_arith)
        requires
            1 <= cnt <= 64,
            1 <= cw <= 2,
            1 <= aw <= 8,
    ;
    if comp == 0 {
        cnt * (cw + aw)
    } else if comp == 1 {
        cw + cnt * aw
    } else if comp == 2 {
        aw + cnt * cw
    } else {
        cw + aw
    }
}

/// Decodes compressed runs from `o` on into `layer`, from cell `i` on
/// until cell `end` is reached; gives where the data ends.
fn mdf_decompress(
    layer: &mut Layer,
    b: &[u8],
    o: usize,
    i: usize,
    end: usize,
    w: usize,
    mode: u16,
    bt: BufferType,
) -> (r: Result<usize, LoadError>)
    requires
        1 <= w <= 65535,
        end <= mdf_max_index(),
    ensures
        match mdf_runs(b@, o as int, i as int, end as int, w as int, mode, bt, old(layer).grid()) {
            Err(e) => r == Err::<usize, LoadError>(e),
            Ok(v) => r == Ok::<usize, LoadError>(v.0 as usize) && final(layer).grid() == v.1,
        },
        final(layer).name == old(layer).name,
        final(layer).is_visible == old(layer).is_visible,
        final(layer).size == old(layer).size,
{
    let ghost target = mdf_runs(b@, o as int, i as int, end as int, w as int, mode, bt, old(layer).grid());
    let mut at = o;
    let mut k = i;
    while k < end
        invariant
            target == mdf_runs(b@, o as int, i as int, end as int, w as int, mode, bt, old(layer).grid()),
            1 <= w <= 65535,
            end <= mdf_max_index(),
            mdf_runs(b@, at as int, k as int, end as int, w as int, mode, bt, layer.grid()) == target,
            layer.name == old(layer).name,
            layer.is_visible == old(layer).is_visible,
            layer.size == old(layer).size,
        decreases b.len() - at,
    {
        if at >= b.len() {
            return Err(LoadError::MdfTruncated);
        }
        let hdr = b[at];
        let comp = hdr / 64;
        let cnt = (hdr % 64) as usize + 1;
        let size = run_size_exec(comp, cnt, bt, mode);
        if size >= b.len() - at {
            return Err(LoadError::MdfTruncated);
        }
        if k + cnt > 0x7FFF_FFFF {
            return Err(LoadError::MdfLayerTooLarge);
        }
        mdf_write_run(layer, b, at + 1, comp, cnt, k, w, mode, bt);
        at = at + 1 + size;
        k = k + cnt;
    }
    Ok(at)
}

/// Reads the cell data of a layer `w` columns wide from `at` on into
/// `layer`; gives where the data ends.
fn mdf_read_cells(
    layer: &mut Layer,
    b: &[u8],
    o: usize,
    w: usize,
    compressed: bool,
    mode: u16,
    bt: BufferType,
) -> (r: Result<usize, LoadError>)
    requires
        1 <= w <= 65535,
    ensures
        match mdf_cells(b@, o as int, 0, w as int, compressed, mode, bt, old(layer).grid()) {
            Err(e) => r == Err::<usize, LoadError>(e),
            Ok(v) => r == Ok::<usize, LoadError>(v.0 as usize) && final(layer).grid() == v.1,
        },
        final(layer).name == old(layer).name,
        final(layer).is_visible == old(layer).is_visible,
        final(layer).size == old(layer).size,
{
    let ghost target = mdf_cells(b@, o as int, 0, w as int, compressed, mode, bt, old(layer).grid());
    let mut at = o;
    let mut k: usize = 0;
    loop
        invariant
            target == mdf_cells(b@, o as int, 0, w as int, compressed, mode, bt, old(layer).grid()),
            1 <= w <= 65535,
            k <= mdf_max_index(),
            mdf_cells(b@, at as int, k as int, w as int, compressed, mode, bt, layer.grid()) == target,
            layer.name == old(layer).name,
            layer.is_visible == old(layer).is_visible,
            layer.size == old(layer).size,
        decreases b.len() - at,
    {
        if at >= b.len() || b.len() - at < 2 {
            return Err(LoadError::MdfTruncated);
        }
        let len = be16_at(b, at);
        let n = (len % 32768) as usize;
        if len == 0 {
            return Ok(at + 2);
        }
        if k + n > 0x7FFF_FFFF {
            return Err(LoadError::MdfLayerTooLarge);
        }
        if len >= 32768 {
            at = at + 2;
            k = k + n;
        } else if compressed {
            let ghost g = layer.grid();
            proof {
                lemma_runs_advance(b@, at + 2, k as int, k + n, w as int, mode, bt, g);
            }
            match mdf_decompress(layer, b, at + 2, k, k + n, w, mode, bt) {
                Err(e) => {
                    return Err(e);
                },
                Ok(o2) => {
                    at = o2;
                },
            }
            k = k + n;
        } else {
            let cw: usize = if bt.use_extended_font() { 2 } else { 1 };
            let aw: usize = if mode == 0 {
                1
            } else if mode == 2 {
                2
            } else if mode == 4 {
                4
            } else {
                8
            };
            assert(n * (cw + aw) <= 32767 * 10) by (nonlinear_arith)
                requires
                    n <= 32767,
                    1 <= cw <= 2,
                    1 <= aw <= 8,
            ;
            let size = n * (cw + aw);
            if size > b.len() - at - 2 {
                return Err(LoadError::MdfTruncated);
            }
            mdf_write_run(layer, b, at + 2, 0, n, k, w, mode, bt);
            at = at + 2 + size;
            k = k + n;
        }
    }
}

/// Whether a text field of width `len` can be read from the start of `d`.
fn field_can_read(d: &[u8], len: usize, empty: u8) -> (r: bool)
    ensures
        r == field_readable(d@, len as int, empty),
{
    proof {
        lemma_read_count_bounds(d@, len as int, empty);
    }
    if empty != 0 {
        return len <= d.len();
    }
    let mut i: usize = 0;
    while i < len
        invariant
            i <= len,
            i <= d.len(),
            empty == 0,
            read_count(d@, i as int, empty) == i as int,
        decreases len - i,
    {
        proof {
            lemma_read_count_mono(d@, i + 1, len as int, empty);
            lemma_read_count_bounds(d@, i + 1, empty);
        }
        if i >= d.len() {
            assert(read_count(d@, i + 1, empty) == i as int);
            return false;
        }
        if d[i] == 0 {
            assert(read_count(d@, i + 1, empty) == i as int);
            return true;
        }
        i = i + 1;
    }
    proof {
        lemma_read_count_mono(d@, i as int, len as int, empty);
    }
    true
}

/// Reads the layer block whose data starts at `o`; gives where it ends
/// and the layer.
fn mdf_read_layer(b: &[u8], o: usize, bt: BufferType) -> (r: Result<(usize, Layer), LoadError>)
    requires
        b.len() <= isize::MAX,
    ensures
        match mdf_layer(b@, o as int, bt) {
            Err(e) => r == Err::<(usize, Layer), LoadError>(e),
            Ok(v) => r is Ok && r->Ok_0.0 == v.0 && r->Ok_0.1.name@ == v.1.name && r->Ok_0.1.is_visible == v.1.visible
                && r->Ok_0.1.grid() == v.1.grid && r->Ok_0.1.size == Size { width: 0, height: 0 },
        },
{
    proof {
        lemma_layer_advance(b@, o as int, bt);
    }
    if o >= b.len() || b.len() - o < 2 {
        return Err(LoadError::MdfTruncated);
    }
    let tl = be16_at(b, o) as usize;
    if tl > b.len() - o - 2 || b.len() - o - 2 - tl < 13 {
        return Err(LoadError::MdfTruncated);
    }
    let t = o + 2 + tl;
    let name = lossy_string(vstd::slice::slice_subrange(b, o + 2, t));
    let flags = be16_at(b, t + 1);
    let w = be16_at(b, t + 11) as usize;
    let mut layer = Layer::new();
    layer.name = name;
    let mut end = t + 13;
    if w > 0 {
        match mdf_read_cells(&mut layer, b, t + 13, w, flags & 1 == 1, flags & 6, bt) {
            Err(e) => {
                return Err(e);
            },
            Ok(o2) => {
                end = o2;
            },
        }
    }
    layer.is_visible = flags & 0x20 == 0x20;
    Ok((end, layer))
}

/// What a buffer holds after reading a file whose blocks set `st`, given
/// what it held before: the header fields, the comments appended, the
/// palette, font and layers the blocks set; everything else is kept.
pub open spec fn mdf_loaded(before: Buffer, after: Buffer, b: Seq<u8>, st: MdfBlocks) -> bool {
    &&& after.title.0@ == read_into(before.title.0@, b.subrange(10, b.len() as int), 35, 32)
    &&& after.author.0@ == read_into(before.author.0@, b.subrange(45, b.len() as int), 20, 32)
    &&& after.group.0@ == read_into(before.group.0@, b.subrange(65, b.len() as int), 20, 32)
    &&& after.width as int == be16(b, 85)
    &&& after.height as int == be16(b, 87)
    &&& mdf_buffer_type(be16(b, 89) as u16) == Some(after.buffer_type)
    &&& after.comments@.len() == before.comments@.len() + st.comments.len()
    &&& forall|k: int| 0 <= k < before.comments@.len() ==> #[trigger] after.comments@[k] == before.comments@[k]
    &&& forall|k: int|
        0 <= k < st.comments.len() ==> #[trigger] after.comments@[before.comments@.len() + k].0@ == st.comments[k]
    &&& after.palette.colors@ == (match st.palette {
        Some(p) => p,
        None => before.palette.colors@,
    })
    &&& match st.font_name {
        Some(n) => after.font is None && after.font_name is Some && after.font_name.unwrap().0@ == n,
        None => match st.font {
            Some(f) => after.font is Some && after.font->0.name.0@ == f.name && after.font->0.size == Size {
                width: f.width as usize,
                height: f.height as usize,
            } && after.font->0.data@ == f.data && after.font_name == before.font_name,
            None => after.font == before.font && after.font_name == before.font_name,
        },
    }
    &&& after.layers@.len() == st.layers.len()
    &&& forall|k: int|
        0 <= k < st.layers.len() ==> {
            &&& (#[trigger] after.layers@[k]).name@ == st.layers[k].name
            &&& after.layers@[k].is_visible == st.layers[k].visible
            &&& after.layers@[k].grid() == st.layers[k].grid
            &&& after.layers@[k].size == Size { width: 0, height: 0 }
        }
    &&& after.file_name == before.file_name
    &&& after.write_sauce == before.write_sauce
    &&& after.overlay_layer == before.overlay_layer
    &&& after.undo_stack == before.undo_stack
    &&& after.redo_stack == before.redo_stack
}

/// What a new buffer named `name` holds after reading a file whose blocks
/// set `st`.
pub open spec fn mdf_opened(name: Seq<char>, b: Seq<u8>, st: MdfBlocks, r: Buffer) -> bool {
    &&& r.file_name is Some && r.file_name->0@ == name
    &&& r.title.0@ == field_at(b, 10, 35, 32)
    &&& r.author.0@ == field_at(b, 45, 20, 32)
    &&& r.group.0@ == field_at(b, 65, 20, 32)
    &&& r.width as int == be16(b, 85)
    &&& r.height as int == be16(b, 87)
    &&& mdf_buffer_type(be16(b, 89) as u16) == Some(r.buffer_type)
    &&& r.comments@.len() == st.comments.len()
    &&& forall|k: int| 0 <= k < st.comments.len() ==> #[trigger] r.comments@[k].0@ == st.comments[k]
    &&& r.palette.colors@ == (match st.palette {
        Some(p) => p,
        None => dos_default_palette(),
    })
    &&& match st.font_name {
        Some(n) => r.font is None && r.font_name is Some && r.font_name.unwrap().0@ == n,
        None => match st.font {
            Some(f) => r.font is Some && r.font->0.name.0@ == f.name && r.font->0.size == Size {
                width: f.width as usize,
                height: f.height as usize,
            } && r.font->0.data@ == f.data && r.font_name is None,
            None => r.font is None && r.font_name is None,
        },
    }
    &&& r.layers@.len() == st.layers.len()
    &&& forall|k: int|
        0 <= k < st.layers.len() ==> {
            &&& (#[trigger] r.layers@[k]).name@ == st.layers[k].name
            &&& r.layers@[k].is_visible == st.layers[k].visible
            &&& r.layers@[k].grid() == st.layers[k].grid
            &&& r.layers@[k].size == Size { width: 0, height: 0 }
        }
    &&& !r.write_sauce
    &&& r.overlay_layer is None
    &&& r.undo_stack@.len() == 0
    &&& r.redo_stack@.len() == 0
}

/// Reading into a new buffer: what `mdf_loaded` says of it.
pub proof fn lemma_mdf_opened(name: Seq<char>, b: Seq<u8>, st: MdfBlocks, before: Buffer, after: Buffer)
    requires
        b.len() >= 91,
        (Buffer { file_name: None, ..before }).is_fresh(),
        before.palette.colors@ == dos_default_palette(),
        mdf_loaded(before, after, b, st),
        after.file_name is Some && after.file_name->0@ == name,
    ensures
        mdf_opened(name, b, st, after),
{
    assert(before.title.0@ =~= Seq::<u8>::empty());
    assert(before.author.0@ =~= Seq::<u8>::empty());
    assert(before.group.0@ =~= Seq::<u8>::empty());
    lemma_read_into_empty(b.subrange(10, b.len() as int), 35, 32);
    lemma_read_into_empty(b.subrange(45, b.len() as int), 20, 32);
    lemma_read_into_empty(b.subrange(65, b.len() as int), 20, 32);
    assert forall|k: int| 0 <= k < st.comments.len() implies #[trigger] after.comments@[k].0@ == st.comments[k] by {
        assert(after.comments@[before.comments@.len() + k].0@ == st.comments[k]);
    }
}

/// Reads a comment block at `o`.
fn mdf_read_comments(result: &mut Buffer, bytes: &[u8], o: usize, bt: BufferType, Ghost(before): Ghost<Buffer>, Ghost(st): Ghost<MdfBlocks>) -> (r: Result<usize, LoadError>)
    requires
        bytes.len() <= isize::MAX,
        o < bytes.len(),
        bytes@[o as int] == 1,
        mdf_loaded(before, *old(result), bytes@, st),
    ensures
        match mdf_block(bytes@, o as int, bt, st) {
            Err(e) => r == Err::<usize, LoadError>(e),
            Ok(v) => r == Ok::<usize, LoadError>(v.0 as usize) && mdf_loaded(before, *final(result), bytes@, v.1),
        },
{
    let len = bytes.len();
    let p = o + 1;
    if p >= len {
        return Err(LoadError::MdfTruncated);
    }
    let n = bytes[p] as usize;
    let ghost c0 = result.comments@;
    let ghost r0 = *result;
    let mut k: usize = 0;
    let mut q = p + 1;
    while k < n
        invariant
            len == bytes.len(),
            len <= isize::MAX,
            k <= n,
            n == bytes@[p as int],
            p < len,
            p == o + 1,
            o < len,
            bytes@[o as int] == 1,
            q == p + 1 + 64 * k,
            forall|j: int| 0 <= j < k ==> #[trigger] field_ok(bytes@, p + 1 + 64 * j, 64, 0),
            result.comments@.len() == c0.len() + k,
            *result == (Buffer { comments: result.comments, ..r0 }),
            forall|j: int| 0 <= j < c0.len() ==> #[trigger] result.comments@[j] == c0[j],
            forall|j: int| 0 <= j < k ==> #[trigger] result.comments@[c0.len() + j].0@ == field_at(bytes@, p + 1 + 64 * j, 64, 0),
        decreases n - k,
    {
        if q > len || !field_can_read(vstd::slice::slice_subrange(bytes, q, len), 64, 0) {
            proof {
                assert(!field_ok(bytes@, p + 1 + 64 * k, 64, 0));
                assert(!comments_ok(bytes@, p + 1, n as int));
            }
            return Err(LoadError::MdfTruncated);
        }
        let mut c = SauceString::<64, 0>::new();
        c.read(vstd::slice::slice_subrange(bytes, q, len));
        result.comments.push(c);
        q = q + 64;
        k = k + 1;
    }
    proof {
        let st1 = MdfBlocks { comments: st.comments + comments_at(bytes@, p + 1, n as int), ..st };
        assert(comments_ok(bytes@, p + 1, n as int));
        assert forall|j: int| 0 <= j < st1.comments.len() implies #[trigger] result.comments@[before.comments@.len() + j].0@
            == st1.comments[j] by {
            if j < st.comments.len() {
                assert(result.comments@[before.comments@.len() + j] == c0[before.comments@.len() + j]);
            } else {
                let i = j - st.comments.len();
                assert(result.comments@[c0.len() + i].0@ == field_at(bytes@, p + 1 + 64 * i, 64, 0));
            }
        }
        assert forall|j: int| 0 <= j < before.comments@.len() implies #[trigger] result.comments@[j] == before.comments@[j] by {
            assert(result.comments@[j] == c0[j]);
        }
    }
    Ok(q)
}

/// Reads a palette block at `o`.
fn mdf_read_palette(result: &mut Buffer, bytes: &[u8], o: usize, bt: BufferType, Ghost(before): Ghost<Buffer>, Ghost(st): Ghost<MdfBlocks>) -> (r: Result<usize, LoadError>)
    requires
        bytes.len() <= isize::MAX,
        o < bytes.len(),
        bytes@[o as int] == 2,
        mdf_loaded(before, *old(result), bytes@, st),
    ensures
        match mdf_block(bytes@, o as int, bt, st) {
            Err(e) => r == Err::<usize, LoadError>(e),
            Ok(v) => r == Ok::<usize, LoadError>(v.0 as usize) && mdf_loaded(before, *final(result), bytes@, v.1),
        },
{
    let len = bytes.len();
    let p = o + 1;
    if len - p < 4 {
        return Err(LoadError::MdfTruncated);
    }
    let n64 = be32_at(bytes, p) as u64;
    if 3 * n64 > (len - p - 4) as u64 {
        return Err(LoadError::MdfTruncated);
    }
    let n = n64 as usize;
    let ghost cols = colors_at(bytes@, p + 4, n as int);
    result.palette.clear();
    let ghost r0 = *result;
    let mut k: usize = 0;
    while k < n
        invariant
            k <= n,
            p + 4 + 3 * n <= len,
            len == bytes.len(),
            cols == colors_at(bytes@, p + 4, n as int),
            result.palette.colors@ == cols.take(k as int),
            *result == (Buffer { palette: result.palette, ..r0 }),
        decreases n - k,
    {
        let q = p + 4 + 3 * k;
        result.palette.colors.push(Color::new(bytes[q], bytes[q + 1], bytes[q + 2]));
        proof {
            assert(result.palette.colors@ =~= cols.take(k + 1));
        }
        k = k + 1;
    }
    assert(cols.take(n as int) =~= cols);
    Ok(p + 4 + 3 * n)
}

/// Reads a font name block at `o`.
fn mdf_read_font_name(result: &mut Buffer, bytes: &[u8], o: usize, bt: BufferType, font_seen: bool, Ghost(before): Ghost<Buffer>, Ghost(st): Ghost<MdfBlocks>) -> (r: Result<usize, LoadError>)
    requires
        bytes.len() <= isize::MAX,
        o < bytes.len(),
        bytes@[o as int] == 3,
        font_seen == st.font_seen,
        !st.font_seen ==> st.font_name is None && st.font is None,
        mdf_loaded(before, *old(result), bytes@, st),
    ensures
        match mdf_block(bytes@, o as int, bt, st) {
            Err(e) => r == Err::<usize, LoadError>(e),
            Ok(v) => r == Ok::<usize, LoadError>(v.0 as usize) && mdf_loaded(before, *final(result), bytes@, v.1),
        },
{
    let len = bytes.len();
    let p = o + 1;
    if p > len || !field_can_read(vstd::slice::slice_subrange(bytes, p, len), 22, 0) {
        return Err(LoadError::MdfTruncated);
    }
    if !font_seen {
        let mut name = SauceString::<22, 0>::new();
        name.read(vstd::slice::slice_subrange(bytes, p, len));
        result.font = None;
        result.font_name = Some(name);
    }
    Ok(p + 22)
}

/// Reads a font block at `o`.
fn mdf_read_font(result: &mut Buffer, bytes: &[u8], o: usize, bt: BufferType, font_seen: bool, Ghost(before): Ghost<Buffer>, Ghost(st): Ghost<MdfBlocks>) -> (r: Result<usize, LoadError>)
    requires
        bytes.len() <= isize::MAX,
        o < bytes.len(),
        bytes@[o as int] == 4,
        font_seen == st.font_seen,
        !st.font_seen ==> st.font_name is None && st.font is None,
        mdf_loaded(before, *old(result), bytes@, st),
    ensures
        match mdf_block(bytes@, o as int, bt, st) {
            Err(e) => r == Err::<usize, LoadError>(e),
            Ok(v) => r == Ok::<usize, LoadError>(v.0 as usize) && mdf_loaded(before, *final(result), bytes@, v.1),
        },
{
    let len = bytes.len();
    let p = o + 1;
    if len - p < 25 {
        return Err(LoadError::MdfTruncated);
    }
    let width = bytes[p + 22];
    let height = bytes[p + 23];
    let sw: usize = if width < 9 { 1 } else { 2 };
    let count: usize = 256 * (height as usize);
    let size = count * sw;
    assert(size as int == 256 * height * scan_width(width)) by (nonlinear_arith)
        requires
            sw as int == scan_width(width),
            count == 256 * height,
            size == count * sw,
    ;
    if size > len - p - 25 {
        return Err(LoadError::MdfTruncated);
    }
    if !font_seen {
        proof {
            lemma_read_count_bounds(bytes@.subrange(p as int, len as int), 22, 0);
        }
        let mut name = SauceString::<22, 0>::new();
        name.read(vstd::slice::slice_subrange(bytes, p, len));
        let ghost lines = scanlines_at(bytes@, p + 25, count as int, width);
        let mut data: Vec<u32> = Vec::new();
        let mut k: usize = 0;
        while k < count
            invariant
                k <= count,
                count == 256 * height,
                sw as int == scan_width(width),
                size == count * sw,
                p + 25 + size <= len,
                len == bytes.len(),
                lines == scanlines_at(bytes@, p + 25, count as int, width),
                data@ == lines.take(k as int),
            decreases count - k,
        {
            let v: u32 = if width < 9 {
                bytes[p + 25 + k] as u32
            } else {
                be16_at(bytes, p + 25 + 2 * k) as u32
            };
            data.push(v);
            proof {
                assert(data@ =~= lines.take(k + 1));
            }
            k = k + 1;
        }
        assert(lines.take(count as int) =~= lines);
        result.font = Some(BitFont { name, size: Size { width: width as usize, height: height as usize }, data });
        proof {
            let f = MdfFont { name: field_at(bytes@, p as int, 22, 0), width, height, data: scanlines_at(bytes@, p + 25, 256 * height, width) };
            let st1 = MdfBlocks { font: Some(f), font_seen: true, ..st };
            assert(mdf_block(bytes@, o as int, bt, st) == Ok::<(int, MdfBlocks), LoadError>((p + 25 + size, st1)));
        }
    }
    Ok(p + 25 + size)
}

/// Reads a layer block at `o` and appends the layer.
fn mdf_read_layer_block(result: &mut Buffer, bytes: &[u8], o: usize, bt: BufferType, Ghost(before): Ghost<Buffer>, Ghost(st): Ghost<MdfBlocks>) -> (r: Result<usize, LoadError>)
    requires
        bytes.len() <= isize::MAX,
        o < bytes.len(),
        bytes@[o as int] == 5,
        mdf_loaded(before, *old(result), bytes@, st),
    ensures
        match mdf_block(bytes@, o as int, bt, st) {
            Err(e) => r == Err::<usize, LoadError>(e),
            Ok(v) => r == Ok::<usize, LoadError>(v.0 as usize) && mdf_loaded(before, *final(result), bytes@, v.1),
        },
{
    let p = o + 1;
    match mdf_read_layer(bytes, p, bt) {
        Err(e) => Err(e),
        Ok((o2, layer)) => {
            let ghost l0 = result.layers@;
            result.layers.push(layer);
            proof {
                let st1 = MdfBlocks { layers: st.layers.push(mdf_layer(bytes@, p as int, bt)->Ok_0.1), ..st };
                assert forall|k: int| 0 <= k < st1.layers.len() implies {
                    &&& (#[trigger] result.layers@[k]).name@ == st1.layers[k].name
                    &&& result.layers@[k].is_visible == st1.layers[k].visible
                    &&& result.layers@[k].grid() == st1.layers[k].grid
                    &&& result.layers@[k].size == Size { width: 0, height: 0 }
                } by {
                    if k < l0.len() {
                        assert(result.layers@[k] == l0[k]);
                    }
                }
            }
            Ok(o2)
        },
    }
}

/// What reading the header leaves before the buffer type is checked: the
/// layers dropped, the text fields appended to and the size taken, all else
/// as it was.
pub open spec fn mdf_header_read(before: Buffer, after: Buffer, b: Seq<u8>) -> bool {
    &&& after == (Buffer {
        layers: after.layers,
        title: after.title,
        author: after.author,
        group: after.group,
        width: after.width,
        height: after.height,
        ..before
    })
    &&& after.layers@.len() == 0
    &&& after.title.0@ == read_into(before.title.0@, b.subrange(10, b.len() as int), 35, 32)
    &&& after.author.0@ == read_into(before.author.0@, b.subrange(45, b.len() as int), 20, 32)
    &&& after.group.0@ == read_into(before.group.0@, b.subrange(65, b.len() as int), 20, 32)
    &&& after.width as int == be16(b, 85)
    &&& after.height as int == be16(b, 87)
}

/// Reads a Mystic Draw file into `result`: checks the id, the checksum and
/// the buffer type, takes the text fields and the size, then reads the
/// comment, palette, font and layer blocks. The layers replace those the
/// buffer had.
pub fn read_mdf(result: &mut Buffer, bytes: &[u8]) -> (res: Result<bool, LoadError>)
    requires
        bytes.len() <= isize::MAX,
    ensures
        match mdf_parse(bytes@) {
            Err(e) => res == Err::<bool, LoadError>(e),
            Ok(st) => res == Ok::<bool, LoadError>(true) && mdf_loaded(*old(result), *final(result), bytes@, st),
        },
        match mdf_header_err(bytes@) {
            Some(LoadError::MdfInvalidBufferType) => mdf_header_read(*old(result), *final(result), bytes@),
            Some(_) => *final(result) == *old(result),
            None => true,
        },
{
    let len = bytes.len();
    if len < 91 {
        return Err(LoadError::MdfTooShort);
    }
    if !(bytes[0] == 77 && bytes[1] == 68 && bytes[2] == 102) {
        proof {
            assert(bytes@.subrange(0, 3) != mdf_id()) by {
                if bytes@.subrange(0, 3) == mdf_id() {
                    assert(bytes@.subrange(0, 3)[0] == 77 && bytes@.subrange(0, 3)[1] == 68 && bytes@.subrange(0, 3)[2] == 102);
                }
            }
        }
        return Err(LoadError::MdfInvalidHeader);
    }
    assert(bytes@.subrange(0, 3) =~= mdf_id());
    let crc = be32_at(bytes, 4);
    if crc != crc32_hash(vstd::slice::slice_subrange(bytes, 8, len)) {
        return Err(LoadError::MdfCrcMismatch);
    }
    let ghost before = *old(result);
    result.layers.clear();
    result.title.read(vstd::slice::slice_subrange(bytes, 10, len));
    result.author.read(vstd::slice::slice_subrange(bytes, 45, len));
    result.group.read(vstd::slice::slice_subrange(bytes, 65, len));
    result.width = be16_at(bytes, 85);
    result.height = be16_at(bytes, 87);
    let flags = be16_at(bytes, 89);
    let bt = match flags & 7 {
        0 => BufferType::LegacyDos,
        1 => BufferType::LegacyIce,
        2 => BufferType::ExtFont,
        3 => BufferType::ExtFontIce,
        7 => BufferType::NoLimits,
        _ => {
            return Err(LoadError::MdfInvalidBufferType);
        },
    };
    result.buffer_type = bt;
    let ghost mut st = no_blocks();
    let mut font_seen = false;
    let mut o: usize = 91;
    assert(result.layers@ =~= Seq::<Layer>::empty());
    assert(result.comments@ =~= before.comments@);
    while o < len
        invariant
            len == bytes.len(),
            len <= isize::MAX,
            before == *old(result),
            mdf_buffer_type(be16(bytes@, 89) as u16) == Some(bt),
            mdf_header_err(bytes@) is None,
            mdf_blocks(bytes@, o as int, bt, st) == mdf_blocks(bytes@, 91, bt, no_blocks()),
            font_seen == st.font_seen,
            !st.font_seen ==> st.font_name is None && st.font is None,
            mdf_loaded(before, *result, bytes@, st),
        decreases rest(bytes@, o as int),
    {
        let blk = bytes[o];
        proof {
            lemma_block_advance(bytes@, o as int, bt, st);
        }
        let r = if blk == 1 {
            mdf_read_comments(result, bytes, o, bt, Ghost(before), Ghost(st))
        } else if blk == 2 {
            mdf_read_palette(result, bytes, o, bt, Ghost(before), Ghost(st))
        } else if blk == 3 {
            mdf_read_font_name(result, bytes, o, bt, font_seen, Ghost(before), Ghost(st))
        } else if blk == 4 {
            mdf_read_font(result, bytes, o, bt, font_seen, Ghost(before), Ghost(st))
        } else if blk == 5 {
            mdf_read_layer_block(result, bytes, o, bt, Ghost(before), Ghost(st))
        } else {
            return Err(LoadError::MdfUnsupportedBlock(blk));
        };
        match r {
            Err(e) => {
                return Err(e);
            },
            Ok(o2) => {
                proof {
                    st = mdf_block(bytes@, o as int, bt, st)->Ok_0.1;
                }
                if blk == 3 || blk == 4 {
                    font_seen = true;
                }
                o = o2;
            },
        }
    }
    Ok(true)
}

/// The bytes a character is stored as: big endian 16 bit with an
/// extended font.
pub open spec fn enc_char(c: u8, bt: BufferType) -> Seq<u8> {
    if bt.spec_use_extended_font() {
        seq![0u8, c]
    } else {
        seq![c]
    }
}

/// The bytes an attribute is stored as in an attribute mode.
pub open spec fn enc_attr(a: TextAttribute, mode: u16) -> Seq<u8> {
    if mode == 0 {
        seq![a.spec_as_u8()]
    } else if mode == 2 {
        seq![a.foreground_color, a.background_color]
    } else if mode == 4 {
        seq![0u8, a.foreground_color, 0u8, a.background_color]
    } else {
        seq![0u8, 0u8, 0u8, a.foreground_color, 0u8, 0u8, 0u8, a.background_color]
    }
}

pub open spec fn enc_cell(c: DosChar, mode: u16, bt: BufferType) -> Seq<u8> {
    enc_char(c.char_code, bt) + enc_attr(c.attribute, mode)
}

/// What reading back a stored cell gives: the character, and the colors
/// as the attribute mode keeps them.
pub open spec fn norm_mdf(c: DosChar, mode: u16, bt: BufferType) -> DosChar {
    DosChar {
        char_code: c.char_code,
        attribute: if mode == 0 {
            TextAttribute::spec_from_u8(c.attribute.spec_as_u8(), bt)
        } else {
            spec_attr(c.attribute.foreground_color, c.attribute.background_color, false)
        },
    }
}

pub open spec fn norm_all(cs: Seq<DosChar>, mode: u16, bt: BufferType) -> Seq<DosChar> {
    Seq::new(cs.len(), |j: int| norm_mdf(cs[j], mode, bt))
}

/// The bytes of `f` applied to each cell, one after another.
pub open spec fn concat_map(cs: Seq<DosChar>, f: spec_fn(DosChar) -> Seq<u8>) -> Seq<u8>
    decreases cs.len(),
{
    if cs.len() == 0 {
        Seq::empty()
    } else {
        concat_map(cs.drop_last(), f) + f(cs.last())
    }
}

pub proof fn lemma_concat_map(cs: Seq<DosChar>, f: spec_fn(DosChar) -> Seq<u8>, k: int)
    requires
        k >= 1,
        forall|c: DosChar| (#[trigger] f(c)).len() == k,
    ensures
        concat_map(cs, f).len() == cs.len() * k,
        forall|j: int, t: int| 0 <= j < cs.len() && 0 <= t < k ==> #[trigger] concat_map(cs, f)[j * k + t] == f(cs[j])[t],
    decreases cs.len(),
{
    if cs.len() > 0 {
        let p = cs.drop_last();
        lemma_concat_map(p, f, k);
        let n = cs.len() - 1;
        assert(p.len() * k + k == cs.len() * k) by (nonlinear_arith)
            requires
                p.len() == n,
                cs.len() == n + 1,
        ;
        assert forall|j: int, t: int| 0 <= j < cs.len() && 0 <= t < k implies #[trigger] concat_map(cs, f)[j * k + t] == f(
            cs[j],
        )[t] by {
            if j < n {
                assert(j * k + t < n * k) by (nonlinear_arith)
                    requires
                        0 <= j < n,
                        0 <= t < k,
                ;
                assert(cs[j] == p[j]);
            } else {
                assert(j * k + t == n * k + t) by (nonlinear_arith)
                    requires
                        j == n,
                ;
            }
        }
    }
}

/// A run of compressed cell data: its kind and its cells.
pub struct MdfRun {
    pub comp: int,
    pub cells: Seq<DosChar>,
}

pub open spec fn run_payload(r: MdfRun, mode: u16, bt: BufferType) -> Seq<u8> {
    let c0 = r.cells[0];
    if r.comp == 0 {
        concat_map(r.cells, |c: DosChar| enc_cell(c, mode, bt))
    } else if r.comp == 1 {
        enc_char(c0.char_code, bt) + concat_map(r.cells, |c: DosChar| enc_attr(c.attribute, mode))
    } else if r.comp == 2 {
        enc_attr(c0.attribute, mode) + concat_map(r.cells, |c: DosChar| enc_char(c.char_code, bt))
    } else {
        enc_cell(c0, mode, bt)
    }
}

/// The header byte of a run: its kind in the top two bits, its length
/// less one below.
pub open spec fn run_head(r: MdfRun) -> u8 {
    (r.comp * 64 + r.cells.len() - 1) as u8
}

pub open spec fn run_bytes(r: MdfRun, mode: u16, bt: BufferType) -> Seq<u8> {
    seq![run_head(r)] + run_payload(r, mode, bt)
}

/// A run of one to 64 cells that share what its kind says they share.
pub open spec fn run_ok(r: MdfRun) -> bool {
    &&& 1 <= r.cells.len() <= 64
    &&& 0 <= r.comp <= 3
    &&& r.comp == 1 ==> forall|j: int| 0 <= j < r.cells.len() ==> #[trigger] r.cells[j].char_code == r.cells[0].char_code
    &&& r.comp == 2 ==> forall|j: int| 0 <= j < r.cells.len() ==> (#[trigger] r.cells[j]).attribute.spec_same(r.cells[0].attribute)
    &&& r.comp == 3 ==> forall|j: int| 0 <= j < r.cells.len() ==> (#[trigger] r.cells[j]).spec_same(r.cells[0])
}

pub open spec fn runs_bytes(rs: Seq<MdfRun>, mode: u16, bt: BufferType) -> Seq<u8>
    decreases rs.len(),
{
    if rs.len() == 0 {
        Seq::empty()
    } else {
        runs_bytes(rs.drop_last(), mode, bt) + run_bytes(rs.last(), mode, bt)
    }
}

pub open spec fn runs_cells(rs: Seq<MdfRun>) -> Seq<DosChar>
    decreases rs.len(),
{
    if rs.len() == 0 {
        Seq::empty()
    } else {
        runs_cells(rs.drop_last()) + rs.last().cells
    }
}

pub open spec fn runs_ok(rs: Seq<MdfRun>) -> bool {
    forall|k: int| 0 <= k < rs.len() ==> run_ok(#[trigger] rs[k])
}

proof fn lemma_enc_widths(mode: u16, bt: BufferType)
    ensures
        forall|c: u8| (#[trigger] enc_char(c, bt)).len() == char_width(bt),
        forall|a: TextAttribute| (#[trigger] enc_attr(a, mode)).len() == attr_width(mode),
        forall|c: DosChar| (#[trigger] enc_cell(c, mode, bt)).len() == cell_width(bt, mode),
{
}

/// Reading an attribute where its stored bytes are gives it back as the
/// mode keeps it.
proof fn lemma_attr_decode(b: Seq<u8>, q: int, a: TextAttribute, mode: u16, bt: BufferType)
    requires
        0 <= q,
        q + attr_width(mode) <= b.len(),
        forall|t: int| 0 <= t < attr_width(mode) ==> b[q + t] == #[trigger] enc_attr(a, mode)[t],
    ensures
        attr_at(b, q, mode, bt) == norm_mdf(DosChar { char_code: 0, attribute: a }, mode, bt).attribute,
{
    if mode == 0 {
        assert(b[q + 0] == enc_attr(a, mode)[0]);
    } else if mode == 2 {
        assert(b[q + 0] == enc_attr(a, mode)[0]);
        assert(b[q + 1] == enc_attr(a, mode)[1]);
    } else if mode == 4 {
        assert(b[q + 1] == enc_attr(a, mode)[1]);
        assert(b[q + 3] == enc_attr(a, mode)[3]);
    } else {
        assert(b[q + 3] == enc_attr(a, mode)[3]);
        assert(b[q + 7] == enc_attr(a, mode)[7]);
    }
}

proof fn lemma_char_decode(b: Seq<u8>, q: int, c: u8, bt: BufferType)
    requires
        0 <= q,
        q + char_width(bt) <= b.len(),
        forall|t: int| 0 <= t < char_width(bt) ==> b[q + t] == #[trigger] enc_char(c, bt)[t],
    ensures
        char_at(b, q, bt) == c,
{
    if bt.spec_use_extended_font() {
        assert(b[q + 1] == enc_char(c, bt)[1]);
    } else {
        assert(b[q + 0] == enc_char(c, bt)[0]);
    }
}

/// A well formed run stored at `o` decodes to its cells as the attribute
/// mode keeps them.
pub proof fn lemma_run_decode(b: Seq<u8>, o: int, r: MdfRun, mode: u16, bt: BufferType)
    requires
        run_ok(r),
        0 <= o,
        o + run_bytes(r, mode, bt).len() <= b.len(),
        b.subrange(o, o + run_bytes(r, mode, bt).len()) == run_bytes(r, mode, bt),
    ensures
        b[o] / 64 == r.comp,
        b[o] % 64 + 1 == r.cells.len(),
        run_size(r.comp, r.cells.len() as int, bt, mode) == run_payload(r, mode, bt).len(),
        run_cells(b, o + 1, r.comp, r.cells.len() as int, mode, bt) == norm_all(r.cells, mode, bt),
{
    let n = r.cells.len() as int;
    let rb = run_bytes(r, mode, bt);
    let pl = run_payload(r, mode, bt);
    let p = o + 1;
    let cw = char_width(bt);
    let aw = attr_width(mode);
    assert(b[o] == rb[0]);
    assert(rb[0] == run_head(r));
    assert(b[o] as int == r.comp * 64 + n - 1);
    vstd::arithmetic::div_mod::lemma_fundamental_div_mod_converse(b[o] as int, 64, r.comp, n - 1);
    lemma_enc_widths(mode, bt);
    assert forall|x: int| 0 <= x < pl.len() implies b[p + x] == #[trigger] pl[x] by {
        assert(b[p + x] == b.subrange(o, o + rb.len())[1 + x]);
        assert(rb[1 + x] == pl[x]);
    }
    let c0 = r.cells[0];
    if r.comp == 0 {
        let f = |c: DosChar| enc_cell(c, mode, bt);
        lemma_concat_map(r.cells, f, cw + aw);
        assert forall|j: int| 0 <= j < n implies #[trigger] run_cell(b, p, 0, j, mode, bt) == norm_mdf(r.cells[j], mode, bt) by {
            let q = p + j * (cw + aw);
            assert(0 <= j * (cw + aw) && j * (cw + aw) + cw + aw <= n * (cw + aw)) by (nonlinear_arith)
                requires
                    0 <= j < n,
                    cw >= 1,
                    aw >= 1,
            ;
            assert forall|t: int| 0 <= t < cw implies b[q + t] == #[trigger] enc_char(r.cells[j].char_code, bt)[t] by {
                assert(pl[j * (cw + aw) + t] == f(r.cells[j])[t]);
                assert(b[p + (j * (cw + aw) + t)] == pl[j * (cw + aw) + t]);
            }
            assert forall|t: int| 0 <= t < aw implies b[q + cw + t] == #[trigger] enc_attr(r.cells[j].attribute, mode)[t] by {
                assert(pl[j * (cw + aw) + (cw + t)] == f(r.cells[j])[cw + t]);
                assert(b[p + (j * (cw + aw) + (cw + t))] == pl[j * (cw + aw) + (cw + t)]);
            }
            lemma_char_decode(b, q, r.cells[j].char_code, bt);
            lemma_attr_decode(b, q + cw, r.cells[j].attribute, mode, bt);
        }
    } else if r.comp == 1 {
        let f = |c: DosChar| enc_attr(c.attribute, mode);
        lemma_concat_map(r.cells, f, aw);
        assert forall|t: int| 0 <= t < cw implies b[p + t] == #[trigger] enc_char(c0.char_code, bt)[t] by {
            assert(b[p + t] == pl[t]);
        }
        lemma_char_decode(b, p, c0.char_code, bt);
        assert forall|j: int| 0 <= j < n implies #[trigger] run_cell(b, p, 1, j, mode, bt) == norm_mdf(r.cells[j], mode, bt) by {
            let q = p + cw + j * aw;
            assert(0 <= j * aw && j * aw + aw <= n * aw) by (nonlinear_arith)
                requires
                    0 <= j < n,
                    aw >= 1,
            ;
            assert forall|t: int| 0 <= t < aw implies b[q + t] == #[trigger] enc_attr(r.cells[j].attribute, mode)[t] by {
                assert(pl[cw + (j * aw + t)] == f(r.cells[j])[t]);
                assert(b[p + (cw + (j * aw + t))] == pl[cw + (j * aw + t)]);
            }
            lemma_attr_decode(b, q, r.cells[j].attribute, mode, bt);
            assert(r.cells[j].char_code == c0.char_code);
        }
    } else if r.comp == 2 {
        let f = |c: DosChar| enc_char(c.char_code, bt);
        lemma_concat_map(r.cells, f, cw);
        assert forall|t: int| 0 <= t < aw implies b[p + t] == #[trigger] enc_attr(c0.attribute, mode)[t] by {
            assert(b[p + t] == pl[t]);
        }
        lemma_attr_decode(b, p, c0.attribute, mode, bt);
        assert forall|j: int| 0 <= j < n implies #[trigger] run_cell(b, p, 2, j, mode, bt) == norm_mdf(r.cells[j], mode, bt) by {
            let q = p + aw + j * cw;
            assert(0 <= j * cw && j * cw + cw <= n * cw) by (nonlinear_arith)
                requires
                    0 <= j < n,
                    cw >= 1,
            ;
            assert forall|t: int| 0 <= t < cw implies b[q + t] == #[trigger] enc_char(r.cells[j].char_code, bt)[t] by {
                assert(pl[aw + (j * cw + t)] == f(r.cells[j])[t]);
                assert(b[p + (aw + (j * cw + t))] == pl[aw + (j * cw + t)]);
            }
            lemma_char_decode(b, q, r.cells[j].char_code, bt);
            assert(r.cells[j].attribute.spec_same(c0.attribute));
        }
    } else {
        assert forall|t: int| 0 <= t < cw implies b[p + t] == #[trigger] enc_char(c0.char_code, bt)[t] by {
            assert(b[p + t] == pl[t]);
        }
        assert forall|t: int| 0 <= t < aw implies b[p + cw + t] == #[trigger] enc_attr(c0.attribute, mode)[t] by {
            assert(b[p + (cw + t)] == pl[cw + t]);
        }
        lemma_char_decode(b, p, c0.char_code, bt);
        lemma_attr_decode(b, p + cw, c0.attribute, mode, bt);
        assert forall|j: int| 0 <= j < n implies #[trigger] run_cell(b, p, 3, j, mode, bt) == norm_mdf(r.cells[j], mode, bt) by {
            assert(r.cells[j].spec_same(c0));
        }
    }
    assert(run_cells(b, p, r.comp, n, mode, bt) =~= norm_all(r.cells, mode, bt));
}

proof fn lemma_runs_first(rs: Seq<MdfRun>, mode: u16, bt: BufferType)
    requires
        rs.len() > 0,
    ensures
        runs_bytes(rs, mode, bt) == run_bytes(rs[0], mode, bt) + runs_bytes(rs.drop_first(), mode, bt),
        runs_cells(rs) == rs[0].cells + runs_cells(rs.drop_first()),
    decreases rs.len(),
{
    if rs.len() > 1 {
        lemma_runs_first(rs.drop_last(), mode, bt);
        assert(rs.drop_last().drop_first() =~= rs.drop_first().drop_last());
        assert(rs.drop_last()[0] == rs[0]);
        assert(rs.drop_first().last() == rs.last());
        assert(runs_bytes(rs, mode, bt) =~= run_bytes(rs[0], mode, bt) + runs_bytes(rs.drop_first(), mode, bt));
        assert(runs_cells(rs) =~= rs[0].cells + runs_cells(rs.drop_first()));
    } else {
        assert(rs.drop_first() =~= Seq::<MdfRun>::empty());
        assert(rs.drop_last() =~= Seq::<MdfRun>::empty());
        assert(runs_bytes(rs, mode, bt) =~= run_bytes(rs[0], mode, bt) + runs_bytes(rs.drop_first(), mode, bt));
        assert(runs_cells(rs) =~= rs[0].cells + runs_cells(rs.drop_first()));
    }
}

/// Writing two runs of cells one after the other is writing them together.
pub proof fn lemma_write_at_concat(g: Seq<Seq<DosChar>>, s: int, a: Seq<DosChar>, c: Seq<DosChar>, w: int)
    ensures
        write_at(g, s, a + c, w) == write_at(write_at(g, s, a, w), s + a.len(), c, w),
    decreases c.len(),
{
    if c.len() > 0 {
        lemma_write_at_concat(g, s, a, c.drop_last(), w);
        assert((a + c).drop_last() =~= a + c.drop_last());
    } else {
        assert(a + c =~= a);
    }
}

/// Runs stored one after the other at `o` decode to their cells, written
/// from cell `i` on, and decoding stops right after them.
pub proof fn lemma_runs_decode(
    b: Seq<u8>,
    o: int,
    rs: Seq<MdfRun>,
    i: int,
    w: int,
    mode: u16,
    bt: BufferType,
    g: Seq<Seq<DosChar>>,
)
    requires
        runs_ok(rs),
        0 <= o,
        0 <= i,
        o + runs_bytes(rs, mode, bt).len() <= b.len(),
        b.subrange(o, o + runs_bytes(rs, mode, bt).len()) == runs_bytes(rs, mode, bt),
        i + runs_cells(rs).len() <= mdf_max_index(),
    ensures
        mdf_runs(b, o, i, i + runs_cells(rs).len(), w, mode, bt, g) == Ok::<(int, Seq<Seq<DosChar>>), LoadError>(
            (o + runs_bytes(rs, mode, bt).len(), write_at(g, i, norm_all(runs_cells(rs), mode, bt), w)),
        ),
    decreases rs.len(),
{
    if rs.len() == 0 {
        assert(norm_all(runs_cells(rs), mode, bt) =~= Seq::<DosChar>::empty());
    } else {
        lemma_runs_first(rs, mode, bt);
        let r = rs[0];
        let rest = rs.drop_first();
        let rb = run_bytes(r, mode, bt);
        let tb = runs_bytes(rest, mode, bt);
        assert(runs_bytes(rs, mode, bt) == rb + tb);
        assert(b.subrange(o, o + rb.len()) =~= rb) by {
            assert forall|x: int| 0 <= x < rb.len() implies b.subrange(o, o + rb.len())[x] == rb[x] by {
                assert(b[o + x] == b.subrange(o, o + runs_bytes(rs, mode, bt).len())[x]);
            }
        }
        assert(run_ok(r));
        lemma_run_decode(b, o, r, mode, bt);
        let o2 = o + rb.len();
        assert(b.subrange(o2, o2 + tb.len()) =~= tb) by {
            assert forall|x: int| 0 <= x < tb.len() implies b.subrange(o2, o2 + tb.len())[x] == tb[x] by {
                assert(b[o2 + x] == b.subrange(o, o + runs_bytes(rs, mode, bt).len())[rb.len() + x]);
            }
        }
        assert(runs_ok(rest)) by {
            assert forall|k: int| 0 <= k < rest.len() implies run_ok(#[trigger] rest[k]) by {
                assert(rest[k] == rs[k + 1]);
            }
        }
        let n = r.cells.len() as int;
        let g1 = write_at(g, i, norm_all(r.cells, mode, bt), w);
        lemma_runs_decode(b, o2, rest, i + n, w, mode, bt, g1);
        assert(run_size(r.comp, n, bt, mode) == rb.len() - 1);
        assert(i + runs_cells(rs).len() == i + n + runs_cells(rest).len());
        assert(norm_all(runs_cells(rs), mode, bt) =~= norm_all(r.cells, mode, bt) + norm_all(runs_cells(rest), mode, bt));
        lemma_write_at_concat(g, i, norm_all(r.cells, mode, bt), norm_all(runs_cells(rest), mode, bt), w);
        assert(mdf_runs(b, o2, i + n, i + n + runs_cells(rest).len(), w, mode, bt, g1) == mdf_runs(b, o2, i + n, i + runs_cells(rs).len(), w, mode, bt, g1));
    }
}

fn write_char(v: &mut Vec<u8>, c: u8, bt: BufferType)
    ensures
        final(v)@ == old(v)@ + enc_char(c, bt),
{
    if bt.use_extended_font() {
        v.push(0);
    }
    v.push(c);
    assert(final(v)@ =~= old(v)@ + enc_char(c, bt));
}

fn encode_attribute(v: &mut Vec<u8>, a: TextAttribute, mode: u16)
    ensures
        final(v)@ == old(v)@ + enc_attr(a, mode),
{
    if mode == 0 {
        v.push(a.as_u8());
    } else if mode == 2 {
        v.push(a.foreground_color);
        v.push(a.background_color);
    } else if mode == 4 {
        v.push(0);
        v.push(a.foreground_color);
        v.push(0);
        v.push(a.background_color);
    } else {
        v.push(0);
        v.push(0);
        v.push(0);
        v.push(a.foreground_color);
        v.push(0);
        v.push(0);
        v.push(0);
        v.push(a.background_color);
    }
    assert(final(v)@ =~= old(v)@ + enc_attr(a, mode));
}

proof fn lemma_concat_map_push(cs: Seq<DosChar>, c: DosChar, f: spec_fn(DosChar) -> Seq<u8>)
    ensures
        concat_map(cs.push(c), f) == concat_map(cs, f) + f(c),
{
    assert(cs.push(c).drop_last() =~= cs);
}

proof fn lemma_concat_map_len(cs: Seq<DosChar>, f: spec_fn(DosChar) -> Seq<u8>, k: int)
    requires
        k >= 0,
        forall|c: DosChar| (#[trigger] f(c)).len() <= k,
    ensures
        concat_map(cs, f).len() <= cs.len() * k,
    decreases cs.len(),
{
    if cs.len() > 0 {
        lemma_concat_map_len(cs.drop_last(), f, k);
        assert((cs.len() - 1) * k + k == cs.len() * k) by (nonlinear_arith);
    }
}

/// A run's bytes take at most eleven bytes per cell.
proof fn lemma_run_bytes_len(r: MdfRun, mode: u16, bt: BufferType)
    requires
        run_ok(r),
    ensures
        run_bytes(r, mode, bt).len() <= 11 * r.cells.len(),
{
    lemma_enc_widths(mode, bt);
    let n = r.cells.len() as int;
    if r.comp == 0 {
        lemma_concat_map_len(r.cells, |c: DosChar| enc_cell(c, mode, bt), 10);
    } else if r.comp == 1 {
        lemma_concat_map_len(r.cells, |c: DosChar| enc_attr(c.attribute, mode), 8);
    } else if r.comp == 2 {
        lemma_concat_map_len(r.cells, |c: DosChar| enc_char(c.char_code, bt), 2);
    }
}

proof fn lemma_runs_push(rs: Seq<MdfRun>, r: MdfRun, mode: u16, bt: BufferType)
    ensures
        runs_bytes(rs.push(r), mode, bt) == runs_bytes(rs, mode, bt) + run_bytes(r, mode, bt),
        runs_cells(rs.push(r)) == runs_cells(rs) + r.cells,
{
    assert(rs.push(r).drop_last() =~= rs);
}

/// Whether a run of kind `run_mode` (0 none shared, 1 character, 2
/// attribute, 3 whole cell) holding `run_count` cells and started with
/// `run_ch` ends before cell `x` of `cs`, looking at the cells before
/// `end`: when it is full; when the cell does not share what the run
/// shares; for a run that shares something, when the cell and the three
/// after it are equal; for an uncompressed run, when the cell equals the
/// next one, or shares its character or attribute with the two after it.
pub open spec fn run_ends(cs: Seq<DosChar>, x: int, end: int, run_mode: u8, run_count: int, run_ch: DosChar) -> bool {
    let cur = cs[x];
    if run_count >= 64 {
        true
    } else if run_mode == 0 {
        end - x > 2 && (cur.spec_same(cs[x + 1]) || (cur.char_code == cs[x + 1].char_code && cur.char_code
            == cs[x + 2].char_code) || (cur.attribute.spec_same(cs[x + 1].attribute) && cur.attribute.spec_same(
            cs[x + 2].attribute,
        )))
    } else if run_mode == 1 {
        cur.char_code != run_ch.char_code || (end - x > 3 && cur.spec_same(cs[x + 1]) && cur.spec_same(cs[x + 2])
            && cur.spec_same(cs[x + 3]))
    } else if run_mode == 2 {
        !cur.attribute.spec_same(run_ch.attribute) || (end - x > 3 && cur.spec_same(cs[x + 1]) && cur.spec_same(
            cs[x + 2],
        ) && cur.spec_same(cs[x + 3]))
    } else {
        !cur.spec_same(run_ch)
    }
}

/// The kind of run that starts at cell `x` of `cs`: what the cell shares
/// with the next one before `end` (3 everything, 1 the character, 2 the
/// attribute, 0 nothing or no next cell).
pub open spec fn run_start_mode(cs: Seq<DosChar>, x: int, end: int) -> u8 {
    if end - x > 1 {
        if cs[x].spec_same(cs[x + 1]) {
            3
        } else if cs[x].char_code == cs[x + 1].char_code {
            1
        } else if cs[x].attribute.spec_same(cs[x + 1].attribute) {
            2
        } else {
            0
        }
    } else {
        0
    }
}

/// Whether the current run ends before cell `x`: it is full, the cell
/// does not share what the run shares, or a run of another kind looks
/// better from here on.
fn ends_run(cells: &Vec<DosChar>, x: usize, end: usize, run_mode: u8, run_count: usize, run_ch: DosChar) -> (r: bool)
    requires
        x < end <= cells.len(),
        run_mode <= 3,
    ensures
        !r ==> run_count < 64,
        !r && run_mode == 1 ==> cells@[x as int].char_code == run_ch.char_code,
        !r && run_mode == 2 ==> cells@[x as int].attribute.spec_same(run_ch.attribute),
        !r && run_mode == 3 ==> cells@[x as int].spec_same(run_ch),
        r == run_ends(cells@, x as int, end as int, run_mode, run_count as int, run_ch),
{
    let cur = cells[x];
    let next = if end - x > 1 { cells[x + 1] } else { DosChar::new() };
    if run_count >= 64 {
        true
    } else if run_mode == 0 {
        if end - x > 2 && cur.same(&next) {
            true
        } else if end - x > 2 {
            let next2 = cells[x + 2];
            cur.char_code == next.char_code && cur.char_code == next2.char_code || cur.attribute.same(&next.attribute)
                && cur.attribute.same(&next2.attribute)
        } else {
            false
        }
    } else if run_mode == 1 {
        if cur.char_code != run_ch.char_code {
            true
        } else if end - x > 3 {
            let next2 = cells[x + 2];
            let next3 = cells[x + 3];
            cur.same(&next) && cur.same(&next2) && cur.same(&next3)
        } else {
            false
        }
    } else if run_mode == 2 {
        if !cur.attribute.same(&run_ch.attribute) {
            true
        } else if end - x > 3 {
            let next2 = cells[x + 2];
            let next3 = cells[x + 3];
            cur.same(&next) && cur.same(&next2) && cur.same(&next3)
        } else {
            false
        }
    } else {
        !cur.same(&run_ch)
    }
}

/// The kind of run to start at cell `x`: what it shares with the next
/// cell.
fn start_mode(cells: &Vec<DosChar>, x: usize, end: usize) -> (m: u8)
    requires
        x < end <= cells.len(),
    ensures
        m <= 3,
        m == run_start_mode(cells@, x as int, end as int),
{
    if end - x > 1 {
        let cur = cells[x];
        let next = cells[x + 1];
        if cur.same(&next) {
            3
        } else if cur.char_code == next.char_code {
            1
        } else if cur.attribute.same(&next.attribute) {
            2
        } else {
            0
        }
    } else {
        0
    }
}

/// Writes a run: its header byte and its data.
fn flush_run(result: &mut Vec<u8>, run_buf: &Vec<u8>, run_mode: u8, run_count: usize, Ghost(r): Ghost<MdfRun>, mode: u16, bt: BufferType)
    requires
        run_ok(r),
        run_mode as int == r.comp,
        run_count == r.cells.len(),
        run_buf@ == run_payload(r, mode, bt),
        old(result).len() + run_bytes(r, mode, bt).len() <= usize::MAX,
    ensures
        final(result)@ == old(result)@ + run_bytes(r, mode, bt),
{
    let ghost r0 = result@;
    result.push(run_mode * 64 + (run_count - 1) as u8);
    let mut k: usize = 0;
    while k < run_buf.len()
        invariant
            k <= run_buf.len(),
            result@ == r0 + seq![run_head(r)] + run_buf@.subrange(0, k as int),
            r0.len() + run_bytes(r, mode, bt).len() <= usize::MAX,
            run_buf@ == run_payload(r, mode, bt),
        decreases run_buf.len() - k,
    {
        result.push(run_buf[k]);
        proof {
            assert(run_buf@.subrange(0, k + 1) =~= run_buf@.subrange(0, k as int).push(run_buf@[k as int]));
        }
        k = k + 1;
    }
    assert(run_buf@.subrange(0, run_buf.len() as int) =~= run_buf@);
    assert(result@ =~= r0 + run_bytes(r, mode, bt));
}

/// Adds a cell that shares what the run shares to the run's data.
fn extend_run(run_buf: &mut Vec<u8>, c: DosChar, run_mode: u8, Ghost(cur): Ghost<Seq<DosChar>>, mode: u16, bt: BufferType)
    requires
        1 <= cur.len() < 64,
        run_mode <= 3,
        run_ok(MdfRun { comp: run_mode as int, cells: cur }),
        old(run_buf)@ == run_payload(MdfRun { comp: run_mode as int, cells: cur }, mode, bt),
        run_mode == 1 ==> c.char_code == cur[0].char_code,
        run_mode == 2 ==> c.attribute.spec_same(cur[0].attribute),
        run_mode == 3 ==> c.spec_same(cur[0]),
    ensures
        run_ok(MdfRun { comp: run_mode as int, cells: cur.push(c) }),
        final(run_buf)@ == run_payload(MdfRun { comp: run_mode as int, cells: cur.push(c) }, mode, bt),
{
    let ghost r1 = MdfRun { comp: run_mode as int, cells: cur.push(c) };
    if run_mode == 0 {
        write_char(run_buf, c.char_code, bt);
        encode_attribute(run_buf, c.attribute, mode);
        proof {
            lemma_concat_map_push(cur, c, |d: DosChar| enc_cell(d, mode, bt));
            assert(run_buf@ =~= run_payload(r1, mode, bt));
        }
    } else if run_mode == 1 {
        encode_attribute(run_buf, c.attribute, mode);
        proof {
            lemma_concat_map_push(cur, c, |d: DosChar| enc_attr(d.attribute, mode));
            assert(r1.cells[0] == cur[0]);
            assert(run_buf@ =~= run_payload(r1, mode, bt));
        }
    } else if run_mode == 2 {
        write_char(run_buf, c.char_code, bt);
        proof {
            lemma_concat_map_push(cur, c, |d: DosChar| enc_char(d.char_code, bt));
            assert(r1.cells[0] == cur[0]);
            assert(run_buf@ =~= run_payload(r1, mode, bt));
        }
    } else {
        proof {
            assert(r1.cells[0] == cur[0]);
        }
    }
    proof {
        assert forall|j: int| 0 <= j < r1.cells.len() implies #[trigger] r1.cells[j] == (if j < cur.len() {
            cur[j]
        } else {
            c
        }) by {}
    }
}

/// Starts a run of kind `run_mode` with one cell.
fn begin_run(run_buf: &mut Vec<u8>, c: DosChar, run_mode: u8, mode: u16, bt: BufferType)
    requires
        run_mode <= 3,
    ensures
        run_ok(MdfRun { comp: run_mode as int, cells: seq![c] }),
        final(run_buf)@ == run_payload(MdfRun { comp: run_mode as int, cells: seq![c] }, mode, bt),
{
    run_buf.clear();
    if run_mode == 2 {
        encode_attribute(run_buf, c.attribute, mode);
        write_char(run_buf, c.char_code, bt);
    } else {
        write_char(run_buf, c.char_code, bt);
        encode_attribute(run_buf, c.attribute, mode);
    }
    proof {
        let r1 = MdfRun { comp: run_mode as int, cells: seq![c] };
        lemma_concat_map_push(Seq::<DosChar>::empty(), c, |d: DosChar| enc_cell(d, mode, bt));
        lemma_concat_map_push(Seq::<DosChar>::empty(), c, |d: DosChar| enc_attr(d.attribute, mode));
        lemma_concat_map_push(Seq::<DosChar>::empty(), c, |d: DosChar| enc_char(d.char_code, bt));
        assert(Seq::<DosChar>::empty().push(c) =~= seq![c]);
        assert(run_buf@ =~= run_payload(r1, mode, bt));
    }
}

proof fn lemma_done_push(done: Seq<MdfRun>, r: MdfRun, mode: u16, bt: BufferType)
    requires
        runs_ok(done),
        run_ok(r),
        runs_bytes(done, mode, bt).len() <= 11 * runs_cells(done).len(),
    ensures
        runs_ok(done.push(r)),
        runs_bytes(done.push(r), mode, bt) == runs_bytes(done, mode, bt) + run_bytes(r, mode, bt),
        runs_cells(done.push(r)) == runs_cells(done) + r.cells,
        runs_bytes(done.push(r), mode, bt).len() <= 11 * runs_cells(done.push(r)).len(),
{
    lemma_runs_push(done, r, mode, bt);
    lemma_run_bytes_len(r, mode, bt);
    assert forall|j: int| 0 <= j < done.push(r).len() implies run_ok(#[trigger] done.push(r)[j]) by {
        if j < done.len() {
            assert(done.push(r)[j] == done[j]);
        }
    }
}

/// Compresses the `count` cells from `start` on into runs: each run shares
/// a character, an attribute, both or nothing, as the cells ahead
/// suggest. Gives the runs written.
/// The runs that the cells `x..end` of `cs` are cut into when the current
/// run has kind `comp`, holds `cur` and started with `run_ch`: a run ends
/// where `run_ends` says so, and a new run takes the kind `run_start_mode`
/// gives at its first cell.
pub open spec fn greedy_runs(cs: Seq<DosChar>, x: int, end: int, comp: u8, cur: Seq<DosChar>, run_ch: DosChar) -> Seq<MdfRun>
    decreases end - x,
{
    if x >= end {
        if cur.len() > 0 {
            seq![MdfRun { comp: comp as int, cells: cur }]
        } else {
            Seq::empty()
        }
    } else {
        let ended = cur.len() > 0 && run_ends(cs, x, end, comp, cur.len() as int, run_ch);
        let closed = if ended {
            seq![MdfRun { comp: comp as int, cells: cur }]
        } else {
            Seq::empty()
        };
        if cur.len() > 0 && !ended {
            closed + greedy_runs(cs, x + 1, end, comp, cur.push(cs[x]), run_ch)
        } else {
            closed + greedy_runs(cs, x + 1, end, run_start_mode(cs, x, end), seq![cs[x]], cs[x])
        }
    }
}

fn compress_greedy(result: &mut Vec<u8>, cells: &Vec<DosChar>, start: usize, count: usize, mode: u16, bt: BufferType) -> (rs: Ghost<
    Seq<MdfRun>,
>)
    requires
        1 <= count,
        start + count <= cells.len(),
        old(result).len() + 11 * count <= usize::MAX,
    ensures
        runs_ok(rs@),
        runs_cells(rs@) == cells@.subrange(start as int, start + count),
        final(result)@ == old(result)@ + runs_bytes(rs@, mode, bt),
        runs_bytes(rs@, mode, bt).len() <= 11 * count,
        rs@ == greedy_runs(cells@, start as int, start + count, 0, Seq::empty(), DosChar::spec_new()),
{
    let ghost r0 = result@;
    let ghost mut done: Seq<MdfRun> = Seq::empty();
    let ghost mut cur: Seq<DosChar> = Seq::empty();
    let end = start + count;
    let mut run_mode: u8 = 0;
    let mut run_count: usize = 0;
    let mut run_buf: Vec<u8> = Vec::new();
    let mut run_ch = DosChar::new();
    let mut x = start;
    let ghost all = greedy_runs(cells@, start as int, end as int, 0, Seq::empty(), DosChar::spec_new());
    assert(done + greedy_runs(cells@, x as int, end as int, run_mode, cur, run_ch) =~= all);
    while x < end
        invariant
            all == greedy_runs(cells@, start as int, end as int, 0, Seq::empty(), DosChar::spec_new()),
            done + greedy_runs(cells@, x as int, end as int, run_mode, cur, run_ch) == all,
            start <= x <= end,
            end == start + count,
            end <= cells.len(),
            r0.len() + 11 * count <= usize::MAX,
            runs_ok(done),
            runs_cells(done) + cur == cells@.subrange(start as int, x as int),
            result@ == r0 + runs_bytes(done, mode, bt),
            runs_bytes(done, mode, bt).len() <= 11 * runs_cells(done).len(),
            run_count == cur.len(),
            run_count <= 64,
            run_mode <= 3,
            run_count > 0 ==> run_ok(MdfRun { comp: run_mode as int, cells: cur }) && run_buf@ == run_payload(
                MdfRun { comp: run_mode as int, cells: cur },
                mode,
                bt,
            ) && cur[0] == run_ch,
            x > start ==> run_count > 0,
        decreases end - x,
    {
        let cur_ch = cells[x];
        let ghost done0 = done;
        let ghost m0 = run_mode;
        let ghost cur0 = cur;
        let ghost ch0 = run_ch;
        if run_count > 0 && ends_run(cells, x, end, run_mode, run_count, run_ch) {
            let ghost r = MdfRun { comp: run_mode as int, cells: cur };
            proof {
                lemma_done_push(done, r, mode, bt);
                assert(runs_cells(done).len() + cur.len() == x - start);
            }
            flush_run(result, &run_buf, run_mode, run_count, Ghost(r), mode, bt);
            proof {
                done = done.push(r);
                cur = Seq::empty();
            }
            run_count = 0;
        }
        if run_count > 0 {
            extend_run(&mut run_buf, cur_ch, run_mode, Ghost(cur), mode, bt);
            proof {
                cur = cur.push(cur_ch);
            }
        } else {
            run_mode = start_mode(cells, x, end);
            begin_run(&mut run_buf, cur_ch, run_mode, mode, bt);
            run_ch = cur_ch;
            proof {
                cur = seq![cur_ch];
            }
        }
        run_count = run_count + 1;
        proof {
            assert(cells@.subrange(start as int, x + 1) =~= cells@.subrange(start as int, x as int).push(cur_ch));
            let rest = greedy_runs(cells@, x + 1, end as int, run_mode, cur, run_ch);
            let closed = done.subrange(done0.len() as int, done.len() as int);
            assert(done =~= done0 + closed);
            assert(greedy_runs(cells@, x as int, end as int, m0, cur0, ch0) == closed + rest);
            assert(done0 + (closed + rest) =~= done + rest);
        }
        x = x + 1;
    }
    proof {
        if cur.len() > 0 {
            assert(greedy_runs(cells@, x as int, end as int, run_mode, cur, run_ch) == seq![MdfRun { comp: run_mode as int, cells: cur }]);
        }
        assert(done + seq![MdfRun { comp: run_mode as int, cells: cur }] =~= done.push(MdfRun { comp: run_mode as int, cells: cur }));
    }
    let ghost r = MdfRun { comp: run_mode as int, cells: cur };
    proof {
        lemma_done_push(done, r, mode, bt);
        assert(runs_cells(done).len() + cur.len() == count);
    }
    flush_run(result, &run_buf, run_mode, run_count, Ghost(r), mode, bt);
    Ghost(done.push(r))
}

/// After writing cells from index `s` on, the position of each written
/// cell shows it; every other position shows what it showed.
pub proof fn lemma_write_at_get(g: Seq<Seq<DosChar>>, s: int, cs: Seq<DosChar>, w: int, x: int, y: int)
    requires
        w > 0,
        s >= 0,
    ensures
        0 <= x < w && 0 <= y && s <= y * w + x < s + cs.len() ==> grid_get(write_at(g, s, cs, w), x, y) == shown(
            cs[y * w + x - s],
        ),
        !(0 <= x < w && 0 <= y && s <= y * w + x < s + cs.len()) ==> grid_get(write_at(g, s, cs, w), x, y) == grid_get(
            g,
            x,
            y,
        ),
    decreases cs.len(),
{
    if cs.len() > 0 {
        let k = s + cs.len() - 1;
        lemma_write_at_get(g, s, cs.drop_last(), w, x, y);
        let prev = write_at(g, s, cs.drop_last(), w);
        assert(0 <= k % w < w && k / w >= 0 && (k / w) * w + k % w == k) by (nonlinear_arith)
            requires
                w > 0,
                k >= 0,
        ;
        lemma_layer_read_after_write(prev, k % w, k / w, cs.last(), x, y);
        if 0 <= x < w && 0 <= y {
            assert((y * w + x) % w == x && (y * w + x) / w == y) by (nonlinear_arith)
                requires
                    w > 0,
                    0 <= x < w,
                    0 <= y,
            ;
            if y * w + x != k {
                assert(x != k % w || y != k / w);
            }
        } else {
            assert(x != k % w || y != k / w);
        }
    }
}

/// The number of columns of the widest row.
pub open spec fn grid_width(g: Seq<Seq<DosChar>>) -> int
    decreases g.len(),
{
    if g.len() == 0 {
        0
    } else {
        let w = grid_width(g.drop_last());
        if g.last().len() > w {
            g.last().len() as int
        } else {
            w
        }
    }
}

proof fn lemma_grid_width(g: Seq<Seq<DosChar>>)
    ensures
        grid_width(g) >= 0,
        forall|y: int| 0 <= y < g.len() ==> #[trigger] g[y].len() <= grid_width(g),
        g.len() > 0 ==> exists|y: int| 0 <= y < g.len() && #[trigger] g[y].len() == grid_width(g),
    decreases g.len(),
{
    if g.len() > 0 {
        lemma_grid_width(g.drop_last());
        assert forall|y: int| 0 <= y < g.len() implies #[trigger] g[y].len() <= grid_width(g) by {
            if y < g.len() - 1 {
                assert(g[y] == g.drop_last()[y]);
            }
        }
        if g.len() > 1 && g.last().len() <= grid_width(g.drop_last()) {
            let y = choose|y: int| 0 <= y < g.drop_last().len() && #[trigger] g.drop_last()[y].len() == grid_width(g.drop_last());
            assert(g[y] == g.drop_last()[y]);
        } else {
            assert(g[g.len() - 1].len() == grid_width(g));
        }
    }
}

fn layer_width(layer: &Layer) -> (w: usize)
    ensures
        w == grid_width(layer.grid()),
{
    let ghost g = layer.grid();
    let mut w: usize = 0;
    let mut y: usize = 0;
    while y < layer.lines.len()
        invariant
            y <= layer.lines.len(),
            g == layer.grid(),
            w == grid_width(g.subrange(0, y as int)),
        decreases layer.lines.len() - y,
    {
        proof {
            assert(g.subrange(0, y + 1).drop_last() =~= g.subrange(0, y as int));
        }
        if layer.lines[y].chars.len() > w {
            w = layer.lines[y].chars.len();
        }
        y = y + 1;
    }
    assert(g.subrange(0, y as int) =~= g);
    w
}

/// The cells a layer shows in rows of `w` columns, `rows` rows of them, one
/// after another.
pub open spec fn flat_cells(g: Seq<Seq<DosChar>>, w: int, rows: int) -> Seq<DosChar> {
    Seq::new((w * rows) as nat, |i: int| grid_get(g, i % w, i / w))
}

fn layer_cells(layer: &Layer, w: usize) -> (v: Vec<DosChar>)
    requires
        w >= 1,
        w * layer.lines.len() <= usize::MAX,
    ensures
        v@ == flat_cells(layer.grid(), w as int, layer.lines.len() as int),
{
    let ghost g = layer.grid();
    let rows = layer.lines.len();
    let mut v: Vec<DosChar> = Vec::new();
    let mut y: usize = 0;
    while y < rows
        invariant
            y <= rows,
            rows == layer.lines.len(),
            g == layer.grid(),
            w >= 1,
            w * rows <= usize::MAX,
            v.len() == y * w,
            forall|i: int| 0 <= i < v.len() ==> #[trigger] v@[i] == grid_get(g, i % (w as int), i / (w as int)),
        decreases rows - y,
    {
        let line = &layer.lines[y];
        let mut x: usize = 0;
        assert(y * w + w <= rows * w) by (nonlinear_arith)
            requires
                y < rows,
        ;
        while x < w
            invariant
                x <= w,
                y < rows,
                rows == layer.lines.len(),
                g == layer.grid(),
                w >= 1,
                y * w + w <= usize::MAX,
                line == layer.lines@[y as int],
                v.len() == y * w + x,
                forall|i: int| 0 <= i < v.len() ==> #[trigger] v@[i] == grid_get(g, i % (w as int), i / (w as int)),
            decreases w - x,
        {
            let c = if x < line.chars.len() && !line.chars[x].is_transparent() { line.chars[x] } else { DosChar::new() };
            proof {
                let i = y * w + x;
                assert(i % (w as int) == x && i / (w as int) == y) by (nonlinear_arith)
                    requires
                        i == y * w + x,
                        0 <= x < w,
                        0 <= y,
                ;
                assert(g[y as int] == line.chars@);
            }
            v.push(c);
            x = x + 1;
        }
        y = y + 1;
        assert(v.len() == y * w) by (nonlinear_arith)
            requires
                v.len() == (y - 1) * w + w,
        ;
    }
    assert(v.len() == w * rows) by (nonlinear_arith)
        requires
            v.len() == y * w,
            y == rows,
    ;
    assert(v@ =~= flat_cells(g, w as int, rows as int));
    v
}

/// `e` holds the bytes of `r` from index `from` on, and may go on.
pub open spec fn agrees(e: Seq<u8>, r: Seq<u8>, from: int) -> bool {
    e.len() >= r.len() && forall|k: int| from <= k < r.len() ==> e[k] == r[k]
}

/// The empty cell reads back as itself.
pub proof fn lemma_norm_blank(mode: u16, bt: BufferType)
    ensures
        shown(norm_mdf(DosChar::spec_new(), mode, bt)) == DosChar::spec_new(),
{
    let a = spec_attr(7, 0, false);
    assert(a.spec_as_u8() == 7u8) by {
        assert((7u8 & 0xFu8) | ((0u8 & 0xFu8) << 4u8) == 7u8) by (bit_vector);
    }
    assert(7u8 >> 4u8 == 0u8 && (7u8 >> 4u8) & 7u8 == 0u8 && 7u8 & 0x80u8 == 0u8 && 7u8 & 7u8 == 7u8 && 7u8 & 15u8 == 7u8)
        by (bit_vector);
}

fn push_be16(v: &mut Vec<u8>, x: u16)
    ensures
        final(v)@ == old(v)@ + seq![(x / 256) as u8, (x % 256) as u8],
{
    v.push((x / 256) as u8);
    v.push((x % 256) as u8);
    assert(final(v)@ =~= old(v)@ + seq![(x / 256) as u8, (x % 256) as u8]);
}

/// What the cells written so far read back as: the position of cell
/// `k < i` shows it as it reads back, every other position is empty.
pub open spec fn cells_shown(g: Seq<Seq<DosChar>>, cells: Seq<DosChar>, w: int, i: int, mode: u16, bt: BufferType) -> bool {
    forall|x: int, y: int|
        #![trigger grid_get(g, x, y)]
        grid_get(g, x, y) == (if 0 <= x < w && 0 <= y && y * w + x < i {
            shown(norm_mdf(cells[y * w + x], mode, bt))
        } else {
            DosChar::spec_new()
        })
}

/// Reading the cell data from `o0` on, in any data that holds `r` from
/// `o0` on, goes as reading it from `o` on with cell `i` next and the grid
/// `g` built so far.
pub open spec fn decodes_to(r: Seq<u8>, o0: int, w: int, mode: u16, bt: BufferType, o: int, i: int, g: Seq<Seq<DosChar>>) -> bool {
    forall|e: Seq<u8>|
        agrees(e, r, o0) ==> #[trigger] mdf_cells(e, o0, 0, w, true, mode, bt, Seq::empty()) == mdf_cells(e, o, i, w, true, mode, bt, g)
}

proof fn lemma_agrees_prefix(e: Seq<u8>, r: Seq<u8>, r2: Seq<u8>, o0: int)
    requires
        0 <= o0,
        agrees(e, r2, o0),
        r.len() <= r2.len(),
        r2.subrange(0, r.len() as int) == r,
    ensures
        agrees(e, r, o0),
{
    assert forall|k: int| o0 <= k < r.len() implies e[k] == r[k] by {
        assert(r2.subrange(0, r.len() as int)[k] == r2[k]);
    }
}

proof fn lemma_prefix_chain(r0: Seq<u8>, rb: Seq<u8>, r: Seq<u8>, o0: int)
    requires
        0 <= o0 <= rb.len() <= r.len(),
        rb.subrange(0, o0) == r0,
        r.subrange(0, rb.len() as int) == rb,
    ensures
        r.subrange(0, o0) == r0,
{
    assert forall|k: int| 0 <= k < o0 implies r.subrange(0, o0)[k] == r0[k] by {
        assert(r[k] == r.subrange(0, rb.len() as int)[k]);
        assert(rb[k] == rb.subrange(0, o0)[k]);
    }
    assert(r.subrange(0, o0) =~= r0);
}

/// Writes the count of a run of `n` empty cells.
fn write_empty_seg(result: &mut Vec<u8>, cells: &Vec<DosChar>, i: usize, n: usize, w: usize, mode: u16, bt: BufferType, Ghost(o0): Ghost<int>, Ghost(g): Ghost<Seq<Seq<DosChar>>>)
    requires
        1 <= n <= 32767,
        i + n <= cells.len() <= mdf_max_index(),
        w >= 1,
        0 <= o0 <= old(result).len(),
        old(result).len() + 2 <= usize::MAX,
        forall|k: int| i <= k < i + n ==> (#[trigger] cells@[k]) == DosChar::spec_new(),
        decodes_to(old(result)@, o0, w as int, mode, bt, old(result).len() as int, i as int, g),
        cells_shown(g, cells@, w as int, i as int, mode, bt),
    ensures
        final(result)@.subrange(0, old(result).len() as int) == old(result)@,
        final(result).len() == old(result).len() + 2,
        decodes_to(final(result)@, o0, w as int, mode, bt, final(result).len() as int, i + n, g),
        cells_shown(g, cells@, w as int, i + n, mode, bt),
{
    let ghost rb = result@;
    let ghost ob = result.len() as int;
    push_be16(result, 0x8000 | (n as u16));
    proof {
        assert((0x8000u16 | (n as u16)) as int == 32768 + n) by (bit_vector)
            requires
                1 <= n <= 32767,
        ;
        assert forall|e: Seq<u8>| agrees(e, result@, o0) implies #[trigger] mdf_cells(e, o0, 0, w as int, true, mode, bt, Seq::empty())
            == mdf_cells(e, result.len() as int, i + n, w as int, true, mode, bt, g) by {
            assert(result@.subrange(0, rb.len() as int) =~= rb);
            lemma_agrees_prefix(e, rb, result@, o0);
            assert(e[ob] == result@[ob] && e[ob + 1] == result@[ob + 1]);
            assert(be16(e, ob) == 32768 + n);
        }
        assert forall|x: int, y: int| #![trigger grid_get(g, x, y)] grid_get(g, x, y) == (if 0 <= x < w && 0 <= y && y * w + x < i + n {
            shown(norm_mdf(cells@[y * w + x], mode, bt))
        } else {
            DosChar::spec_new()
        }) by {
            if 0 <= x < w && 0 <= y && i <= y * w + x < i + n {
                lemma_norm_blank(mode, bt);
            }
        }
        assert(result@.subrange(0, rb.len() as int) =~= rb);
    }
}

proof fn lemma_cells_step_filled(
    e: Seq<u8>,
    ob: int,
    rs: Seq<MdfRun>,
    i: int,
    n: int,
    w: int,
    mode: u16,
    bt: BufferType,
    g: Seq<Seq<DosChar>>,
)
    requires
        1 <= n <= 32767,
        0 <= i,
        i + n <= mdf_max_index(),
        0 <= ob,
        ob + 2 + runs_bytes(rs, mode, bt).len() <= e.len(),
        be16(e, ob) == n,
        runs_ok(rs),
        runs_cells(rs).len() == n,
        e.subrange(ob + 2, ob + 2 + runs_bytes(rs, mode, bt).len()) == runs_bytes(rs, mode, bt),
    ensures
        mdf_cells(e, ob, i, w, true, mode, bt, g) == mdf_cells(
            e,
            ob + 2 + runs_bytes(rs, mode, bt).len(),
            i + n,
            w,
            true,
            mode,
            bt,
            write_at(g, i, norm_all(runs_cells(rs), mode, bt), w),
        ),
{
    lemma_runs_decode(e, ob + 2, rs, i, w, mode, bt, g);
}

proof fn lemma_filled_decodes(
    r: Seq<u8>,
    rb: Seq<u8>,
    rs: Seq<MdfRun>,
    cells: Seq<DosChar>,
    i: int,
    n: int,
    w: int,
    mode: u16,
    bt: BufferType,
    o0: int,
    g: Seq<Seq<DosChar>>,
)
    requires
        1 <= n <= 32767,
        0 <= i,
        i + n <= cells.len() <= mdf_max_index(),
        w >= 1,
        0 <= o0 <= rb.len(),
        runs_ok(rs),
        runs_cells(rs) == cells.subrange(i, i + n),
        r == rb + seq![(n as u16 / 256) as u8, (n as u16 % 256) as u8] + runs_bytes(rs, mode, bt),
        decodes_to(rb, o0, w, mode, bt, rb.len() as int, i, g),
    ensures
        decodes_to(r, o0, w, mode, bt, r.len() as int, i + n, write_at(g, i, norm_all(cells.subrange(i, i + n), mode, bt), w)),
{
    let ob = rb.len() as int;
    let data = runs_bytes(rs, mode, bt);
    let g1 = write_at(g, i, norm_all(cells.subrange(i, i + n), mode, bt), w);
    assert(r.subrange(0, rb.len() as int) =~= rb);
    assert(r.len() == ob + 2 + data.len());
    assert forall|e: Seq<u8>| agrees(e, r, o0) implies #[trigger] mdf_cells(e, o0, 0, w, true, mode, bt, Seq::empty())
        == mdf_cells(e, r.len() as int, i + n, w, true, mode, bt, g1) by {
        lemma_agrees_prefix(e, rb, r, o0);
        assert(e[ob] == r[ob] && e[ob + 1] == r[ob + 1]);
        assert(be16(e, ob) == n);
        assert(e.subrange(ob + 2, ob + 2 + data.len()) =~= data) by {
            assert forall|k: int| 0 <= k < data.len() implies e.subrange(ob + 2, ob + 2 + data.len())[k] == data[k] by {
                assert(r[ob + 2 + k] == data[k]);
            }
        }
        lemma_cells_step_filled(e, ob, rs, i, n, w, mode, bt, g);
    }
}

proof fn lemma_filled_shown(cells: Seq<DosChar>, i: int, n: int, w: int, mode: u16, bt: BufferType, g: Seq<Seq<DosChar>>)
    requires
        0 <= i,
        0 <= n,
        i + n <= cells.len(),
        w >= 1,
        cells_shown(g, cells, w, i, mode, bt),
    ensures
        cells_shown(write_at(g, i, norm_all(cells.subrange(i, i + n), mode, bt), w), cells, w, i + n, mode, bt),
{
    let cs = cells.subrange(i, i + n);
    let g1 = write_at(g, i, norm_all(cs, mode, bt), w);
    assert forall|x: int, y: int| #![trigger grid_get(g1, x, y)] grid_get(g1, x, y) == (if 0 <= x < w && 0 <= y && y * w + x < i + n {
        shown(norm_mdf(cells[y * w + x], mode, bt))
    } else {
        DosChar::spec_new()
    }) by {
        lemma_write_at_get(g, i, norm_all(cs, mode, bt), w, x, y);
        assert(grid_get(g, x, y) == (if 0 <= x < w && 0 <= y && y * w + x < i {
            shown(norm_mdf(cells[y * w + x], mode, bt))
        } else {
            DosChar::spec_new()
        }));
        if 0 <= x < w && 0 <= y && i <= y * w + x < i + n {
            let k = y * w + x;
            assert(norm_all(cs, mode, bt)[k - i] == norm_mdf(cs[k - i], mode, bt));
            assert(cs[k - i] == cells[k]);
        }
    }
}

/// Writes the count and the compressed data of a run of `n` cells.
fn write_filled_seg(result: &mut Vec<u8>, cells: &Vec<DosChar>, i: usize, n: usize, w: usize, mode: u16, bt: BufferType, Ghost(o0): Ghost<int>, Ghost(g): Ghost<Seq<Seq<DosChar>>>) -> (g1: Ghost<Seq<Seq<DosChar>>>)
    requires
        1 <= n <= 32767,
        i + n <= cells.len() <= mdf_max_index(),
        w >= 1,
        0 <= o0 <= old(result).len(),
        old(result).len() + 2 + 11 * n <= usize::MAX,
        decodes_to(old(result)@, o0, w as int, mode, bt, old(result).len() as int, i as int, g),
        cells_shown(g, cells@, w as int, i as int, mode, bt),
    ensures
        final(result)@.subrange(0, old(result).len() as int) == old(result)@,
        old(result).len() + 2 <= final(result).len() <= old(result).len() + 2 + 11 * n,
        decodes_to(final(result)@, o0, w as int, mode, bt, final(result).len() as int, i + n, g1@),
        cells_shown(g1@, cells@, w as int, i + n, mode, bt),
{
    let ghost rb = result@;
    push_be16(result, n as u16);
    let rs = compress_greedy(result, cells, i, n, mode, bt);
    proof {
        lemma_filled_decodes(result@, rb, rs@, cells@, i as int, n as int, w as int, mode, bt, o0, g);
        lemma_filled_shown(cells@, i as int, n as int, w as int, mode, bt, g);
        assert(result@.subrange(0, rb.len() as int) =~= rb);
    }
    Ghost(write_at(g, i as int, norm_all(cells@.subrange(i as int, i + n), mode, bt), w as int))
}

/// Writes the cell data of a layer `w` columns wide: runs of empty cells
/// as counts, runs of other cells compressed, and a zero word. Gives the
/// grid reading it back builds.
fn write_cells(result: &mut Vec<u8>, cells: &Vec<DosChar>, w: usize, mode: u16, bt: BufferType) -> (g: Ghost<Seq<Seq<DosChar>>>)
    requires
        w >= 1,
        cells.len() <= mdf_max_index(),
        old(result).len() + 13 * cells.len() + 2 <= usize::MAX,
        forall|k: int| 0 <= k < cells.len() && (#[trigger] cells@[k]).spec_is_transparent() ==> cells@[k] == DosChar::spec_new(),
    ensures
        final(result)@.subrange(0, old(result).len() as int) == old(result)@,
        old(result).len() + 2 <= final(result).len() <= old(result).len() + 13 * cells.len() + 2,
        forall|e: Seq<u8>|
            agrees(e, final(result)@, old(result).len() as int) ==> #[trigger] mdf_cells(e, old(result).len() as int, 0, w as int, true, mode, bt, Seq::empty())
                == Ok::<(int, Seq<Seq<DosChar>>), LoadError>((final(result).len() as int, g@)),
        cells_shown(g@, cells@, w as int, cells.len() as int, mode, bt),
{
    let ghost r0 = result@;
    let ghost o0 = result.len() as int;
    let ghost mut gg: Seq<Seq<DosChar>> = Seq::empty();
    let total = cells.len();
    let mut i: usize = 0;
    proof {
        assert forall|x: int, y: int| #![trigger grid_get(gg, x, y)] grid_get(gg, x, y) == (if 0 <= x < w && 0 <= y && y * w + x < 0 {
            shown(norm_mdf(cells@[y * w + x], mode, bt))
        } else {
            DosChar::spec_new()
        }) by {}
        assert forall|e: Seq<u8>| agrees(e, result@, o0) implies #[trigger] mdf_cells(e, o0, 0, w as int, true, mode, bt, Seq::empty())
            == mdf_cells(e, result.len() as int, 0, w as int, true, mode, bt, gg) by {}
    }
    while i < total
        invariant
            i <= total,
            total == cells.len(),
            w >= 1,
            total <= mdf_max_index(),
            r0.len() + 13 * total + 2 <= usize::MAX,
            forall|k: int| 0 <= k < cells.len() && (#[trigger] cells@[k]).spec_is_transparent() ==> cells@[k] == DosChar::spec_new(),
            o0 == r0.len(),
            result@.subrange(0, o0) == r0,
            o0 <= result.len() <= o0 + 13 * i,
            decodes_to(result@, o0, w as int, mode, bt, result.len() as int, i as int, gg),
            cells_shown(gg, cells@, w as int, i as int, mode, bt),
        decreases total - i,
    {
        let empty = cells[i].is_transparent();
        let mut n: usize = 1;
        while n < 32767 && total - i > n && cells[i + n].is_transparent() == empty
            invariant
                1 <= n <= 32767,
                i + n <= total,
                total == cells.len(),
                forall|k: int| i <= k < i + n ==> (#[trigger] cells@[k]).spec_is_transparent() == empty,
            decreases 32767 - n,
        {
            n = n + 1;
        }
        let ghost rb = result@;
        if empty {
            write_empty_seg(result, cells, i, n, w, mode, bt, Ghost(o0), Ghost(gg));
        } else {
            let g1 = write_filled_seg(result, cells, i, n, w, mode, bt, Ghost(o0), Ghost(gg));
            proof {
                gg = g1@;
            }
        }
        proof {
            lemma_prefix_chain(r0, rb, result@, o0);
        }
        i = i + n;
    }
    let ghost rb = result@;
    let ghost ob = result.len() as int;
    push_be16(result, 0);
    proof {
        assert(result@.subrange(0, rb.len() as int) =~= rb);
        assert forall|e: Seq<u8>| agrees(e, result@, o0) implies #[trigger] mdf_cells(e, o0, 0, w as int, true, mode, bt, Seq::empty())
            == Ok::<(int, Seq<Seq<DosChar>>), LoadError>((result.len() as int, gg)) by {
            lemma_agrees_prefix(e, rb, result@, o0);
            assert(e[ob] == result@[ob] && e[ob + 1] == result@[ob + 1]);
            assert(be16(e, ob) == 0);
        }
        lemma_prefix_chain(r0, rb, result@, o0);
    }
    Ghost(gg)
}

/// The layers whose block reads back: a name of at most 65535 bytes, at
/// most 65535 columns, and some cell in a row when there are rows.
pub open spec fn layer_writable(l: Layer) -> bool {
    &&& vstd::utf8::encode_utf8(l.name@).len() <= 65535
    &&& grid_width(l.grid()) <= 65535
    &&& l.lines.len() > 0 ==> grid_width(l.grid()) > 0
}

/// An upper bound of the bytes of a layer block.
pub open spec fn layer_size(l: Layer) -> int {
    20 + vstd::utf8::encode_utf8(l.name@).len() + 13 * (grid_width(l.grid()) * l.lines.len())
}

/// The attribute modes: one DOS byte up to 16 colors, one byte per color
/// up to 128, two bytes up to 65536, else four.
pub open spec fn attr_mode(colors: int) -> u16 {
    if colors <= 16 {
        0
    } else if colors <= 128 {
        2
    } else if colors <= 65536 {
        4
    } else {
        6
    }
}

/// What a layer reads back as: every position shows its cell as the
/// attribute mode keeps it.
pub open spec fn layer_reads_back(l: Layer, g: Seq<Seq<DosChar>>, mode: u16, bt: BufferType) -> bool {
    forall|x: int, y: int| #[trigger] grid_get(g, x, y) == shown(norm_mdf(grid_get(l.grid(), x, y), mode, bt))
}

fn push_bytes(v: &mut Vec<u8>, b: &[u8])
    requires
        old(v).len() + b.len() <= usize::MAX,
    ensures
        final(v)@ == old(v)@ + b@,
{
    let ghost v0 = v@;
    let mut k: usize = 0;
    while k < b.len()
        invariant
            k <= b.len(),
            v0.len() + b.len() <= usize::MAX,
            v@ == v0 + b@.subrange(0, k as int),
        decreases b.len() - k,
    {
        v.push(b[k]);
        proof {
            assert(b@.subrange(0, k + 1) =~= b@.subrange(0, k as int).push(b@[k as int]));
        }
        k = k + 1;
    }
    assert(b@.subrange(0, b.len() as int) =~= b@);
}

proof fn lemma_flat_shown(l: Layer, g: Seq<Seq<DosChar>>, w: int, mode: u16, bt: BufferType)
    requires
        w >= 1,
        w == grid_width(l.grid()),
        cells_shown(g, flat_cells(l.grid(), w, l.lines.len() as int), w, w * l.lines.len(), mode, bt),
    ensures
        layer_reads_back(l, g, mode, bt),
{
    let og = l.grid();
    let rows = l.lines.len() as int;
    let flat = flat_cells(og, w, rows);
    lemma_grid_width(og);
    lemma_norm_blank(mode, bt);
    assert forall|x: int, y: int| #[trigger] grid_get(g, x, y) == shown(norm_mdf(grid_get(og, x, y), mode, bt)) by {
        if 0 <= x < w && 0 <= y && y * w + x < w * rows {
            let k = y * w + x;
            assert(k % w == x && k / w == y) by (nonlinear_arith)
                requires
                    k == y * w + x,
                    0 <= x < w,
                    0 <= y,
            ;
            assert(flat[k] == grid_get(og, x, y));
        } else {
            if 0 <= x < w && 0 <= y {
                assert(y >= rows) by (nonlinear_arith)
                    requires
                        y * w + x >= w * rows,
                        0 <= x < w,
                ;
            }
            if 0 <= y < og.len() && 0 <= x {
                assert(og[y].len() <= w);
            }
        }
    }
}

proof fn lemma_empty_layer_shown(l: Layer, mode: u16, bt: BufferType)
    requires
        l.lines.len() == 0,
    ensures
        layer_reads_back(l, Seq::empty(), mode, bt),
{
    lemma_norm_blank(mode, bt);
}

/// The flags word of a layer block: compressed, visible, attribute mode.
pub open spec fn layer_flags(visible: bool, mode: u16) -> u16 {
    1u16 | (if visible { 0x20u16 } else { 0u16 }) | mode
}

/// Writes the fixed part of a layer block up to its width: the block
/// type, the name, a mode byte, the flags and a zero offset.
fn write_layer_head(result: &mut Vec<u8>, layer: &Layer, mode: u16) -> (flags: u16)
    requires
        old(result).len() + 14 + vstd::utf8::encode_utf8(layer.name@).len() <= usize::MAX,
    ensures
        ({
            let nb = vstd::utf8::encode_utf8(layer.name@);
            let o = old(result).len() as int;
            let t = o + 3 + nb.len();
            &&& final(result).len() == t + 11
            &&& final(result)@.subrange(0, o) == old(result)@
            &&& final(result)@[o] == 5
            &&& final(result)@.subrange(o + 3, t) == nb
            &&& be16(final(result)@, o + 1) == nb.len() as u16 as int
            &&& be16(final(result)@, t + 1) == flags as int
            &&& flags == layer_flags(layer.is_visible, mode)
        }),
{
    let ghost r0 = result@;
    let ghost o = result.len() as int;
    result.push(5);
    let nb = layer.name.as_str().as_bytes();
    push_be16(result, nb.len() as u16);
    push_bytes(result, nb);
    result.push(0);
    let flags: u16 = 1 | (if layer.is_visible { 0x20u16 } else { 0u16 }) | mode;
    push_be16(result, flags);
    push_be16(result, 0);
    push_be16(result, 0);
    push_be16(result, 0);
    push_be16(result, 0);
    proof {
        let t = o + 3 + nb.len();
        assert(result@.subrange(0, o) =~= r0);
        assert(result@.subrange(o + 3, t) =~= nb@);
    }
    flags
}

/// The width a layer block gives: the widest row, or zero without rows.
pub open spec fn body_width(l: Layer) -> int {
    if l.lines.len() > 0 {
        grid_width(l.grid())
    } else {
        0
    }
}

/// Writes the width and the cell data of a layer block; gives the grid
/// reading them back builds.
fn write_layer_body(result: &mut Vec<u8>, layer: &Layer, mode: u16, bt: BufferType) -> (g: Ghost<Seq<Seq<DosChar>>>)
    requires
        old(result).len() + 4 + 13 * (grid_width(layer.grid()) * layer.lines.len()) <= usize::MAX,
        grid_width(layer.grid()) * layer.lines.len() <= mdf_max_index(),
    ensures
        ({
            let s = old(result).len() as int;
            &&& final(result)@.subrange(0, s) == old(result)@
            &&& s + 2 <= final(result).len() <= s + 4 + 13 * (grid_width(layer.grid()) * layer.lines.len())
            &&& layer_writable(*layer) ==> {
                &&& layer_reads_back(*layer, g@, mode, bt)
                &&& forall|e: Seq<u8>|
                    agrees(e, final(result)@, s) ==> {
                        &&& #[trigger] be16(e, s) == body_width(*layer)
                        &&& body_width(*layer) > 0 ==> mdf_cells(e, s + 2, 0, body_width(*layer), true, mode, bt, Seq::empty())
                            == Ok::<(int, Seq<Seq<DosChar>>), LoadError>((final(result).len() as int, g@))
                        &&& body_width(*layer) == 0 ==> final(result).len() == s + 2 && g@ == Seq::<Seq<DosChar>>::empty()
                    }
            }
        }),
{
    let ghost r0 = result@;
    let ghost s = result.len() as int;
    proof {
        lemma_grid_width(layer.grid());
    }
    let rows = layer.lines.len();
    let ghost mut gg: Seq<Seq<DosChar>> = Seq::empty();
    if rows > 0 {
        let w = layer_width(layer);
        push_be16(result, w as u16);
        let ghost wh = result@;
        assert(wh.subrange(0, s) =~= r0);
        if w > 0 {
            let cells = layer_cells(layer, w);
            proof {
                assert forall|k: int| 0 <= k < cells.len() && (#[trigger] cells@[k]).spec_is_transparent() implies cells@[k]
                    == DosChar::spec_new() by {}
            }
            let g = write_cells(result, &cells, w, mode, bt);
            proof {
                gg = g@;
                lemma_prefix_chain(r0, wh, result@, s);
                if layer_writable(*layer) {
                    lemma_flat_shown(*layer, gg, w as int, mode, bt);
                    assert forall|e: Seq<u8>| agrees(e, result@, s) implies #[trigger] be16(e, s) == body_width(*layer) by {
                        assert(result@[s] == wh[s] && result@[s + 1] == wh[s + 1]);
                    }
                }
            }
        } else {
            push_be16(result, 0);
            proof {
                assert(result@.subrange(0, s) =~= r0);
            }
        }
    } else {
        push_be16(result, 0);
        proof {
            assert(result@.subrange(0, s) =~= r0);
            lemma_empty_layer_shown(*layer, mode, bt);
        }
    }
    Ghost(gg)
}

/// Writes a layer block: the name, a mode byte, the flags (compressed,
/// visible, attribute mode), a zero offset, the width and the cell data.
/// Gives the grid reading it back builds.
fn write_layer(result: &mut Vec<u8>, layer: &Layer, mode: u16, bt: BufferType) -> (g: Ghost<Seq<Seq<DosChar>>>)
    requires
        mode == 0 || mode == 2 || mode == 4 || mode == 6,
        old(result).len() + layer_size(*layer) <= usize::MAX,
        grid_width(layer.grid()) * layer.lines.len() <= mdf_max_index(),
    ensures
        final(result)@.subrange(0, old(result).len() as int) == old(result)@,
        old(result).len() < final(result).len() <= old(result).len() + layer_size(*layer),
        final(result)@[old(result).len() as int] == 5,
        layer_writable(*layer) ==> layer_reads_back(*layer, g@, mode, bt) && forall|e: Seq<u8>|
            agrees(e, final(result)@, old(result).len() as int) ==> #[trigger] mdf_layer(e, old(result).len() + 1, bt)
                == Ok::<(int, MdfLayer), LoadError>(
                (final(result).len() as int, MdfLayer { name: layer.name@, visible: layer.is_visible, grid: g@ }),
            ),
{
    let ghost r0 = result@;
    let ghost o = result.len() as int;
    let flags = write_layer_head(result, layer, mode);
    let ghost head = result@;
    let g = write_layer_body(result, layer, mode, bt);
    proof {
        let nb = vstd::utf8::encode_utf8(layer.name@);
        let t = o + 3 + nb.len();
        lemma_prefix_chain(r0, head, result@, o);
        assert(result@[o] == head[o]);
        if layer_writable(*layer) {
            vstd::utf8::encode_utf8_valid_utf8(layer.name@);
            vstd::utf8::encode_utf8_decode_utf8(layer.name@);
            assert forall|e: Seq<u8>| agrees(e, result@, o) implies #[trigger] mdf_layer(e, o + 1, bt)
                == Ok::<(int, MdfLayer), LoadError>(
                (result.len() as int, MdfLayer { name: layer.name@, visible: layer.is_visible, grid: g@ }),
            ) by {
                lemma_layer_head(e, result@, head, o, t, nb, flags, layer.name@, layer.is_visible, mode);
                assert(agrees(e, result@, t + 11));
                assert(be16(e, t + 11) == body_width(*layer));
            }
        }
    }
    g
}

/// The fixed part of a layer block, in any data that holds it.
proof fn lemma_layer_head(
    e: Seq<u8>,
    r: Seq<u8>,
    head: Seq<u8>,
    o: int,
    t: int,
    nb: Seq<u8>,
    flags: u16,
    name: Seq<char>,
    visible: bool,
    mode: u16,
)
    requires
        0 <= o,
        agrees(e, r, o),
        head.len() == t + 11,
        r.len() >= t + 13,
        r.subrange(0, head.len() as int) == head,
        t == o + 3 + nb.len(),
        nb.len() <= 65535,
        head.subrange(o + 3, t) == nb,
        be16(head, o + 1) == nb.len(),
        be16(head, t + 1) == flags,
        flags == layer_flags(visible, mode),
        mode == 0 || mode == 2 || mode == 4 || mode == 6,
        vstd::utf8::valid_utf8(nb),
        vstd::utf8::decode_utf8(nb) == name,
    ensures
        be16(e, o + 1) == nb.len(),
        e.subrange(o + 3, t) == nb,
        lossy_text(e.subrange(o + 3, t)) == name,
        be16(e, t + 1) as u16 == flags,
        (flags & 0x20u16 == 0x20u16) == visible,
        flags & 1u16 == 1u16,
        flags & 6u16 == mode,
{
    assert forall|k: int| o <= k < head.len() implies e[k] == head[k] by {
        assert(r[k] == r.subrange(0, head.len() as int)[k]);
    }
    assert(e.subrange(o + 3, t) =~= nb) by {
        assert forall|k: int| 0 <= k < nb.len() implies e.subrange(o + 3, t)[k] == nb[k] by {
            assert(head.subrange(o + 3, t)[k] == head[o + 3 + k]);
        }
    }
    assert(e[o + 1] == head[o + 1] && e[o + 2] == head[o + 2] && e[t + 1] == head[t + 1] && e[t + 2] == head[t + 2]);
    if visible {
        assert((1u16 | 0x20u16 | mode) & 0x20u16 == 0x20u16 && (1u16 | 0x20u16 | mode) & 1u16 == 1u16 && (1u16 | 0x20u16 | mode)
            & 6u16 == mode) by (bit_vector)
            requires
                mode == 0 || mode == 2 || mode == 4 || mode == 6,
        ;
    } else {
        assert((1u16 | 0u16 | mode) & 0x20u16 == 0u16 && (1u16 | 0u16 | mode) & 1u16 == 1u16 && (1u16 | 0u16 | mode) & 6u16
            == mode) by (bit_vector)
            requires
                mode == 0 || mode == 2 || mode == 4 || mode == 6,
        ;
    }
}

/// The contents of comment fields.
pub open spec fn comment_texts(cs: Seq<SauceString<64, 0>>) -> Seq<Seq<u8>> {
    Seq::new(cs.len(), |k: int| cs[k].0@)
}

pub open spec fn comments_fit(cs: Seq<SauceString<64, 0>>) -> bool {
    forall|k: int| 0 <= k < cs.len() ==> field_fits(#[trigger] cs[k].0@, 64)
}

/// A NUL padded field that fits its width reads back as written, in any
/// data that holds it.
proof fn lemma_nul_field_at(e: Seq<u8>, at: int, c: Seq<u8>, len: int)
    requires
        0 <= at,
        at + len <= e.len(),
        field_fits(c, len),
        e.subrange(at, at + len) == padded(c, len, 0),
    ensures
        field_ok(e, at, len, 0),
        field_at(e, at, len, 0) == c,
{
    let rest = e.subrange(at + len, e.len() as int);
    assert(e.subrange(at, e.len() as int) =~= padded(c, len, 0) + rest);
    lemma_read_padded_nul(c, rest, len);
    lemma_read_count_bounds(e.subrange(at, e.len() as int), len, 0);
}

/// Writes a comment block: the count and each comment padded with NUL
/// bytes to 64.
fn write_comments(result: &mut Vec<u8>, comments: &Vec<SauceString<64, 0>>)
    requires
        1 <= comments.len() <= 255,
        old(result).len() + 2 + comment_lines(comments@).len() <= usize::MAX,
    ensures
        final(result)@ == old(result)@ + seq![1u8, comments.len() as u8] + comment_lines(comments@),
{
    let ghost r0 = result@;
    result.push(1);
    result.push(comments.len() as u8);
    let mut k: usize = 0;
    while k < comments.len()
        invariant
            k <= comments.len(),
            r0.len() + 2 + comment_lines(comments@).len() <= usize::MAX,
            result@ == r0 + seq![1u8, comments.len() as u8] + comment_lines(comments@.subrange(0, k as int)),
            comment_lines(comments@.subrange(0, k as int)).len() <= comment_lines(comments@).len(),
        decreases comments.len() - k,
    {
        proof {
            lemma_comment_lines_grow(comments@, k as int);
        }
        comments[k].append_to(result);
        proof {
            assert(comments@.subrange(0, k + 1).drop_last() =~= comments@.subrange(0, k as int));
        }
        k = k + 1;
    }
    assert(comments@.subrange(0, k as int) =~= comments@);
}

proof fn lemma_comment_lines_grow(cs: Seq<SauceString<64, 0>>, k: int)
    requires
        0 <= k < cs.len(),
    ensures
        comment_lines(cs.subrange(0, k + 1)) == comment_lines(cs.subrange(0, k)) + padded(cs[k].0@, 64, 0),
        comment_lines(cs.subrange(0, k + 1)).len() <= comment_lines(cs).len(),
    decreases cs.len() - k,
{
    assert(cs.subrange(0, k + 1).drop_last() =~= cs.subrange(0, k));
    if k + 1 < cs.len() {
        lemma_comment_lines_grow(cs, k + 1);
    } else {
        assert(cs.subrange(0, k + 1) =~= cs);
    }
}

/// A comment block decodes to its comments.
proof fn lemma_comments_decode(e: Seq<u8>, o: int, r: Seq<u8>, cs: Seq<SauceString<64, 0>>, bt: BufferType, st: MdfBlocks)
    requires
        0 <= o,
        1 <= cs.len() <= 255,
        comments_fit(cs),
        r.len() == o,
        agrees(e, r + seq![1u8, cs.len() as u8] + comment_lines(cs), o),
    ensures
        mdf_block(e, o, bt, st) == Ok::<(int, MdfBlocks), LoadError>(
            (o + 2 + 64 * cs.len(), MdfBlocks { comments: st.comments + comment_texts(cs), ..st }),
        ),
{
    let full = r + seq![1u8, cs.len() as u8] + comment_lines(cs);
    lemma_comment_lines_len(cs);
    let n = cs.len() as int;
    assert(e[o] == full[o] && e[o + 1] == full[o + 1]);
    assert forall|k: int| 0 <= k < n implies #[trigger] field_ok(e, o + 2 + 64 * k, 64, 0) && field_at(e, o + 2 + 64 * k, 64, 0)
        == cs[k].0@ by {
        lemma_comment_lines_at(cs, k);
        assert(0 <= 64 * k && 64 * k + 64 <= 64 * n) by (nonlinear_arith)
            requires
                0 <= k < n,
        ;
        assert(e.subrange(o + 2 + 64 * k, o + 2 + 64 * k + 64) =~= padded(cs[k].0@, 64, 0)) by {
            assert forall|j: int| 0 <= j < 64 implies e.subrange(o + 2 + 64 * k, o + 2 + 64 * k + 64)[j] == padded(cs[k].0@, 64, 0)[j] by {
                assert(e[o + 2 + 64 * k + j] == full[o + 2 + 64 * k + j]);
                assert(full[o + 2 + (64 * k + j)] == comment_lines(cs)[64 * k + j]);
                assert(comment_lines(cs).subrange(64 * k, 64 * k + 64)[j] == comment_lines(cs)[64 * k + j]);
            }
        }
        lemma_nul_field_at(e, o + 2 + 64 * k, cs[k].0@, 64);
    }
    assert(comments_ok(e, o + 2, n));
    assert(comments_at(e, o + 2, n) =~= comment_texts(cs)) by {
        assert forall|k: int| 0 <= k < n implies comments_at(e, o + 2, n)[k] == comment_texts(cs)[k] by {
            assert(field_ok(e, o + 2 + 64 * k, 64, 0));
        }
    }
}

/// A 32 bit number as four big endian bytes.
pub open spec fn be32_bytes(v: u32) -> Seq<u8> {
    seq![(v / 16777216) as u8, ((v / 65536) % 256) as u8, ((v / 256) % 256) as u8, (v % 256) as u8]
}

/// The channels of the colors, three bytes each.
pub open spec fn rgb_bytes(cs: Seq<Color>) -> Seq<u8> {
    Seq::new(
        3 * cs.len(),
        |k: int|
            if k % 3 == 0 {
                cs[k / 3].r
            } else if k % 3 == 1 {
                cs[k / 3].g
            } else {
                cs[k / 3].b
            },
    )
}

fn push_be32(v: &mut Vec<u8>, x: u32)
    ensures
        final(v)@ == old(v)@ + be32_bytes(x),
{
    v.push((x / 16777216) as u8);
    v.push(((x / 65536) % 256) as u8);
    v.push(((x / 256) % 256) as u8);
    v.push((x % 256) as u8);
    assert(final(v)@ =~= old(v)@ + be32_bytes(x));
}

/// Writes a palette block: the number of colors and their channels.
fn write_palette(result: &mut Vec<u8>, colors: &Vec<Color>)
    requires
        old(result).len() + 5 + 3 * colors.len() <= usize::MAX,
    ensures
        final(result)@ == old(result)@ + seq![2u8] + be32_bytes(colors.len() as u32) + rgb_bytes(colors@),
{
    let ghost r0 = result@;
    result.push(2);
    push_be32(result, colors.len() as u32);
    let ghost h = result@;
    let mut k: usize = 0;
    while k < colors.len()
        invariant
            k <= colors.len(),
            h.len() + 3 * colors.len() <= usize::MAX,
            result@ == h + rgb_bytes(colors@.subrange(0, k as int)),
        decreases colors.len() - k,
    {
        let c = colors[k];
        result.push(c.r);
        result.push(c.g);
        result.push(c.b);
        proof {
            let a = colors@.subrange(0, k + 1);
            let b = colors@.subrange(0, k as int);
            assert forall|j: int| 0 <= j < 3 * (k + 1) implies #[trigger] rgb_bytes(a)[j] == (if j < 3 * k {
                rgb_bytes(b)[j]
            } else if j == 3 * k {
                c.r
            } else if j == 3 * k + 1 {
                c.g
            } else {
                c.b
            }) by {
                if j < 3 * k {
                    assert(j / 3 < k);
                    assert(a[j / 3] == b[j / 3]);
                } else {
                    assert(j / 3 == k);
                }
            }
            assert(result@ =~= h + rgb_bytes(a));
        }
        k = k + 1;
    }
    assert(colors@.subrange(0, k as int) =~= colors@);
}

proof fn lemma_be32_bytes(e: Seq<u8>, q: int, v: u32)
    requires
        0 <= q,
        q + 4 <= e.len(),
        e.subrange(q, q + 4) == be32_bytes(v),
    ensures
        be32(e, q) == v,
{
    assert(e[q] == be32_bytes(v)[0] && e[q + 1] == be32_bytes(v)[1] && e[q + 2] == be32_bytes(v)[2] && e[q + 3]
        == be32_bytes(v)[3]) by {
        assert(e.subrange(q, q + 4)[0] == e[q]);
        assert(e.subrange(q, q + 4)[1] == e[q + 1]);
        assert(e.subrange(q, q + 4)[2] == e[q + 2]);
        assert(e.subrange(q, q + 4)[3] == e[q + 3]);
    }
    let a = v / 16777216;
    let b = (v / 65536) % 256;
    let c = (v / 256) % 256;
    let d = v % 256;
    assert(a * 16777216 + b * 65536 + c * 256 + d == v) by (nonlinear_arith)
        requires
            a == v / 16777216,
            b == (v / 65536) % 256,
            c == (v / 256) % 256,
            d == v % 256,
    ;
}

proof fn lemma_rgb_at(cols: Seq<Color>, k: int)
    requires
        0 <= k < cols.len(),
    ensures
        rgb_bytes(cols)[3 * k] == cols[k].r,
        rgb_bytes(cols)[3 * k + 1] == cols[k].g,
        rgb_bytes(cols)[3 * k + 2] == cols[k].b,
{
    assert((3 * k) / 3 == k && (3 * k) % 3 == 0);
    assert((3 * k + 1) / 3 == k && (3 * k + 1) % 3 == 1);
    assert((3 * k + 2) / 3 == k && (3 * k + 2) % 3 == 2);
}

/// A palette block decodes to its colors.
proof fn lemma_palette_decode(e: Seq<u8>, o: int, r: Seq<u8>, cols: Seq<Color>, bt: BufferType, st: MdfBlocks)
    requires
        0 <= o,
        r.len() == o,
        cols.len() <= u32::MAX,
        agrees(e, r + seq![2u8] + be32_bytes(cols.len() as u32) + rgb_bytes(cols), o),
    ensures
        mdf_block(e, o, bt, st) == Ok::<(int, MdfBlocks), LoadError>(
            (o + 5 + 3 * cols.len(), MdfBlocks { palette: Some(cols), ..st }),
        ),
{
    let full = r + seq![2u8] + be32_bytes(cols.len() as u32) + rgb_bytes(cols);
    let n = cols.len() as int;
    let rb = rgb_bytes(cols);
    assert(e[o] == full[o]);
    assert(e.subrange(o + 1, o + 5) =~= be32_bytes(cols.len() as u32)) by {
        assert forall|j: int| 0 <= j < 4 implies #[trigger] e.subrange(o + 1, o + 5)[j] == be32_bytes(cols.len() as u32)[j] by {
            assert(e[o + 1 + j] == full[o + 1 + j]);
        }
    }
    lemma_be32_bytes(e, o + 1, cols.len() as u32);
    assert forall|k: int| 0 <= k < n implies #[trigger] colors_at(e, o + 5, n)[k] == cols[k] by {
        lemma_rgb_at(cols, k);
        assert(e[o + 5 + 3 * k] == full[o + 5 + 3 * k]);
        assert(e[o + 5 + 3 * k + 1] == full[o + 5 + 3 * k + 1]);
        assert(e[o + 5 + 3 * k + 2] == full[o + 5 + 3 * k + 2]);
        assert(full[o + 5 + 3 * k] == rb[3 * k]);
        assert(full[o + 5 + 3 * k + 1] == rb[3 * k + 1]);
        assert(full[o + 5 + 3 * k + 2] == rb[3 * k + 2]);
    }
    assert(colors_at(e, o + 5, n) =~= cols);
}

/// `IBM VGA`, the font a buffer without a font of its own shows.
pub open spec fn default_font_name() -> Seq<u8> {
    seq![73u8, 66u8, 77u8, 32u8, 86u8, 71u8, 65u8]
}

/// The scanlines of a font: a byte each for fonts up to eight pixels
/// wide, else a big endian 16 bit word each.
pub open spec fn scan_bytes(data: Seq<u32>, wide: bool) -> Seq<u8> {
    if wide {
        Seq::new(2 * data.len(), |k: int| if k % 2 == 0 { (data[k / 2] as u16 / 256) as u8 } else { (data[k / 2] as u16 % 256) as u8 })
    } else {
        Seq::new(data.len(), |k: int| data[k] as u8)
    }
}

/// Writes a font block: the name, the size, a flags byte and the
/// scanlines.
fn write_font(result: &mut Vec<u8>, f: &BitFont)
    requires
        old(result).len() + 26 + padded(f.name.0@, 22, 0).len() + 2 * f.data.len() <= usize::MAX,
    ensures
        final(result)@ == old(result)@ + seq![4u8] + padded(f.name.0@, 22, 0) + seq![
            f.size.width as u8,
            f.size.height as u8,
            0u8,
        ] + scan_bytes(f.data@, f.size.width as u8 >= 9),
{
    let ghost r0 = result@;
    result.push(4);
    f.name.append_to(result);
    let w8 = f.size.width as u8;
    result.push(w8);
    result.push(f.size.height as u8);
    result.push(0);
    let ghost h = result@;
    let wide = w8 >= 9;
    let mut k: usize = 0;
    while k < f.data.len()
        invariant
            k <= f.data.len(),
            h.len() + 2 * f.data.len() <= usize::MAX,
            result@ == h + scan_bytes(f.data@.subrange(0, k as int), wide),
        decreases f.data.len() - k,
    {
        let v = f.data[k];
        let ghost a = f.data@.subrange(0, k + 1);
        let ghost b = f.data@.subrange(0, k as int);
        if wide {
            push_be16(result, v as u16);
            proof {
                assert forall|j: int| 0 <= j < 2 * (k + 1) implies #[trigger] scan_bytes(a, wide)[j] == (if j < 2 * k {
                    scan_bytes(b, wide)[j]
                } else if j == 2 * k {
                    (v as u16 / 256) as u8
                } else {
                    (v as u16 % 256) as u8
                }) by {
                    if j < 2 * k {
                        assert(a[j / 2] == b[j / 2]);
                    }
                }
                assert(result@ =~= h + scan_bytes(a, wide));
            }
        } else {
            result.push(v as u8);
            proof {
                assert(result@ =~= h + scan_bytes(a, wide));
            }
        }
        k = k + 1;
    }
    assert(f.data@.subrange(0, k as int) =~= f.data@);
}

/// Writes a font name block.
fn write_font_name(result: &mut Vec<u8>, name: &SauceString<22, 0>)
    requires
        old(result).len() + 1 + padded(name.0@, 22, 0).len() <= usize::MAX,
    ensures
        final(result)@ == old(result)@ + seq![3u8] + padded(name.0@, 22, 0),
{
    result.push(3);
    name.append_to(result);
}

/// The fonts whose block reads back: a name that fits, at most 255 pixels
/// each way, 256 characters of scanlines that fit their bytes.
pub open spec fn font_writable(f: BitFont) -> bool {
    &&& field_fits(f.name.0@, 22)
    &&& f.size.width <= 255
    &&& f.size.height <= 255
    &&& f.data@.len() == 256 * f.size.height
    &&& forall|k: int| 0 <= k < f.data@.len() ==> (#[trigger] f.data@[k]) < (if f.size.width < 9 { 256u32 } else { 65536u32 })
}

/// A font block decodes to its font when no font came before.
proof fn lemma_font_decode(e: Seq<u8>, o: int, r: Seq<u8>, f: BitFont, bt: BufferType, st: MdfBlocks)
    requires
        0 <= o,
        r.len() == o,
        font_writable(f),
        !st.font_seen,
        agrees(
            e,
            r + seq![4u8] + padded(f.name.0@, 22, 0) + seq![f.size.width as u8, f.size.height as u8, 0u8] + scan_bytes(
                f.data@,
                f.size.width as u8 >= 9,
            ),
            o,
        ),
    ensures
        mdf_block(e, o, bt, st) == Ok::<(int, MdfBlocks), LoadError>(
            (
                o + 26 + 256 * f.size.height * scan_width(f.size.width as u8),
                MdfBlocks {
                    font: Some(
                        MdfFont { name: f.name.0@, width: f.size.width as u8, height: f.size.height as u8, data: f.data@ },
                    ),
                    font_seen: true,
                    ..st
                },
            ),
        ),
{
    let w8 = f.size.width as u8;
    let h8 = f.size.height as u8;
    let wide = w8 >= 9;
    let sb = scan_bytes(f.data@, wide);
    let full = r + seq![4u8] + padded(f.name.0@, 22, 0) + seq![w8, h8, 0u8] + sb;
    let p = o + 1;
    let n = f.data@.len() as int;
    assert(padded(f.name.0@, 22, 0).len() == 22);
    assert(e[o] == full[o]);
    assert(e[p + 22] == full[p + 22] && e[p + 23] == full[p + 23]);
    assert(sb.len() == n * scan_width(w8));
    assert(n * scan_width(w8) == 256 * h8 * scan_width(w8)) by (nonlinear_arith)
        requires
            n == 256 * h8,
    ;
    assert(e.subrange(p, p + 22) =~= padded(f.name.0@, 22, 0)) by {
        assert forall|j: int| 0 <= j < 22 implies e.subrange(p, p + 22)[j] == padded(f.name.0@, 22, 0)[j] by {
            assert(e[p + j] == full[p + j]);
        }
    }
    lemma_nul_field_at(e, p, f.name.0@, 22);
    assert forall|k: int| 0 <= k < n implies #[trigger] scanlines_at(e, p + 25, n, w8)[k] == f.data@[k] by {
        let v = f.data@[k];
        if wide {
            assert(e[p + 25 + 2 * k] == full[p + 25 + 2 * k] && e[p + 25 + 2 * k + 1] == full[p + 25 + 2 * k + 1]);
            assert(full[p + 25 + 2 * k] == sb[2 * k] && full[p + 25 + 2 * k + 1] == sb[2 * k + 1]);
            assert((2 * k) / 2 == k && (2 * k) % 2 == 0 && (2 * k + 1) / 2 == k && (2 * k + 1) % 2 == 1);
            assert(v < 65536);
        } else {
            assert(e[p + 25 + k] == full[p + 25 + k]);
            assert(full[p + 25 + k] == sb[k]);
            assert(v < 256);
        }
    }
    assert(scanlines_at(e, p + 25, n, w8) =~= f.data@);
}

/// A font name block decodes to its name when no font came before.
proof fn lemma_font_name_decode(e: Seq<u8>, o: int, r: Seq<u8>, name: Seq<u8>, bt: BufferType, st: MdfBlocks)
    requires
        0 <= o,
        r.len() == o,
        field_fits(name, 22),
        !st.font_seen,
        agrees(e, r + seq![3u8] + padded(name, 22, 0), o),
    ensures
        mdf_block(e, o, bt, st) == Ok::<(int, MdfBlocks), LoadError>(
            (o + 23, MdfBlocks { font_name: Some(name), font_seen: true, ..st }),
        ),
{
    let full = r + seq![3u8] + padded(name, 22, 0);
    let p = o + 1;
    assert(e[o] == full[o]);
    assert(e.subrange(p, p + 22) =~= padded(name, 22, 0)) by {
        assert forall|j: int| 0 <= j < 22 implies e.subrange(p, p + 22)[j] == padded(name, 22, 0)[j] by {
            assert(e[p + j] == full[p + j]);
        }
    }
    lemma_nul_field_at(e, p, name, 22);
}

/// The flags word of a file: the buffer type.
pub open spec fn mdf_flags(bt: BufferType) -> u16 {
    match bt {
        BufferType::LegacyDos => 0,
        BufferType::LegacyIce => 1,
        BufferType::ExtFont => 2,
        BufferType::ExtFontIce => 3,
        BufferType::NoLimits => 7,
    }
}

pub open spec fn be16_bytes(v: u16) -> Seq<u8> {
    seq![(v / 256) as u8, (v % 256) as u8]
}

/// The bytes of a file after its checksum and before its blocks: the
/// version, the text fields, the size and the flags.
pub open spec fn mdf_head(b: Buffer) -> Seq<u8> {
    seq![0u8, 0u8] + padded(b.title.0@, 35, 32) + padded(b.author.0@, 20, 32) + padded(b.group.0@, 20, 32) + be16_bytes(
        b.width,
    ) + be16_bytes(b.height) + be16_bytes(mdf_flags(b.buffer_type))
}

/// The font name a file names when the buffer has no font of its own.
pub open spec fn named_font(b: Buffer) -> Seq<u8> {
    match b.font_name {
        Some(n) => n.0@,
        None => default_font_name(),
    }
}

/// Upper bounds of the bytes of layer blocks.
pub open spec fn layers_size(ls: Seq<Layer>) -> int
    decreases ls.len(),
{
    if ls.len() == 0 {
        0
    } else {
        layers_size(ls.drop_last()) + layer_size(ls.last())
    }
}

/// An upper bound of the bytes of a file.
pub open spec fn mdf_size(b: Buffer) -> int {
    8 + mdf_head(b).len() + 2 + comment_lines(b.comments@).len() + 5 + 3 * b.palette.colors@.len() + 26 + padded(
        named_font(b),
        22,
        0,
    ).len() + (match b.font {
        Some(f) => padded(f.name.0@, 22, 0).len() + 2 * f.data@.len(),
        None => 0,
    }) + layers_size(b.layers@)
}

/// The buffers whose file reads back: text fields within their widths, at
/// most 255 comments that fit, a palette count that fits 32 bits, a font
/// (or font name) that fits, and layers that fit.
pub open spec fn mdf_writable(b: Buffer) -> bool {
    &&& b.title.0@.len() <= 35
    &&& b.author.0@.len() <= 20
    &&& b.group.0@.len() <= 20
    &&& b.comments@.len() <= 255
    &&& comments_fit(b.comments@)
    &&& b.palette.colors@.len() <= u32::MAX
    &&& match b.font {
        Some(f) => font_writable(f),
        None => field_fits(named_font(b), 22),
    }
    &&& forall|k: int| 0 <= k < b.layers@.len() ==> layer_writable(#[trigger] b.layers@[k])
}

/// What reading back a written file gives: the comments, the palette
/// unless it is the default one, the font (or its name), and the layers
/// with their names, visibility and what each position shows.
pub open spec fn mdf_saved_blocks(b: Buffer, st: MdfBlocks) -> bool {
    &&& st.comments == comment_texts(b.comments@)
    &&& st.palette == (if b.palette.colors@ == dos_default_palette() {
        None::<Seq<Color>>
    } else {
        Some(b.palette.colors@)
    })
    &&& match b.font {
        Some(f) => st.font_name is None && st.font == Some(
            MdfFont { name: f.name.0@, width: f.size.width as u8, height: f.size.height as u8, data: f.data@ },
        ),
        None => st.font is None && st.font_name == Some(named_font(b)),
    }
    &&& st.layers.len() == b.layers@.len()
    &&& forall|k: int|
        0 <= k < b.layers@.len() ==> {
            &&& (#[trigger] st.layers[k]).name == b.layers@[k].name@
            &&& st.layers[k].visible == b.layers@[k].is_visible
            &&& layer_reads_back(b.layers@[k], st.layers[k].grid, attr_mode(b.palette.colors@.len() as int), b.buffer_type)
        }
}

/// Reading the blocks from 91 on, in any data that holds `r` from 91 on,
/// goes as reading them from `o` on with `st` set so far.
pub open spec fn blocks_chain(r: Seq<u8>, bt: BufferType, o: int, st: MdfBlocks) -> bool {
    forall|e: Seq<u8>| agrees(e, r, 91) ==> #[trigger] mdf_blocks(e, 91, bt, no_blocks()) == mdf_blocks(e, o, bt, st)
}

proof fn lemma_chain_step(r: Seq<u8>, r2: Seq<u8>, bt: BufferType, st: MdfBlocks, st2: MdfBlocks)
    requires
        91 <= r.len() < r2.len(),
        r2.subrange(0, r.len() as int) == r,
        blocks_chain(r, bt, r.len() as int, st),
        forall|e: Seq<u8>|
            agrees(e, r2, r.len() as int) ==> #[trigger] mdf_block(e, r.len() as int, bt, st) == Ok::<(int, MdfBlocks), LoadError>(
                (r2.len() as int, st2),
            ),
    ensures
        blocks_chain(r2, bt, r2.len() as int, st2),
{
    assert forall|e: Seq<u8>| agrees(e, r2, 91) implies #[trigger] mdf_blocks(e, 91, bt, no_blocks()) == mdf_blocks(
        e,
        r2.len() as int,
        bt,
        st2,
    ) by {
        lemma_agrees_prefix(e, r, r2, 91);
        assert(agrees(e, r2, r.len() as int));
        assert(mdf_block(e, r.len() as int, bt, st) == Ok::<(int, MdfBlocks), LoadError>((r2.len() as int, st2)));
    }
}

fn write_mdf_head(result: &mut Vec<u8>, buf: &Buffer)
    requires
        old(result)@ == Seq::<u8>::empty(),
        8 + mdf_head(*buf).len() <= usize::MAX,
    ensures
        final(result)@ == seq![77u8, 68u8, 102u8, 26u8, 0u8, 0u8, 0u8, 0u8] + mdf_head(*buf),
{
    result.push(77);
    result.push(68);
    result.push(102);
    result.push(26);
    push_be32(result, 0);
    push_be16(result, 0);
    buf.title.append_to(result);
    buf.author.append_to(result);
    buf.group.append_to(result);
    push_be16(result, buf.width);
    push_be16(result, buf.height);
    let flags: u16 = match buf.buffer_type {
        BufferType::LegacyDos => 0,
        BufferType::LegacyIce => 1,
        BufferType::ExtFont => 2,
        BufferType::ExtFontIce => 3,
        BufferType::NoLimits => 7,
    };
    push_be16(result, flags);
    proof {
        assert(be32_bytes(0) =~= seq![0u8, 0u8, 0u8, 0u8]);
        assert(result@ =~= seq![77u8, 68u8, 102u8, 26u8, 0u8, 0u8, 0u8, 0u8] + mdf_head(*buf));
    }
}

proof fn lemma_layer_size_pos(l: Layer)
    ensures
        layer_size(l) >= 20,
{
    lemma_grid_width(l.grid());
    let w = grid_width(l.grid());
    let r = l.lines.len() as int;
    assert(w * r >= 0) by (nonlinear_arith)
        requires
            w >= 0,
            r >= 0,
    ;
}

proof fn lemma_layers_size_grow(ls: Seq<Layer>, k: int)
    requires
        0 <= k < ls.len(),
    ensures
        layers_size(ls.subrange(0, k + 1)) == layers_size(ls.subrange(0, k)) + layer_size(ls[k]),
        layers_size(ls.subrange(0, k + 1)) <= layers_size(ls),
    decreases ls.len() - k,
{
    assert(ls.subrange(0, k + 1).drop_last() =~= ls.subrange(0, k));
    if k + 1 < ls.len() {
        lemma_layers_size_grow(ls, k + 1);
        lemma_layer_size_pos(ls[k + 1]);
    } else {
        assert(ls.subrange(0, k + 1) =~= ls);
    }
}

/// Writes the layer blocks; gives the layers reading them back gives.
fn write_mdf_layers(result: &mut Vec<u8>, layers: &Vec<Layer>, mode: u16, bt: BufferType, Ghost(st0): Ghost<MdfBlocks>, Ghost(wr): Ghost<bool>) -> (ls: Ghost<
    Seq<MdfLayer>,
>)
    requires
        wr ==> forall|k: int| 0 <= k < layers@.len() ==> layer_writable(#[trigger] layers@[k]),
        mode == 0 || mode == 2 || mode == 4 || mode == 6,
        91 <= old(result).len(),
        old(result).len() + layers_size(layers@) <= usize::MAX,
        forall|k: int| 0 <= k < layers@.len() ==> grid_width((#[trigger] layers@[k]).grid()) * layers@[k].lines.len() <= mdf_max_index(),
        wr ==> blocks_chain(old(result)@, bt, old(result).len() as int, st0),
    ensures
        final(result)@.subrange(0, old(result).len() as int) == old(result)@,
        old(result).len() <= final(result).len() <= old(result).len() + layers_size(layers@),
        wr ==> {
            &&& ls@.len() == layers@.len()
            &&& forall|k: int|
                0 <= k < layers@.len() ==> {
                    &&& (#[trigger] ls@[k]).name == layers@[k].name@
                    &&& ls@[k].visible == layers@[k].is_visible
                    &&& layer_reads_back(layers@[k], ls@[k].grid, mode, bt)
                }
            &&& blocks_chain(final(result)@, bt, final(result).len() as int, MdfBlocks { layers: st0.layers + ls@, ..st0 })
        },
{
    let ghost r0 = result@;
    let ghost mut ls: Seq<MdfLayer> = Seq::empty();
    let mut k: usize = 0;
    proof {
        assert(layers@.subrange(0, 0) =~= Seq::<Layer>::empty());
        assert(result@.subrange(0, r0.len() as int) =~= r0);
        if wr {
            assert(MdfBlocks { layers: st0.layers + ls, ..st0 } == st0) by {
                assert(st0.layers + ls =~= st0.layers);
            }
        }
    }
    while k < layers.len()
        invariant
            k <= layers.len(),
            mode == 0 || mode == 2 || mode == 4 || mode == 6,
            91 <= r0.len() <= result.len(),
            r0.len() + layers_size(layers@) <= usize::MAX,
            forall|j: int| 0 <= j < layers@.len() ==> grid_width((#[trigger] layers@[j]).grid()) * layers@[j].lines.len() <= mdf_max_index(),
            wr ==> forall|j: int| 0 <= j < layers@.len() ==> layer_writable(#[trigger] layers@[j]),
            result@.subrange(0, r0.len() as int) == r0,
            result.len() <= r0.len() + layers_size(layers@.subrange(0, k as int)),
            wr ==> {
                &&& ls.len() == k
                &&& forall|j: int|
                    0 <= j < k ==> {
                        &&& (#[trigger] ls[j]).name == layers@[j].name@
                        &&& ls[j].visible == layers@[j].is_visible
                        &&& layer_reads_back(layers@[j], ls[j].grid, mode, bt)
                    }
                &&& blocks_chain(result@, bt, result.len() as int, MdfBlocks { layers: st0.layers + ls, ..st0 })
            },
        decreases layers.len() - k,
    {
        proof {
            lemma_layers_size_grow(layers@, k as int);
        }
        let ghost rb = result@;
        let g = write_layer(result, &layers[k], mode, bt);
        proof {
            lemma_prefix_chain(r0, rb, result@, r0.len() as int);
            if wr {
                let l = layers@[k as int];
                assert(layer_writable(l));
                let ml = MdfLayer { name: l.name@, visible: l.is_visible, grid: g@ };
                let st = MdfBlocks { layers: st0.layers + ls, ..st0 };
                let st2 = MdfBlocks { layers: st0.layers + ls.push(ml), ..st0 };
                assert(st2 == MdfBlocks { layers: st.layers.push(ml), ..st }) by {
                    assert(st0.layers + ls.push(ml) =~= (st0.layers + ls).push(ml));
                }
                assert forall|e: Seq<u8>| agrees(e, result@, rb.len() as int) implies #[trigger] mdf_block(e, rb.len() as int, bt, st)
                    == Ok::<(int, MdfBlocks), LoadError>((result.len() as int, st2)) by {
                    assert(e[rb.len() as int] == result@[rb.len() as int]);
                }
                lemma_chain_step(rb, result@, bt, st, st2);
                ls = ls.push(ml);
            }
        }
        k = k + 1;
    }
    proof {
        assert(layers@.subrange(0, k as int) =~= layers@);
    }
    Ghost(ls)
}

/// What a written file holds: the id and an end of file byte, the
/// checksum of everything after it, the version, text fields, size and
/// flags; and for a buffer whose file reads back, blocks that read back as
/// the buffer's comments, palette, font and layers.
pub open spec fn mdf_saved(b: Buffer, out: Seq<u8>) -> bool {
    &&& out.len() >= 8 + mdf_head(b).len()
    &&& out.subrange(0, 4) == seq![77u8, 68u8, 102u8, 26u8]
    &&& out.subrange(4, 8) == be32_bytes(crc32(out.subrange(8, out.len() as int)))
    &&& out.subrange(8, 8 + mdf_head(b).len() as int) == mdf_head(b)
    &&& mdf_writable(b) ==> mdf_parse(out) is Ok && mdf_saved_blocks(b, mdf_parse(out)->Ok_0)
}

proof fn lemma_layers_size_nonneg(ls: Seq<Layer>)
    ensures
        layers_size(ls) >= 0,
    decreases ls.len(),
{
    if ls.len() > 0 {
        lemma_layers_size_nonneg(ls.drop_last());
        lemma_layer_size_pos(ls.last());
    }
}

/// Writes the comment block.
fn mdf_comment_part(result: &mut Vec<u8>, buf: &Buffer, Ghost(st): Ghost<MdfBlocks>) -> (st2: Ghost<MdfBlocks>)
    requires
        1 <= buf.comments@.len() <= 255,
        91 <= old(result).len(),
        old(result).len() + 2 + comment_lines(buf.comments@).len() <= usize::MAX,
        mdf_writable(*buf) ==> blocks_chain(old(result)@, buf.buffer_type, old(result).len() as int, st),
    ensures
        final(result)@.subrange(0, old(result).len() as int) == old(result)@,
        final(result).len() == old(result).len() + 2 + comment_lines(buf.comments@).len(),
        st2@ == (MdfBlocks { comments: st.comments + comment_texts(buf.comments@), ..st }),
        mdf_writable(*buf) ==> blocks_chain(final(result)@, buf.buffer_type, final(result).len() as int, st2@),
{
    let bt = buf.buffer_type;
    let ghost rb = result@;
    write_comments(result, &buf.comments);
    let ghost st2 = MdfBlocks { comments: st.comments + comment_texts(buf.comments@), ..st };
    proof {
        assert(result@.subrange(0, rb.len() as int) =~= rb);
        if mdf_writable(*buf) {
            lemma_comment_lines_len(buf.comments@);
            assert forall|e: Seq<u8>| agrees(e, result@, rb.len() as int) implies #[trigger] mdf_block(e, rb.len() as int, bt, st)
                == Ok::<(int, MdfBlocks), LoadError>((result.len() as int, st2)) by {
                lemma_comments_decode(e, rb.len() as int, rb, buf.comments@, bt, st);
            }
            lemma_chain_step(rb, result@, bt, st, st2);
        }
    }
    Ghost(st2)
}

/// Writes the palette block.
fn mdf_palette_part(result: &mut Vec<u8>, buf: &Buffer, Ghost(st): Ghost<MdfBlocks>) -> (st2: Ghost<MdfBlocks>)
    requires
        91 <= old(result).len(),
        old(result).len() + 5 + 3 * buf.palette.colors@.len() <= usize::MAX,
        mdf_writable(*buf) ==> blocks_chain(old(result)@, buf.buffer_type, old(result).len() as int, st),
    ensures
        final(result)@.subrange(0, old(result).len() as int) == old(result)@,
        final(result).len() == old(result).len() + 5 + 3 * buf.palette.colors@.len(),
        st2@ == (MdfBlocks { palette: Some(buf.palette.colors@), ..st }),
        mdf_writable(*buf) ==> blocks_chain(final(result)@, buf.buffer_type, final(result).len() as int, st2@),
{
    let bt = buf.buffer_type;
    let ghost rb = result@;
    write_palette(result, &buf.palette.colors);
    let ghost st2 = MdfBlocks { palette: Some(buf.palette.colors@), ..st };
    proof {
        assert(result@.subrange(0, rb.len() as int) =~= rb);
        if mdf_writable(*buf) {
            assert forall|e: Seq<u8>| agrees(e, result@, rb.len() as int) implies #[trigger] mdf_block(e, rb.len() as int, bt, st)
                == Ok::<(int, MdfBlocks), LoadError>((result.len() as int, st2)) by {
                lemma_palette_decode(e, rb.len() as int, rb, buf.palette.colors@, bt, st);
            }
            lemma_chain_step(rb, result@, bt, st, st2);
        }
    }
    Ghost(st2)
}

/// What the font block sets.
pub open spec fn font_blocks(b: Buffer, st: MdfBlocks) -> MdfBlocks {
    match b.font {
        Some(f) => MdfBlocks {
            font: Some(MdfFont { name: f.name.0@, width: f.size.width as u8, height: f.size.height as u8, data: f.data@ }),
            font_seen: true,
            ..st
        },
        None => MdfBlocks { font_name: Some(named_font(b)), font_seen: true, ..st },
    }
}

/// An upper bound of the bytes of the font block.
pub open spec fn font_size(b: Buffer) -> int {
    26 + padded(named_font(b), 22, 0).len() + (match b.font {
        Some(f) => padded(f.name.0@, 22, 0).len() + 2 * f.data@.len() as int,
        None => 0int,
    })
}

/// Writes the font block, or the font name block without a font.
fn mdf_font_part(result: &mut Vec<u8>, buf: &Buffer, Ghost(st): Ghost<MdfBlocks>)
    requires
        91 <= old(result).len(),
        !st.font_seen,
        old(result).len() + font_size(*buf) <= usize::MAX,
        mdf_writable(*buf) ==> blocks_chain(old(result)@, buf.buffer_type, old(result).len() as int, st),
    ensures
        final(result)@.subrange(0, old(result).len() as int) == old(result)@,
        old(result).len() < final(result).len() <= old(result).len() + font_size(*buf),
        mdf_writable(*buf) ==> blocks_chain(final(result)@, buf.buffer_type, final(result).len() as int, font_blocks(*buf, st)),
{
    let bt = buf.buffer_type;
    let ghost rf = result@;
    let ghost st2 = font_blocks(*buf, st);
    match &buf.font {
        Some(f) => {
            write_font(result, f);
            proof {
                let w8 = f.size.width as u8;
                if mdf_writable(*buf) {
                    assert(scan_bytes(f.data@, w8 >= 9).len() == 256 * f.size.height * scan_width(w8)) by (nonlinear_arith)
                        requires
                            f.data@.len() == 256 * f.size.height,
                            scan_bytes(f.data@, w8 >= 9).len() == (if w8 >= 9 { 2 * f.data@.len() } else { f.data@.len() }),
                            scan_width(w8) == (if w8 < 9 { 1int } else { 2int }),
                    ;
                    assert forall|e: Seq<u8>| agrees(e, result@, rf.len() as int) implies #[trigger] mdf_block(e, rf.len() as int, bt, st)
                        == Ok::<(int, MdfBlocks), LoadError>((result.len() as int, st2)) by {
                        lemma_font_decode(e, rf.len() as int, rf, *f, bt, st);
                    }
                    assert(result@.subrange(0, rf.len() as int) =~= rf);
                    lemma_chain_step(rf, result@, bt, st, st2);
                }
            }
        },
        None => {
            match &buf.font_name {
                Some(n) => {
                    write_font_name(result, n);
                },
                None => {
                    let d = SauceString::<22, 0>(vec![73u8, 66u8, 77u8, 32u8, 86u8, 71u8, 65u8]);
                    assert(d.0@ =~= default_font_name());
                    write_font_name(result, &d);
                },
            }
            proof {
                if mdf_writable(*buf) {
                    assert forall|e: Seq<u8>| agrees(e, result@, rf.len() as int) implies #[trigger] mdf_block(e, rf.len() as int, bt, st)
                        == Ok::<(int, MdfBlocks), LoadError>((result.len() as int, st2)) by {
                        lemma_font_name_decode(e, rf.len() as int, rf, named_font(*buf), bt, st);
                    }
                    assert(result@.subrange(0, rf.len() as int) =~= rf);
                    lemma_chain_step(rf, result@, bt, st, st2);
                }
            }
        },
    }
    assert(result@.subrange(0, rf.len() as int) =~= rf);
}

/// What the blocks before the layers set.
pub open spec fn front_blocks(b: Buffer) -> MdfBlocks {
    font_blocks(
        b,
        MdfBlocks {
            comments: comment_texts(b.comments@),
            palette: if b.palette.colors@ == dos_default_palette() {
                None
            } else {
                Some(b.palette.colors@)
            },
            ..no_blocks()
        },
    )
}

proof fn lemma_mdf_flags(bt: BufferType)
    ensures
        mdf_buffer_type(mdf_flags(bt)) == Some(bt),
        be16_bytes(mdf_flags(bt))[0] as int * 256 + be16_bytes(mdf_flags(bt))[1] as int == mdf_flags(bt) as int,
{
    assert(0u16 & 7u16 == 0u16 && 1u16 & 7u16 == 1u16 && 2u16 & 7u16 == 2u16 && 3u16 & 7u16 == 3u16 && 7u16 & 7u16 == 7u16)
        by (bit_vector);
}

/// With the checksum in place, the written file is what `mdf_saved` says.
#[verifier::spinoff_prover]
proof fn lemma_mdf_finish(b: Buffer, head: Seq<u8>, pre: Seq<u8>, out: Seq<u8>, crc: u32, ls: Seq<MdfLayer>)
    requires
        head == seq![77u8, 68u8, 102u8, 26u8, 0u8, 0u8, 0u8, 0u8] + mdf_head(b),
        pre.len() >= head.len(),
        pre.subrange(0, head.len() as int) == head,
        out.len() == pre.len(),
        forall|k: int| 0 <= k < out.len() && !(4 <= k < 8) ==> out[k] == pre[k],
        out.subrange(4, 8) == be32_bytes(crc),
        crc == crc32(pre.subrange(8, pre.len() as int)),
        mdf_writable(b) ==> {
            &&& pre.len() >= 91
            &&& blocks_chain(pre, b.buffer_type, pre.len() as int, MdfBlocks { layers: ls, ..front_blocks(b) })
            &&& ls.len() == b.layers@.len()
            &&& forall|k: int|
                0 <= k < b.layers@.len() ==> {
                    &&& (#[trigger] ls[k]).name == b.layers@[k].name@
                    &&& ls[k].visible == b.layers@[k].is_visible
                    &&& layer_reads_back(b.layers@[k], ls[k].grid, attr_mode(b.palette.colors@.len() as int), b.buffer_type)
                }
        },
    ensures
        mdf_saved(b, out),
{
    let bt = b.buffer_type;
    assert(out.subrange(8, out.len() as int) =~= pre.subrange(8, pre.len() as int));
    assert(out.subrange(0, 4) =~= seq![77u8, 68u8, 102u8, 26u8]) by {
        assert forall|k: int| 0 <= k < 4 implies out[k] == head[k] by {
            assert(pre.subrange(0, head.len() as int)[k] == pre[k]);
        }
    }
    assert(out.subrange(8, 8 + mdf_head(b).len() as int) =~= mdf_head(b)) by {
        assert forall|k: int| 0 <= k < mdf_head(b).len() implies out[8 + k] == mdf_head(b)[k] by {
            assert(pre.subrange(0, head.len() as int)[8 + k] == pre[8 + k]);
        }
    }
    if mdf_writable(b) {
        lemma_mdf_finish_parse(b, head, pre, out, crc, ls);
    }
}

#[verifier::rlimit(100)]
#[verifier::spinoff_prover]
proof fn lemma_mdf_finish_parse(b: Buffer, head: Seq<u8>, pre: Seq<u8>, out: Seq<u8>, crc: u32, ls: Seq<MdfLayer>)
    requires
        head == seq![77u8, 68u8, 102u8, 26u8, 0u8, 0u8, 0u8, 0u8] + mdf_head(b),
        pre.len() >= head.len(),
        pre.subrange(0, head.len() as int) == head,
        out.len() == pre.len(),
        forall|k: int| 0 <= k < out.len() && !(4 <= k < 8) ==> out[k] == pre[k],
        out.subrange(4, 8) == be32_bytes(crc),
        crc == crc32(pre.subrange(8, pre.len() as int)),
        out.subrange(8, out.len() as int) == pre.subrange(8, pre.len() as int),
        out.subrange(0, 4) == seq![77u8, 68u8, 102u8, 26u8],
        mdf_writable(b),
        pre.len() >= 91,
        blocks_chain(pre, b.buffer_type, pre.len() as int, MdfBlocks { layers: ls, ..front_blocks(b) }),
    ensures
        mdf_parse(out) == Ok::<MdfBlocks, LoadError>(MdfBlocks { layers: ls, ..front_blocks(b) }),
{
    let bt = b.buffer_type;
    let stf = MdfBlocks { layers: ls, ..front_blocks(b) };
    assert(agrees(out, pre, 91));
    assert(mdf_blocks(out, 91, bt, no_blocks()) == mdf_blocks(out, out.len() as int, bt, stf));
    assert(out.subrange(0, 3) =~= mdf_id()) by {
        assert(out[0] == out.subrange(0, 4)[0] && out[1] == out.subrange(0, 4)[1] && out[2] == out.subrange(0, 4)[2]);
    }
    lemma_be32_bytes(out, 4, crc);
    assert(out[89] == head[89] && out[90] == head[90]) by {
        assert(pre.subrange(0, head.len() as int)[89] == pre[89]);
        assert(pre.subrange(0, head.len() as int)[90] == pre[90]);
    }
    assert(head[89] == mdf_head(b)[81] && head[90] == mdf_head(b)[82]);
    assert(mdf_head(b)[81] == be16_bytes(mdf_flags(bt))[0] && mdf_head(b)[82] == be16_bytes(mdf_flags(bt))[1]);
    lemma_mdf_flags(bt);
    assert(be16(out, 89) == mdf_flags(bt) as int);
    assert(mdf_buffer_type(be16(out, 89) as u16) == Some(bt));
}

/// Writes a buffer as a Mystic Draw file: the header, a comment block if
/// there are comments, a palette block unless the palette is the default
/// one, the font (by name when the buffer has no font of its own), and a
/// compressed block per layer; the checksum covers all after it. More than
/// 255 comments are refused.
pub fn convert_to_mdf(buf: &Buffer) -> (res: Result<Vec<u8>, SaveError>)
    requires
        mdf_size(*buf) <= usize::MAX,
        forall|k: int| 0 <= k < buf.layers@.len() ==> grid_width((#[trigger] buf.layers@[k]).grid()) * buf.layers@[k].lines.len()
            <= mdf_max_index(),
    ensures
        buf.comments@.len() > 255 ==> res == Err::<Vec<u8>, SaveError>(SaveError::MdfTooManyComments),
        buf.comments@.len() <= 255 ==> res is Ok && mdf_saved(*buf, res->Ok_0@),
{
    let ghost wr = mdf_writable(*buf);
    let bt = buf.buffer_type;
    proof {
        lemma_layers_size_nonneg(buf.layers@);
    }
    let mut result: Vec<u8> = Vec::new();
    write_mdf_head(&mut result, buf);
    let ghost head = result@;
    let ghost mut st = no_blocks();
    let ghost base = 8 + mdf_head(*buf).len();
    proof {
        if wr {
            assert(result.len() == 91);
        }
        assert(mdf_head(*buf).len() >= 83);
    }
    if buf.comments.len() > 0 {
        if buf.comments.len() > 255 {
            return Err(SaveError::MdfTooManyComments);
        }
        let g = mdf_comment_part(&mut result, buf, Ghost(st));
        proof {
            st = g@;
        }
    } else {
        proof {
            assert(comment_lines(buf.comments@) =~= Seq::<u8>::empty());
            assert(st.comments + comment_texts(buf.comments@) =~= st.comments);
        }
    }
    let ghost r1 = result@;
    assert(result.len() <= base + 2 + comment_lines(buf.comments@).len());
    if !buf.palette.is_default() {
        let g = mdf_palette_part(&mut result, buf, Ghost(st));
        proof {
            st = g@;
        }
    }
    let ghost r2 = result@;
    assert(result.len() <= base + 2 + comment_lines(buf.comments@).len() + 5 + 3 * buf.palette.colors@.len());
    mdf_font_part(&mut result, buf, Ghost(st));
    proof {
        st = font_blocks(*buf, st);
    }
    let ghost r3 = result@;
    let ncolors = buf.palette.colors.len();
    let mode: u16 = if ncolors <= 16 {
        0
    } else if ncolors <= 128 {
        2
    } else if ncolors <= 65536 {
        4
    } else {
        6
    };
    let ls = write_mdf_layers(&mut result, &buf.layers, mode, bt, Ghost(st), Ghost(wr));
    let ghost pre = result@;
    proof {
        assert(r1.subrange(0, head.len() as int) =~= head);
        assert(r2.subrange(0, r1.len() as int) =~= r1);
        lemma_prefix_chain(head, r1, r2, head.len() as int);
        lemma_prefix_chain(head, r2, r3, head.len() as int);
        lemma_prefix_chain(head, r3, pre, head.len() as int);
    }
    let len = result.len();
    let crc = crc32_hash(vstd::slice::slice_subrange(result.as_slice(), 8, len));
    result.set(4, (crc / 16777216) as u8);
    result.set(5, ((crc / 65536) % 256) as u8);
    result.set(6, ((crc / 256) % 256) as u8);
    result.set(7, (crc % 256) as u8);
    proof {
        assert(st == front_blocks(*buf)) by {
            assert(st.comments =~= comment_texts(buf.comments@));
        }
        assert(st.layers =~= Seq::<MdfLayer>::empty());
        assert(MdfBlocks { layers: st.layers + ls@, ..st } == MdfBlocks { layers: ls@, ..front_blocks(*buf) }) by {
            assert(st.layers + ls@ =~= ls@);
        }
        assert(result@.subrange(4, 8) =~= be32_bytes(crc));
        assert forall|k: int| 0 <= k < result@.len() && !(4 <= k < 8) implies result@[k] == pre[k] by {}
        lemma_mdf_finish(*buf, head, pre, result@, crc, ls@);
    }
    Ok(result)
}

proof fn lemma_text_field_back(out: Seq<u8>, at: int, c: Seq<u8>, len: int)
    requires
        0 <= at,
        c.len() <= len,
        at + len <= out.len(),
        out.subrange(at, at + len) == padded(c, len, 32),
    ensures
        trimmed(field_at(out, at, len, 32)) == trimmed(c),
{
    let rest = out.subrange(at + len, out.len() as int);
    assert(out.subrange(at, out.len() as int) =~= padded(c, len, 32) + rest);
    lemma_read_padded_spaces(c, rest, len);
}

/// Saving a picture as a Mystic Draw file and opening the file again gives
/// the picture back: its text fields up to trailing blanks, size, buffer
/// type, comments, palette and font (or the name of the font it shows),
/// and its layers with their names, visibility, and at every position the
/// cell shown there, with the colors the attribute mode keeps.
pub proof fn lemma_mdf_roundtrip(b: Buffer, out: Seq<u8>, name: Seq<char>, r: Buffer)
    requires
        mdf_writable(b),
        mdf_saved(b, out),
        mdf_parse(out) is Ok,
        mdf_opened(name, out, mdf_parse(out)->Ok_0, r),
    ensures
        trimmed(r.title.0@) == trimmed(b.title.0@),
        trimmed(r.author.0@) == trimmed(b.author.0@),
        trimmed(r.group.0@) == trimmed(b.group.0@),
        r.width == b.width,
        r.height == b.height,
        r.buffer_type == b.buffer_type,
        r.comments@.len() == b.comments@.len(),
        forall|k: int| 0 <= k < b.comments@.len() ==> #[trigger] r.comments@[k].0@ == b.comments@[k].0@,
        r.palette.colors@ == b.palette.colors@,
        match b.font {
            Some(f) => r.font is Some && r.font->0.name.0@ == f.name.0@ && r.font->0.size == f.size && r.font->0.data@ == f.data@,
            None => r.font is None && r.font_name is Some && r.font_name.unwrap().0@ == named_font(b),
        },
        r.layers@.len() == b.layers@.len(),
        forall|k: int|
            0 <= k < b.layers@.len() ==> {
                &&& (#[trigger] r.layers@[k]).name@ == b.layers@[k].name@
                &&& r.layers@[k].is_visible == b.layers@[k].is_visible
                &&& layer_reads_back(b.layers@[k], r.layers@[k].grid(), attr_mode(b.palette.colors@.len() as int), b.buffer_type)
            },
{
    let st = mdf_parse(out)->Ok_0;
    let h = mdf_head(b);
    assert(h.len() == 83);
    assert forall|k: int| 0 <= k < 83 implies out[8 + k] == #[trigger] h[k] by {
        assert(out.subrange(8, 8 + h.len() as int)[k] == out[8 + k]);
    }
    assert(out.subrange(10, 45) =~= padded(b.title.0@, 35, 32)) by {
        assert forall|j: int| 0 <= j < 35 implies out.subrange(10, 45)[j] == padded(b.title.0@, 35, 32)[j] by {
            assert(out[8 + (2 + j)] == h[2 + j]);
        }
    }
    assert(out.subrange(45, 65) =~= padded(b.author.0@, 20, 32)) by {
        assert forall|j: int| 0 <= j < 20 implies out.subrange(45, 65)[j] == padded(b.author.0@, 20, 32)[j] by {
            assert(out[8 + (37 + j)] == h[37 + j]);
        }
    }
    assert(out.subrange(65, 85) =~= padded(b.group.0@, 20, 32)) by {
        assert forall|j: int| 0 <= j < 20 implies out.subrange(65, 85)[j] == padded(b.group.0@, 20, 32)[j] by {
            assert(out[8 + (57 + j)] == h[57 + j]);
        }
    }
    lemma_text_field_back(out, 10, b.title.0@, 35);
    lemma_text_field_back(out, 45, b.author.0@, 20);
    lemma_text_field_back(out, 65, b.group.0@, 20);
    assert(out[85] == h[77] && out[86] == h[78] && out[87] == h[79] && out[88] == h[80] && out[89] == h[81] && out[90] == h[82]);
    lemma_mdf_flags(b.buffer_type);
    assert forall|k: int| 0 <= k < b.comments@.len() implies #[trigger] r.comments@[k].0@ == b.comments@[k].0@ by {
        assert(st.comments[k] == comment_texts(b.comments@)[k]);
    }
    assert forall|k: int|
        0 <= k < b.layers@.len() implies {
            &&& (#[trigger] r.layers@[k]).name@ == b.layers@[k].name@
            &&& r.layers@[k].is_visible == b.layers@[k].is_visible
            &&& layer_reads_back(b.layers@[k], r.layers@[k].grid(), attr_mode(b.palette.colors@.len() as int), b.buffer_type)
        } by {
        assert(st.layers[k].name == b.layers@[k].name@);
    }
}

} // verus!
