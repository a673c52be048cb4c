use vstd::prelude::*;

use crate::buffer::Buffer;
use crate::sauce_string::{padded, read_field, read_into, trimmed, SauceString};
use crate::text_attribute::BufferType;

verus! {

/// The data type byte of a SAUCE record.
#[derive(Clone, Copy, Debug, PartialEq, Eq, Structural)]
pub enum SauceDataType {
    Undefined,
    Character,
    Bitmap,
    Vector,
    Audio,
    BinaryText,
    XBin,
    Archive,
    Executable,
}

impl SauceDataType {
    pub open spec fn spec_from(b: u8) -> SauceDataType {
        if b == 1 {
            SauceDataType::Character
        } else if b == 2 {
            SauceDataType::Bitmap
        } else if b == 3 {
            SauceDataType::Vector
        } else if b == 4 {
            SauceDataType::Audio
        } else if b == 5 {
            SauceDataType::BinaryText
        } else if b == 6 {
            SauceDataType::XBin
        } else if b == 7 {
            SauceDataType::Archive
        } else if b == 8 {
            SauceDataType::Executable
        } else {
            SauceDataType::Undefined
        }
    }

    /// The data type a byte names; unknown bytes are `Undefined`.
    pub fn from(b: u8) -> (r: SauceDataType)
        ensures
            r == Self::spec_from(b),
    {
        match b {
            1 => SauceDataType::Character,
            2 => SauceDataType::Bitmap,
            3 => SauceDataType::Vector,
            4 => SauceDataType::Audio,
            5 => SauceDataType::BinaryText,
            6 => SauceDataType::XBin,
            7 => SauceDataType::Archive,
            8 => SauceDataType::Executable,
            _ => SauceDataType::Undefined,
        }
    }

    pub open spec fn spec_as_u8(self) -> u8 {
        match self {
            SauceDataType::Undefined => 0,
            SauceDataType::Character => 1,
            SauceDataType::Bitmap => 2,
            SauceDataType::Vector => 3,
            SauceDataType::Audio => 4,
            SauceDataType::BinaryText => 5,
            SauceDataType::XBin => 6,
            SauceDataType::Archive => 7,
            SauceDataType::Executable => 8,
        }
    }

    pub fn as_u8(self) -> (r: u8)
        ensures
            r == self.spec_as_u8(),
    {
        match self {
            SauceDataType::Undefined => 0,
            SauceDataType::Character => 1,
            SauceDataType::Bitmap => 2,
            SauceDataType::Vector => 3,
            SauceDataType::Audio => 4,
            SauceDataType::BinaryText => 5,
            SauceDataType::XBin => 6,
            SauceDataType::Archive => 7,
            SauceDataType::Executable => 8,
        }
    }
}

/// The kind of picture a SAUCE record announces.
#[derive(Clone, Copy, Debug, PartialEq, Eq, Structural)]
pub enum SauceFileType {
    Undefined,
    Ascii,
    Ansi,
    ANSiMation,
    PCBoard,
    Avatar,
    TundraDraw,
    Bin,
    XBin,
}

/// Why a SAUCE record could not be read or written.
#[derive(Clone, Copy, Debug, PartialEq, Eq, Structural)]
pub enum SauceError {
    /// The record's version is not `00`.
    UnsupportedVersion,
    /// The comment count points before the start of the data.
    InvalidCommentBlock,
    /// The comment block does not start with `COMNT`.
    InvalidCommentId,
    /// More than 255 comments.
    TooManyComments,
    /// A BIN picture wider than 510 columns.
    BinTooWide,
}

pub open spec fn sauce_id() -> Seq<u8> {
    seq![83u8, 65u8, 85u8, 67u8, 69u8]
}

pub open spec fn comment_id() -> Seq<u8> {
    seq![67u8, 79u8, 77u8, 78u8, 84u8]
}

pub open spec fn sauce_date() -> Seq<u8> {
    seq![50u8, 48u8, 49u8, 51u8, 48u8, 53u8, 48u8, 52u8]
}

/// Offset of the 128 byte SAUCE record at the end of `d`.
pub open spec fn rec(d: Seq<u8>) -> int {
    d.len() - 128
}

pub open spec fn has_sauce(d: Seq<u8>) -> bool {
    d.len() >= 128 && d.subrange(rec(d), rec(d) + 5) == sauce_id()
}

pub open spec fn sauce_version_ok(d: Seq<u8>) -> bool {
    d[rec(d) + 5] == 48 && d[rec(d) + 6] == 48
}

pub open spec fn sauce_title(d: Seq<u8>) -> Seq<u8> {
    read_field(d.subrange(rec(d) + 7, d.len() as int), 35, 32)
}

pub open spec fn sauce_author(d: Seq<u8>) -> Seq<u8> {
    read_field(d.subrange(rec(d) + 42, d.len() as int), 20, 32)
}

pub open spec fn sauce_group(d: Seq<u8>) -> Seq<u8> {
    read_field(d.subrange(rec(d) + 62, d.len() as int), 20, 32)
}

pub open spec fn sauce_data_type(d: Seq<u8>) -> SauceDataType {
    SauceDataType::spec_from(d[rec(d) + 94])
}

pub open spec fn sauce_type_byte(d: Seq<u8>) -> u8 {
    d[rec(d) + 95]
}

pub open spec fn sauce_tinfo1(d: Seq<u8>) -> u16 {
    (d[rec(d) + 96] as int + d[rec(d) + 97] as int * 256) as u16
}

pub open spec fn sauce_tinfo2(d: Seq<u8>) -> u16 {
    (d[rec(d) + 98] as int + d[rec(d) + 99] as int * 256) as u16
}

pub open spec fn sauce_num_comments(d: Seq<u8>) -> u8 {
    d[rec(d) + 104]
}

pub open spec fn sauce_flags(d: Seq<u8>) -> u8 {
    d[rec(d) + 105]
}

pub open spec fn sauce_font(d: Seq<u8>) -> Seq<u8> {
    read_field(d.subrange(rec(d) + 106, d.len() as int), 22, 0)
}

/// The picture kind that a data type and a file type byte announce.
pub open spec fn sauce_kind(dt: SauceDataType, ft: u8) -> SauceFileType {
    match dt {
        SauceDataType::BinaryText => SauceFileType::Bin,
        SauceDataType::XBin => SauceFileType::XBin,
        SauceDataType::Character => if ft == 0 {
            SauceFileType::Ascii
        } else if ft == 1 {
            SauceFileType::Ansi
        } else if ft == 2 {
            SauceFileType::ANSiMation
        } else if ft == 4 {
            SauceFileType::PCBoard
        } else if ft == 5 {
            SauceFileType::Avatar
        } else if ft == 8 {
            SauceFileType::TundraDraw
        } else {
            SauceFileType::Undefined
        },
        _ => SauceFileType::Undefined,
    }
}

pub open spec fn record_kind(d: Seq<u8>) -> SauceFileType {
    sauce_kind(sauce_data_type(d), sauce_type_byte(d))
}

/// Whether the kind takes width and height from the record.
pub open spec fn kind_sets_dims(k: SauceFileType) -> bool {
    k != SauceFileType::Undefined && k != SauceFileType::Bin
}

/// Whether the kind takes the non-blink flag and the font name.
pub open spec fn kind_sets_flags(k: SauceFileType) -> bool {
    k == SauceFileType::Bin || k == SauceFileType::Ascii || k == SauceFileType::Ansi || k
        == SauceFileType::ANSiMation
}

/// Where the comment block of a record with comments would start.
pub open spec fn comment_start(d: Seq<u8>) -> int {
    rec(d) - sauce_num_comments(d) * 64 - 5
}

/// The comment count check, done on a 32 bit signed offset.
pub open spec fn comment_check(d: Seq<u8>) -> int {
    (rec(d) as i32) as int - sauce_num_comments(d) * 64 - 5
}

pub open spec fn sauce_comment(d: Seq<u8>, i: int) -> Seq<u8> {
    read_field(d.subrange(comment_start(d) + 5 + 64 * i, d.len() as int), 64, 0)
}

/// The inputs on which reading a record would compute a negative file
/// size or overflow the signed comment offset check.
pub open spec fn sauce_readable(d: Seq<u8>) -> bool {
    has_sauce(d) && sauce_version_ok(d) ==> {
        &&& sauce_num_comments(d) == 0 ==> d.len() > 128
        &&& sauce_num_comments(d) > 0 ==> {
            &&& comment_check(d) >= i32::MIN
            &&& comment_check(d) >= 0 && d.subrange(comment_start(d), comment_start(d) + 5) == comment_id()
                ==> comment_start(d) > 0
        }
    }
}

/// Whether reading the SAUCE record of a file is clear of the cases
/// `sauce_readable` leaves out.
pub fn sauce_readable_exec(data: &[u8]) -> (r: bool)
    requires
        data.len() <= 0x7fff_0000,
    ensures
        r == sauce_readable(data@),
{
    let n = data.len();
    if n < 128 {
        return true;
    }
    let r = n - 128;
    let d = data;
    if !(d[r] == 83 && d[r + 1] == 65 && d[r + 2] == 85 && d[r + 3] == 67 && d[r + 4] == 69) {
        proof {
            if has_sauce(d@) {
                assert(d@.subrange(r as int, r + 5)[0] == d@[r as int]);
                assert(d@.subrange(r as int, r + 5)[1] == d@[r + 1]);
                assert(d@.subrange(r as int, r + 5)[2] == d@[r + 2]);
                assert(d@.subrange(r as int, r + 5)[3] == d@[r + 3]);
                assert(d@.subrange(r as int, r + 5)[4] == d@[r + 4]);
            }
        }
        return true;
    }
    assert(d@.subrange(r as int, r + 5) =~= sauce_id());
    if !(d[r + 5] == 48 && d[r + 6] == 48) {
        return true;
    }
    let nc = d[r + 104] as usize;
    if nc == 0 {
        return n > 128;
    }
    assert((r as i32) as int == r);
    if r < nc * 64 + 5 {
        return true;
    }
    let cs = r - nc * 64 - 5;
    if d[cs] == 67 && d[cs + 1] == 79 && d[cs + 2] == 77 && d[cs + 3] == 78 && d[cs + 4] == 84 {
        assert(d@.subrange(cs as int, cs + 5) =~= comment_id());
        return cs > 0;
    }
    proof {
        if d@.subrange(cs as int, cs + 5) == comment_id() {
            assert(d@.subrange(cs as int, cs + 5)[0] == d@[cs as int]);
            assert(d@.subrange(cs as int, cs + 5)[1] == d@[cs + 1]);
            assert(d@.subrange(cs as int, cs + 5)[2] == d@[cs + 2]);
            assert(d@.subrange(cs as int, cs + 5)[3] == d@[cs + 3]);
            assert(d@.subrange(cs as int, cs + 5)[4] == d@[cs + 4]);
        }
    }
    true
}

/// A 16 bit value as two little endian bytes.
pub open spec fn le16(v: u16) -> Seq<u8> {
    seq![(v % 256) as u8, (v / 256) as u8]
}

/// A 32 bit value as four little endian bytes.
pub open spec fn le32(v: u32) -> Seq<u8> {
    seq![(v % 256) as u8, (v / 256 % 256) as u8, (v / 65536 % 256) as u8, (v / 16777216) as u8]
}

/// The comment lines, each padded to 64 bytes.
pub open spec fn comment_lines(cs: Seq<SauceString<64, 0>>) -> Seq<u8>
    decreases cs.len(),
{
    if cs.len() == 0 {
        Seq::empty()
    } else {
        comment_lines(cs.drop_last()) + padded(cs.last().0@, 64, 0)
    }
}

/// The comment block written before a record: nothing without comments,
/// else `COMNT` and the lines.
pub open spec fn comment_block(cs: Seq<SauceString<64, 0>>) -> Seq<u8> {
    if cs.len() == 0 {
        Seq::empty()
    } else {
        comment_id() + comment_lines(cs)
    }
}

/// What `write_sauce_info` writes after the end of file byte up to and
/// including the file size field.
pub open spec fn sauce_head(b: Buffer, file_size: u32) -> Seq<u8> {
    comment_block(b.comments@) + sauce_id() + seq![48u8, 48u8] + padded(b.title.0@, 35, 32) + padded(
        b.author.0@,
        20,
        32,
    ) + padded(b.group.0@, 20, 32) + sauce_date() + le32(file_size)
}

/// The data type, file type byte, the two numeric infos, the flags and
/// whether the font name is written, for a picture kind.
pub open spec fn write_fields(b: Buffer, kind: SauceFileType) -> (SauceDataType, u8, u16, u16, u8, bool) {
    let ice: u8 = if b.buffer_type.spec_use_ice_colors() { 1 } else { 0 };
    match kind {
        SauceFileType::Ascii => (SauceDataType::Character, 0, b.width, b.height, ice, true),
        SauceFileType::Undefined | SauceFileType::Ansi => (SauceDataType::Character, 1, b.width, b.height, ice, true),
        SauceFileType::ANSiMation => (SauceDataType::Character, 2, b.width, b.height, ice, true),
        SauceFileType::PCBoard => (SauceDataType::Character, 4, b.width, b.height, 0, false),
        SauceFileType::Avatar => (SauceDataType::Character, 5, b.width, b.height, 0, false),
        SauceFileType::TundraDraw => (SauceDataType::Character, 8, b.width, 0, 0, false),
        SauceFileType::Bin => (SauceDataType::BinaryText, (b.width / 2) as u8, 0, 0, ice, true),
        SauceFileType::XBin => (SauceDataType::XBin, 0, b.width, b.height, 0, false),
    }
}

/// The font name field: the buffer's font name where the kind has one.
pub open spec fn tinfo_bytes(b: Buffer, with_font: bool) -> Seq<u8> {
    if with_font && b.font_name is Some {
        padded(b.font_name.unwrap().0@, 22, 0)
    } else {
        padded(Seq::empty(), 22, 0)
    }
}

/// What `write_sauce_info` writes after the file size field.
pub open spec fn sauce_tail(b: Buffer, kind: SauceFileType) -> Seq<u8> {
    let f = write_fields(b, kind);
    seq![f.0.spec_as_u8(), f.1] + le16(f.2) + le16(f.3) + seq![0u8, 0u8, 0u8, 0u8] + seq![
        b.comments@.len() as u8,
        f.4,
    ] + tinfo_bytes(b, f.5)
}

proof fn lemma_comment_lines_prefix(cs: Seq<SauceString<64, 0>>, i: int)
    requires
        0 <= i < cs.len(),
    ensures
        comment_lines(cs.subrange(0, i + 1)) == comment_lines(cs.subrange(0, i)) + padded(cs[i].0@, 64, 0),
        comment_lines(cs.subrange(0, i + 1)).len() <= comment_lines(cs).len(),
    decreases cs.len(),
{
    assert(cs.subrange(0, i + 1).drop_last() =~= cs.subrange(0, i));
    if i + 1 < cs.len() {
        lemma_comment_lines_prefix(cs.drop_last(), i);
        assert(cs.drop_last().subrange(0, i + 1) =~= cs.subrange(0, i + 1));
        assert(cs.drop_last().subrange(0, i) =~= cs.subrange(0, i));
    } else {
        assert(cs.subrange(0, i + 1) =~= cs);
    }
}

fn push_bytes(vec: &mut Vec<u8>, bytes: &[u8])
    requires
        old(vec).len() + bytes.len() <= usize::MAX,
    ensures
        final(vec)@ == old(vec)@ + bytes@,
{
    let ghost start = vec@;
    let mut i: usize = 0;
    while i < bytes.len()
        invariant
            i <= bytes.len(),
            start.len() + bytes.len() <= usize::MAX,
            vec@ == start + bytes@.subrange(0, i as int),
        decreases bytes.len() - i,
    {
        vec.push(bytes[i]);
        proof {
            assert(bytes@.subrange(0, i + 1) =~= bytes@.subrange(0, i as int).push(bytes@[i as int]));
        }
        i = i + 1;
    }
    assert(bytes@.subrange(0, bytes.len() as int) =~= bytes@);
}

fn push_le16(vec: &mut Vec<u8>, v: u16)
    requires
        old(vec).len() + 2 <= usize::MAX,
    ensures
        final(vec)@ == old(vec)@ + le16(v),
{
    vec.push((v % 256) as u8);
    vec.push((v / 256) as u8);
    assert(vec@ =~= old(vec)@ + le16(v));
}

fn push_le32(vec: &mut Vec<u8>, v: u32)
    requires
        old(vec).len() + 4 <= usize::MAX,
    ensures
        final(vec)@ == old(vec)@ + le32(v),
{
    vec.push((v % 256) as u8);
    vec.push((v / 256 % 256) as u8);
    vec.push((v / 65536 % 256) as u8);
    vec.push((v / 16777216) as u8);
    assert(vec@ =~= old(vec)@ + le32(v));
}

/// What reading the SAUCE record of `d` returns: the announced kind and
/// the length of the picture data, or why the record is broken.
pub open spec fn sauce_result(d: Seq<u8>) -> Result<(SauceFileType, usize), SauceError> {
    if !has_sauce(d) {
        Ok((SauceFileType::Undefined, d.len() as usize))
    } else if !sauce_version_ok(d) {
        Err(SauceError::UnsupportedVersion)
    } else if sauce_num_comments(d) == 0 {
        Ok((record_kind(d), (d.len() - 129) as usize))
    } else if comment_check(d) < 0 {
        Err(SauceError::InvalidCommentBlock)
    } else if d.subrange(comment_start(d), comment_start(d) + 5) != comment_id() {
        Err(SauceError::InvalidCommentId)
    } else {
        Ok((record_kind(d), (comment_start(d) - 1) as usize))
    }
}

/// Whether `d` holds a readable record of version 00.
pub open spec fn sauce_applies(d: Seq<u8>) -> bool {
    has_sauce(d) && sauce_version_ok(d)
}

/// The width after reading the record of `d` into a buffer of width `w`.
pub open spec fn sauce_width(d: Seq<u8>, w: u16) -> u16 {
    let k = record_kind(d);
    if !sauce_applies(d) {
        w
    } else if k == SauceFileType::Bin {
        ((sauce_type_byte(d) as u16) << 1u16) as u16
    } else if kind_sets_dims(k) {
        sauce_tinfo1(d)
    } else {
        w
    }
}

/// The height after reading the record of `d` into a buffer of height `h`.
pub open spec fn sauce_height(d: Seq<u8>, h: u16) -> u16 {
    let k = record_kind(d);
    if sauce_applies(d) && kind_sets_dims(k) && k != SauceFileType::Bin {
        sauce_tinfo2(d)
    } else {
        h
    }
}

/// The color mode after reading the record of `d` into a buffer of mode
/// `bt`.
pub open spec fn sauce_buffer_type(d: Seq<u8>, bt: BufferType) -> BufferType {
    if sauce_applies(d) && kind_sets_flags(record_kind(d)) {
        if sauce_flags(d) & 1 == 1 {
            BufferType::LegacyIce
        } else {
            BufferType::LegacyDos
        }
    } else {
        bt
    }
}

/// Whether the record of `d` gives the picture's size.
pub open spec fn sauce_gives_size(d: Seq<u8>) -> bool {
    sauce_applies(d) && kind_sets_dims(record_kind(d))
}

fn bytes_equal(a: &[u8], off: usize, lit: &[u8]) -> (r: bool)
    requires
        off + lit.len() <= a.len(),
    ensures
        r == (a@.subrange(off as int, off + lit.len()) == lit@),
{
    let mut i: usize = 0;
    while i < lit.len()
        invariant
            i <= lit.len(),
            off + lit.len() <= a.len(),
            a@.subrange(off as int, off + i) == lit@.subrange(0, i as int),
        decreases lit.len() - i,
    {
        if a[off + i] != lit[i] {
            assert(a@.subrange(off as int, off + lit.len())[i as int] != lit@[i as int]);
            return false;
        }
        proof {
            assert(a@.subrange(off as int, off + i + 1) =~= lit@.subrange(0, i + 1));
        }
        i = i + 1;
    }
    assert(lit@.subrange(0, lit.len() as int) =~= lit@);
    true
}

fn sub_slice(d: &[u8], start: usize) -> (r: &[u8])
    requires
        start <= d.len(),
    ensures
        r@ == d@.subrange(start as int, d.len() as int),
{
    vstd::slice::slice_subrange(d, start, d.len())
}

impl Buffer {
    /// Reads the SAUCE record at the end of `data`, if there is one, into
    /// the buffer's metadata, size and color mode. Returns the announced
    /// picture kind and the length of the picture data before the record
    /// (and before the end of file byte that precedes it).
    pub fn read_sauce_info(&mut self, data: &[u8]) -> (res: Result<(SauceFileType, usize), SauceError>)
        requires
            sauce_readable(data@),
        ensures
            res == sauce_result(data@),
            final(self).width == sauce_width(data@, old(self).width),
            final(self).height == sauce_height(data@, old(self).height),
            final(self).buffer_type == sauce_buffer_type(data@, old(self).buffer_type),
            final(self).layers == old(self).layers,
            final(self).file_name == old(self).file_name,
            final(self).overlay_layer == old(self).overlay_layer,
            final(self).palette == old(self).palette,
            final(self).font == old(self).font,
            !has_sauce(data@) ==> res == Ok::<(SauceFileType, usize), SauceError>((SauceFileType::Undefined, data.len())) && *final(self) == *old(self),
            has_sauce(data@) && !sauce_version_ok(data@) ==> res == Err::<(SauceFileType, usize), SauceError>(SauceError::UnsupportedVersion) && *final(self) == *old(self),
            has_sauce(data@) && sauce_version_ok(data@) ==> ({
                let d = data@;
                let k = record_kind(d);
                &&& final(self).title.0@ == read_into(old(self).title.0@, d.subrange(rec(d) + 7, d.len() as int), 35, 32)
                &&& final(self).author.0@ == read_into(old(self).author.0@, d.subrange(rec(d) + 42, d.len() as int), 20, 32)
                &&& final(self).group.0@ == read_into(old(self).group.0@, d.subrange(rec(d) + 62, d.len() as int), 20, 32)
                &&& old(self).title.0@.len() == 0 ==> final(self).title.0@ == sauce_title(d)
                &&& old(self).author.0@.len() == 0 ==> final(self).author.0@ == sauce_author(d)
                &&& old(self).group.0@.len() == 0 ==> final(self).group.0@ == sauce_group(d)
                &&& final(self).width == (if k == SauceFileType::Bin {
                    ((sauce_type_byte(d) as u16) << 1u16) as u16
                } else if kind_sets_dims(k) {
                    sauce_tinfo1(d)
                } else {
                    old(self).width
                })
                &&& final(self).height == (if kind_sets_dims(k) && k != SauceFileType::Bin {
                    sauce_tinfo2(d)
                } else {
                    old(self).height
                })
                &&& final(self).buffer_type == (if kind_sets_flags(k) {
                    if sauce_flags(d) & 1 == 1 { BufferType::LegacyIce } else { BufferType::LegacyDos }
                } else {
                    old(self).buffer_type
                })
                &&& (if kind_sets_flags(k) && sauce_font(d).len() > 0 {
                    final(self).font_name is Some && final(self).font_name.unwrap().0@ == sauce_font(d)
                } else {
                    final(self).font_name == old(self).font_name
                })
                &&& final(self).layers == old(self).layers
                &&& final(self).palette == old(self).palette
                &&& final(self).overlay_layer == old(self).overlay_layer
                &&& final(self).font == old(self).font
                &&& final(self).write_sauce == old(self).write_sauce
                &&& final(self).undo_stack == old(self).undo_stack
                &&& final(self).redo_stack == old(self).redo_stack
                &&& final(self).file_name == old(self).file_name
                &&& sauce_num_comments(d) == 0 ==> res == Ok::<(SauceFileType, usize), SauceError>((k, (d.len() - 129) as usize))
                    && final(self).comments == old(self).comments
                &&& sauce_num_comments(d) > 0 && comment_check(d) < 0 ==> res == Err::<(SauceFileType, usize), SauceError>(SauceError::InvalidCommentBlock)
                    && final(self).comments == old(self).comments
                &&& sauce_num_comments(d) > 0 && comment_check(d) >= 0 && d.subrange(comment_start(d), comment_start(d) + 5) != comment_id()
                    ==> res == Err::<(SauceFileType, usize), SauceError>(SauceError::InvalidCommentId) && final(self).comments == old(self).comments
                &&& sauce_num_comments(d) > 0 && comment_check(d) >= 0 && d.subrange(comment_start(d), comment_start(d) + 5) == comment_id()
                    ==> {
                    &&& res == Ok::<(SauceFileType, usize), SauceError>((k, (comment_start(d) - 1) as usize))
                    &&& final(self).comments@.len() == old(self).comments@.len() + sauce_num_comments(d)
                    &&& forall|i: int| 0 <= i < old(self).comments@.len() ==> final(self).comments@[i] == old(self).comments@[i]
                    &&& forall|i: int| 0 <= i < sauce_num_comments(d) ==> final(self).comments@[old(self).comments@.len() + i].0@ == sauce_comment(d, i)
                }
            }),
    {
        let len = data.len();
        if len < 128 {
            return Ok((SauceFileType::Undefined, len));
        }
        let b = len - 128;
        let sid: [u8; 5] = [83, 65, 85, 67, 69];
        if !bytes_equal(data, b, &sid) {
            assert(sid@ =~= sauce_id());
            return Ok((SauceFileType::Undefined, len));
        }
        assert(sid@ =~= sauce_id());
        if data[b + 5] != 48 || data[b + 6] != 48 {
            return Err(SauceError::UnsupportedVersion);
        }
        self.title.read(sub_slice(data, b + 7));
        self.author.read(sub_slice(data, b + 42));
        self.group.read(sub_slice(data, b + 62));

        let data_type = SauceDataType::from(data[b + 94]);
        let file_type = data[b + 95];
        let t_info1: u16 = (data[b + 97] as u16) * 256 + data[b + 96] as u16;
        let t_info2: u16 = (data[b + 99] as u16) * 256 + data[b + 98] as u16;
        let num_comments: u8 = data[b + 104];
        let t_flags: u8 = data[b + 105];
        let mut t_info_str: SauceString<22, 0> = SauceString::new();
        proof {
            crate::sauce_string::lemma_read_count_bounds(data@.subrange(b + 106, len as int), 22, 0);
        }
        t_info_str.read(sub_slice(data, b + 106));
        let ice = (t_flags & 1) == 1;
        let ghost k = record_kind(data@);
        let kind = match data_type {
            SauceDataType::BinaryText => SauceFileType::Bin,
            SauceDataType::XBin => SauceFileType::XBin,
            SauceDataType::Character => {
                match file_type {
                    0 => SauceFileType::Ascii,
                    1 => SauceFileType::Ansi,
                    2 => SauceFileType::ANSiMation,
                    4 => SauceFileType::PCBoard,
                    5 => SauceFileType::Avatar,
                    8 => SauceFileType::TundraDraw,
                    _ => SauceFileType::Undefined,
                }
            },
            _ => SauceFileType::Undefined,
        };
        match kind {
            SauceFileType::Bin => {
                self.width = (file_type as u16) << 1;
            },
            SauceFileType::Undefined => {},
            _ => {
                self.width = t_info1;
                self.height = t_info2;
            },
        }
        match kind {
            SauceFileType::Bin | SauceFileType::Ascii | SauceFileType::Ansi | SauceFileType::ANSiMation => {
                self.buffer_type = if ice { BufferType::LegacyIce } else { BufferType::LegacyDos };
                if t_info_str.0.len() > 0 {
                    self.font_name = Some(t_info_str);
                }
            },
            _ => {},
        }

        if num_comments == 0 {
            return Ok((kind, len - 128 - 1));
        }
        let check: i64 = (#[verifier::truncate] ((len - 128) as i32)) as i64 - (num_comments as i64) * 64 - 5;
        if check < 0 {
            return Err(SauceError::InvalidCommentBlock);
        }
        let cstart = (len - 128) - (num_comments as usize) * 64 - 5;
        let cid: [u8; 5] = [67, 79, 77, 78, 84];
        assert(cid@ =~= comment_id());
        if !bytes_equal(data, cstart, &cid) {
            return Err(SauceError::InvalidCommentId);
        }
        let mut o = cstart + 5;
        let mut i: u8 = 0;
        let ghost c0 = self.comments@;
        let ghost s1 = *self;
        while i < num_comments
            invariant
                self.title == s1.title,
                self.author == s1.author,
                self.group == s1.group,
                self.width == s1.width,
                self.height == s1.height,
                self.buffer_type == s1.buffer_type,
                self.font_name == s1.font_name,
                self.layers == s1.layers,
                self.palette == s1.palette,
                self.overlay_layer == s1.overlay_layer,
                self.font == s1.font,
                self.write_sauce == s1.write_sauce,
                self.undo_stack == s1.undo_stack,
                self.redo_stack == s1.redo_stack,
                self.file_name == s1.file_name,
                i <= num_comments,
                num_comments == sauce_num_comments(data@),
                o == cstart + 5 + 64 * i,
                cstart == comment_start(data@),
                cstart + 5 + 64 * num_comments == len - 128,
                len == data.len(),
                self.comments@.len() == c0.len() + i,
                forall|j: int| 0 <= j < c0.len() ==> self.comments@[j] == c0[j],
                forall|j: int| 0 <= j < i ==> self.comments@[c0.len() + j].0@ == sauce_comment(data@, j),
            decreases num_comments - i,
        {
            let mut comment: SauceString<64, 0> = SauceString::new();
            proof {
                crate::sauce_string::lemma_read_count_bounds(data@.subrange(o as int, len as int), 64, 0);
            }
            comment.read(sub_slice(data, o));
            self.comments.push(comment);
            o = o + 64;
            i = i + 1;
        }
        Ok((kind, cstart - 1))
    }

    fn write_comment_block(&self, vec: &mut Vec<u8>)
        requires
            self.comments@.len() <= 255,
            old(vec).len() + comment_block(self.comments@).len() + 100 <= usize::MAX,
        ensures
            final(vec)@ == old(vec)@ + comment_block(self.comments@),
    {
        let ghost h0 = vec@;
        if self.comments.len() > 0 {
            let cid: [u8; 5] = [67, 79, 77, 78, 84];
            push_bytes(vec, &cid);
            let ghost mid = vec@;
            let mut i: usize = 0;
            while i < self.comments.len()
                invariant
                    i <= self.comments.len(),
                    mid.len() + comment_lines(self.comments@).len() + 90 <= usize::MAX,
                    vec@ == mid + comment_lines(self.comments@.subrange(0, i as int)),
                decreases self.comments.len() - i,
            {
                proof {
                    lemma_comment_lines_prefix(self.comments@, i as int);
                }
                self.comments[i].append_to(vec);
                i = i + 1;
            }
            assert(self.comments@.subrange(0, self.comments.len() as int) =~= self.comments@);
            assert(cid@ =~= comment_id());
            assert(vec@ =~= h0 + comment_block(self.comments@));
        } else {
            assert(vec@ =~= h0 + comment_block(self.comments@));
        }
    }

    fn write_sauce_head(&self, vec: &mut Vec<u8>, file_size: u32)
        requires
            self.comments@.len() <= 255,
            old(vec).len() + sauce_head(*self, 0).len() + 100 <= usize::MAX,
        ensures
            final(vec)@ == old(vec)@ + sauce_head(*self, file_size),
    {
        let ghost h0 = vec@;
        self.write_comment_block(vec);
        let ghost h1 = vec@;
        let sid: [u8; 5] = [83, 65, 85, 67, 69];
        push_bytes(vec, &sid);
        vec.push(48);
        vec.push(48);
        self.title.append_to(vec);
        self.author.append_to(vec);
        self.group.append_to(vec);
        let date: [u8; 8] = [50, 48, 49, 51, 48, 53, 48, 52];
        push_bytes(vec, &date);
        push_le32(vec, file_size);
        proof {
            assert(sid@ =~= sauce_id());
            assert(date@ =~= sauce_date());
            assert(vec@ =~= h0 + sauce_head(*self, file_size));
        }
    }

    /// The record fields for a picture kind; `None` where a BIN picture is
    /// too wide for the width byte.
    fn sauce_fields(&self, kind: SauceFileType) -> (r: Option<(SauceDataType, u8, u16, u16, u8, bool)>)
        ensures
            kind == SauceFileType::Bin && self.width / 2 > 255 ==> r is None,
            !(kind == SauceFileType::Bin && self.width / 2 > 255) ==> r == Some(write_fields(*self, kind)),
    {
        let ice: u8 = if self.buffer_type.use_ice_colors() { 1 } else { 0 };
        match kind {
            SauceFileType::Ascii => Some((SauceDataType::Character, 0, self.width, self.height, ice, true)),
            SauceFileType::Undefined | SauceFileType::Ansi => Some((SauceDataType::Character, 1, self.width, self.height, ice, true)),
            SauceFileType::ANSiMation => Some((SauceDataType::Character, 2, self.width, self.height, ice, true)),
            SauceFileType::PCBoard => Some((SauceDataType::Character, 4, self.width, self.height, 0, false)),
            SauceFileType::Avatar => Some((SauceDataType::Character, 5, self.width, self.height, 0, false)),
            SauceFileType::TundraDraw => Some((SauceDataType::Character, 8, self.width, 0, 0, false)),
            SauceFileType::Bin => {
                let w = self.width / 2;
                if w > 255 {
                    None
                } else {
                    Some((SauceDataType::BinaryText, w as u8, 0, 0, ice, true))
                }
            },
            SauceFileType::XBin => Some((SauceDataType::XBin, 0, self.width, self.height, 0, false)),
        }
    }

    fn write_sauce_tail(&self, kind: SauceFileType, fields: (SauceDataType, u8, u16, u16, u8, bool), vec: &mut Vec<u8>)
        requires
            fields == write_fields(*self, kind),
            self.comments@.len() <= 255,
            old(vec).len() + sauce_tail(*self, kind).len() <= usize::MAX,
        ensures
            final(vec)@ == old(vec)@ + sauce_tail(*self, kind),
    {
        let ghost h1 = vec@;
        let (data_type, file_type, t_info1, t_info2, t_flags, with_font) = fields;
        vec.push(data_type.as_u8());
        vec.push(file_type);
        push_le16(vec, t_info1);
        push_le16(vec, t_info2);
        push_le16(vec, 0);
        push_le16(vec, 0);
        vec.push(self.comments.len() as u8);
        vec.push(t_flags);
        let empty: SauceString<22, 0> = SauceString::new();
        if with_font {
            match &self.font_name {
                Some(f) => f.append_to(vec),
                None => empty.append_to(vec),
            }
        } else {
            empty.append_to(vec);
        }
        proof {
            assert(le16(0) =~= seq![0u8, 0u8]);
            assert(vec@ =~= h1 + sauce_tail(*self, kind));
        }
    }

    /// Appends the end of file byte, the comment block and the SAUCE
    /// record describing the buffer as a picture of the given kind.
    /// Kinds without a record of their own are written as ANSI.
    pub fn write_sauce_info(&self, sauce_file_type: &SauceFileType, vec: &mut Vec<u8>) -> (res: Result<bool, SauceError>)
        requires
            old(vec).len() + 1 + sauce_head(*self, 0).len() + sauce_tail(*self, *sauce_file_type).len() + 100 <= usize::MAX,
        ensures
            ({
                let fs = (old(vec).len() + 1) as u32;
                let start = old(vec)@.push(26);
                if self.comments@.len() > 255 {
                    res == Err::<bool, SauceError>(SauceError::TooManyComments) && final(vec)@ == start
                } else if *sauce_file_type == SauceFileType::Bin && self.width / 2 > 255 {
                    res == Err::<bool, SauceError>(SauceError::BinTooWide) && final(vec)@ == start + sauce_head(*self, fs)
                } else {
                    res == Ok::<bool, SauceError>(true) && final(vec)@ == start + sauce_head(*self, fs) + sauce_tail(*self, *sauce_file_type)
                }
            }),
    {
        vec.push(26);
        let file_size: u32 = #[verifier::truncate] (vec.len() as u32);
        if self.comments.len() > 255 {
            return Err(SauceError::TooManyComments);
        }
        proof {
            assert(sauce_head(*self, file_size).len() == sauce_head(*self, 0).len());
        }
        self.write_sauce_head(vec, file_size);
        match self.sauce_fields(*sauce_file_type) {
            None => Err(SauceError::BinTooWide),
            Some(fields) => {
                self.write_sauce_tail(*sauce_file_type, fields, vec);
                Ok(true)
            },
        }
    }
}

/// A field content that fits its width and holds no NUL byte.
pub open spec fn field_fits(c: Seq<u8>, len: int) -> bool {
    c.len() <= len && forall|k: int| 0 <= k < c.len() ==> c[k] != 0
}

/// The buffers whose SAUCE record reads back: at most 255 comments, text
/// fields within their widths, comments and font name free of NUL bytes
/// and within their widths, and a BIN picture at most 511 columns wide.
pub open spec fn sauce_writable(b: Buffer, kind: SauceFileType) -> bool {
    &&& b.comments@.len() <= 255
    &&& b.title.0@.len() <= 35
    &&& b.author.0@.len() <= 20
    &&& b.group.0@.len() <= 20
    &&& forall|i: int| 0 <= i < b.comments@.len() ==> field_fits(#[trigger] b.comments@[i].0@, 64)
    &&& b.font_name is Some ==> field_fits(b.font_name.unwrap().0@, 22)
    &&& kind == SauceFileType::Bin ==> b.width / 2 <= 255
}

/// The kind a written record announces: kinds without a record of their
/// own are written as ANSI.
pub open spec fn written_kind(kind: SauceFileType) -> SauceFileType {
    if kind == SauceFileType::Undefined {
        SauceFileType::Ansi
    } else {
        kind
    }
}

/// The font name field a record written for `kind` holds.
pub open spec fn written_font(b: Buffer, kind: SauceFileType) -> Seq<u8> {
    if write_fields(b, kind).5 && b.font_name is Some {
        b.font_name.unwrap().0@
    } else {
        Seq::empty()
    }
}

pub proof fn lemma_comment_lines_at(cs: Seq<SauceString<64, 0>>, i: int)
    requires
        forall|k: int| 0 <= k < cs.len() ==> field_fits(#[trigger] cs[k].0@, 64),
        0 <= i < cs.len(),
    ensures
        comment_lines(cs).len() == 64 * cs.len(),
        comment_lines(cs).subrange(64 * i, 64 * i + 64) == padded(cs[i].0@, 64, 0),
    decreases cs.len(),
{
    lemma_comment_lines_len(cs.drop_last());
    let last = padded(cs.last().0@, 64, 0);
    assert(field_fits(cs[cs.len() - 1].0@, 64));
    if i == cs.len() - 1 {
        assert(comment_lines(cs).subrange(64 * i, 64 * i + 64) =~= last);
    } else {
        lemma_comment_lines_at(cs.drop_last(), i);
        assert(comment_lines(cs).subrange(64 * i, 64 * i + 64) =~= comment_lines(cs.drop_last()).subrange(
            64 * i,
            64 * i + 64,
        ));
    }
}

pub proof fn lemma_comment_lines_len(cs: Seq<SauceString<64, 0>>)
    requires
        forall|k: int| 0 <= k < cs.len() ==> field_fits(#[trigger] cs[k].0@, 64),
    ensures
        comment_lines(cs).len() == 64 * cs.len(),
    decreases cs.len(),
{
    if cs.len() > 0 {
        assert(field_fits(cs[cs.len() - 1].0@, 64));
        lemma_comment_lines_len(cs.drop_last());
    }
}

proof fn lemma_le16_decode(v: u16)
    ensures
        ((le16(v)[0] as int + le16(v)[1] as int * 256) as u16) == v,
{
    assert((v % 256) as u8 as int + (v / 256) as u8 as int * 256 == v) by (nonlinear_arith);
}

/// The 128 bytes of the record proper: the fixed part of the head and the
/// tail.
#[verifier::opaque]
pub open spec fn record_bytes(b: Buffer, kind: SauceFileType, fs: u32) -> Seq<u8> {
    sauce_id() + seq![48u8, 48u8] + padded(b.title.0@, 35, 32) + padded(b.author.0@, 20, 32) + padded(
        b.group.0@,
        20,
        32,
    ) + sauce_date() + le32(fs) + sauce_tail(b, kind)
}

proof fn lemma_record_layout(b: Buffer, kind: SauceFileType, fs: u32)
    requires
        sauce_writable(b, kind),
    ensures
        ({
            let r = record_bytes(b, kind, fs);
            let f = write_fields(b, kind);
            &&& r.len() == 128
            &&& r.subrange(0, 5) == sauce_id()
            &&& r[5] == 48 && r[6] == 48
            &&& r.subrange(7, 128) == padded(b.title.0@, 35, 32) + r.subrange(42, 128)
            &&& r.subrange(42, 128) == padded(b.author.0@, 20, 32) + r.subrange(62, 128)
            &&& r.subrange(62, 128) == padded(b.group.0@, 20, 32) + r.subrange(82, 128)
            &&& r[94] == f.0.spec_as_u8()
            &&& r[95] == f.1
            &&& r[96] == le16(f.2)[0] && r[97] == le16(f.2)[1]
            &&& r[98] == le16(f.3)[0] && r[99] == le16(f.3)[1]
            &&& r[104] == b.comments@.len() as u8
            &&& r[105] == f.4
            &&& r.subrange(106, 128) == tinfo_bytes(b, f.5)
            &&& sauce_head(b, fs) + sauce_tail(b, kind) == comment_block(b.comments@) + r
        }),
{
    reveal(record_bytes);
    let r = record_bytes(b, kind, fs);
    assert(sauce_head(b, fs) + sauce_tail(b, kind) =~= comment_block(b.comments@) + r);
    let t = sauce_tail(b, kind);
    let head = sauce_id() + seq![48u8, 48u8] + padded(b.title.0@, 35, 32) + padded(b.author.0@, 20, 32) + padded(
        b.group.0@,
        20,
        32,
    ) + sauce_date() + le32(fs);
    assert(head.len() == 94);
    assert(t.len() == 34);
    assert(r.subrange(0, 5) =~= sauce_id());
    assert(r.subrange(7, 128) =~= padded(b.title.0@, 35, 32) + r.subrange(42, 128));
    assert(r.subrange(42, 128) =~= padded(b.author.0@, 20, 32) + r.subrange(62, 128));
    assert(r.subrange(62, 128) =~= padded(b.group.0@, 20, 32) + r.subrange(82, 128));
    assert(r.subrange(106, 128) =~= tinfo_bytes(b, write_fields(b, kind).5));
}

proof fn lemma_record_read(d: Seq<u8>, r: Seq<u8>)
    requires
        d.len() >= 128,
        r.len() == 128,
        d.subrange(rec(d), d.len() as int) == r,
    ensures
        d.subrange(rec(d), rec(d) + 5) == r.subrange(0, 5),
        sauce_title(d) == read_field(r.subrange(7, 128), 35, 32),
        sauce_author(d) == read_field(r.subrange(42, 128), 20, 32),
        sauce_group(d) == read_field(r.subrange(62, 128), 20, 32),
        sauce_font(d) == read_field(r.subrange(106, 128), 22, 0),
        forall|k: int| 0 <= k < 128 ==> d[rec(d) + k] == #[trigger] r[k],
{
    assert forall|k: int| 0 <= k < 128 implies d[rec(d) + k] == #[trigger] r[k] by {
        assert(d.subrange(rec(d), d.len() as int)[k] == d[rec(d) + k]);
    }
    assert(d.subrange(rec(d), rec(d) + 5) =~= r.subrange(0, 5));
    assert(d.subrange(rec(d) + 7, d.len() as int) =~= r.subrange(7, 128));
    assert(d.subrange(rec(d) + 42, d.len() as int) =~= r.subrange(42, 128));
    assert(d.subrange(rec(d) + 62, d.len() as int) =~= r.subrange(62, 128));
    assert(d.subrange(rec(d) + 106, d.len() as int) =~= r.subrange(106, 128));
}

proof fn lemma_comments_read(b: Buffer, p: Seq<u8>, d: Seq<u8>, r: Seq<u8>)
    requires
        forall|i: int| 0 <= i < b.comments@.len() ==> field_fits(#[trigger] b.comments@[i].0@, 64),
        b.comments@.len() > 0,
        r.len() == 128,
        d == p + comment_block(b.comments@) + r,
    ensures
        d.subrange(p.len() as int, p.len() + 5int) == comment_id(),
        forall|i: int| 0 <= i < b.comments@.len() ==> read_field(d.subrange(p.len() + 5 + 64 * i, d.len() as int), 64, 0) == #[trigger] b.comments@[i].0@,
{
    let n = b.comments@.len();
    lemma_comment_lines_len(b.comments@);
    let cl = comment_lines(b.comments@);
    assert(d =~= p + comment_id() + cl + r);
    assert(d.subrange(p.len() as int, p.len() + 5int) =~= comment_id());
    assert forall|i: int| 0 <= i < n implies read_field(d.subrange(p.len() + 5 + 64 * i, d.len() as int), 64, 0) == #[trigger] b.comments@[i].0@ by {
        lemma_comment_lines_at(b.comments@, i);
        let at = p.len() + 5 + 64 * i;
        assert(0 <= 64 * i && 64 * i + 64 <= 64 * n) by (nonlinear_arith)
            requires 0 <= i < n;
        assert forall|k: int| 0 <= k < 64 implies #[trigger] d[at + k] == cl[64 * i + k] by {}
        assert(d.subrange(at, d.len() as int) =~= padded(b.comments@[i].0@, 64, 0) + d.subrange(at + 64, d.len() as int));
        assert(field_fits(b.comments@[i].0@, 64));
        crate::sauce_string::lemma_read_padded_nul(b.comments@[i].0@, d.subrange(at + 64, d.len() as int), 64);
    }
}

/// Reading back a SAUCE record that `write_sauce_info` wrote after some
/// data gives the fields it was written with: the kind (ANSI for kinds
/// without a record of their own), the text fields up to trailing blanks,
/// the numeric infos, flags, font name and comments, and the length of the
/// data before the end of file byte.
#[verifier::rlimit(100)]
#[verifier::spinoff_prover]
pub proof fn lemma_sauce_roundtrip(b: Buffer, kind: SauceFileType, pre: Seq<u8>)
    requires
        sauce_writable(b, kind),
        pre.len() + 1 + 5 + 64 * b.comments@.len() + 128 <= i32::MAX,
    ensures
        ({
            let d = pre.push(26) + sauce_head(b, (pre.len() + 1) as u32) + sauce_tail(b, kind);
            let f = write_fields(b, kind);
            &&& has_sauce(d)
            &&& sauce_version_ok(d)
            &&& sauce_readable(d)
            &&& record_kind(d) == written_kind(kind)
            &&& trimmed(sauce_title(d)) == trimmed(b.title.0@)
            &&& trimmed(sauce_author(d)) == trimmed(b.author.0@)
            &&& trimmed(sauce_group(d)) == trimmed(b.group.0@)
            &&& sauce_type_byte(d) == f.1
            &&& sauce_tinfo1(d) == f.2
            &&& sauce_tinfo2(d) == f.3
            &&& sauce_flags(d) == f.4
            &&& sauce_font(d) == written_font(b, kind)
            &&& sauce_num_comments(d) == b.comments@.len()
            &&& b.comments@.len() == 0 ==> d.len() - 129 == pre.len()
            &&& b.comments@.len() > 0 ==> {
                &&& comment_check(d) >= 0
                &&& d.subrange(comment_start(d), comment_start(d) + 5) == comment_id()
                &&& comment_start(d) - 1 == pre.len()
                &&& forall|i: int| 0 <= i < b.comments@.len() ==> sauce_comment(d, i) == #[trigger] b.comments@[i].0@
            }
        }),
{
    let fs = (pre.len() + 1) as u32;
    let p = pre.push(26);
    let cb = comment_block(b.comments@);
    let n = b.comments@.len();
    lemma_comment_lines_len(b.comments@);
    let f = write_fields(b, kind);
    let r = record_bytes(b, kind, fs);
    lemma_record_layout(b, kind, fs);
    let d = p + sauce_head(b, fs) + sauce_tail(b, kind);
    assert(d =~= p + (sauce_head(b, fs) + sauce_tail(b, kind)));
    assert(p + (cb + r) =~= p + cb + r);
    let base: int = p.len() + cb.len() as int;
    assert(d.len() == base + 128);
    assert(d.subrange(base, d.len() as int) =~= r);
    lemma_record_read(d, r);
    assert(r.subrange(106, 128) + Seq::<u8>::empty() =~= r.subrange(106, 128));
    assert(trimmed(sauce_title(d)) == trimmed(b.title.0@)) by {
        crate::sauce_string::lemma_read_padded_spaces(b.title.0@, r.subrange(42, 128), 35);
    }
    assert(trimmed(sauce_author(d)) == trimmed(b.author.0@)) by {
        crate::sauce_string::lemma_read_padded_spaces(b.author.0@, r.subrange(62, 128), 20);
    }
    assert(trimmed(sauce_group(d)) == trimmed(b.group.0@)) by {
        crate::sauce_string::lemma_read_padded_spaces(b.group.0@, r.subrange(82, 128), 20);
    }
    assert(sauce_font(d) == written_font(b, kind)) by {
        if f.5 && b.font_name is Some {
            crate::sauce_string::lemma_read_padded_nul(b.font_name.unwrap().0@, Seq::empty(), 22);
        } else {
            crate::sauce_string::lemma_read_padded_nul(Seq::empty(), Seq::empty(), 22);
        }
    }
    assert(sauce_tinfo1(d) == f.2) by {
        lemma_le16_decode(f.2);
    }
    assert(sauce_tinfo2(d) == f.3) by {
        lemma_le16_decode(f.3);
    }
    assert(record_kind(d) == written_kind(kind));
    if n > 0 {
        lemma_comments_read(b, p, d, r);
        assert(comment_start(d) == p.len());
    }
}

/// Whether the record at the end of `data` gives the picture's size.
pub fn sauce_gives_size_exec(data: &[u8]) -> (r: bool)
    ensures
        r == sauce_gives_size(data@),
{
    let len = data.len();
    if len < 128 {
        return false;
    }
    let b = len - 128;
    let sid: [u8; 5] = [83, 65, 85, 67, 69];
    assert(sid@ =~= sauce_id());
    if !bytes_equal(data, b, &sid) {
        return false;
    }
    if data[b + 5] != 48 || data[b + 6] != 48 {
        return false;
    }
    let data_type = SauceDataType::from(data[b + 94]);
    let file_type = data[b + 95];
    match data_type {
        SauceDataType::XBin => true,
        SauceDataType::Character => file_type == 0 || file_type == 1 || file_type == 2 || file_type == 4 || file_type == 5
            || file_type == 8,
        _ => false,
    }
}

} // verus!
