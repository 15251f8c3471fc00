//! The binary container parser: a fixed 178-byte header (a 14-byte magic
//! string, little-endian 32-bit fields at fixed offsets, three 40-byte
//! ASCII text fields), a raw pixel payload of `frame_count` frames, and a
//! trailing array of 64-bit per-frame timestamp ticks.
//!
//! The parser is a pure transform from an in-memory byte sequence to
//! typed structures; reading the file itself is the caller's one-line
//! job. Any violation aborts the whole parse with a specific error and no
//! partial result.

use vstd::prelude::*;

use crate::cameraframe::CameraFrame;
use crate::cameraframe::CameraFrameMono;
use crate::cameraframe::FrameTime;
use crate::cameraframe::PixelOrder;

verus! {

use vstd::bytes::*;
use vstd::slice::slice_subrange;

/// Parse failures, one per violated layout rule.
#[derive(Clone, Debug)]
pub enum SERFileError {
    /// The named file is not present (used by callers that read files).
    FileDoesNotExist(String),
    /// The header is too short to carry the magic string, the magic
    /// string is wrong, or a text field holds a non-ASCII byte.
    InvalidHeader,
    /// The color-encoding id is not in the enumerated table.
    InvalidColorID(u32),
    /// The endianness flag is neither 0 nor 1.
    InvalidEndian(u32),
    /// The data ends before the declared payload and timestamps.
    ShortRead,
    /// The declared geometry does not give two payload bytes per sample,
    /// so the frames cannot be decoded through the 16-bit path.
    UnsupportedFrameLayout,
}

/// The byte order the container claims for its samples. The flag is
/// recorded but does not alter payload interpretation: samples are read
/// little-endian either way, so big-endian-flagged files are mis-decoded
/// exactly as the format's common implementations do.
#[derive(Clone, Copy, Debug)]
pub enum Endian {
    Little,
    Big,
}

impl Endian {
    /// The decoding of the header's endianness flag.
    pub open spec fn spec_from_code(v: u32) -> Option<Endian> {
        if v == 0 {
            Some(Endian::Little)
        } else if v == 1 {
            Some(Endian::Big)
        } else {
            None
        }
    }

    /// Decodes the header's endianness flag.
    pub fn from_code(v: u32) -> (r: Result<Endian, SERFileError>)
        ensures
            match r {
                Ok(e) => Endian::spec_from_code(v) == Some(e),
                Err(err) => Endian::spec_from_code(v) is None && (err matches
                    SERFileError::InvalidEndian(w) && w == v),
            },
    {
        match v {
            0 => Ok(Endian::Little),
            1 => Ok(Endian::Big),
            _ => Err(SERFileError::InvalidEndian(v)),
        }
    }
}

/// The container's declared color encoding.
#[derive(Clone, Copy, Debug)]
pub enum ColorID {
    Mono,
    BayerRGGB,
    BayerGRBG,
    BayerBGRG,
    BayerBGGR,
    BayerCYYM,
    BayerYCMY,
    BayerYMCY,
    BayerMYYC,
    RGB,
    BGR,
}

impl ColorID {
    /// The enumerated color-id table of the header.
    pub open spec fn spec_from_code(v: u32) -> Option<ColorID> {
        if v == 0 {
            Some(ColorID::Mono)
        } else if v == 8 {
            Some(ColorID::BayerRGGB)
        } else if v == 9 {
            Some(ColorID::BayerGRBG)
        } else if v == 10 {
            Some(ColorID::BayerBGRG)
        } else if v == 11 {
            Some(ColorID::BayerBGGR)
        } else if v == 16 {
            Some(ColorID::BayerCYYM)
        } else if v == 17 {
            Some(ColorID::BayerYCMY)
        } else if v == 18 {
            Some(ColorID::BayerYMCY)
        } else if v == 19 {
            Some(ColorID::BayerMYYC)
        } else if v == 100 {
            Some(ColorID::RGB)
        } else if v == 101 {
            Some(ColorID::BGR)
        } else {
            None
        }
    }

    /// Decodes the header's color-encoding id.
    pub fn from_code(v: u32) -> (r: Result<ColorID, SERFileError>)
        ensures
            match r {
                Ok(c) => ColorID::spec_from_code(v) == Some(c),
                Err(err) => ColorID::spec_from_code(v) is None && (err matches
                    SERFileError::InvalidColorID(w) && w == v),
            },
    {
        match v {
            0 => Ok(ColorID::Mono),
            8 => Ok(ColorID::BayerRGGB),
            9 => Ok(ColorID::BayerGRBG),
            10 => Ok(ColorID::BayerBGRG),
            11 => Ok(ColorID::BayerBGGR),
            16 => Ok(ColorID::BayerCYYM),
            17 => Ok(ColorID::BayerYCMY),
            18 => Ok(ColorID::BayerYMCY),
            19 => Ok(ColorID::BayerMYYC),
            100 => Ok(ColorID::RGB),
            101 => Ok(ColorID::BGR),
            _ => Err(SERFileError::InvalidColorID(v)),
        }
    }

    /// The display name of the encoding.
    pub open spec fn spec_name(self) -> Seq<char> {
        match self {
            ColorID::Mono => "Mono"@,
            ColorID::BayerRGGB => "BayerRGGB"@,
            ColorID::BayerGRBG => "BayerGRBG"@,
            ColorID::BayerBGRG => "BayerBGRG"@,
            ColorID::BayerBGGR => "BayerBGGR"@,
            ColorID::BayerCYYM => "BayerCYYM"@,
            ColorID::BayerYCMY => "BayerYCMY"@,
            ColorID::BayerYMCY => "BayerYMCY"@,
            ColorID::BayerMYYC => "BayerMYYC"@,
            ColorID::RGB => "RGB"@,
            ColorID::BGR => "BGR"@,
        }
    }

    /// The display name of the encoding.
    pub fn name(&self) -> (r: &'static str)
        ensures
            r@ == self.spec_name(),
    {
        match self {
            ColorID::Mono => "Mono",
            ColorID::BayerRGGB => "BayerRGGB",
            ColorID::BayerGRBG => "BayerGRBG",
            ColorID::BayerBGRG => "BayerBGRG",
            ColorID::BayerBGGR => "BayerBGGR",
            ColorID::BayerCYYM => "BayerCYYM",
            ColorID::BayerYCMY => "BayerYCMY",
            ColorID::BayerYMCY => "BayerYMCY",
            ColorID::BayerMYYC => "BayerMYYC",
            ColorID::RGB => "RGB",
            ColorID::BGR => "BGR",
        }
    }

    /// RGB and BGR payloads carry three color layers per pixel, all
    /// others one.
    pub open spec fn spec_layers(self) -> int {
        match self {
            ColorID::RGB => 3,
            ColorID::BGR => 3,
            _ => 1,
        }
    }
}

/// The 14 magic bytes that open every container.
pub open spec fn magic_bytes() -> Seq<u8> {
    seq![76u8, 85u8, 67u8, 65u8, 77u8, 45u8, 82u8, 69u8, 67u8, 79u8, 82u8, 68u8, 69u8, 82u8]
}

/// The little-endian 32-bit field at a byte offset.
pub open spec fn le_u32(d: Seq<u8>, off: int) -> u32 {
    spec_u32_from_le_bytes(d.subrange(off, off + 4))
}

/// The little-endian 64-bit field at a byte offset.
pub open spec fn le_u64(d: Seq<u8>, off: int) -> u64 {
    spec_u64_from_le_bytes(d.subrange(off, off + 8))
}

/// The little-endian 16-bit sample at a byte offset.
pub open spec fn le_u16(d: Seq<u8>, off: int) -> u16 {
    spec_u16_from_le_bytes(d.subrange(off, off + 2))
}

/// Whether the data is long enough to hold the fixed header.
pub open spec fn hdr_present(d: Seq<u8>) -> bool {
    d.len() >= 178
}

/// Whether the magic string is in place.
pub open spec fn magic_ok(d: Seq<u8>) -> bool {
    d.subrange(0, 14) == magic_bytes()
}

pub open spec fn spec_color_code(d: Seq<u8>) -> u32 {
    le_u32(d, 18)
}

pub open spec fn spec_endian_code(d: Seq<u8>) -> u32 {
    le_u32(d, 22)
}

pub open spec fn spec_width(d: Seq<u8>) -> int {
    le_u32(d, 26) as int
}

pub open spec fn spec_height(d: Seq<u8>) -> int {
    le_u32(d, 30) as int
}

pub open spec fn spec_bit_depth(d: Seq<u8>) -> int {
    le_u32(d, 34) as int
}

pub open spec fn spec_frame_count(d: Seq<u8>) -> int {
    le_u32(d, 38) as int
}

/// Bytes per sample as declared: the bit depth rounded up to whole bytes.
pub open spec fn spec_byte_depth(d: Seq<u8>) -> int {
    (spec_bit_depth(d) + 7) / 8
}

/// Bytes per frame: width x height x byte depth x color layers.
pub open spec fn spec_frame_bytes(d: Seq<u8>) -> int {
    spec_width(d) * spec_height(d) * spec_byte_depth(d) * ColorID::spec_from_code(
        spec_color_code(d),
    ).unwrap().spec_layers()
}

/// 16-bit samples that fit in one frame's payload.
pub open spec fn spec_samples_per_frame(d: Seq<u8>) -> int {
    spec_frame_bytes(d) / 2
}

/// Whether each frame's payload holds exactly one 16-bit sample per
/// pixel, which the decode path requires.
pub open spec fn layout_ok(d: Seq<u8>) -> bool {
    spec_samples_per_frame(d) == spec_width(d) * spec_height(d)
}

/// The total byte length the header commits the container to: header,
/// payload, and eight timestamp bytes per frame.
pub open spec fn spec_needed(d: Seq<u8>) -> int {
    178 + spec_frame_count(d) * spec_frame_bytes(d) + spec_frame_count(d) * 8
}

pub open spec fn length_ok(d: Seq<u8>) -> bool {
    spec_needed(d) <= d.len()
}

/// The first byte offset of the timestamp array.
pub open spec fn spec_ts_base(d: Seq<u8>) -> int {
    178 + spec_frame_count(d) * spec_frame_bytes(d)
}

/// An ASCII whitespace byte, as `char::is_whitespace` classifies the
/// ASCII range: space, tab, line feed, vertical tab, form feed, carriage
/// return.
pub open spec fn is_space(b: u8) -> bool {
    b == 32 || b == 9 || b == 10 || b == 11 || b == 12 || b == 13
}

/// The number of leading whitespace bytes.
pub open spec fn lead_spaces(s: Seq<u8>) -> int
    decreases s.len(),
{
    if s.len() == 0 {
        0
    } else if is_space(s[0]) {
        1 + lead_spaces(s.drop_first())
    } else {
        0
    }
}

/// The number of trailing whitespace bytes.
pub open spec fn trail_spaces(s: Seq<u8>) -> int
    decreases s.len(),
{
    if s.len() == 0 {
        0
    } else if is_space(s.last()) {
        1 + trail_spaces(s.drop_last())
    } else {
        0
    }
}

/// The sequence with leading and trailing whitespace removed.
pub open spec fn trimmed(s: Seq<u8>) -> Seq<u8> {
    if lead_spaces(s) == s.len() {
        Seq::empty()
    } else {
        s.subrange(lead_spaces(s), s.len() - trail_spaces(s))
    }
}

/// ASCII bytes as characters.
pub open spec fn ascii_chars(s: Seq<u8>) -> Seq<char> {
    s.map_values(|b: u8| b as char)
}

/// Whether every byte of a field is ASCII.
pub open spec fn field_ascii(d: Seq<u8>, a: int, b: int) -> bool {
    forall|i: int| a <= i < b ==> #[trigger] d[i] < 128
}

/// Whether all three text fields are ASCII.
pub open spec fn texts_ascii(d: Seq<u8>) -> bool {
    field_ascii(d, 42, 82) && field_ascii(d, 82, 122) && field_ascii(d, 122, 152)
}

/// The parsed value of a text field: the field's bytes, trimmed, as
/// characters.
pub open spec fn spec_text(d: Seq<u8>, a: int, b: int) -> Seq<char> {
    ascii_chars(trimmed(d.subrange(a, b)))
}

/// The capture instant a 64-bit tick value decodes to. A tick is 100
/// nanoseconds since 0001-01-01T00:00:00 UTC; the decoding is exactly
/// `usecs = t / 10`, `nanos = (t % 100) * 10`, kept deliberately for
/// timestamp compatibility with existing readers of the format, even
/// though the nanosecond residue discards one digit of tick precision.
pub open spec fn time_of_ticks(t: u64) -> FrameTime {
    FrameTime { usecs: (t / 10) as u64, nanos: ((t % 100) * 10) as u64 }
}

/// What one decoded frame must look like: a 16-bit monochrome buffer in
/// column-major order, `width` rows by `height` columns, stamped with the
/// decoded timestamp, whose samples are the frame's payload bytes read as
/// little-endian 16-bit words regardless of the declared encoding.
pub open spec fn frame_ok(f: CameraFrame, d: Seq<u8>, i: int) -> bool {
    &&& f matches CameraFrame::Mono16(m) && {
        &&& m.spec_rows() == spec_width(d)
        &&& m.spec_cols() == spec_height(d)
        &&& m.spec_bit_depth() == spec_bit_depth(d)
        &&& m.spec_pixel_order() is ColMajor
        &&& m.spec_time() == time_of_ticks(le_u64(d, spec_ts_base(d) + 8 * i))
        &&& m.samples().len() == spec_width(d) * spec_height(d)
        &&& forall|j: int|
            0 <= j < m.samples().len() ==> #[trigger] m.samples()[j] == le_u16(
                d,
                178 + i * spec_frame_bytes(d) + 2 * j,
            )
    }
}

/// A forward scan that stops at the first non-space byte has counted the
/// leading spaces.
proof fn lemma_lead_spaces(s: Seq<u8>, i: int)
    requires
        0 <= i <= s.len(),
        forall|j: int| 0 <= j < i ==> is_space(#[trigger] s[j]),
        i < s.len() ==> !is_space(s[i as int]),
    ensures
        lead_spaces(s) == i,
    decreases i,
{
    if s.len() == 0 {
    } else if i == 0 {
    } else {
        let t = s.drop_first();
        assert(forall|j: int| 0 <= j < i - 1 ==> is_space(#[trigger] t[j]));
        assert(i - 1 < t.len() ==> !is_space(t[i - 1]));
        lemma_lead_spaces(t, i - 1);
    }
}

/// A backward scan that stops at the last non-space byte has counted the
/// trailing spaces.
proof fn lemma_trail_spaces(s: Seq<u8>, i: int)
    requires
        0 <= i <= s.len(),
        forall|j: int| i <= j < s.len() ==> is_space(#[trigger] s[j]),
        i > 0 ==> !is_space(s[i - 1]),
    ensures
        trail_spaces(s) == s.len() - i,
    decreases s.len() - i,
{
    if i == s.len() {
    } else {
        let t = s.drop_last();
        assert(is_space(s.last()));
        assert(forall|j: int| i <= j < t.len() ==> t[j] == s[j] && is_space(#[trigger] t[j]));
        lemma_trail_spaces(t, i);
    }
}

/// Relies on `core::str::from_utf8`: bytes below 0x80 are valid UTF-8 and
/// decode to exactly one `char` per byte, the character with that code.
#[verifier::external_body]
fn ascii_str_from_bytes(v: &[u8]) -> (r: &str)
    requires
        forall|i: int| 0 <= i < v@.len() ==> v@[i] < 128,
    ensures
        r@ == v@.map_values(|b: u8| b as char),
{
    core::str::from_utf8(v).unwrap_or("")
}

/// Parses one 40-byte text field: rejects non-ASCII bytes, trims
/// whitespace from both ends, and returns the remainder as a string.
fn parse_text_field(data: &[u8], a: usize, b: usize) -> (r: Result<String, SERFileError>)
    requires
        a < b <= data@.len(),
    ensures
        match r {
            Ok(s) => field_ascii(data@, a as int, b as int) && s@ == spec_text(
                data@,
                a as int,
                b as int,
            ),
            Err(e) => !field_ascii(data@, a as int, b as int) && e matches
                SERFileError::InvalidHeader,
        },
{
    let field = slice_subrange(data, a, b);
    let len = b - a;
    let mut i: usize = 0;
    while i < len
        invariant
            i <= len,
            len == field@.len(),
            field@ == data@.subrange(a as int, b as int),
            a < b <= data@.len(),
            forall|j: int| 0 <= j < i ==> #[trigger] field@[j] < 128,
        decreases len - i,
    {
        if field[i] >= 128 {
            proof {
                assert(data@[a + i] == field@[i as int]);
                assert(!(data@[a + i] < 128));
            }
            return Err(SERFileError::InvalidHeader);
        }
        i = i + 1;
    }
    proof {
        assert forall|j: int| a <= j < b implies #[trigger] data@[j] < 128 by {
            assert(field@[j - a] < 128);
        }
    }
    let mut lo: usize = 0;
    while lo < len && is_space_byte(field[lo])
        invariant
            lo <= len,
            len == field@.len(),
            forall|j: int| 0 <= j < lo ==> is_space(#[trigger] field@[j]),
        decreases len - lo,
    {
        lo = lo + 1;
    }
    let mut hi: usize = len;
    while hi > lo && is_space_byte(field[hi - 1])
        invariant
            lo <= hi <= len,
            len == field@.len(),
            forall|j: int| hi <= j < len ==> is_space(#[trigger] field@[j]),
        decreases hi,
    {
        hi = hi - 1;
    }
    proof {
        if lo == len {
            lemma_lead_spaces(field@, len as int);
            assert(trimmed(field@) =~= Seq::<u8>::empty());
        } else {
            lemma_lead_spaces(field@, lo as int);
            if hi == lo {
                assert(!is_space(field@[lo as int]));
                assert(false);
            }
            lemma_trail_spaces(field@, hi as int);
            assert(trimmed(field@) =~= field@.subrange(lo as int, hi as int));
        }
    }
    let core_part = slice_subrange(field, lo, hi);
    proof {
        assert forall|i2: int| 0 <= i2 < core_part@.len() implies core_part@[i2] < 128 by {
            assert(core_part@[i2] == field@[lo + i2]);
        }
    }
    let s = ascii_str_from_bytes(core_part);
    proof {
        assert(s@ =~= spec_text(data@, a as int, b as int));
    }
    Ok(s.to_owned())
}

/// Whether a byte is ASCII whitespace.
fn is_space_byte(b: u8) -> (r: bool)
    ensures
        r == is_space(b),
{
    b == 32 || b == 9 || b == 10 || b == 11 || b == 12 || b == 13
}

/// One parsed container: the file-level metadata and the decoded frames,
/// exactly `frame_count` of them.
#[derive(Clone, Debug)]
pub struct SERFile {
    pub color_id: ColorID,
    pub endian: Endian,
    pub width: usize,
    pub height: usize,
    pub frame_count: usize,
    pub bit_depth: usize,
    pub fname: String,
    pub instrument: String,
    pub observer: String,
    pub telescope: String,
    pub frames: Vec<CameraFrame>,
}

/// Whether a byte sequence is a decodable container.
pub open spec fn parse_ok(d: Seq<u8>) -> bool {
    &&& hdr_present(d)
    &&& magic_ok(d)
    &&& ColorID::spec_from_code(spec_color_code(d)) is Some
    &&& Endian::spec_from_code(spec_endian_code(d)) is Some
    &&& texts_ascii(d)
    &&& layout_ok(d)
    &&& length_ok(d)
}

impl SERFile {
    /// Parses one container from its complete byte image. The parse
    /// either succeeds completely or fails with the error of the first
    /// violated rule, in header order: presence, magic string, color id,
    /// endianness flag, text fields, frame geometry, total length.
    pub fn from_bytes(fname: &str, data: &[u8]) -> (r: Result<SERFile, SERFileError>)
        ensures
            match r {
                Ok(f) => {
                    &&& parse_ok(data@)
                    &&& f.width == spec_width(data@)
                    &&& f.height == spec_height(data@)
                    &&& f.bit_depth == spec_bit_depth(data@)
                    &&& f.frame_count == spec_frame_count(data@)
                    &&& ColorID::spec_from_code(spec_color_code(data@)) == Some(f.color_id)
                    &&& Endian::spec_from_code(spec_endian_code(data@)) == Some(f.endian)
                    &&& f.fname@ == fname@
                    &&& f.observer@ == spec_text(data@, 42, 82)
                    &&& f.instrument@ == spec_text(data@, 82, 122)
                    &&& f.telescope@ == spec_text(data@, 122, 152)
                    &&& f.frames@.len() == spec_frame_count(data@)
                    &&& forall|i: int|
                        0 <= i < f.frames@.len() ==> frame_ok(#[trigger] f.frames@[i], data@, i)
                },
                Err(e) => match e {
                    SERFileError::ShortRead => !hdr_present(data@) || (hdr_present(data@)
                        && magic_ok(data@) && ColorID::spec_from_code(spec_color_code(data@))
                        is Some && Endian::spec_from_code(spec_endian_code(data@)) is Some
                        && texts_ascii(data@) && layout_ok(data@) && !length_ok(data@)),
                    SERFileError::InvalidHeader => hdr_present(data@) && (!magic_ok(data@) || (
                    magic_ok(data@) && ColorID::spec_from_code(spec_color_code(data@)) is Some
                        && Endian::spec_from_code(spec_endian_code(data@)) is Some && !texts_ascii(
                        data@,
                    ))),
                    SERFileError::InvalidColorID(v) => hdr_present(data@) && magic_ok(data@)
                        && ColorID::spec_from_code(spec_color_code(data@)) is None && v
                        == spec_color_code(data@),
                    SERFileError::InvalidEndian(v) => hdr_present(data@) && magic_ok(data@)
                        && ColorID::spec_from_code(spec_color_code(data@)) is Some
                        && Endian::spec_from_code(spec_endian_code(data@)) is None && v
                        == spec_endian_code(data@),
                    SERFileError::UnsupportedFrameLayout => hdr_present(data@) && magic_ok(data@)
                        && ColorID::spec_from_code(spec_color_code(data@)) is Some
                        && Endian::spec_from_code(spec_endian_code(data@)) is Some && texts_ascii(
                        data@,
                    ) && !layout_ok(data@),
                    SERFileError::FileDoesNotExist(_) => false,
                },
            },
    {
        let ghost d = data@;
        if data.len() < 178 {
            return Err(SERFileError::ShortRead);
        }
        if !(data[0] == 76 && data[1] == 85 && data[2] == 67 && data[3] == 65 && data[4] == 77
            && data[5] == 45 && data[6] == 82 && data[7] == 69 && data[8] == 67 && data[9] == 79
            && data[10] == 82 && data[11] == 68 && data[12] == 69 && data[13] == 82) {
            proof {
                if magic_ok(d) {
                    assert forall|k: int| 0 <= k < 14 implies d[k] == magic_bytes()[k] by {
                        assert(d.subrange(0, 14)[k] == d[k]);
                    }
                    assert(d[0] == 76 && d[1] == 85 && d[2] == 67 && d[3] == 65 && d[4] == 77
                        && d[5] == 45 && d[6] == 82 && d[7] == 69 && d[8] == 67 && d[9] == 79 && d[
                        10] == 82 && d[11] == 68 && d[12] == 69 && d[13] == 82);
                }
            }
            return Err(SERFileError::InvalidHeader);
        }
        proof {
            assert(d.subrange(0, 14) =~= magic_bytes());
        }
        let color_code = u32_from_le_bytes(slice_subrange(data, 18, 22));
        let color_id = match ColorID::from_code(color_code) {
            Ok(c) => c,
            Err(e) => {
                return Err(e);
            },
        };
        let endian_code = u32_from_le_bytes(slice_subrange(data, 22, 26));
        let endian = match Endian::from_code(endian_code) {
            Ok(e) => e,
            Err(e) => {
                return Err(e);
            },
        };
        let width32 = u32_from_le_bytes(slice_subrange(data, 26, 30));
        let height32 = u32_from_le_bytes(slice_subrange(data, 30, 34));
        let depth32 = u32_from_le_bytes(slice_subrange(data, 34, 38));
        let count32 = u32_from_le_bytes(slice_subrange(data, 38, 42));
        let observer = match parse_text_field(data, 42, 82) {
            Ok(s) => s,
            Err(e) => {
                return Err(e);
            },
        };
        let instrument = match parse_text_field(data, 82, 122) {
            Ok(s) => s,
            Err(e) => {
                return Err(e);
            },
        };
        let telescope = match parse_text_field(data, 122, 152) {
            Ok(s) => s,
            Err(e) => {
                return Err(e);
            },
        };
        let layers: u128 = match color_id {
            ColorID::RGB => 3,
            ColorID::BGR => 3,
            _ => 1,
        };
        let bdep: u64 = ((depth32 as u64) + 7) / 8;
        proof {
            vstd::arithmetic::div_mod::lemma_fundamental_div_mod(((depth32 as u64) + 7) as int, 8);
            vstd::arithmetic::div_mod::lemma_mod_bound(((depth32 as u64) + 7) as int, 8);
            assert(bdep <= 0x20000000);
            assert((width32 as int) * (height32 as int) < 0x10000000000000000)
                by (nonlinear_arith)
                requires
                    width32 <= 0xffffffff,
                    height32 <= 0xffffffff,
            ;
            assert((width32 as int) * (height32 as int) * (bdep as int) < 0x2000_0000_0000_0000_0000_0000)
                by (nonlinear_arith)
                requires
                    0 <= (width32 as int) * (height32 as int) < 0x1_0000_0000_0000_0000,
                    0 <= bdep <= 0x2000_0000,
            ;
            assert((width32 as int) * (height32 as int) * (bdep as int) * (layers as int)
                < 0x8000_0000_0000_0000_0000_0000) by (nonlinear_arith)
                requires
                    0 <= (width32 as int) * (height32 as int) * (bdep as int) < 0x2000_0000_0000_0000_0000_0000,
                    1 <= layers <= 3,
            ;
        }
        let wh: u128 = (width32 as u128) * (height32 as u128);
        let fb: u128 = wh * (bdep as u128) * layers;
        proof {
            assert(fb == spec_frame_bytes(d));
        }
        if fb / 2 != wh {
            return Err(SERFileError::UnsupportedFrameLayout);
        }
        proof {
            assert((count32 as int) * (fb as int) < 0x8000_0000_0000_0000_0000_0000_0000_0000)
                by (nonlinear_arith)
                requires
                    count32 <= 0xffffffff,
                    0 <= (fb as int) < 0x8000_0000_0000_0000_0000_0000,
            ;
        }
        let needed: u128 = 178 + (count32 as u128) * fb + (count32 as u128) * 8;
        if needed > data.len() as u128 {
            return Err(SERFileError::ShortRead);
        }
        proof {
            assert(parse_ok(d));
            assert((count32 as int) * (fb as int) >= 0) by (nonlinear_arith)
                requires
                    count32 >= 0,
                    fb >= 0,
            ;
        }
        let fc: usize = count32 as usize;
        let ts_base: usize = (178 + (count32 as u128) * fb) as usize;
        proof {
            assert(ts_base as int == spec_ts_base(d));
        }
        let mut times: Vec<FrameTime> = Vec::new();
        let mut i: usize = 0;
        while i < fc
            invariant
                i <= fc,
                fc == spec_frame_count(d),
                d == data@,
                parse_ok(d),
                ts_base as int == spec_ts_base(d),
                ts_base + 8 * fc <= data@.len(),
                data@.len() <= usize::MAX,
                times@.len() == i,
                forall|k: int|
                    0 <= k < i ==> #[trigger] times@[k] == time_of_ticks(
                        le_u64(d, spec_ts_base(d) + 8 * k),
                    ),
            decreases fc - i,
        {
            let off = ts_base + 8 * i;
            let t = u64_from_le_bytes(slice_subrange(data, off, off + 8));
            times.push(FrameTime { usecs: t / 10, nanos: (t % 100) * 10 });
            i = i + 1;
        }
        let ghost fbg = spec_frame_bytes(d);
        let mut frames: Vec<CameraFrame> = Vec::new();
        let mut i: usize = 0;
        while i < fc
            invariant
                i <= fc,
                fc == spec_frame_count(d),
                d == data@,
                parse_ok(d),
                fbg == spec_frame_bytes(d),
                fc == 0 || (fb as int) == fbg,
                fc == 0 || (wh as int) == spec_width(d) * spec_height(d),
                fb / 2 == wh,
                178 + fc * fbg + fc * 8 <= data@.len(),
                data@.len() <= usize::MAX,
                width32 as int == spec_width(d),
                height32 as int == spec_height(d),
                depth32 as int == spec_bit_depth(d),
                ts_base as int == spec_ts_base(d),
                times@.len() == fc,
                forall|k: int|
                    0 <= k < fc ==> #[trigger] times@[k] == time_of_ticks(
                        le_u64(d, spec_ts_base(d) + 8 * k),
                    ),
                frames@.len() == i,
                forall|k: int| 0 <= k < i ==> frame_ok(#[trigger] frames@[k], d, k),
            decreases fc - i,
        {
            proof {
                assert((i + 1) * fbg <= fc * fbg) by (nonlinear_arith)
                    requires
                        0 <= i < fc,
                        fbg >= 0,
                ;
                assert(i * fbg >= 0) by (nonlinear_arith)
                    requires
                        i >= 0,
                        fbg >= 0,
                ;
                assert(i * fbg <= (i + 1) * fbg) by (nonlinear_arith)
                    requires
                        i >= 0,
                        fbg >= 0,
                ;
                assert(fbg <= fc * fbg) by (nonlinear_arith)
                    requires
                        1 <= fc,
                        fbg >= 0,
                ;
                vstd::arithmetic::div_mod::lemma_fundamental_div_mod(fbg, 2);
                assert(fb as int == fbg);
                assert(fb as int <= data@.len());
                assert(2 * (wh as int) <= fbg);
            }
            let fb_us: usize = fb as usize;
            let wh_us: usize = wh as usize;
            let base: usize = 178 + i * fb_us;
            let mut samples: Vec<u16> = Vec::new();
            let mut j: usize = 0;
            while j < wh_us
                invariant
                    j <= wh_us,
                    d == data@,
                    0 <= i < fc,
                    fbg == spec_frame_bytes(d),
                    fb_us as int == fbg,
                    wh_us as int == spec_width(d) * spec_height(d),
                    2 * (wh_us as int) <= fbg,
                    base as int == 178 + i * fbg,
                    (i + 1) * fbg <= fc * fbg,
                    178 + fc * fbg + fc * 8 <= data@.len(),
                    data@.len() <= usize::MAX,
                    samples@.len() == j,
                    forall|k: int|
                        0 <= k < j ==> #[trigger] samples@[k] == le_u16(
                            d,
                            178 + i * spec_frame_bytes(d) + 2 * k,
                        ),
                decreases wh_us - j,
            {
                proof {
                    assert((i as int) * fbg + fbg == (i + 1) * fbg) by (nonlinear_arith);
                    assert((base as int) + 2 * (j as int) + 2 <= 178 + (i + 1) * fbg);
                    assert((base as int) + 2 * (j as int) + 2 <= data@.len());
                }
                let off = base + 2 * j;
                let s = u16_from_le_bytes(slice_subrange(data, off, off + 2));
                samples.push(s);
                j = j + 1;
            }
            let t = times[i];
            let fr = match CameraFrameMono::<u16>::new(
                width32 as usize,
                height32 as usize,
                depth32 as usize,
                PixelOrder::ColMajor,
                &t,
                samples.as_slice(),
            ) {
                Ok(fr) => fr,
                Err(_) => {
                    proof {
                        assert((width32 as usize) * (height32 as usize) == wh_us)
                            by (nonlinear_arith)
                            requires
                                wh_us as int == (width32 as int) * (height32 as int),
                                width32 as usize == width32 as int,
                                height32 as usize == height32 as int,
                                wh_us >= 0,
                        ;
                        assert(false);
                    }
                    vstd::pervasive::unreached()
                },
            };
            proof {
                assert((width32 as usize) * (height32 as usize) == wh_us) by (nonlinear_arith)
                    requires
                        wh_us as int == (width32 as int) * (height32 as int),
                        width32 as usize == width32 as int,
                        height32 as usize == height32 as int,
                        wh_us >= 0,
                ;
                assert(frame_ok(CameraFrame::Mono16(fr), d, i as int));
            }
            frames.push(CameraFrame::Mono16(fr));
            i = i + 1;
        }
        Ok(
            SERFile {
                color_id,
                endian,
                width: width32 as usize,
                height: height32 as usize,
                frame_count: count32 as usize,
                bit_depth: depth32 as usize,
                fname: fname.to_owned(),
                instrument,
                observer,
                telescope,
                frames,
            },
        )
    }
}

} // verus!
