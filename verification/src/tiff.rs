//! A reader for the GeoTIFFs a survey actually arrives with.
//!
//! Not a general TIFF library. It reads what GDAL writes when someone exports
//! a multibeam grid or a chart extract: one image, strips or tiles,
//! uncompressed or LZW/Deflate/PackBits, any of the integer and float sample
//! formats, with the georeferencing tags that say where the pixels are.
//!
//! Deliberately absent: multi-page files, JPEG-in-TIFF, CMYK, and anything
//! needing a colour-management pipeline. Those fail with an error naming what
//! they are rather than producing a plausible wrong picture.

use vstd::prelude::*;

use crate::bytes;
use crate::bytes::{get_u16, get_u32, get_u64};
use crate::text::{chars_of, part, text_of, trim};
use crate::tiff::field::{Field, Reader, Real, TiffError};

pub mod codec;
pub mod field;
pub mod law;
pub mod pixel;

verus! {

// ---- tags ------------------------------------------------------------------

pub const IMAGE_WIDTH: u16 = 256;

pub const IMAGE_LENGTH: u16 = 257;

pub const BITS_PER_SAMPLE: u16 = 258;

pub const COMPRESSION: u16 = 259;

pub const PHOTOMETRIC: u16 = 262;

pub const STRIP_OFFSETS: u16 = 273;

pub const SAMPLES_PER_PIXEL: u16 = 277;

pub const ROWS_PER_STRIP: u16 = 278;

pub const STRIP_BYTE_COUNTS: u16 = 279;

pub const PLANAR_CONFIG: u16 = 284;

pub const PREDICTOR: u16 = 317;

pub const COLOR_MAP: u16 = 320;

pub const TILE_WIDTH: u16 = 322;

pub const TILE_LENGTH: u16 = 323;

pub const TILE_OFFSETS: u16 = 324;

pub const TILE_BYTE_COUNTS: u16 = 325;

pub const SAMPLE_FORMAT: u16 = 339;

pub const MODEL_PIXEL_SCALE: u16 = 33550;

pub const MODEL_TIEPOINT: u16 = 33922;

pub const MODEL_TRANSFORMATION: u16 = 34264;

pub const GEO_KEY_DIRECTORY: u16 = 34735;

pub const GEO_ASCII_PARAMS: u16 = 34737;

pub const GDAL_NODATA: u16 = 42113;

/// GeoKey ids that are acted on.
pub const GT_MODEL_TYPE: u16 = 1024;

pub const GEOGRAPHIC_TYPE: u16 = 2048;

pub const PROJECTED_CS_TYPE: u16 = 3072;

// ---- what a file says --------------------------------------------------------

#[derive(Clone, Copy, Debug, PartialEq, Eq, Structural)]
pub enum SampleKind {
    Uint,
    Int,
    Float,
}

/// How the pixels are laid out on disk.
#[derive(Clone, Copy, Debug, PartialEq, Eq, Structural)]
pub enum Layout {
    /// Strips of `rows_per` full-width rows.
    Strips { rows_per: u64 },
    /// Tiles of `w` x `h`.
    Tiles { w: u64, h: u64 },
}

/// Where the pixels are, as the file has it.
#[derive(Clone, Copy, Debug, PartialEq, Eq, Structural)]
pub enum Georef {
    /// Nothing is said.
    Absent,
    /// Pixel (col, row) goes to `(t0*col + t1*row + t2, t3*col + t4*row + t5)`.
    Matrix { t0: Real, t1: Real, t2: Real, t3: Real, t4: Real, t5: Real },
    /// Raster (i, j) is at model (x, y), pixels are `sx` by `sy` and rows run
    /// the other way from y.
    Tied { sx: Real, sy: Real, i: Real, j: Real, x: Real, y: Real },
}

/// How a file's numbers are stored, and where its directory is.
#[derive(Clone, Copy, Debug, PartialEq, Eq, Structural)]
pub struct Start {
    pub le: bool,
    pub big: bool,
    pub ifd: u64,
}

/// The size of the image and the form of its samples.
#[derive(Clone, Copy, Debug, PartialEq, Eq, Structural)]
pub struct Shape {
    pub width: u64,
    pub height: u64,
    pub samples: u64,
    pub bits: u64,
    pub kind: SampleKind,
    pub compression: u16,
    pub predictor: u16,
    pub photometric: u16,
}

pub open spec fn start_of(b: Seq<u8>) -> Result<Start, TiffError> {
    if b.len() < 8 {
        Err(TiffError::TooShort)
    } else if !(b[0] == 0x49 && b[1] == 0x49) && !(b[0] == 0x4d && b[1] == 0x4d) {
        Err(TiffError::NoByteOrder)
    } else {
        let le = b[0] == 0x49;
        let magic = bytes::u16_at(b, 2, le);
        if magic != 42 && magic != 43 {
            Err(TiffError::Magic(magic as u16))
        } else if magic == 42 {
            Ok(Start { le, big: false, ifd: bytes::u32_at(b, 4, le) as u64 })
        } else if bytes::u16_at(b, 4, le) != 8 {
            Err(TiffError::OffsetSize)
        } else if b.len() < 16 {
            Err(TiffError::ShortRead)
        } else {
            Ok(Start { le, big: true, ifd: bytes::u64_at(b, 8, le) as u64 })
        }
    }
}

/// The entries of the first directory.
pub open spec fn directory_of(b: Seq<u8>, st: Start) -> Result<Seq<field::Entry>, TiffError> {
    if st.big {
        if st.ifd + 8 > b.len() {
            Err(TiffError::ShortRead)
        } else {
            field::entries_at(b, st.ifd + 8, bytes::u64_at(b, st.ifd as int, st.le), st.le, st.big)
        }
    } else {
        if st.ifd + 2 > b.len() {
            Err(TiffError::ShortRead)
        } else {
            field::entries_at(b, st.ifd + 2, bytes::u16_at(b, st.ifd as int, st.le), st.le, st.big)
        }
    }
}

/// Where the first directory's entries end: behind it stands the offset of the
/// next directory.
pub open spec fn directory_end(b: Seq<u8>, st: Start) -> int {
    if st.big {
        st.ifd + 8 + 20 * bytes::u64_at(b, st.ifd as int, st.le)
    } else {
        st.ifd + 2 + 12 * bytes::u16_at(b, st.ifd as int, st.le)
    }
}

/// Whether a file goes on with another directory: the offset behind the first
/// one is there and not zero.
pub open spec fn goes_on(b: Seq<u8>, st: Start) -> bool {
    let end = directory_end(b, st);
    if st.big {
        end + 8 <= b.len() && bytes::u64_at(b, end, st.le) != 0
    } else {
        end + 4 <= b.len() && bytes::u32_at(b, end, st.le) != 0
    }
}

/// The first value of a tag, or `default` where there is none.
pub open spec fn first_of(
    b: Seq<u8>,
    fields: Seq<field::Entry>,
    st: Start,
    tag: u16,
    default: u64,
) -> Result<u64, TiffError> {
    match field::lookup(fields, tag) {
        None => Ok(default),
        Some(f) => match field::integers_of(b, f, st.le, st.big) {
            Err(e) => Err(e),
            Ok(v) => Ok(
                if v.len() > 0 {
                    v[0]
                } else {
                    default
                },
            ),
        },
    }
}

/// The bit depth that a list of depths comes to.
pub open spec fn depth_from(all: Seq<u64>) -> Result<u64, TiffError> {
    let bits = if all.len() > 0 {
        all[0]
    } else {
        1
    };
    if exists|i: int| 0 <= i < all.len() && all[i] != bits {
        Err(TiffError::MixedDepths)
    } else if bits != 8 && bits != 16 && bits != 32 && bits != 64 {
        Err(TiffError::BitDepth(bits))
    } else {
        Ok(bits)
    }
}

pub open spec fn depth_of(b: Seq<u8>, fields: Seq<field::Entry>, st: Start) -> Result<
    u64,
    TiffError,
> {
    match field::lookup(fields, BITS_PER_SAMPLE) {
        None => depth_from(seq![1u64]),
        Some(f) => match field::integers_of(b, f, st.le, st.big) {
            Err(e) => Err(e),
            Ok(all) => depth_from(all),
        },
    }
}

pub open spec fn kind_from(format: u64, bits: u64) -> Result<SampleKind, TiffError> {
    if format == 1 {
        Ok(SampleKind::Uint)
    } else if format == 2 {
        Ok(SampleKind::Int)
    } else if format != 3 {
        Err(TiffError::SampleFormat(format))
    } else if bits != 32 && bits != 64 {
        Err(TiffError::FloatDepth(bits))
    } else {
        Ok(SampleKind::Float)
    }
}

/// The low sixteen bits of a number.
pub open spec fn low16(v: u64) -> u16 {
    (v as int % 65536) as u16
}

pub open spec fn shape_of(b: Seq<u8>, fields: Seq<field::Entry>, st: Start) -> Result<
    Shape,
    TiffError,
> {
    match first_of(b, fields, st, IMAGE_WIDTH, 0) {
        Err(e) => Err(e),
        Ok(width) => match first_of(b, fields, st, IMAGE_LENGTH, 0) {
            Err(e) => Err(e),
            Ok(height) => if width == 0 || height == 0 {
                Err(TiffError::NoSize)
            } else {
                match first_of(b, fields, st, SAMPLES_PER_PIXEL, 1) {
                    Err(e) => Err(e),
                    Ok(samples) => match depth_of(b, fields, st) {
                        Err(e) => Err(e),
                        Ok(bits) => match first_of(b, fields, st, SAMPLE_FORMAT, 1) {
                            Err(e) => Err(e),
                            Ok(format) => match kind_from(format, bits) {
                                Err(e) => Err(e),
                                Ok(kind) => coding_of(
                                    b,
                                    fields,
                                    st,
                                    Shape {
                                        width,
                                        height,
                                        samples,
                                        bits,
                                        kind,
                                        compression: 1,
                                        predictor: 1,
                                        photometric: 1,
                                    },
                                ),
                            },
                        },
                    },
                }
            },
        },
    }
}

pub open spec fn coding_of(
    b: Seq<u8>,
    fields: Seq<field::Entry>,
    st: Start,
    shape: Shape,
) -> Result<Shape, TiffError> {
    match first_of(b, fields, st, COMPRESSION, 1) {
        Err(e) => Err(e),
        Ok(compression) => match first_of(b, fields, st, PREDICTOR, 1) {
            Err(e) => Err(e),
            Ok(predictor) => match first_of(b, fields, st, PLANAR_CONFIG, 1) {
                Err(e) => Err(e),
                Ok(planar) => if low16(planar) != 1 && shape.samples > 1 {
                    Err(TiffError::Planar)
                } else {
                    match first_of(b, fields, st, PHOTOMETRIC, 1) {
                        Err(e) => Err(e),
                        Ok(photometric) => if low16(photometric) == 6 {
                            Err(TiffError::YCbCr)
                        } else if low16(photometric) == 5 {
                            Err(TiffError::Cmyk)
                        } else {
                            Ok(
                                Shape {
                                    compression: low16(compression),
                                    predictor: low16(predictor),
                                    photometric: low16(photometric),
                                    ..shape
                                },
                            )
                        },
                    }
                },
            },
        },
    }
}

/// The values of a tag, where the file has it.
pub open spec fn all_of(b: Seq<u8>, fields: Seq<field::Entry>, st: Start, tag: u16) -> Result<
    Option<Seq<u64>>,
    TiffError,
> {
    match field::lookup(fields, tag) {
        None => Ok(None),
        Some(f) => match field::integers_of(b, f, st.le, st.big) {
            Err(e) => Err(e),
            Ok(v) => Ok(Some(v)),
        },
    }
}

/// The colours of a colour map: all the reds, all the greens, all the blues,
/// each of sixteen bits of which the upper eight are kept.
pub open spec fn colours_from(v: Seq<u64>) -> Seq<(u8, u8, u8)> {
    let n = v.len() / 3;
    Seq::new(
        n,
        |i: int| (upper8(v[i]), upper8(v[n + i]), upper8(v[2 * n + i])),
    )
}

/// Bits 8 to 15 of a number.
pub open spec fn upper8(v: u64) -> u8 {
    (v as int / 256 % 256) as u8
}

pub open spec fn layout_of(
    b: Seq<u8>,
    fields: Seq<field::Entry>,
    st: Start,
    height: u64,
) -> Result<Layout, TiffError> {
    if field::lookup(fields, TILE_WIDTH) is Some {
        match first_of(b, fields, st, TILE_WIDTH, 0) {
            Err(e) => Err(e),
            Ok(w) => match first_of(b, fields, st, TILE_LENGTH, 0) {
                Err(e) => Err(e),
                Ok(h) => Ok(Layout::Tiles { w, h }),
            },
        }
    } else {
        match first_of(b, fields, st, ROWS_PER_STRIP, height) {
            Err(e) => Err(e),
            Ok(n) => Ok(
                Layout::Strips {
                    rows_per: if n < 1 {
                        1
                    } else {
                        n
                    },
                },
            ),
        }
    }
}

/// Where the blocks are and how long each is.
pub open spec fn tables_of(
    b: Seq<u8>,
    fields: Seq<field::Entry>,
    st: Start,
    layout: Layout,
) -> Result<(Seq<u64>, Seq<u64>), TiffError> {
    let (offset_tag, count_tag) = match layout {
        Layout::Tiles { .. } => (TILE_OFFSETS, TILE_BYTE_COUNTS),
        Layout::Strips { .. } => (STRIP_OFFSETS, STRIP_BYTE_COUNTS),
    };
    match all_of(b, fields, st, offset_tag) {
        Err(e) => Err(e),
        Ok(None) => Err(TiffError::NoOffsets),
        Ok(Some(offsets)) => match all_of(b, fields, st, count_tag) {
            Err(e) => Err(e),
            Ok(None) => Err(TiffError::NoCounts),
            Ok(Some(counts)) => if offsets.len() != counts.len() {
                Err(TiffError::TablesDisagree)
            } else {
                Ok((offsets, counts))
            },
        },
    }
}

pub open spec fn georef_of(b: Seq<u8>, fields: Seq<field::Entry>, st: Start) -> Result<
    Georef,
    TiffError,
> {
    match field::lookup(fields, MODEL_TRANSFORMATION) {
        Some(f) => match field::reals_of(b, f, st.le, st.big) {
            Err(e) => Err(e),
            Ok(m) => Ok(
                if m.len() >= 8 {
                    Georef::Matrix { t0: m[0], t1: m[1], t2: m[3], t3: m[4], t4: m[5], t5: m[7] }
                } else {
                    Georef::Absent
                },
            ),
        },
        None => match (
            field::lookup(fields, MODEL_PIXEL_SCALE),
            field::lookup(fields, MODEL_TIEPOINT),
        ) {
            (Some(sf), Some(tf)) => match field::reals_of(b, sf, st.le, st.big) {
                Err(e) => Err(e),
                Ok(s) => match field::reals_of(b, tf, st.le, st.big) {
                    Err(e) => Err(e),
                    Ok(t) => Ok(
                        if s.len() >= 2 && t.len() >= 6 {
                            Georef::Tied { sx: s[0], sy: s[1], i: t[0], j: t[1], x: t[3], y: t[4] }
                        } else {
                            Georef::Absent
                        },
                    ),
                },
            },
            _ => Ok(Georef::Absent),
        },
    }
}

/// The text of a tag, where the file has it and its bytes are there.
pub open spec fn text_tag(b: Seq<u8>, fields: Seq<field::Entry>, st: Start, tag: u16) -> Option<
    Seq<char>,
> {
    match field::lookup(fields, tag) {
        None => None,
        Some(f) => field::ascii_of(b, f, st.le, st.big),
    }
}

/// What comes before the first bar of a text, without white space around it.
pub open spec fn before_bar(s: Seq<char>) -> Seq<char> {
    crate::text::trimmed(up_to(s, '|'))
}

/// The part of a text before a character's first occurrence.
pub open spec fn up_to(s: Seq<char>, c: char) -> Seq<char>
    decreases s.len(),
{
    if s.len() == 0 || s[0] == c {
        Seq::empty()
    } else {
        seq![s[0]] + up_to(s.skip(1), c)
    }
}

/// Everything that is read of a file when it is opened.
#[verifier::ext_equal]
pub struct Opened {
    pub start: Start,
    pub shape: Shape,
    pub palette: Option<Seq<(u8, u8, u8)>>,
    pub layout: Layout,
    pub offsets: Seq<u64>,
    pub counts: Seq<u64>,
    pub georef: Georef,
    pub geo_keys: Option<Seq<u64>>,
    pub crs_name: Seq<char>,
    pub nodata: Option<Seq<char>>,
}

/// What opening a file comes to.
pub open spec fn opened(b: Seq<u8>) -> Result<Opened, TiffError> {
    match start_of(b) {
        Err(e) => Err(e),
        Ok(st) => match directory_of(b, st) {
            Err(e) => Err(e),
            Ok(fields) => if goes_on(b, st) {
                Err(TiffError::MultiPage)
            } else {
                match shape_of(b, fields, st) {
                    Err(e) => Err(e),
                    Ok(shape) => opened_image(b, fields, st, shape),
                }
            },
        },
    }
}

pub open spec fn opened_image(
    b: Seq<u8>,
    fields: Seq<field::Entry>,
    st: Start,
    shape: Shape,
) -> Result<Opened, TiffError> {
    match all_of(b, fields, st, COLOR_MAP) {
        Err(e) => Err(e),
        Ok(map) => match layout_of(b, fields, st, shape.height) {
            Err(e) => Err(e),
            Ok(layout) => match tables_of(b, fields, st, layout) {
                Err(e) => Err(e),
                Ok((offsets, counts)) => match georef_of(b, fields, st) {
                    Err(e) => Err(e),
                    Ok(georef) => match all_of(b, fields, st, GEO_KEY_DIRECTORY) {
                        Err(e) => Err(e),
                        Ok(geo_keys) => Ok(
                            Opened {
                                start: st,
                                shape,
                                palette: match map {
                                    None => None,
                                    Some(v) => Some(colours_from(v)),
                                },
                                layout,
                                offsets,
                                counts,
                                georef,
                                geo_keys,
                                crs_name: match geo_keys {
                                    None => Seq::empty(),
                                    Some(_) => match text_tag(b, fields, st, GEO_ASCII_PARAMS) {
                                        None => before_bar(Seq::empty()),
                                        Some(s) => before_bar(s),
                                    },
                                },
                                nodata: match text_tag(b, fields, st, GDAL_NODATA) {
                                    None => None,
                                    Some(s) => Some(crate::text::trimmed(s)),
                                },
                            },
                        ),
                    },
                },
            },
        },
    }
}

// ---- reading it ----------------------------------------------------------------

/// The entries of a directory, as they are read.
spec fn entries(fields: Seq<Field>) -> Seq<field::Entry> {
    fields.map_values(|f: Field| f@)
}

/// Whether an entry was read from a file: eight bytes, and values that it says
/// it holds do fit in them.
spec fn sound(f: Field) -> bool {
    f.payload@.len() == 8 && (f.inline ==> field::size_of_type(f.typ) * f.count <= 8)
}

spec fn all_sound(fields: Seq<Field>) -> bool {
    forall|i: int| 0 <= i < fields.len() ==> #[trigger] sound(fields[i])
}

fn read_start(b: &[u8]) -> (r: Result<Start, TiffError>)
    ensures
        r == start_of(b@),
{
    if b.len() < 8 {
        return Err(TiffError::TooShort);
    }
    let le = b[0] == 0x49 && b[1] == 0x49;
    if !le && !(b[0] == 0x4d && b[1] == 0x4d) {
        return Err(TiffError::NoByteOrder);
    }
    let magic: u16 = match get_u16(b, 2, le) {
        Some(v) => v,
        None => 0,
    };
    if magic != 42 && magic != 43 {
        return Err(TiffError::Magic(magic));
    }
    if magic == 42 {
        return match get_u32(b, 4, le) {
            Some(v) => Ok(Start { le, big: false, ifd: v as u64 }),
            None => Err(TiffError::ShortRead),
        };
    }
    match get_u16(b, 4, le) {
        Some(8) => {},
        _ => {
            return Err(TiffError::OffsetSize);
        },
    }
    match get_u64(b, 8, le) {
        Some(v) => Ok(Start { le, big: true, ifd: v }),
        None => Err(TiffError::ShortRead),
    }
}

fn read_entry(b: &[u8], at: usize, le: bool, big: bool) -> (f: Field)
    requires
        at + (if big {
            20int
        } else {
            12
        }) <= b.len(),
    ensures
        f@ == field::entry_at(b@, at as int, le, big),
        sound(f),
{
    let tag: u16 = match get_u16(b, at, le) {
        Some(v) => v,
        None => 0,
    };
    let typ: u16 = match get_u16(b, at + 2, le) {
        Some(v) => v,
        None => 0,
    };
    let count: u64 = if big {
        match get_u64(b, at + 4, le) {
            Some(v) => v,
            None => 0,
        }
    } else {
        match get_u32(b, at + 4, le) {
            Some(v) => v as u64,
            None => 0,
        }
    };
    let room: usize = if big { 8 } else { 4 };
    let from: usize = if big { at + 12 } else { at + 8 };
    let mut payload: Vec<u8> = Vec::new();
    let mut i: usize = 0;
    while i < 8
        invariant
            i <= 8,
            payload@.len() == i,
            room <= 8,
            from + room <= b.len(),
            forall|j: int|
                0 <= j < i ==> #[trigger] payload@[j] == (if j < room {
                    b@[from + j]
                } else {
                    0u8
                }),
        decreases 8 - i,
    {
        payload.push(if i < room { b[from + i] } else { 0 });
        i += 1;
    }
    let size = Reader::type_size(typ) as u128;
    proof {
        assert(0 <= size * count <= 8 * 18446744073709551615) by (nonlinear_arith)
            requires
                0 <= size <= 8,
                0 <= count <= 18446744073709551615,
        ;
    }
    let inline = size * count as u128 <= room as u128;
    let f = Field { tag, typ, count, payload, inline };
    proof {
        assert(f@.payload =~= field::entry_at(b@, at as int, le, big).payload);
    }
    f
}

fn read_directory(b: &[u8], st: Start) -> (r: Result<Vec<Field>, TiffError>)
    ensures
        match directory_of(b@, st) {
            Err(e) => r matches Err(x) && x == e,
            Ok(s) => r matches Ok(v) && entries(v@) == s && all_sound(v@),
        },
{
    let reader = Reader { b, le: st.le, big: st.big };
    let len: u64 = b.len() as u64;
    let n: u64;
    let mut at: u64;
    if st.big {
        n = match reader.u64(st.ifd) {
            Ok(v) => v,
            Err(e) => {
                return Err(e);
            },
        };
        at = st.ifd + 8;
    } else {
        n = match reader.u16(st.ifd) {
            Ok(v) => v as u64,
            Err(e) => {
                return Err(e);
            },
        };
        at = st.ifd + 2;
    }
    let head: u64 = if st.big { 12 } else { 8 };
    let size: u64 = if st.big { 20 } else { 12 };
    let mut fields: Vec<Field> = Vec::new();
    let mut i: u64 = 0;
    let ghost whole = field::entries_at(b@, at as int, n as int, st.le, st.big);
    proof {
        assert(entries(fields@) =~= Seq::<field::Entry>::empty());
        if whole is Ok {
            assert(entries(fields@) + whole->Ok_0 =~= whole->Ok_0);
        }
    }
    while i < n
        invariant
            i <= n,
            len == b@.len(),
            len == b.len(),
            at <= len,
            whole == directory_of(b@, st),
            head == if st.big {
                12
            } else {
                8u64
            },
            size == if st.big {
                20
            } else {
                12u64
            },
            all_sound(fields@),
            match field::entries_at(b@, at as int, n - i, st.le, st.big) {
                Err(e) => whole == Err::<Seq<field::Entry>, TiffError>(e),
                Ok(rest) => whole == Ok::<Seq<field::Entry>, TiffError>(entries(fields@) + rest),
            },
        decreases n - i,
    {
        if head > len - at {
            return Err(TiffError::ShortRead);
        }
        if size > len - at {
            return Err(TiffError::EntryRunsOff);
        }
        let f = read_entry(b, at as usize, st.le, st.big);
        let ghost before = fields@;
        let ghost rest = field::entries_at(b@, at + size, n - i - 1, st.le, st.big);
        fields.push(f);
        proof {
            assert(entries(fields@) =~= entries(before).push(f@));
            if rest is Ok {
                assert(entries(before) + (seq![f@] + rest->Ok_0) =~= entries(fields@)
                    + rest->Ok_0);
            }
        }
        at = at + size;
        i = i + 1;
    }
    proof {
        assert(entries(fields@) + Seq::<field::Entry>::empty() =~= entries(fields@));
    }
    Ok(fields)
}

/// Entries that can be read lie in the file.
proof fn lemma_entries_inside(b: Seq<u8>, at: int, n: int, le: bool, big: bool)
    requires
        0 <= at <= b.len(),
        n >= 0,
        field::entries_at(b, at, n, le, big) is Ok,
    ensures
        at + n * (if big {
            20int
        } else {
            12
        }) <= b.len(),
    decreases n,
{
    if n > 0 {
        lemma_entries_inside(
            b,
            at + if big {
                20int
            } else {
                12
            },
            n - 1,
            le,
            big,
        );
    }
}

fn has_next(b: &[u8], st: Start) -> (r: bool)
    requires
        directory_of(b@, st) is Ok,
    ensures
        r == goes_on(b@, st),
{
    let reader = Reader { b, le: st.le, big: st.big };
    let len: u64 = b.len() as u64;
    if st.big {
        match reader.u64(st.ifd) {
            Ok(n) => {
                proof {
                    lemma_entries_inside(b@, st.ifd + 8, n as int, st.le, true);
                    assert(st.ifd + 8 + 20 * n <= len);
                }
                match reader.u64(st.ifd + 8 + 20 * n) {
                    Ok(next) => next != 0,
                    Err(_) => false,
                }
            },
            Err(_) => false,
        }
    } else {
        match reader.u16(st.ifd) {
            Ok(n) => {
                proof {
                    lemma_entries_inside(b@, st.ifd + 2, n as int, st.le, false);
                    assert(st.ifd + 2 + 12 * n <= len);
                }
                match reader.u32(st.ifd + 2 + 12 * n as u64) {
                    Ok(next) => next != 0,
                    Err(_) => false,
                }
            },
            Err(_) => false,
        }
    }
}

fn find<'a>(fields: &'a Vec<Field>, tag: u16) -> (r: Option<&'a Field>)
    requires
        all_sound(fields@),
    ensures
        match field::lookup(entries(fields@), tag) {
            None => r is None,
            Some(e) => r matches Some(f) && f@ == e && sound(*f),
        },
{
    let ghost all = entries(fields@);
    let mut i: usize = fields.len();
    proof {
        assert(all.take(i as int) =~= all);
    }
    while i > 0
        invariant
            i <= fields@.len(),
            all == entries(fields@),
            all_sound(fields@),
            field::lookup(all.take(i as int), tag) == field::lookup(all, tag),
        decreases i,
    {
        proof {
            assert(all.take(i as int).drop_last() =~= all.take(i - 1));
            assert(all[i - 1] == fields@[i - 1]@);
            assert(sound(fields@[i - 1]));
        }
        i -= 1;
        if fields[i].tag == tag {
            return Some(&fields[i]);
        }
    }
    None
}

fn first(reader: &Reader, fields: &Vec<Field>, tag: u16, default: u64) -> (r: Result<
    u64,
    TiffError,
>)
    requires
        all_sound(fields@),
    ensures
        forall|st: Start|
            st.le == reader.le && st.big == reader.big ==> r == #[trigger] first_of(
                reader.b@,
                entries(fields@),
                st,
                tag,
                default,
            ),
{
    match find(fields, tag) {
        None => Ok(default),
        Some(f) => match reader.ints(f) {
            Err(e) => Err(e),
            Ok(v) => Ok(if v.len() > 0 { v[0] } else { default }),
        },
    }
}

fn all_values(reader: &Reader, fields: &Vec<Field>, tag: u16) -> (r: Result<
    Option<Vec<u64>>,
    TiffError,
>)
    requires
        all_sound(fields@),
    ensures
        forall|st: Start|
            #![trigger all_of(reader.b@, entries(fields@), st, tag)]
            st.le == reader.le && st.big == reader.big ==> match all_of(
                reader.b@,
                entries(fields@),
                st,
                tag,
            ) {
                Err(e) => r matches Err(x) && x == e,
                Ok(None) => r matches Ok(None),
                Ok(Some(s)) => r matches Ok(Some(v)) && v@ == s,
            },
{
    match find(fields, tag) {
        None => Ok(None),
        Some(f) => match reader.ints(f) {
            Err(e) => Err(e),
            Ok(v) => Ok(Some(v)),
        },
    }
}

fn check_depth(all: &Vec<u64>) -> (r: Result<u64, TiffError>)
    ensures
        r == depth_from(all@),
{
    let bits: u64 = if all.len() > 0 { all[0] } else { 1 };
    let mut i: usize = 0;
    while i < all.len()
        invariant
            i <= all@.len(),
            bits == if all@.len() > 0 {
                all@[0]
            } else {
                1u64
            },
            forall|j: int| 0 <= j < i ==> all@[j] == bits,
        decreases all.len() - i,
    {
        if all[i] != bits {
            return Err(TiffError::MixedDepths);
        }
        i += 1;
    }
    if bits != 8 && bits != 16 && bits != 32 && bits != 64 {
        return Err(TiffError::BitDepth(bits));
    }
    Ok(bits)
}

fn read_depth(reader: &Reader, fields: &Vec<Field>, st: Start) -> (r: Result<u64, TiffError>)
    requires
        all_sound(fields@),
        st.le == reader.le,
        st.big == reader.big,
    ensures
        r == depth_of(reader.b@, entries(fields@), st),
{
    match find(fields, BITS_PER_SAMPLE) {
        None => {
            let mut one: Vec<u64> = Vec::new();
            one.push(1);
            proof {
                assert(one@ =~= seq![1u64]);
            }
            check_depth(&one)
        },
        Some(f) => match reader.ints(f) {
            Err(e) => Err(e),
            Ok(v) => check_depth(&v),
        },
    }
}

fn sample_kind(format: u64, bits: u64) -> (r: Result<SampleKind, TiffError>)
    ensures
        r == kind_from(format, bits),
{
    if format == 1 {
        Ok(SampleKind::Uint)
    } else if format == 2 {
        Ok(SampleKind::Int)
    } else if format != 3 {
        Err(TiffError::SampleFormat(format))
    } else if bits != 32 && bits != 64 {
        Err(TiffError::FloatDepth(bits))
    } else {
        Ok(SampleKind::Float)
    }
}

fn read_shape(reader: &Reader, fields: &Vec<Field>, st: Start) -> (r: Result<Shape, TiffError>)
    requires
        all_sound(fields@),
        st.le == reader.le,
        st.big == reader.big,
    ensures
        r == shape_of(reader.b@, entries(fields@), st),
{
    let width: u64 = match first(reader, fields, IMAGE_WIDTH, 0) {
        Ok(v) => v,
        Err(e) => {
            return Err(e);
        },
    };
    let height: u64 = match first(reader, fields, IMAGE_LENGTH, 0) {
        Ok(v) => v,
        Err(e) => {
            return Err(e);
        },
    };
    if width == 0 || height == 0 {
        return Err(TiffError::NoSize);
    }
    let samples: u64 = match first(reader, fields, SAMPLES_PER_PIXEL, 1) {
        Ok(v) => v,
        Err(e) => {
            return Err(e);
        },
    };
    let bits: u64 = match read_depth(reader, fields, st) {
        Ok(v) => v,
        Err(e) => {
            return Err(e);
        },
    };
    let format: u64 = match first(reader, fields, SAMPLE_FORMAT, 1) {
        Ok(v) => v,
        Err(e) => {
            return Err(e);
        },
    };
    let kind = match sample_kind(format, bits) {
        Ok(v) => v,
        Err(e) => {
            return Err(e);
        },
    };
    let shape = Shape {
        width,
        height,
        samples,
        bits,
        kind,
        compression: 1,
        predictor: 1,
        photometric: 1,
    };
    read_coding(reader, fields, st, shape)
}

fn read_coding(reader: &Reader, fields: &Vec<Field>, st: Start, shape: Shape) -> (r: Result<
    Shape,
    TiffError,
>)
    requires
        all_sound(fields@),
        st.le == reader.le,
        st.big == reader.big,
    ensures
        r == coding_of(reader.b@, entries(fields@), st, shape),
{
    let compression: u64 = match first(reader, fields, COMPRESSION, 1) {
        Ok(v) => v,
        Err(e) => {
            return Err(e);
        },
    };
    let predictor: u64 = match first(reader, fields, PREDICTOR, 1) {
        Ok(v) => v,
        Err(e) => {
            return Err(e);
        },
    };
    let planar: u64 = match first(reader, fields, PLANAR_CONFIG, 1) {
        Ok(v) => v,
        Err(e) => {
            return Err(e);
        },
    };
    if planar % 65536 != 1 && shape.samples > 1 {
        return Err(TiffError::Planar);
    }
    let photometric: u64 = match first(reader, fields, PHOTOMETRIC, 1) {
        Ok(v) => v,
        Err(e) => {
            return Err(e);
        },
    };
    if photometric % 65536 == 6 {
        return Err(TiffError::YCbCr);
    }
    if photometric % 65536 == 5 {
        return Err(TiffError::Cmyk);
    }
    Ok(
        Shape {
            width: shape.width,
            height: shape.height,
            samples: shape.samples,
            bits: shape.bits,
            kind: shape.kind,
            compression: (compression % 65536) as u16,
            predictor: (predictor % 65536) as u16,
            photometric: (photometric % 65536) as u16,
        },
    )
}

fn colours(v: &Vec<u64>) -> (r: Vec<(u8, u8, u8)>)
    ensures
        r@ == colours_from(v@),
{
    let n: usize = v.len() / 3;
    let mut out: Vec<(u8, u8, u8)> = Vec::new();
    let mut i: usize = 0;
    while i < n
        invariant
            i <= n,
            n == v.len() / 3,
            out@.len() == i,
            forall|j: int| 0 <= j < i ==> #[trigger] out@[j] == colours_from(v@)[j],
        decreases n - i,
    {
        out.push(
            (
                (v[i] / 256 % 256) as u8,
                (v[n + i] / 256 % 256) as u8,
                (v[2 * n + i] / 256 % 256) as u8,
            ),
        );
        i += 1;
    }
    proof {
        assert(out@ =~= colours_from(v@));
    }
    out
}

fn read_layout(reader: &Reader, fields: &Vec<Field>, st: Start, height: u64) -> (r: Result<
    Layout,
    TiffError,
>)
    requires
        all_sound(fields@),
        st.le == reader.le,
        st.big == reader.big,
    ensures
        r == layout_of(reader.b@, entries(fields@), st, height),
{
    if find(fields, TILE_WIDTH).is_some() {
        match first(reader, fields, TILE_WIDTH, 0) {
            Err(e) => Err(e),
            Ok(w) => match first(reader, fields, TILE_LENGTH, 0) {
                Err(e) => Err(e),
                Ok(h) => Ok(Layout::Tiles { w, h }),
            },
        }
    } else {
        match first(reader, fields, ROWS_PER_STRIP, height) {
            Err(e) => Err(e),
            Ok(n) => Ok(Layout::Strips { rows_per: if n < 1 { 1 } else { n } }),
        }
    }
}

fn read_tables(reader: &Reader, fields: &Vec<Field>, st: Start, layout: Layout) -> (r: Result<
    (Vec<u64>, Vec<u64>),
    TiffError,
>)
    requires
        all_sound(fields@),
        st.le == reader.le,
        st.big == reader.big,
    ensures
        match tables_of(reader.b@, entries(fields@), st, layout) {
            Err(e) => r matches Err(x) && x == e,
            Ok((o, c)) => r matches Ok((vo, vc)) && vo@ == o && vc@ == c,
        },
{
    let (offset_tag, count_tag) = match layout {
        Layout::Tiles { .. } => (TILE_OFFSETS, TILE_BYTE_COUNTS),
        Layout::Strips { .. } => (STRIP_OFFSETS, STRIP_BYTE_COUNTS),
    };
    let offsets = match all_values(reader, fields, offset_tag) {
        Err(e) => {
            return Err(e);
        },
        Ok(None) => {
            return Err(TiffError::NoOffsets);
        },
        Ok(Some(v)) => v,
    };
    let counts = match all_values(reader, fields, count_tag) {
        Err(e) => {
            return Err(e);
        },
        Ok(None) => {
            return Err(TiffError::NoCounts);
        },
        Ok(Some(v)) => v,
    };
    if offsets.len() != counts.len() {
        return Err(TiffError::TablesDisagree);
    }
    Ok((offsets, counts))
}

fn read_georef(reader: &Reader, fields: &Vec<Field>, st: Start) -> (r: Result<Georef, TiffError>)
    requires
        all_sound(fields@),
        st.le == reader.le,
        st.big == reader.big,
    ensures
        r == georef_of(reader.b@, entries(fields@), st),
{
    if let Some(f) = find(fields, MODEL_TRANSFORMATION) {
        let m = match reader.floats(f) {
            Err(e) => {
                return Err(e);
            },
            Ok(v) => v,
        };
        if m.len() >= 8 {
            return Ok(
                Georef::Matrix { t0: m[0], t1: m[1], t2: m[3], t3: m[4], t4: m[5], t5: m[7] },
            );
        }
        return Ok(Georef::Absent);
    }
    match (find(fields, MODEL_PIXEL_SCALE), find(fields, MODEL_TIEPOINT)) {
        (Some(sf), Some(tf)) => {
            let s = match reader.floats(sf) {
                Err(e) => {
                    return Err(e);
                },
                Ok(v) => v,
            };
            let t = match reader.floats(tf) {
                Err(e) => {
                    return Err(e);
                },
                Ok(v) => v,
            };
            if s.len() >= 2 && t.len() >= 6 {
                Ok(Georef::Tied { sx: s[0], sy: s[1], i: t[0], j: t[1], x: t[3], y: t[4] })
            } else {
                Ok(Georef::Absent)
            }
        },
        _ => Ok(Georef::Absent),
    }
}

fn read_text(reader: &Reader, fields: &Vec<Field>, st: Start, tag: u16) -> (r: Option<String>)
    requires
        all_sound(fields@),
        st.le == reader.le,
        st.big == reader.big,
    ensures
        match text_tag(reader.b@, entries(fields@), st, tag) {
            None => r is None,
            Some(s) => r matches Some(v) && v@ == s,
        },
{
    match find(fields, tag) {
        None => None,
        Some(f) => reader.ascii(f),
    }
}

fn name_before_bar(s: &str) -> (r: String)
    ensures
        r@ == before_bar(s@),
{
    let v = chars_of(s);
    let mut n: usize = 0;
    proof {
        assert(v@.skip(0) =~= v@);
        assert(v@.take(0) + up_to(v@, '|') =~= up_to(v@, '|'));
    }
    while n < v.len() && v[n] != '|'
        invariant
            n <= v@.len(),
            up_to(v@, '|') == v@.take(n as int) + up_to(v@.skip(n as int), '|'),
        decreases v.len() - n,
    {
        proof {
            assert(v@.skip(n as int).skip(1) =~= v@.skip(n + 1));
            assert(v@.take(n as int) + (seq![v@[n as int]] + up_to(v@.skip(n + 1), '|')) =~= v@.take(
                n + 1,
            ) + up_to(v@.skip(n + 1), '|'));
        }
        n += 1;
    }
    proof {
        assert(v@.take(n as int) + Seq::<char>::empty() =~= v@.subrange(0, n as int));
    }
    let name = part(v.as_slice(), 0, n);
    text_of(trim(name.as_slice()).as_slice())
}

/// An opened file: what its directory says, without the pixels.
#[derive(Debug)]
pub struct GeoTiff {
    pub start: Start,
    pub shape: Shape,
    /// The colour map, if the file is colour-mapped.
    pub palette: Option<Vec<(u8, u8, u8)>>,
    pub layout: Layout,
    pub offsets: Vec<u64>,
    pub counts: Vec<u64>,
    pub georef: Georef,
    /// The GeoKey directory, from which `epsg_from` reads the reference system.
    pub geo_keys: Option<Vec<u64>>,
    pub crs_name: String,
    /// The no-data value as it is written, to be read as a real number.
    pub nodata: Option<String>,
}

impl View for GeoTiff {
    type V = Opened;

    open spec fn view(&self) -> Opened {
        Opened {
            start: self.start,
            shape: self.shape,
            palette: match self.palette {
                None => None,
                Some(v) => Some(v@),
            },
            layout: self.layout,
            offsets: self.offsets@,
            counts: self.counts@,
            georef: self.georef,
            geo_keys: match self.geo_keys {
                None => None,
                Some(v) => Some(v@),
            },
            crs_name: self.crs_name@,
            nodata: match self.nodata {
                None => None,
                Some(v) => Some(v@),
            },
        }
    }
}

impl GeoTiff {
    /// Read the directory of a file.
    pub fn open(b: &[u8]) -> (r: Result<GeoTiff, TiffError>)
        ensures
            match opened(b@) {
                Err(e) => r matches Err(x) && x == e,
                Ok(o) => r matches Ok(t) && t@ == o,
            },
    {
        let st = match read_start(b) {
            Err(e) => {
                return Err(e);
            },
            Ok(v) => v,
        };
        let fields = match read_directory(b, st) {
            Err(e) => {
                return Err(e);
            },
            Ok(v) => v,
        };
        if has_next(b, st) {
            return Err(TiffError::MultiPage);
        }
        let reader = Reader { b, le: st.le, big: st.big };
        let shape = match read_shape(&reader, &fields, st) {
            Err(e) => {
                return Err(e);
            },
            Ok(v) => v,
        };
        Self::open_image(&reader, &fields, st, shape)
    }

    fn open_image(reader: &Reader, fields: &Vec<Field>, st: Start, shape: Shape) -> (r: Result<
        GeoTiff,
        TiffError,
    >)
        requires
            all_sound(fields@),
            st.le == reader.le,
            st.big == reader.big,
        ensures
            match opened_image(reader.b@, entries(fields@), st, shape) {
                Err(e) => r matches Err(x) && x == e,
                Ok(o) => r matches Ok(t) && t@ == o,
            },
    {
        let palette = match all_values(reader, fields, COLOR_MAP) {
            Err(e) => {
                return Err(e);
            },
            Ok(None) => None,
            Ok(Some(v)) => Some(colours(&v)),
        };
        let layout = match read_layout(reader, fields, st, shape.height) {
            Err(e) => {
                return Err(e);
            },
            Ok(v) => v,
        };
        let (offsets, counts) = match read_tables(reader, fields, st, layout) {
            Err(e) => {
                return Err(e);
            },
            Ok(v) => v,
        };
        let georef = match read_georef(reader, fields, st) {
            Err(e) => {
                return Err(e);
            },
            Ok(v) => v,
        };
        let geo_keys = match all_values(reader, fields, GEO_KEY_DIRECTORY) {
            Err(e) => {
                return Err(e);
            },
            Ok(v) => v,
        };
        let crs_name = if geo_keys.is_some() {
            match read_text(reader, fields, st, GEO_ASCII_PARAMS) {
                None => name_before_bar(String::new().as_str()),
                Some(s) => name_before_bar(s.as_str()),
            }
        } else {
            String::new()
        };
        let nodata = match read_text(reader, fields, st, GDAL_NODATA) {
            None => None,
            Some(s) => {
                let v = chars_of(s.as_str());
                Some(text_of(trim(v.as_slice()).as_slice()))
            },
        };
        Ok(
            GeoTiff {
                start: st,
                shape,
                palette,
                layout,
                offsets,
                counts,
                georef,
                geo_keys,
                crs_name,
                nodata,
            },
        )
    }
}

// ---- the reference system ------------------------------------------------------

/// What the GeoKeys say: the model type, and the reference system's number.
#[derive(Clone, Copy, Debug, PartialEq, Eq, Structural)]
pub struct GeoKeys {
    pub model: u64,
    pub epsg: Option<u32>,
}

/// One key taken in: a projected system counts over a geographic one, and
/// values of none (0) and user-defined (32767) count for nothing.
pub open spec fn with_key(st: GeoKeys, id: u16, loc: u64, val: u64) -> GeoKeys {
    if loc != 0 {
        st
    } else if id == GT_MODEL_TYPE {
        GeoKeys { model: val, ..st }
    } else if val == 0 || val == 32767 {
        st
    } else if id == PROJECTED_CS_TYPE || (id == GEOGRAPHIC_TYPE && st.epsg is None) {
        GeoKeys { epsg: Some((val as int % 4294967296) as u32), ..st }
    } else {
        st
    }
}

/// What the first `n` keys say. Each is four numbers, after a header of four.
pub open spec fn keys_read(keys: Seq<u64>, n: int) -> GeoKeys
    decreases n,
{
    if n <= 0 {
        GeoKeys { model: 0, epsg: None }
    } else {
        let before = keys_read(keys, n - 1);
        let at = 4 * n;
        if at + 3 >= keys.len() {
            before
        } else {
            with_key(before, low16(keys[at]), keys[at + 1], keys[at + 3])
        }
    }
}

/// The number of the reference system that a file's keys give.
///
/// Where they give none, a geographic model or a pixel as small as a fraction
/// of a degree is taken for WGS84.
pub open spec fn epsg_of(keys: Option<Seq<u64>>, degree_sized: bool) -> Option<u32> {
    match keys {
        None => if degree_sized {
            Some(4326u32)
        } else {
            None
        },
        Some(k) => if k.len() < 4 {
            None
        } else {
            let st = keys_read(k, k[3] as int);
            if st.epsg is None && (st.model == 2 || degree_sized) {
                Some(4326u32)
            } else {
                st.epsg
            }
        },
    }
}

fn take_key(st: GeoKeys, id: u16, loc: u64, val: u64) -> (r: GeoKeys)
    ensures
        r == with_key(st, id, loc, val),
{
    if loc != 0 {
        st
    } else if id == GT_MODEL_TYPE {
        GeoKeys { model: val, epsg: st.epsg }
    } else if val == 0 || val == 32767 {
        st
    } else if id == PROJECTED_CS_TYPE || (id == GEOGRAPHIC_TYPE && st.epsg.is_none()) {
        GeoKeys { model: st.model, epsg: Some((val % 4294967296) as u32) }
    } else {
        st
    }
}

/// Keys past the end of the directory say nothing.
proof fn lemma_keys_end(keys: Seq<u64>, m: int, n: int)
    requires
        0 <= m <= n,
        4 * (m + 1) + 3 >= keys.len(),
    ensures
        keys_read(keys, n) == keys_read(keys, m),
    decreases n - m,
{
    if m < n {
        lemma_keys_end(keys, m, n - 1);
    }
}

/// The number of the reference system that a file's keys give, where
/// `degree_sized` says whether its pixels are smaller than a hundredth of a
/// unit.
pub fn epsg_from(keys: &Option<Vec<u64>>, degree_sized: bool) -> (r: Option<u32>)
    ensures
        r == epsg_of(
            match *keys {
                None => None,
                Some(v) => Some(v@),
            },
            degree_sized,
        ),
{
    let k = match keys {
        None => {
            return if degree_sized {
                Some(4326)
            } else {
                None
            };
        },
        Some(k) => k,
    };
    if k.len() < 4 {
        return None;
    }
    let n: u64 = k[3];
    let mut st = GeoKeys { model: 0, epsg: None };
    let mut i: u64 = 0;
    let mut at: usize = 4;
    while i < n && at <= k.len() && 3 < k.len() - at
        invariant
            i <= n,
            at == 4 * (i + 1),
            st == keys_read(k@, i as int),
            4 <= at <= k.len(),
        decreases n - i,
    {
        st = take_key(st, (k[at] % 65536) as u16, k[at + 1], k[at + 3]);
        i += 1;
        at += 4;
    }
    proof {
        if i < n {
            lemma_keys_end(k@, i as int, n as int);
        }
    }
    if st.epsg.is_none() && (st.model == 2 || degree_sized) {
        Some(4326)
    } else {
        st.epsg
    }
}

} // verus!
