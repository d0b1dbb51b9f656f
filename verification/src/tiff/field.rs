//! The directory of a TIFF: its entries, and the values they stand for.

use vstd::prelude::*;

use crate::bytes;
use crate::bytes::{get_u16, get_u32, get_u64, slice_to_vec};
use crate::text;
use crate::text::from_utf8_lossy;
use crate::tiff::codec::LzwError;

verus! {

/// Why a file cannot be read.
#[derive(Clone, Copy, Debug, PartialEq, Eq, Structural)]
pub enum TiffError {
    TooShort,
    NoByteOrder,
    Magic(u16),
    OffsetSize,
    ShortRead,
    EntryRunsOff,
    FieldType(u16),
    NotInteger(u16),
    NotFloat(u16),
    PayloadOutOfRange,
    MultiPage,
    NoSize,
    MixedDepths,
    BitDepth(u64),
    SampleFormat(u64),
    FloatDepth(u64),
    Planar,
    YCbCr,
    Cmyk,
    NoOffsets,
    NoCounts,
    TablesDisagree,
    BlockIndex,
    BlockPastEnd(u64),
    Lzw(LzwError),
    Compression(u16),
    Predictor(u16),
}

/// One entry of the directory: its tag, the type and number of its values, and
/// eight bytes that are the values themselves or the place where they are.
#[derive(Debug)]
pub struct Field {
    pub tag: u16,
    pub typ: u16,
    pub count: u64,
    pub payload: Vec<u8>,
    pub inline: bool,
}

/// What an entry says.
#[verifier::ext_equal]
pub struct Entry {
    pub tag: u16,
    pub typ: u16,
    pub count: u64,
    pub payload: Seq<u8>,
    pub inline: bool,
}

impl View for Field {
    type V = Entry;

    open spec fn view(&self) -> Entry {
        Entry {
            tag: self.tag,
            typ: self.typ,
            count: self.count,
            payload: self.payload@,
            inline: self.inline,
        }
    }
}

/// Element size of a field type, or 0 for types that are not known.
pub open spec fn size_of_type(t: u16) -> int {
    if t == 1 || t == 2 || t == 6 || t == 7 {
        1
    } else if t == 3 || t == 8 {
        2
    } else if t == 4 || t == 9 || t == 11 {
        4
    } else if t == 5 || t == 10 || t == 12 || t == 16 || t == 17 || t == 18 {
        8
    } else {
        0
    }
}

/// The entry at `at`: 12 bytes, or 20 in a BigTIFF.
pub open spec fn entry_at(b: Seq<u8>, at: int, le: bool, big: bool) -> Entry {
    let typ = bytes::u16_at(b, at + 2, le) as u16;
    let count = (if big {
        bytes::u64_at(b, at + 4, le)
    } else {
        bytes::u32_at(b, at + 4, le)
    }) as u64;
    let room = if big {
        8int
    } else {
        4
    };
    let from = if big {
        at + 12
    } else {
        at + 8
    };
    Entry {
        tag: bytes::u16_at(b, at, le) as u16,
        typ,
        count,
        payload: Seq::new(
            8,
            |i: int|
                if i < room {
                    b[from + i]
                } else {
                    0u8
                },
        ),
        inline: size_of_type(typ) * count <= room,
    }
}

/// The next `n` entries from `at` on, or what stops them being read.
pub open spec fn entries_at(b: Seq<u8>, at: int, n: int, le: bool, big: bool) -> Result<
    Seq<Entry>,
    TiffError,
>
    decreases n,
{
    let (head, size) = if big {
        (12int, 20int)
    } else {
        (8int, 12int)
    };
    if n <= 0 {
        Ok(Seq::empty())
    } else if at + head > b.len() {
        Err(TiffError::ShortRead)
    } else if at + size > b.len() {
        Err(TiffError::EntryRunsOff)
    } else {
        match entries_at(b, at + size, n - 1, le, big) {
            Err(e) => Err(e),
            Ok(rest) => Ok(seq![entry_at(b, at, le, big)] + rest),
        }
    }
}

/// The entry of a tag. Where a tag comes twice the later one counts.
pub open spec fn lookup(fields: Seq<Entry>, tag: u16) -> Option<Entry>
    decreases fields.len(),
{
    if fields.len() == 0 {
        None
    } else if fields.last().tag == tag {
        Some(fields.last())
    } else {
        lookup(fields.drop_last(), tag)
    }
}

/// The `total` bytes of an entry's values: those it holds itself, or those it
/// points at.
pub open spec fn payload_of(b: Seq<u8>, f: Entry, total: int, le: bool, big: bool) -> Option<
    Seq<u8>,
> {
    if f.inline {
        Some(f.payload.take(if total < 8 {
            total
        } else {
            8
        }))
    } else {
        let off = if big {
            bytes::u64_at(f.payload, 0, le)
        } else {
            bytes::u32_at(f.payload, 0, le)
        };
        if off + total <= b.len() {
            Some(b.subrange(off, off + total))
        } else {
            None
        }
    }
}

/// A number in sixty-four bits, negative ones counted down from the top.
pub open spec fn widened(v: int) -> u64 {
    (if v < 0 {
        v + 18446744073709551616
    } else {
        v
    }) as u64
}

/// Whether a field type is one of the integer types.
pub open spec fn is_integer_type(t: u16) -> bool {
    t == 1 || t == 3 || t == 4 || t == 6 || t == 7 || t == 8 || t == 9 || t == 16 || t == 17 || t
        == 18
}

/// The integer at `at`, widened to 64 bits. Signed types are sign-extended.
pub open spec fn integer_at(b: Seq<u8>, at: int, typ: u16, le: bool) -> u64 {
    if typ == 1 || typ == 7 {
        widened(b[at] as int)
    } else if typ == 6 {
        widened(bytes::as_signed(b[at] as int, 256))
    } else if typ == 3 {
        widened(bytes::u16_at(b, at, le))
    } else if typ == 8 {
        widened(bytes::as_signed(bytes::u16_at(b, at, le), 65536))
    } else if typ == 4 {
        widened(bytes::u32_at(b, at, le))
    } else if typ == 9 {
        widened(bytes::as_signed(bytes::u32_at(b, at, le), 4294967296))
    } else {
        widened(bytes::u64_at(b, at, le))
    }
}

/// Every value of an integer entry.
pub open spec fn integers_of(b: Seq<u8>, f: Entry, le: bool, big: bool) -> Result<
    Seq<u64>,
    TiffError,
> {
    let size = size_of_type(f.typ);
    if size == 0 {
        Err(TiffError::FieldType(f.typ))
    } else {
        match payload_of(b, f, size * f.count, le, big) {
            None => Err(TiffError::PayloadOutOfRange),
            Some(bytes) => if f.count > 0 && !is_integer_type(f.typ) {
                Err(TiffError::NotInteger(f.typ))
            } else {
                Ok(Seq::new(f.count as nat, |i: int| integer_at(bytes, i * size, f.typ, le)))
            },
        }
    }
}

/// A real number as it is stored: the bits of a float, or a fraction.
#[derive(Clone, Copy, Debug, PartialEq, Eq, Structural)]
pub enum Real {
    Single(u32),
    Double(u64),
    Ratio(u32, u32),
}

/// The real number at `at`.
pub open spec fn real_at(b: Seq<u8>, at: int, typ: u16, le: bool) -> Real {
    if typ == 11 {
        Real::Single(bytes::u32_at(b, at, le) as u32)
    } else if typ == 12 {
        Real::Double(bytes::u64_at(b, at, le) as u64)
    } else {
        Real::Ratio(bytes::u32_at(b, at, le) as u32, bytes::u32_at(b, at + 4, le) as u32)
    }
}

/// Every value of an entry of real numbers.
pub open spec fn reals_of(b: Seq<u8>, f: Entry, le: bool, big: bool) -> Result<
    Seq<Real>,
    TiffError,
> {
    let size = size_of_type(f.typ);
    match payload_of(b, f, size * f.count, le, big) {
        None => Err(TiffError::PayloadOutOfRange),
        Some(bytes) => if f.count > 0 && f.typ != 5 && f.typ != 10 && f.typ != 11 && f.typ != 12 {
            Err(TiffError::NotFloat(f.typ))
        } else {
            Ok(Seq::new(f.count as nat, |i: int| real_at(bytes, i * size, f.typ, le)))
        },
    }
}

/// Text without the NUL characters at its end.
pub open spec fn trim_nul(s: Seq<char>) -> Seq<char>
    decreases s.len(),
{
    if s.len() > 0 && s.last() == '\0' {
        trim_nul(s.drop_last())
    } else {
        s
    }
}

/// The text of an entry, or none where its bytes are not in the file.
pub open spec fn ascii_of(b: Seq<u8>, f: Entry, le: bool, big: bool) -> Option<Seq<char>> {
    match payload_of(b, f, f.count as int, le, big) {
        None => None,
        Some(bytes) => Some(trim_nul(text::lossy_text(bytes))),
    }
}

/// A file and how its numbers are stored.
pub struct Reader<'a> {
    pub b: &'a [u8],
    pub le: bool,
    pub big: bool,
}

impl<'a> Reader<'a> {
    /// Two bytes as a number.
    pub fn u16(&self, at: u64) -> (r: Result<u16, TiffError>)
        ensures
            r is Ok <==> bytes::holds(self.b@, at as int, 2),
            r matches Ok(v) ==> v == bytes::u16_at(self.b@, at as int, self.le),
            r matches Err(e) ==> e == TiffError::ShortRead,
    {
        if at < self.b.len() as u64 {
            if let Some(v) = get_u16(self.b, at as usize, self.le) {
                return Ok(v);
            }
        }
        Err(TiffError::ShortRead)
    }

    /// Four bytes as a number.
    pub fn u32(&self, at: u64) -> (r: Result<u32, TiffError>)
        ensures
            r is Ok <==> bytes::holds(self.b@, at as int, 4),
            r matches Ok(v) ==> v == bytes::u32_at(self.b@, at as int, self.le),
            r matches Err(e) ==> e == TiffError::ShortRead,
    {
        if at < self.b.len() as u64 {
            if let Some(v) = get_u32(self.b, at as usize, self.le) {
                return Ok(v);
            }
        }
        Err(TiffError::ShortRead)
    }

    /// Eight bytes as a number.
    pub fn u64(&self, at: u64) -> (r: Result<u64, TiffError>)
        ensures
            r is Ok <==> bytes::holds(self.b@, at as int, 8),
            r matches Ok(v) ==> v == bytes::u64_at(self.b@, at as int, self.le),
            r matches Err(e) ==> e == TiffError::ShortRead,
    {
        if at < self.b.len() as u64 {
            if let Some(v) = get_u64(self.b, at as usize, self.le) {
                return Ok(v);
            }
        }
        Err(TiffError::ShortRead)
    }

    /// Element size of a field type, or 0 for types that are not known.
    pub fn type_size(t: u16) -> (n: usize)
        ensures
            n == size_of_type(t),
    {
        if t == 1 || t == 2 || t == 6 || t == 7 {
            1
        } else if t == 3 || t == 8 {
            2
        } else if t == 4 || t == 9 || t == 11 {
            4
        } else if t == 5 || t == 10 || t == 12 || t == 16 || t == 17 || t == 18 {
            8
        } else {
            0
        }
    }

    /// Where an entry's values are when they do not fit in the entry itself.
    pub fn payload_offset(&self, f: &Field) -> (off: u64)
        requires
            f.payload@.len() == 8,
        ensures
            off == if self.big {
                bytes::u64_at(f.payload@, 0, self.le)
            } else {
                bytes::u32_at(f.payload@, 0, self.le)
            },
    {
        if self.big {
            match get_u64(f.payload.as_slice(), 0, self.le) {
                Some(v) => v,
                None => 0,
            }
        } else {
            match get_u32(f.payload.as_slice(), 0, self.le) {
                Some(v) => v as u64,
                None => 0,
            }
        }
    }

    /// The bytes of an entry's values: `size` of them for each.
    fn payload(&self, f: &Field, size: u64) -> (r: Option<Vec<u8>>)
        requires
            f.payload@.len() == 8,
            size <= 8,
        ensures
            match payload_of(self.b@, f@, size * f.count, self.le, self.big) {
                None => r is None,
                Some(s) => r matches Some(v) && v@ == s,
            },
    {
        proof {
            assert(0 <= size * f.count <= 8 * 18446744073709551615) by (nonlinear_arith)
                requires
                    0 <= size <= 8,
                    0 <= f.count <= 18446744073709551615,
            ;
        }
        let total: u128 = size as u128 * f.count as u128;
        if f.inline {
            let n: usize = if total < 8 { total as usize } else { 8 };
            proof {
                assert(f.payload@.subrange(0, n as int) =~= f.payload@.take(n as int));
            }
            return Some(slice_to_vec(f.payload.as_slice(), 0, n));
        }
        let off = self.payload_offset(f);
        if off as u128 + total <= self.b.len() as u128 {
            Some(slice_to_vec(self.b, off as usize, off as usize + total as usize))
        } else {
            None
        }
    }

    /// Every value of an integer entry, widened to 64 bits.
    pub fn ints(&self, f: &Field) -> (r: Result<Vec<u64>, TiffError>)
        requires
            f.payload@.len() == 8,
            f.inline ==> size_of_type(f.typ) * f.count <= 8,
        ensures
            match integers_of(self.b@, f@, self.le, self.big) {
                Ok(s) => r matches Ok(v) && v@ == s,
                Err(e) => r matches Err(x) && x == e,
            },
    {
        let size = Self::type_size(f.typ);
        if size == 0 {
            return Err(TiffError::FieldType(f.typ));
        }
        let bytes = match self.payload(f, size as u64) {
            Some(v) => v,
            None => {
                return Err(TiffError::PayloadOutOfRange);
            },
        };
        let n: usize = bytes.len() / size;
        proof {
            lemma_exact_count(bytes@.len() as int, size as int, f.count as int);
        }
        let t = f.typ;
        if n > 0 && !(t == 1 || t == 3 || t == 4 || t == 6 || t == 7 || t == 8 || t == 9 || t == 16
            || t == 17 || t == 18) {
            return Err(TiffError::NotInteger(t));
        }
        let mut out: Vec<u64> = Vec::new();
        let mut i: usize = 0;
        while i < n
            invariant
                i <= n,
                n == f.count,
                t == f.typ,
                i < n ==> is_integer_type(t),
                size == size_of_type(t),
                bytes@.len() == size * f.count,
                bytes@.len() == bytes.len(),
                out@.len() == i,
                forall|j: int|
                    0 <= j < i ==> #[trigger] out@[j] == integer_at(bytes@, j * size, t, self.le),
            decreases n - i,
        {
            proof {
                assert(i * size + size <= size * f.count && i * size >= 0) by (nonlinear_arith)
                    requires
                        0 <= i,
                        i + 1 <= f.count,
                        size >= 0,
                ;
            }
            let at: usize = i * size;
            out.push(self.integer(&bytes, at, t));
            i += 1;
        }
        proof {
            assert(out@ =~= Seq::new(
                f.count as nat,
                |i: int| integer_at(bytes@, i * size_of_type(f.typ), f.typ, self.le),
            ));
        }
        Ok(out)
    }

    fn integer(&self, bytes: &Vec<u8>, at: usize, typ: u16) -> (v: u64)
        requires
            is_integer_type(typ),
            at + size_of_type(typ) <= bytes.len(),
        ensures
            v == integer_at(bytes@, at as int, typ, self.le),
    {
        let b = bytes.as_slice();
        if typ == 1 || typ == 7 {
            b[at] as u64
        } else if typ == 6 {
            let v = b[at];
            if v < 128 {
                v as u64
            } else {
                18446744073709551360u64 + v as u64
            }
        } else if typ == 3 || typ == 8 {
            let v: u16 = match get_u16(b, at, self.le) {
                Some(v) => v,
                None => 0,
            };
            if typ == 3 || v < 32768 {
                v as u64
            } else {
                18446744073709486080u64 + v as u64
            }
        } else if typ == 4 || typ == 9 {
            let v: u32 = match get_u32(b, at, self.le) {
                Some(v) => v,
                None => 0,
            };
            if typ == 4 || v < 2147483648 {
                v as u64
            } else {
                18446744069414584320u64 + v as u64
            }
        } else {
            match get_u64(b, at, self.le) {
                Some(v) => v,
                None => 0,
            }
        }
    }

    /// Every value of an entry of real numbers, as they are stored.
    pub fn floats(&self, f: &Field) -> (r: Result<Vec<Real>, TiffError>)
        requires
            f.payload@.len() == 8,
            f.inline ==> size_of_type(f.typ) * f.count <= 8,
        ensures
            match reals_of(self.b@, f@, self.le, self.big) {
                Ok(s) => r matches Ok(v) && v@ == s,
                Err(e) => r matches Err(x) && x == e,
            },
    {
        let size = Self::type_size(f.typ);
        let t = f.typ;
        let bytes = match self.payload(f, size as u64) {
            Some(v) => v,
            None => {
                return Err(TiffError::PayloadOutOfRange);
            },
        };
        let mut out: Vec<Real> = Vec::new();
        if f.count == 0 {
            proof {
                assert(out@ =~= Seq::new(
                    0,
                    |i: int| real_at(bytes@, i * size_of_type(f.typ), f.typ, self.le),
                ));
            }
            return Ok(out);
        }
        if t != 5 && t != 10 && t != 11 && t != 12 {
            return Err(TiffError::NotFloat(t));
        }
        let n: usize = bytes.len() / size;
        proof {
            lemma_exact_count(bytes@.len() as int, size as int, f.count as int);
        }
        let mut i: usize = 0;
        while i < n
            invariant
                i <= n,
                n == f.count,
                t == f.typ,
                t == 5 || t == 10 || t == 11 || t == 12,
                size == size_of_type(t),
                bytes@.len() == size * f.count,
                bytes@.len() == bytes.len(),
                out@.len() == i,
                forall|j: int|
                    0 <= j < i ==> #[trigger] out@[j] == real_at(bytes@, j * size, t, self.le),
            decreases n - i,
        {
            proof {
                assert(i * size + size <= size * f.count && i * size >= 0) by (nonlinear_arith)
                    requires
                        0 <= i,
                        i + 1 <= f.count,
                        size >= 0,
                ;
            }
            let at: usize = i * size;
            let b = bytes.as_slice();
            let v = if t == 12 {
                match get_u64(b, at, self.le) {
                    Some(v) => Real::Double(v),
                    None => Real::Double(0),
                }
            } else if t == 11 {
                match get_u32(b, at, self.le) {
                    Some(v) => Real::Single(v),
                    None => Real::Single(0),
                }
            } else {
                match (get_u32(b, at, self.le), get_u32(b, at + 4, self.le)) {
                    (Some(n), Some(d)) => Real::Ratio(n, d),
                    _ => Real::Ratio(0, 0),
                }
            };
            out.push(v);
            i += 1;
        }
        proof {
            assert(out@ =~= Seq::new(
                f.count as nat,
                |i: int| real_at(bytes@, i * size_of_type(f.typ), f.typ, self.le),
            ));
        }
        Ok(out)
    }

    /// The text of an entry, without the NUL characters at its end.
    pub fn ascii(&self, f: &Field) -> (r: Option<String>)
        requires
            f.payload@.len() == 8,
        ensures
            match ascii_of(self.b@, f@, self.le, self.big) {
                None => r is None,
                Some(s) => r matches Some(v) && v@ == s,
            },
    {
        let bytes = match self.payload(f, 1) {
            Some(v) => v,
            None => {
                return None;
            },
        };
        let s = from_utf8_lossy(bytes.as_slice());
        let v = crate::text::chars_of(s.as_str());
        let mut to: usize = v.len();
        proof {
            assert(v@.take(v@.len() as int) =~= v@);
        }
        while to > 0 && v[to - 1] == '\0'
            invariant
                to <= v@.len(),
                trim_nul(v@.take(to as int)) == trim_nul(v@),
            decreases to,
        {
            proof {
                assert(v@.take(to as int).drop_last() =~= v@.take(to - 1));
            }
            to -= 1;
        }
        proof {
            assert(v@.subrange(0, to as int) =~= v@.take(to as int));
        }
        Some(crate::text::text_of(crate::text::part(v.as_slice(), 0, to).as_slice()))
    }
}

/// A whole number of elements leaves nothing over.
proof fn lemma_exact_count(len: int, size: int, count: int)
    requires
        size > 0,
        count >= 0,
        len == size * count,
    ensures
        len / size == count,
{
    vstd::arithmetic::mul::lemma_mul_is_commutative(size, count);
    vstd::arithmetic::div_mod::lemma_div_by_multiple(count, size);
}

/// What a number is followed by in a message.
pub open spec fn numbered(before: Seq<char>, n: nat, after: Seq<char>) -> Seq<char> {
    before + crate::text::dec(n) + after
}

/// What an error says.
pub open spec fn message_of(e: TiffError) -> Seq<char> {
    match e {
        TiffError::TooShort => "file is too short to be a TIFF"@,
        TiffError::NoByteOrder => "not a TIFF: no byte-order mark"@,
        TiffError::Magic(n) => numbered("not a TIFF: magic "@, n as nat, ""@),
        TiffError::OffsetSize => "BigTIFF with an offset size other than 8"@,
        TiffError::ShortRead => "short read"@,
        TiffError::EntryRunsOff => "IFD entry runs off the end"@,
        TiffError::FieldType(n) => numbered("unsupported field type "@, n as nat, ""@),
        TiffError::NotInteger(n) => numbered("field type "@, n as nat, " is not an integer"@),
        TiffError::NotFloat(n) => numbered("field type "@, n as nat, " is not a float"@),
        TiffError::PayloadOutOfRange => "field payload out of range"@,
        TiffError::NoSize => "image has no size"@,
        TiffError::MixedDepths => "bands with different bit depths are not supported"@,
        TiffError::BitDepth(n) => numbered(""@, n as nat, "-bit samples are not supported"@),
        TiffError::SampleFormat(n) => numbered("sample format "@, n as nat, " is not supported"@),
        TiffError::FloatDepth(n) => numbered(
            ""@,
            n as nat,
            "-bit floating point is not supported"@,
        ),
        TiffError::Planar => "planar (band-separate) files are not supported"@,
        TiffError::YCbCr => "YCbCr (JPEG) TIFFs are not supported"@,
        TiffError::MultiPage => "multi-page TIFFs are not supported"@,
        TiffError::Cmyk => "CMYK TIFFs are not supported"@,
        TiffError::NoOffsets => "no strip or tile offsets"@,
        TiffError::NoCounts => "no strip or tile byte counts"@,
        TiffError::TablesDisagree => "offset and byte-count tables disagree in length"@,
        TiffError::BlockIndex => "block index out of range"@,
        TiffError::BlockPastEnd(n) => numbered(
            "block "@,
            n as nat,
            " runs past the end of the file"@,
        ),
        TiffError::Lzw(LzwError::Undefined) => "LZW stream starts with an undefined code"@,
        TiffError::Lzw(LzwError::Broken) => "LZW stream uses a code that was never defined"@,
        TiffError::Compression(n) => numbered(
            "compression "@,
            n as nat,
            " is not supported (need none, LZW, Deflate or PackBits)"@,
        ),
        TiffError::Predictor(n) => numbered("predictor "@, n as nat, " is not supported"@),
    }
}

fn number_message(before: &str, n: u64, after: &str) -> (s: String)
    ensures
        s@ == numbered(before@, n as nat, after@),
{
    let mut s = String::new();
    crate::text::push_str(&mut s, before);
    crate::text::push_dec(&mut s, n);
    crate::text::push_str(&mut s, after);
    proof {
        assert(s@ =~= numbered(before@, n as nat, after@));
    }
    s
}

fn plain_message(text: &str) -> (s: String)
    ensures
        s@ == text@,
{
    let mut s = String::new();
    crate::text::push_str(&mut s, text);
    proof {
        assert(s@ =~= text@);
    }
    s
}

impl TiffError {
    /// What the error says.
    pub fn message(&self) -> (s: String)
        ensures
            s@ == message_of(*self),
    {
        match *self {
            TiffError::TooShort => plain_message("file is too short to be a TIFF"),
            TiffError::NoByteOrder => plain_message("not a TIFF: no byte-order mark"),
            TiffError::Magic(n) => number_message("not a TIFF: magic ", n as u64, ""),
            TiffError::OffsetSize => plain_message("BigTIFF with an offset size other than 8"),
            TiffError::ShortRead => plain_message("short read"),
            TiffError::EntryRunsOff => plain_message("IFD entry runs off the end"),
            TiffError::FieldType(n) => number_message("unsupported field type ", n as u64, ""),
            TiffError::NotInteger(n) => number_message(
                "field type ",
                n as u64,
                " is not an integer",
            ),
            TiffError::NotFloat(n) => number_message("field type ", n as u64, " is not a float"),
            TiffError::PayloadOutOfRange => plain_message("field payload out of range"),
            TiffError::NoSize => plain_message("image has no size"),
            TiffError::MixedDepths => plain_message(
                "bands with different bit depths are not supported",
            ),
            TiffError::BitDepth(n) => number_message("", n, "-bit samples are not supported"),
            TiffError::SampleFormat(n) => number_message("sample format ", n, " is not supported"),
            TiffError::FloatDepth(n) => number_message(
                "",
                n,
                "-bit floating point is not supported",
            ),
            TiffError::Planar => plain_message("planar (band-separate) files are not supported"),
            TiffError::YCbCr => plain_message("YCbCr (JPEG) TIFFs are not supported"),
            TiffError::MultiPage => plain_message("multi-page TIFFs are not supported"),
            TiffError::Cmyk => plain_message("CMYK TIFFs are not supported"),
            TiffError::NoOffsets => plain_message("no strip or tile offsets"),
            TiffError::NoCounts => plain_message("no strip or tile byte counts"),
            TiffError::TablesDisagree => plain_message(
                "offset and byte-count tables disagree in length",
            ),
            TiffError::BlockIndex => plain_message("block index out of range"),
            TiffError::BlockPastEnd(n) => number_message(
                "block ",
                n,
                " runs past the end of the file",
            ),
            TiffError::Lzw(LzwError::Undefined) => plain_message(
                "LZW stream starts with an undefined code",
            ),
            TiffError::Lzw(LzwError::Broken) => plain_message(
                "LZW stream uses a code that was never defined",
            ),
            TiffError::Compression(n) => number_message(
                "compression ",
                n as u64,
                " is not supported (need none, LZW, Deflate or PackBits)",
            ),
            TiffError::Predictor(n) => number_message("predictor ", n as u64, " is not supported"),
        }
    }
}

} // verus!
