//! The pixels of a TIFF: finding a pixel's block, decoding it, and reading the
//! sample out of it.

use vstd::prelude::*;

use crate::bytes;
use crate::bytes::{get_u16, get_u32, get_u64, signed16, signed32, signed64, slice_to_vec};
use crate::text::{push_dec, push_str};
use crate::tiff::codec::{
    inflate_zlib, lzw_decode, packbits_decode, unpredict_float, unpredict_horizontal,
};
use crate::tiff::field::TiffError;
use crate::tiff::{GeoTiff, Layout, SampleKind};

verus! {

/// Whether samples have a depth that can be decoded and strips have rows.
pub open spec fn readable(o: crate::tiff::Opened) -> bool {
    &&& (o.shape.bits == 8 || o.shape.bits == 16 || o.shape.bits == 32 || o.shape.bits == 64)
    &&& (o.layout matches Layout::Strips { rows_per } ==> rows_per > 0)
}

/// Every file that opens can have its blocks read: its samples have a known size, and
/// its strips have rows.
pub proof fn law_opened_is_readable(b: Seq<u8>)
    ensures
        crate::tiff::opened(b) matches Ok(o) ==> readable(o),
{
}

/// Columns and rows of a block. The last strip may be short.
pub open spec fn block_size(o: crate::tiff::Opened, i: int) -> (int, int) {
    match o.layout {
        Layout::Tiles { w, h } => (w as int, h as int),
        Layout::Strips { rows_per } => {
            let height = o.shape.height as int;
            let over = height % (rows_per as int);
            let full = height / (rows_per as int) + if over > 0 {
                1int
            } else {
                0
            };
            (
                o.shape.width as int,
                if i + 1 == full && over != 0 {
                    over
                } else {
                    rows_per as int
                },
            )
        },
    }
}

/// The bytes of a block as they are stored.
pub open spec fn stored_block(o: crate::tiff::Opened, b: Seq<u8>, i: int) -> Result<
    Seq<u8>,
    TiffError,
> {
    if i < 0 || i >= o.offsets.len() || i >= o.counts.len() {
        Err(TiffError::BlockIndex)
    } else if o.offsets[i] + o.counts[i] > b.len() {
        Err(TiffError::BlockPastEnd(i as u64))
    } else {
        Ok(b.subrange(o.offsets[i] as int, o.offsets[i] + o.counts[i]))
    }
}

/// Why a block cannot be read: what is wrong with it, or what is said of a
/// Deflate stream that is faulty.
pub enum Fault {
    Refused(TiffError),
    Deflate(Seq<char>),
}

impl Fault {
    /// What the fault is called.
    pub open spec fn saying(self) -> Seq<char> {
        match self {
            Fault::Refused(e) => crate::tiff::field::message_of(e),
            Fault::Deflate(s) => "deflate: "@ + s,
        }
    }
}

/// Why a block cannot be read: what is wrong with it, or what is said of a
/// Deflate stream that is faulty.
#[derive(Debug, PartialEq, Eq)]
pub enum BlockError {
    Refused(TiffError),
    Deflate(String),
}

impl View for BlockError {
    type V = Fault;

    open spec fn view(&self) -> Fault {
        match *self {
            BlockError::Refused(e) => Fault::Refused(e),
            BlockError::Deflate(s) => Fault::Deflate(s@),
        }
    }
}

impl BlockError {
    /// What the error says.
    pub fn message(&self) -> (s: String)
        ensures
            s@ == self@.saying(),
    {
        match self {
            BlockError::Refused(e) => e.message(),
            BlockError::Deflate(text) => {
                let mut s = String::new();
                push_str(&mut s, "deflate: ");
                push_str(&mut s, text.as_str());
                proof {
                    assert(s@ =~= self@.saying());
                }
                s
            },
        }
    }
}

/// What a block's bytes decompress to.
pub open spec fn decompressed(raw: Seq<u8>, compression: u16) -> Result<Seq<u8>, Fault> {
    if compression == 1 {
        Ok(raw)
    } else if compression == 5 {
        match crate::tiff::codec::lzw_run(raw, crate::tiff::codec::lzw_start()) {
            Ok(s) => Ok(s),
            Err(e) => Err(Fault::Refused(TiffError::Lzw(e))),
        }
    } else if compression == 8 || compression == 32946 {
        match crate::tiff::codec::zlib_inflated(raw) {
            Ok(s) => Ok(s),
            Err(s) => Err(Fault::Deflate(s)),
        }
    } else if compression == 32773 {
        Ok(crate::tiff::codec::packbits(raw, 0))
    } else {
        Err(Fault::Refused(TiffError::Compression(compression)))
    }
}

/// What a decompressed block comes to when its predictor is undone.
pub open spec fn finished(o: crate::tiff::Opened, i: int, data: Seq<u8>) -> Result<
    Seq<u8>,
    TiffError,
> {
    let p = o.shape.predictor;
    if p != 1 && p != 2 && p != 3 {
        Err(TiffError::Predictor(p))
    } else {
        Ok(choose|now: Seq<u8>| finishes(o, i, data, now))
    }
}

/// Whether undoing the predictor of block `i` turns `data` into `now`.
pub open spec fn finishes(
    o: crate::tiff::Opened,
    i: int,
    data: Seq<u8>,
    now: Seq<u8>,
) -> bool {
    crate::tiff::codec::undone(
        data,
        now,
        o.shape.predictor,
        block_size(o, i).0,
        block_size(o, i).1,
        o.shape.samples as int,
        o.shape.bits as int,
        o.start.le,
    )
}

/// A decoded block.
pub open spec fn decoded(o: crate::tiff::Opened, b: Seq<u8>, i: int) -> Result<Seq<u8>, Fault> {
    match stored_block(o, b, i) {
        Err(e) => Err(Fault::Refused(e)),
        Ok(raw) => match decompressed(raw, o.shape.compression) {
            Err(e) => Err(e),
            Ok(data) => match finished(o, i, data) {
                Err(e) => Err(Fault::Refused(e)),
                Ok(now) => Ok(now),
            },
        },
    }
}

/// One band of one pixel: a float's bits, or an integer.
#[derive(Clone, Copy, Debug, PartialEq, Eq, Structural)]
pub enum Sample {
    Single(u32),
    Double(u64),
    Int(i64),
    Uint(u64),
    NotANumber,
}

/// The sample in the bytes from `at` on.
pub open spec fn sample_at(b: Seq<u8>, at: int, kind: SampleKind, bits: u64, le: bool) -> Sample {
    match kind {
        SampleKind::Float => if bits == 32 {
            Sample::Single(bytes::u32_at(b, at, le) as u32)
        } else if bits == 64 {
            Sample::Double(bytes::u64_at(b, at, le) as u64)
        } else {
            Sample::NotANumber
        },
        SampleKind::Int => if bits == 8 {
            Sample::Int(bytes::as_signed(b[at] as int, 256) as i64)
        } else if bits == 16 {
            Sample::Int(bytes::as_signed(bytes::u16_at(b, at, le), 65536) as i64)
        } else if bits == 32 {
            Sample::Int(bytes::as_signed(bytes::u32_at(b, at, le), 4294967296) as i64)
        } else {
            Sample::Int(bytes::as_signed(bytes::u64_at(b, at, le), 18446744073709551616) as i64)
        },
        SampleKind::Uint => if bits == 8 {
            Sample::Uint(b[at] as u64)
        } else if bits == 16 {
            Sample::Uint(bytes::u16_at(b, at, le) as u64)
        } else if bits == 32 {
            Sample::Uint(bytes::u32_at(b, at, le) as u64)
        } else {
            Sample::Uint(bytes::u64_at(b, at, le) as u64)
        },
    }
}

/// The block that holds a pixel, the pixel's column and row in it, and the
/// columns that the block has.
pub open spec fn located(o: crate::tiff::Opened, col: int, row: int) -> Option<
    (int, int, int, int),
> {
    match o.layout {
        Layout::Strips { rows_per } => Some(
            (row / (rows_per as int), col, row % (rows_per as int), o.shape.width as int),
        ),
        Layout::Tiles { w, h } => if w == 0 || h == 0 {
            None
        } else {
            let (w, h) = (w as int, h as int);
            let across = o.shape.width as int / w + if o.shape.width as int % w > 0 {
                1int
            } else {
                0
            };
            Some(((row / h) * across + col / w, col % w, row % h, w))
        },
    }
}

/// Where a sample is in its block.
pub open spec fn sample_place(o: crate::tiff::Opened, bx: int, by: int, bw: int, band: int) -> int {
    let each = o.shape.bits as int / 8;
    let pixel = each * o.shape.samples;
    by * (bw * pixel) + bx * pixel + band * each
}

/// One band of one pixel: none outside the image, or where the block cannot be
/// read or is too short.
pub open spec fn value_of(o: crate::tiff::Opened, b: Seq<u8>, col: int, row: int, band: int) -> Option<
    Sample,
> {
    if col >= o.shape.width || row >= o.shape.height || band >= o.shape.samples {
        None
    } else {
        match located(o, col, row) {
            None => None,
            Some((bi, bx, by, bw)) => match decoded(o, b, bi) {
                Err(_) => None,
                Ok(data) => sample_in(o, data, bx, by, bw, band),
            },
        }
    }
}

/// One band of the pixel at a column and row of a decoded block.
pub open spec fn sample_in(
    o: crate::tiff::Opened,
    data: Seq<u8>,
    bx: int,
    by: int,
    bw: int,
    band: int,
) -> Option<Sample> {
    let at = sample_place(o, bx, by, bw, band);
    if at + o.shape.bits as int / 8 <= data.len() {
        Some(sample_at(data, at, o.shape.kind, o.shape.bits, o.start.le))
    } else {
        None
    }
}

/// Blocks that have been decoded, newest last.
#[derive(Debug)]
pub struct BlockCache {
    pub blocks: Vec<(u64, Vec<u8>)>,
}

/// Blocks that are kept.
pub const BLOCKS_KEPT: usize = 64;

impl View for BlockCache {
    type V = Seq<(u64, Seq<u8>)>;

    open spec fn view(&self) -> Seq<(u64, Seq<u8>)> {
        self.blocks@.map_values(|e: (u64, Vec<u8>)| (e.0, e.1@))
    }
}

impl BlockCache {
    /// Whether all that is kept are blocks of one file.
    pub open spec fn holds(&self, o: crate::tiff::Opened, b: Seq<u8>) -> bool {
        forall|k: int|
            0 <= k < self.blocks@.len() ==> decoded(
                o,
                b,
                (#[trigger] self.blocks@[k]).0 as int,
            ) == Ok::<Seq<u8>, Fault>(self.blocks@[k].1@)
    }

    /// A cache with nothing in it.
    pub fn new() -> (c: BlockCache)
        ensures
            c@ == Seq::<(u64, Seq<u8>)>::empty(),
            forall|o: crate::tiff::Opened, b: Seq<u8>| c.holds(o, b),
    {
        let c = BlockCache { blocks: Vec::new() };
        proof {
            assert(c@ =~= Seq::<(u64, Seq<u8>)>::empty());
        }
        c
    }

    /// Where a block is kept, if it is.
    pub fn get(&self, i: u64) -> (r: Option<usize>)
        ensures
            match r {
                Some(k) => k < self@.len() && self@[k as int].0 == i,
                None => forall|k: int| 0 <= k < self@.len() ==> (#[trigger] self@[k]).0 != i,
            },
    {
        let mut k: usize = self.blocks.len();
        while k > 0
            invariant
                k <= self.blocks@.len(),
                forall|j: int| k <= j < self@.len() ==> (#[trigger] self@[j]).0 != i,
            decreases k,
        {
            k -= 1;
            if self.blocks[k].0 == i {
                proof {
                    assert(self@[k as int].0 == i);
                }
                return Some(k);
            }
        }
        None
    }

    /// Keep a block, and let the oldest go where there are too many.
    pub fn put(&mut self, i: u64, v: Vec<u8>)
        requires
            old(self)@.len() <= BLOCKS_KEPT,
        ensures
            final(self)@ == (if old(self)@.len() < BLOCKS_KEPT {
                old(self)@.push((i, v@))
            } else {
                old(self)@.push((i, v@)).skip(1)
            }),
            final(self)@.len() <= BLOCKS_KEPT,
            final(self)@.last() == (i, v@),
            forall|o: crate::tiff::Opened, b: Seq<u8>| #[trigger]
                old(self).holds(o, b) && decoded(o, b, i as int) == Ok::<Seq<u8>, Fault>(v@)
                    ==> final(self).holds(o, b),
    {
        let ghost was = self.blocks@;
        let ghost pushed = was.push((i, v));
        self.blocks.push((i, v));
        if self.blocks.len() > BLOCKS_KEPT {
            self.blocks.remove(0);
            proof {
                assert(self.blocks@ =~= pushed.skip(1));
            }
        }
        proof {
            if was.len() < BLOCKS_KEPT {
                assert(self@ =~= old(self)@.push((i, v@)));
            } else {
                assert(self@ =~= old(self)@.push((i, v@)).skip(1));
            }
            assert forall|o: crate::tiff::Opened, b: Seq<u8>| #[trigger]
                old(self).holds(o, b) && decoded(o, b, i as int) == Ok::<Seq<u8>, Fault>(
                    v@,
                ) implies self.holds(o, b) by {
                assert forall|k: int| 0 <= k < self.blocks@.len() implies decoded(
                    o,
                    b,
                    (#[trigger] self.blocks@[k]).0 as int,
                ) == Ok::<Seq<u8>, Fault>(self.blocks@[k].1@) by {
                    let shift: int = if was.len() < BLOCKS_KEPT {
                        0
                    } else {
                        1
                    };
                    assert(self.blocks@[k] == pushed[k + shift]);
                    if k + shift < was.len() {
                        assert(pushed[k + shift] == was[k + shift]);
                    }
                }
            }
        }
    }
}

impl GeoTiff {
    /// True when the image is a single measured band rather than a picture.
    pub fn is_single_band(&self) -> (r: bool)
        ensures
            r == (self.shape.samples == 1 && self.palette is None),
    {
        self.shape.samples == 1 && self.palette.is_none()
    }

    /// Whether the file is a BigTIFF.
    pub fn is_big(&self) -> (r: bool)
        ensures
            r == self.start.big,
    {
        self.start.big
    }

    /// Undo the predictor of a decompressed block.
    pub fn finish_block(&self, i: u64, data: Vec<u8>) -> (r: Result<Vec<u8>, TiffError>)
        requires
            readable(self@),
        ensures
            match finished(self@, i as int, data@) {
                Err(e) => r matches Err(x) && x == e,
                Ok(s) => r matches Ok(v) && v@ == s && finishes(self@, i as int, data@, v@),
            },
    {
        let (w, h) = match self.layout {
            Layout::Tiles { w, h } => (w, h),
            Layout::Strips { rows_per } => {
                let over: u64 = self.shape.height % rows_per;
                let whole: u64 = self.shape.height / rows_per;
                let last: bool = over != 0 && i == whole;
                proof {
                    vstd::arithmetic::div_mod::lemma_fundamental_div_mod(
                        self.shape.height as int,
                        rows_per as int,
                    );
                }
                (self.shape.width, if last { over } else { rows_per })
            },
        };
        let p = self.shape.predictor;
        let ghost was = data@;
        let mut data = data;
        if p == 1 {
        } else if p == 2 {
            unpredict_horizontal(
                &mut data,
                w,
                h,
                self.shape.samples,
                self.shape.bits,
                self.start.le,
            );
        } else if p == 3 {
            unpredict_float(&mut data, w, h, self.shape.samples, self.shape.bits, self.start.le);
        } else {
            return Err(TiffError::Predictor(p));
        }
        proof {
            assert(block_size(self@, i as int) == (w as int, h as int));
            assert(finishes(self@, i as int, was, data@));
            let now = choose|now: Seq<u8>| finishes(self@, i as int, was, now);
            crate::tiff::codec::lemma_undone_unique(
                was,
                data@,
                now,
                p,
                w as int,
                h as int,
                self.shape.samples as int,
                self.shape.bits as int,
                self.start.le,
            );
        }
        Ok(data)
    }

    fn decompress(&self, raw: Vec<u8>) -> (r: Result<Vec<u8>, BlockError>)
        requires
            8 * raw@.len() <= usize::MAX,
        ensures
            match decompressed(raw@, self.shape.compression) {
                Err(e) => r matches Err(x) && x@ == e,
                Ok(s) => r matches Ok(v) && v@ == s,
            },
    {
        let c = self.shape.compression;
        if c == 1 {
            Ok(raw)
        } else if c == 5 {
            match lzw_decode(raw.as_slice()) {
                Ok(v) => Ok(v),
                Err(e) => Err(BlockError::Refused(TiffError::Lzw(e))),
            }
        } else if c == 8 || c == 32946 {
            match inflate_zlib(raw.as_slice()) {
                Ok(v) => Ok(v),
                Err(e) => Err(BlockError::Deflate(e)),
            }
        } else if c == 32773 {
            Ok(packbits_decode(raw.as_slice()))
        } else {
            Err(BlockError::Refused(TiffError::Compression(c)))
        }
    }

    /// Decode one block of the file `b`.
    pub fn block(&self, b: &[u8], i: u64) -> (r: Result<Vec<u8>, BlockError>)
        requires
            readable(self@),
            8 * b@.len() <= usize::MAX,
        ensures
            match decoded(self@, b@, i as int) {
                Err(e) => r matches Err(x) && x@ == e,
                Ok(s) => r matches Ok(v) && v@ == s,
            },
    {
        if i >= self.offsets.len() as u64 || i >= self.counts.len() as u64 {
            return Err(BlockError::Refused(TiffError::BlockIndex));
        }
        let off: u64 = self.offsets[i as usize];
        let n: u64 = self.counts[i as usize];
        let len: u64 = b.len() as u64;
        if off > len || n > len - off {
            return Err(BlockError::Refused(TiffError::BlockPastEnd(i)));
        }
        let raw = slice_to_vec(b, off as usize, off as usize + n as usize);
        match self.decompress(raw) {
            Err(e) => Err(e),
            Ok(data) => match self.finish_block(i, data) {
                Err(e) => Err(BlockError::Refused(e)),
                Ok(v) => Ok(v),
            },
        }
    }
}

/// A product of four numbers, where it stays below 2^64.
fn small_product(a: u64, b: u64, c: u64) -> (r: Option<u64>)
    ensures
        match r {
            Some(v) => v == a * (b * c),
            None => a * (b * c) > u64::MAX,
        },
{
    if a == 0 || b == 0 || c == 0 {
        proof {
            assert(a * (b * c) == 0) by (nonlinear_arith)
                requires
                    a == 0 || b == 0 || c == 0,
            ;
        }
        return Some(0);
    }
    match b.checked_mul(c) {
        None => {
            proof {
                assert(a * (b * c) >= b * c) by (nonlinear_arith)
                    requires
                        a >= 1,
                        b * c >= 0,
                ;
            }
            None
        },
        Some(bc) => a.checked_mul(bc),
    }
}

impl GeoTiff {
    /// The block holding a pixel, the pixel's position inside it, and the
    /// block's width. None where the layout has no blocks to speak of.
    pub fn locate(&self, col: u64, row: u64) -> (r: Option<(u64, u64, u64, u64)>)
        requires
            readable(self@),
        ensures
            match located(self@, col as int, row as int) {
                None => r is None,
                Some((bi, bx, by, bw)) => if bi <= u64::MAX {
                    r matches Some(x) && x.0 == bi && x.1 == bx && x.2 == by && x.3 == bw
                } else {
                    r is None
                },
            },
    {
        match self.layout {
            Layout::Strips { rows_per } => Some(
                (row / rows_per, col, row % rows_per, self.shape.width),
            ),
            Layout::Tiles { w, h } => {
                if w == 0 || h == 0 {
                    return None;
                }
                let width: u64 = self.shape.width;
                let whole: u64 = width / w;
                let across: u64 = if width % w > 0 {
                    proof {
                        vstd::arithmetic::div_mod::lemma_fundamental_div_mod(
                            width as int,
                            w as int,
                        );
                        assert(whole < u64::MAX) by (nonlinear_arith)
                            requires
                                width == w * whole + width as int % w as int,
                                width as int % w as int > 0,
                                w >= 1,
                                width <= u64::MAX,
                        ;
                    }
                    whole + 1
                } else {
                    whole
                };
                proof {
                    assert((row as int / h as int) * across >= 0) by (nonlinear_arith)
                        requires
                            row as int / h as int >= 0,
                            across >= 0,
                    ;
                }
                match (row / h).checked_mul(across) {
                    None => None,
                    Some(base) => match base.checked_add(col / w) {
                        None => None,
                        Some(bi) => Some((bi, col % w, row % h, w)),
                    },
                }
            },
        }
    }

    fn sample(&self, data: &Vec<u8>, at: usize) -> (s: Sample)
        requires
            readable(self@),
            at + self.shape.bits as int / 8 <= data.len(),
        ensures
            s == sample_at(data@, at as int, self.shape.kind, self.shape.bits, self.start.le),
    {
        let le = self.start.le;
        let b = data.as_slice();
        let bits = self.shape.bits;
        let word: u64 = if bits == 8 {
            b[at] as u64
        } else if bits == 16 {
            match get_u16(b, at, le) {
                Some(v) => v as u64,
                None => 0,
            }
        } else if bits == 32 {
            match get_u32(b, at, le) {
                Some(v) => v as u64,
                None => 0,
            }
        } else {
            match get_u64(b, at, le) {
                Some(v) => v,
                None => 0,
            }
        };
        match self.shape.kind {
            SampleKind::Float => {
                if bits == 32 {
                    Sample::Single(word as u32)
                } else if bits == 64 {
                    Sample::Double(word)
                } else {
                    Sample::NotANumber
                }
            },
            SampleKind::Uint => Sample::Uint(word),
            SampleKind::Int => {
                if bits == 8 {
                    Sample::Int(if word < 128 { word as i64 } else { word as i64 - 256 })
                } else if bits == 16 {
                    Sample::Int(signed16(word as u16) as i64)
                } else if bits == 32 {
                    Sample::Int(signed32(word as u32) as i64)
                } else {
                    Sample::Int(signed64(word))
                }
            },
        }
    }

    /// One band of the pixel at a column and row of a decoded block of `bw`
    /// columns.
    pub fn block_sample(&self, data: &Vec<u8>, bx: u64, by: u64, bw: u64, band: u64) -> (r: Option<
        Sample,
    >)
        requires
            readable(self@),
        ensures
            r == sample_in(self@, data@, bx as int, by as int, bw as int, band as int),
    {
        let each: u64 = self.shape.bits / 8;
        let samples: u64 = self.shape.samples;
        let ghost pixel = each * samples;
        proof {
            assert(pixel >= 0 && bx * pixel >= 0 && by * (bw * pixel) >= 0 && band * each >= 0)
                by (nonlinear_arith)
                requires
                    pixel == each * samples,
                    each >= 0,
                    samples >= 0,
                    bx >= 0,
                    by >= 0,
                    bw >= 0,
                    band >= 0,
            ;
            assert(by * (bw * pixel) == by * (bw * (each * samples)));
            assert((by * bw) * (each * samples) == by * (bw * pixel)) by (nonlinear_arith)
                requires
                    pixel == each * samples,
            ;
            assert(by * bw >= 0) by (nonlinear_arith)
                requires
                    by >= 0,
                    bw >= 0,
            ;
        }
        let len: u64 = data.len() as u64;
        let rows: u64 = match by.checked_mul(bw) {
            None => {
                if each == 0 || samples == 0 {
                    proof {
                        assert(pixel == 0) by (nonlinear_arith)
                            requires
                                pixel == each * samples,
                                each == 0 || samples == 0,
                        ;
                        assert((by * bw) * 0 == 0);
                    }
                    0
                } else {
                    proof {
                        assert((by * bw) * (each * samples) >= by * bw) by (nonlinear_arith)
                            requires
                                each >= 1,
                                samples >= 1,
                                by * bw >= 0,
                        ;
                    }
                    return None;
                }
            },
            Some(n) => match small_product(n, each, samples) {
                None => {
                    return None;
                },
                Some(v) => v,
            },
        };
        proof {
            assert(rows == by * (bw * pixel));
        }
        let left: u64 = match small_product(bx, each, samples) {
            None => {
                return None;
            },
            Some(v) => v,
        };
        let skip: u64 = match band.checked_mul(each) {
            None => {
                return None;
            },
            Some(v) => v,
        };
        let at: u128 = rows as u128 + left as u128 + skip as u128;
        if at + each as u128 <= len as u128 {
            Some(self.sample(data, at as usize))
        } else {
            None
        }
    }

    /// One band of one pixel of the file `b`. None outside the image or where
    /// the block cannot be read. Blocks come from the cache when they are there.
    pub fn value(&self, b: &[u8], cache: &mut BlockCache, col: u64, row: u64, band: u64) -> (r:
        Option<Sample>)
        requires
            readable(self@),
            8 * b@.len() <= usize::MAX,
            old(cache).holds(self@, b@),
            old(cache)@.len() <= BLOCKS_KEPT,
        ensures
            r == value_of(self@, b@, col as int, row as int, band as int),
            final(cache).holds(self@, b@),
            final(cache)@.len() <= BLOCKS_KEPT,
    {
        if col >= self.shape.width || row >= self.shape.height || band >= self.shape.samples {
            return None;
        }
        let blocks: usize = self.offsets.len();
        let (bi, bx, by, bw) = match self.locate(col, row) {
            None => {
                proof {
                    assert(blocks <= u64::MAX);
                }
                return None;
            },
            Some(x) => x,
        };
        let k: usize = match cache.get(bi) {
            Some(k) => k,
            None => {
                match self.block(b, bi) {
                    Err(_) => {
                        return None;
                    },
                    Ok(v) => {
                        cache.put(bi, v);
                        cache.blocks.len() - 1
                    },
                }
            },
        };
        proof {
            assert(cache@[k as int].0 == bi);
            assert(cache.blocks@[k as int].0 == bi);
        }
        self.block_sample(&cache.blocks[k].1, bx, by, bw, band)
    }

    /// The colour of a palette entry; black for an index the palette lacks.
    pub fn palette_colour(&self, i: u64) -> (r: Option<(u8, u8, u8)>)
        ensures
            r == match self@.palette {
                None => None,
                Some(p) => Some(
                    if i < p.len() {
                        p[i as int]
                    } else {
                        (0u8, 0u8, 0u8)
                    },
                ),
            },
    {
        match &self.palette {
            None => None,
            Some(p) => {
                if i < p.len() as u64 {
                    Some(p[i as usize])
                } else {
                    Some((0, 0, 0))
                }
            },
        }
    }

    /// A short human description for the layers panel.
    pub fn describe(&self) -> (s: String)
        ensures
            s@ == description(self@),
    {
        let mut s = String::new();
        push_dec(&mut s, self.shape.width);
        push_str(&mut s, "x");
        push_dec(&mut s, self.shape.height);
        push_str(&mut s, " · ");
        push_dec(&mut s, self.shape.samples);
        push_str(&mut s, if self.shape.samples == 1 { " band · " } else { " bands · " });
        push_str(
            &mut s,
            match self.shape.kind {
                SampleKind::Float => "float",
                SampleKind::Int => "int",
                SampleKind::Uint => "uint",
            },
        );
        push_dec(&mut s, self.shape.bits);
        push_str(&mut s, " · ");
        let c = self.shape.compression;
        push_str(
            &mut s,
            if c == 1 {
                "none"
            } else if c == 5 {
                "LZW"
            } else if c == 8 || c == 32946 {
                "deflate"
            } else if c == 32773 {
                "packbits"
            } else {
                "?"
            },
        );
        proof {
            assert(s@ =~= description(self@));
        }
        s
    }
}

/// An image's size, bands, sample form and compression in words.
pub open spec fn description(o: crate::tiff::Opened) -> Seq<char> {
    let c = o.shape.compression;
    crate::text::dec(o.shape.width as nat) + "x"@ + crate::text::dec(o.shape.height as nat)
        + " · "@ + crate::text::dec(o.shape.samples as nat) + (if o.shape.samples == 1 {
        " band · "@
    } else {
        " bands · "@
    }) + (match o.shape.kind {
        SampleKind::Float => "float"@,
        SampleKind::Int => "int"@,
        SampleKind::Uint => "uint"@,
    }) + crate::text::dec(o.shape.bits as nat) + " · "@ + (if c == 1 {
        "none"@
    } else if c == 5 {
        "LZW"@
    } else if c == 8 || c == 32946 {
        "deflate"@
    } else if c == 32773 {
        "packbits"@
    } else {
        "?"@
    })
}

} // verus!
