//! Decompression and predictors of TIFF blocks.

use vstd::prelude::*;

use crate::bytes;

verus! {

// ---- PackBits --------------------------------------------------------------

/// The bytes that a PackBits string stands for, from `i` on: a count byte `n`
/// below 128 is followed by `n + 1` bytes as they are, one above 128 by a byte
/// to be repeated `257 - n` times, and 128 stands for nothing.
pub open spec fn packbits(src: Seq<u8>, i: int) -> Seq<u8>
    decreases src.len() - i,
{
    if i < 0 || i >= src.len() {
        Seq::empty()
    } else if src[i] < 128 {
        let end = if i + 2 + src[i] <= src.len() {
            i + 2 + src[i]
        } else {
            src.len() as int
        };
        src.subrange(i + 1, end) + packbits(src, end)
    } else if src[i] == 128 {
        packbits(src, i + 1)
    } else if i + 1 >= src.len() {
        Seq::empty()
    } else {
        Seq::new((257 - src[i]) as nat, |k: int| src[i + 1]) + packbits(src, i + 2)
    }
}

fn push_range(out: &mut Vec<u8>, src: &[u8], from: usize, to: usize)
    requires
        from <= to <= src@.len(),
    ensures
        final(out)@ == old(out)@ + src@.subrange(from as int, to as int),
{
    let mut i: usize = from;
    while i < to
        invariant
            from <= i <= to <= src@.len(),
            out@ == old(out)@ + src@.subrange(from as int, i as int),
        decreases to - i,
    {
        out.push(src[i]);
        i += 1;
        proof {
            assert(src@.subrange(from as int, i as int) =~= src@.subrange(from as int, i - 1).push(
                src@[i - 1],
            ));
        }
    }
}

/// TIFF's PackBits: a run-length scheme with a signed count byte.
pub fn packbits_decode(src: &[u8]) -> (out: Vec<u8>)
    ensures
        out@ == packbits(src@, 0),
{
    let mut out: Vec<u8> = Vec::new();
    let mut i: usize = 0;
    while i < src.len()
        invariant
            i <= src@.len(),
            out@ + packbits(src@, i as int) == packbits(src@, 0),
        decreases src.len() - i,
    {
        let n = src[i];
        let ghost start = i as int;
        let ghost before = out@;
        i += 1;
        if n < 128 {
            let take: usize = n as usize + 1;
            let end: usize = if take <= src.len() - i { i + take } else { src.len() };
            push_range(&mut out, src, i, end);
            i = end;
            proof {
                assert(out@ + packbits(src@, i as int) =~= before + packbits(src@, start));
            }
        } else if n != 128 {
            if i < src.len() {
                let take: usize = 257 - n as usize;
                let b = src[i];
                let mut k: usize = 0;
                while k < take
                    invariant
                        k <= take,
                        out@ == before + Seq::new(k as nat, |j: int| b),
                    decreases take - k,
                {
                    out.push(b);
                    k += 1;
                    proof {
                        assert(Seq::new(k as nat, |j: int| b) =~= Seq::new(
                            (k - 1) as nat,
                            |j: int| b,
                        ).push(b));
                    }
                }
                i += 1;
            }
            proof {
                assert(out@ + packbits(src@, i as int) =~= before + packbits(src@, start));
            }
        }
    }
    proof {
        assert(out@ =~= packbits(src@, 0));
    }
    out
}

// ---- LZW -------------------------------------------------------------------

/// What stands for "no code" at the end of a chain of prefixes.
pub const NO_CODE: u16 = 65535;

/// Bit `k` of a byte, counted from the most significant.
pub open spec fn bit_of(byte: u8, k: int) -> int {
    if k == 0 {
        byte as int / 128 % 2
    } else if k == 1 {
        byte as int / 64 % 2
    } else if k == 2 {
        byte as int / 32 % 2
    } else if k == 3 {
        byte as int / 16 % 2
    } else if k == 4 {
        byte as int / 8 % 2
    } else if k == 5 {
        byte as int / 4 % 2
    } else if k == 6 {
        byte as int / 2 % 2
    } else {
        byte as int % 2
    }
}

/// The number in `n` bits from bit `pos` on, most significant bit first.
pub open spec fn code_at(src: Seq<u8>, pos: int, n: int) -> int
    decreases n,
{
    if n <= 0 {
        0
    } else {
        2 * code_at(src, pos, n - 1) + bit_of(src[(pos + n - 1) / 8], (pos + n - 1) % 8)
    }
}

/// The string of a code: the string of its prefix, and one byte more.
///
/// `None` where the chain of prefixes leaves the table or, after `fuel` links,
/// has not come to an end.
pub open spec fn string_of(prefix: Seq<u16>, suffix: Seq<u8>, code: u16, fuel: nat) -> Option<Seq<u8>>
    decreases fuel,
{
    if code == NO_CODE {
        Some(Seq::empty())
    } else if fuel == 0 || code >= prefix.len() {
        None
    } else {
        match string_of(prefix, suffix, prefix[code as int], (fuel - 1) as nat) {
            None => None,
            Some(s) => Some(s.push(suffix[code as int])),
        }
    }
}

/// What the decoder knows between two codes.
pub struct Lzw {
    pub prefix: Seq<u16>,
    pub suffix: Seq<u8>,
    pub width: int,
    pub pos: int,
    pub prev: Option<u16>,
    pub out: Seq<u8>,
}

/// Why an LZW string cannot be decoded.
#[derive(Clone, Copy, Debug, PartialEq, Eq, Structural)]
pub enum LzwError {
    /// The first code after a clear is not in the table.
    Undefined,
    /// A code's chain of prefixes leaves the table or runs in a circle.
    Broken,
}

/// The table before any code has been read: the 256 bytes and the two codes
/// that stand for no byte.
pub open spec fn fresh_prefix() -> Seq<u16> {
    Seq::new(258, |i: int| NO_CODE)
}

/// The bytes of the table before any code has been read.
pub open spec fn fresh_suffix() -> Seq<u8> {
    Seq::new(258, |i: int| if i < 256 { i as u8 } else { 0u8 })
}

/// The decoder before any code has been read.
pub open spec fn lzw_start() -> Lzw {
    Lzw {
        prefix: fresh_prefix(),
        suffix: fresh_suffix(),
        width: 9,
        pos: 0,
        prev: None,
        out: Seq::empty(),
    }
}

/// Width of the next code when the table has `len` entries. The step up comes
/// one code early.
pub open spec fn next_width(width: int, len: int) -> int {
    if width < 12 && len + 1 >= (if width == 9 {
        512int
    } else if width == 10 {
        1024
    } else {
        2048
    }) {
        width + 1
    } else {
        width
    }
}

/// The decoder after a code that stands for the bytes `s`.
pub open spec fn lzw_after(st: Lzw, code: u16, s: Seq<u8>, entry: Option<(u16, u8)>) -> Lzw {
    let grow = entry is Some && st.prefix.len() < 4096;
    let prefix = if grow {
        st.prefix.push((entry->0).0)
    } else {
        st.prefix
    };
    let suffix = if grow {
        st.suffix.push((entry->0).1)
    } else {
        st.suffix
    };
    Lzw {
        prefix,
        suffix,
        width: next_width(st.width, prefix.len() as int),
        pos: st.pos + st.width,
        prev: Some(code),
        out: st.out + s,
    }
}

/// What decoding comes to from a state on.
pub open spec fn lzw_run(src: Seq<u8>, st: Lzw) -> Result<Seq<u8>, LzwError>
    decreases 8 * src.len() - st.pos,
{
    if st.width < 9 || st.pos + st.width > 8 * src.len() {
        Ok(st.out)
    } else {
        let code = code_at(src, st.pos, st.width) as u16;
        let len = st.prefix.len();
        if code == 257 {
            Ok(st.out)
        } else if code == 256 {
            lzw_run(src, Lzw { pos: st.pos + st.width, out: st.out, ..lzw_start() })
        } else if code < len {
            match string_of(st.prefix, st.suffix, code, len) {
                None => Err(LzwError::Broken),
                Some(s) => lzw_run(
                    src,
                    lzw_after(
                        st,
                        code,
                        s,
                        match st.prev {
                            Some(p) => Some((p, s[0])),
                            None => None,
                        },
                    ),
                ),
            }
        } else {
            match st.prev {
                None => Err(LzwError::Undefined),
                Some(p) => match string_of(st.prefix, st.suffix, p, len) {
                    None => Err(LzwError::Broken),
                    Some(s) => lzw_run(
                        src,
                        lzw_after(st, code, s.push(s[0]), Some((p, s[0]))),
                    ),
                },
            }
        }
    }
}

fn bit(byte: u8, k: usize) -> (r: u16)
    requires
        k < 8,
    ensures
        r == bit_of(byte, k as int),
        r <= 1,
{
    let w: u8 = if k == 0 {
        128
    } else if k == 1 {
        64
    } else if k == 2 {
        32
    } else if k == 3 {
        16
    } else if k == 4 {
        8
    } else if k == 5 {
        4
    } else if k == 6 {
        2
    } else {
        1
    };
    (byte / w % 2) as u16
}

fn read_code(src: &[u8], pos: usize, width: usize) -> (code: u16)
    requires
        pos + width <= 8 * src@.len(),
        8 * src@.len() <= usize::MAX,
        9 <= width <= 12,
    ensures
        code == code_at(src@, pos as int, width as int),
        code < 4096,
{
    let mut code: u16 = 0;
    let mut k: usize = 0;
    while k < width
        invariant
            k <= width <= 12,
            pos + width <= 8 * src@.len(),
            8 * src@.len() <= usize::MAX,
            code == code_at(src@, pos as int, k as int),
            k == 0 ==> code < 1,
            k == 1 ==> code < 2,
            k == 2 ==> code < 4,
            k == 3 ==> code < 8,
            k == 4 ==> code < 16,
            k == 5 ==> code < 32,
            k == 6 ==> code < 64,
            k == 7 ==> code < 128,
            k == 8 ==> code < 256,
            k == 9 ==> code < 512,
            k == 10 ==> code < 1024,
            k == 11 ==> code < 2048,
            code < 4096,
        decreases width - k,
    {
        let at: usize = pos + k;
        code = 2 * code + bit(src[at / 8], at % 8);
        k += 1;
    }
    code
}

fn reversed(v: &Vec<u8>) -> (r: Vec<u8>)
    ensures
        r@ == v@.reverse(),
{
    let mut r: Vec<u8> = Vec::new();
    let mut i: usize = v.len();
    while i > 0
        invariant
            i <= v@.len(),
            r@ == v@.reverse().take(v@.len() - i),
        decreases i,
    {
        i -= 1;
        r.push(v[i]);
        proof {
            let n = v@.len() - i;
            assert(v@.reverse().take(n) =~= v@.reverse().take(n - 1).push(v@.reverse()[n - 1]));
        }
    }
    proof {
        assert(v@.reverse().take(v@.len() as int) =~= v@.reverse());
    }
    r
}

/// The string of a code, read off the chain of its prefixes.
fn expand(prefix: &Vec<u16>, suffix: &Vec<u8>, code: u16) -> (r: Option<Vec<u8>>)
    requires
        prefix@.len() == suffix@.len(),
    ensures
        match string_of(prefix@, suffix@, code, prefix@.len()) {
            None => r is None,
            Some(s) => r matches Some(v) && v@ == s,
        },
{
    let mut back: Vec<u8> = Vec::new();
    let mut w = code;
    let mut fuel: usize = prefix.len();
    proof {
        assert(back@.reverse() =~= Seq::<u8>::empty());
        assert(string_of(prefix@, suffix@, code, prefix@.len()) matches Some(s) ==> s
            + back@.reverse() =~= s);
    }
    while w != NO_CODE
        invariant
            prefix@.len() == suffix@.len(),
            fuel <= prefix@.len(),
            match string_of(prefix@, suffix@, w, fuel as nat) {
                None => string_of(prefix@, suffix@, code, prefix@.len()) is None,
                Some(s) => string_of(prefix@, suffix@, code, prefix@.len()) == Some(
                    s + back@.reverse(),
                ),
            },
        decreases fuel,
    {
        if fuel == 0 || w as usize >= prefix.len() {
            return None;
        }
        let ghost earlier = back@;
        back.push(suffix[w as usize]);
        proof {
            let rest = string_of(prefix@, suffix@, prefix@[w as int], (fuel - 1) as nat);
            if rest is Some {
                assert(rest->0 + back@.reverse() =~= rest->0.push(suffix@[w as int])
                    + earlier.reverse());
            }
        }
        w = prefix[w as usize];
        fuel -= 1;
    }
    proof {
        assert(Seq::<u8>::empty() + back@.reverse() =~= back@.reverse());
    }
    Some(reversed(&back))
}

fn fresh_table() -> (r: (Vec<u16>, Vec<u8>))
    ensures
        r.0@ == fresh_prefix(),
        r.1@ == fresh_suffix(),
{
    let mut prefix: Vec<u16> = Vec::new();
    let mut suffix: Vec<u8> = Vec::new();
    let mut i: usize = 0;
    while i < 258
        invariant
            i <= 258,
            prefix@.len() == i,
            suffix@.len() == i,
            forall|j: int| 0 <= j < i ==> prefix@[j] == fresh_prefix()[j],
            forall|j: int| 0 <= j < i ==> suffix@[j] == fresh_suffix()[j],
        decreases 258 - i,
    {
        prefix.push(NO_CODE);
        suffix.push(if i < 256 { i as u8 } else { 0 });
        i += 1;
    }
    proof {
        assert(prefix@ =~= fresh_prefix());
        assert(suffix@ =~= fresh_suffix());
    }
    (prefix, suffix)
}

/// A non-empty chain has a first byte.
proof fn lemma_string_not_empty(prefix: Seq<u16>, suffix: Seq<u8>, code: u16, fuel: nat)
    requires
        code != NO_CODE,
    ensures
        string_of(prefix, suffix, code, fuel) matches Some(s) ==> s.len() > 0,
{
}

/// TIFF LZW: codes of 9 to 12 bits, most significant bit first, with the code
/// width stepping up one code early.
pub fn lzw_decode(src: &[u8]) -> (r: Result<Vec<u8>, LzwError>)
    requires
        8 * src@.len() <= usize::MAX,
    ensures
        match lzw_run(src@, lzw_start()) {
            Ok(s) => r matches Ok(v) && v@ == s,
            Err(e) => r matches Err(f) && e == f,
        },
{
    let total: usize = 8 * src.len();
    let (mut prefix, mut suffix) = fresh_table();
    let mut out: Vec<u8> = Vec::new();
    let mut width: usize = 9;
    let mut pos: usize = 0;
    let mut prev: Option<u16> = None;
    while width <= total - pos
        invariant
            total == 8 * src@.len() <= usize::MAX,
            pos <= total,
            9 <= width <= 12,
            prefix@.len() == suffix@.len(),
            258 <= prefix@.len() <= 4096,
            prev matches Some(p) ==> p < 4096,
            lzw_run(src@, lzw_start()) == lzw_run(
                src@,
                Lzw {
                    prefix: prefix@,
                    suffix: suffix@,
                    width: width as int,
                    pos: pos as int,
                    prev,
                    out: out@,
                },
            ),
        decreases total - pos,
    {
        let ghost st = Lzw {
            prefix: prefix@,
            suffix: suffix@,
            width: width as int,
            pos: pos as int,
            prev,
            out: out@,
        };
        let code = read_code(src, pos, width);
        pos += width;
        if code == 257 {
            return Ok(out);
        }
        if code == 256 {
            let (p, s) = fresh_table();
            prefix = p;
            suffix = s;
            width = 9;
            prev = None;
            continue ;
        }
        let known = (code as usize) < prefix.len();
        let from: u16 = if known {
            code
        } else {
            match prev {
                Some(p) => p,
                None => {
                    return Err(LzwError::Undefined);
                },
            }
        };
        let mut s: Vec<u8> = match expand(&prefix, &suffix, from) {
            Some(s) => s,
            None => {
                return Err(LzwError::Broken);
            },
        };
        proof {
            lemma_string_not_empty(prefix@, suffix@, from, prefix@.len());
        }
        let first = s[0];
        if !known {
            s.push(first);
        }
        let ghost piece = s@;
        let ghost before = out@;
        out.append(&mut s);
        if let Some(p) = prev {
            if prefix.len() < 4096 {
                prefix.push(p);
                suffix.push(first);
            }
        }
        let limit: usize = if width == 9 {
            512
        } else if width == 10 {
            1024
        } else {
            2048
        };
        if width < 12 && prefix.len() + 1 >= limit {
            width += 1;
        }
        proof {
            let entry = match st.prev {
                Some(p) => Some((p, first)),
                None => None,
            };
            let after = lzw_after(st, code, piece, entry);
            assert(after.prefix =~= prefix@);
            assert(after.suffix =~= suffix@);
            assert(after.out =~= out@);
        }
        prev = Some(code);
    }
    Ok(out)
}

// ---- Deflate ---------------------------------------------------------------

/// The bytes that a zlib string inflates to, or what `miniz_oxide` says of the
/// fault where it is faulty.
pub uninterp spec fn zlib_inflated(b: Seq<u8>) -> Result<Seq<u8>, Seq<char>>;

/// `miniz_oxide::inflate::decompress_to_vec_zlib`: the inflated bytes, or an
/// error where the string is not whole and sound zlib. The error is handed on as
/// the text that its `Debug` writes. Bytes and text are named and not stated;
/// they depend on the string alone.
#[verifier::external_body]
pub(crate) fn inflate_zlib(b: &[u8]) -> (r: Result<Vec<u8>, String>)
    ensures
        match zlib_inflated(b@) {
            Ok(s) => r matches Ok(v) && v@ == s,
            Err(s) => r matches Err(e) && e@ == s,
        },
{
    match miniz_oxide::inflate::decompress_to_vec_zlib(b) {
        Ok(v) => Ok(v),
        Err(e) => Err(format!("{e:?}")),
    }
}

// ---- predictors ------------------------------------------------------------

/// The number in `bytes` bytes from `o` on. `bytes` is 1, 2, 4 or 8.
pub open spec fn word_at(b: Seq<u8>, o: int, bytes: int, le: bool) -> int {
    if bytes == 1 {
        b[o] as int
    } else if bytes == 2 {
        bytes::u16_at(b, o, le)
    } else if bytes == 4 {
        bytes::u32_at(b, o, le)
    } else {
        bytes::u64_at(b, o, le)
    }
}

/// How many numbers `bytes` bytes can hold.
pub open spec fn modulus(bytes: int) -> int {
    if bytes == 1 {
        256
    } else if bytes == 2 {
        65536
    } else if bytes == 4 {
        4294967296
    } else {
        18446744073709551616
    }
}

/// Whether a sample can have so many bytes.
pub open spec fn sample_size(bytes: int) -> bool {
    bytes == 1 || bytes == 2 || bytes == 4 || bytes == 8
}

/// Sample `k` of the row that starts at `base`.
pub open spec fn sample(b: Seq<u8>, base: int, k: int, bytes: int, le: bool) -> int {
    word_at(b, base + k * bytes, bytes, le)
}

/// Sample `k` of a row and all the samples of its band to the left of it,
/// added up.
pub open spec fn band_sum(b: Seq<u8>, base: int, k: int, samples: int, bytes: int, le: bool) -> int
    decreases k,
{
    if k < 0 || samples <= 0 {
        0
    } else if k < samples {
        sample(b, base, k, bytes, le)
    } else {
        band_sum(b, base, k - samples, samples, bytes, le) + sample(b, base, k, bytes, le)
    }
}

/// Whether row `row` of `stride` bytes lies wholly in `len` bytes and is one
/// of the first `h`.
pub open spec fn whole_row(row: int, stride: int, h: int, len: int) -> bool {
    0 <= row < h && stride > 0 && row * stride + stride <= len
}

/// Whether byte `i` lies in no whole row.
pub open spec fn outside_rows(i: int, stride: int, h: int, len: int) -> bool {
    forall|row: int| #[trigger]
        whole_row(row, stride, h, len) ==> i < row * stride || i >= row * stride + stride
}

fn read_word4(data: &Vec<u8>, o: usize, le: bool) -> (v: u32)
    requires
        o + 4 <= data.len(),
    ensures
        v == bytes::u32_at(data@, o as int, le),
{
    let (x, y, z, w) = (
        data[o] as u32,
        data[o + 1] as u32,
        data[o + 2] as u32,
        data[o + 3] as u32,
    );
    if le {
        x + 256 * y + 65536 * z + 16777216 * w
    } else {
        16777216 * x + 65536 * y + 256 * z + w
    }
}

fn read_word(data: &Vec<u8>, o: usize, bytes: usize, le: bool) -> (v: u64)
    requires
        sample_size(bytes as int),
        o + bytes <= data.len(),
    ensures
        v == word_at(data@, o as int, bytes as int, le),
        v < modulus(bytes as int),
{
    if bytes == 1 {
        data[o] as u64
    } else if bytes == 2 {
        let (x, y) = (data[o] as u64, data[o + 1] as u64);
        if le {
            x + 256 * y
        } else {
            256 * x + y
        }
    } else if bytes == 4 {
        read_word4(data, o, le) as u64
    } else {
        let (x, y) = (read_word4(data, o, le) as u64, read_word4(data, o + 4, le) as u64);
        if le {
            x + 4294967296 * y
        } else {
            4294967296 * x + y
        }
    }
}

fn write_word4(data: &mut Vec<u8>, o: usize, le: bool, v: u32)
    requires
        o + 4 <= old(data).len(),
    ensures
        final(data)@.len() == old(data)@.len(),
        bytes::u32_at(final(data)@, o as int, le) == v,
        forall|i: int|
            0 <= i < old(data)@.len() && (i < o || i >= o + 4) ==> final(data)@[i] == old(data)@[i],
{
    let (p, q, r, t) = (
        (v / 16777216) as u8,
        (v / 65536 % 256) as u8,
        (v / 256 % 256) as u8,
        (v % 256) as u8,
    );
    proof {
        assert(v == 16777216 * (v / 16777216) + 65536 * (v / 65536 % 256) + 256 * (v / 256 % 256)
            + v % 256);
    }
    data[o] = if le { t } else { p };
    data[o + 1] = if le { r } else { q };
    data[o + 2] = if le { q } else { r };
    data[o + 3] = if le { p } else { t };
}

fn write_word(data: &mut Vec<u8>, o: usize, bytes: usize, le: bool, v: u64)
    requires
        sample_size(bytes as int),
        o + bytes <= old(data).len(),
        v < modulus(bytes as int),
    ensures
        final(data)@.len() == old(data)@.len(),
        word_at(final(data)@, o as int, bytes as int, le) == v,
        forall|i: int|
            0 <= i < old(data)@.len() && (i < o || i >= o + bytes) ==> final(data)@[i] == old(data)@[i],
{
    if bytes == 1 {
        data[o] = v as u8;
    } else if bytes == 2 {
        let (hi, lo) = ((v / 256) as u8, (v % 256) as u8);
        data[o] = if le { lo } else { hi };
        data[o + 1] = if le { hi } else { lo };
    } else if bytes == 4 {
        write_word4(data, o, le, v as u32);
    } else {
        let (hi, lo) = ((v / 4294967296) as u32, (v % 4294967296) as u32);
        write_word4(data, o, le, if le { lo } else { hi });
        let ghost half = data@;
        write_word4(data, o + 4, le, if le { hi } else { lo });
        proof {
            assert(bytes::u32_at(data@, o as int, le) == bytes::u32_at(half, o as int, le));
        }
    }
}

/// Adding a number below the modulus to a remainder goes over it once at most.
proof fn lemma_wrapped_sum(a: int, v: int, m: int)
    requires
        0 <= v < m,
    ensures
        (a + v) % m == if a % m + v >= m {
            a % m + v - m
        } else {
            a % m + v
        },
{
    let q = a / m;
    let r = a % m;
    vstd::arithmetic::div_mod::lemma_fundamental_div_mod(a, m);
    vstd::arithmetic::mul::lemma_mul_is_commutative(m, q);
    if r + v >= m {
        assert((q + 1) * m == q * m + m) by (nonlinear_arith);
        vstd::arithmetic::div_mod::lemma_fundamental_div_mod_converse(a + v, m, q + 1, r + v - m);
    } else {
        vstd::arithmetic::div_mod::lemma_fundamental_div_mod_converse(a + v, m, q, r + v);
    }
}

/// A sample depends on its own bytes alone.
proof fn lemma_same_sample(a: Seq<u8>, b: Seq<u8>, base: int, k: int, bytes: int, le: bool)
    requires
        sample_size(bytes),
        forall|i: int| base + k * bytes <= i < base + k * bytes + bytes ==> a[i] == b[i],
    ensures
        sample(a, base, k, bytes, le) == sample(b, base, k, bytes, le),
{
}

/// Undo the differences along one row of `count` samples.
fn unpredict_row(
    data: &mut Vec<u8>,
    base: usize,
    count: usize,
    samples: usize,
    bytes: usize,
    le: bool,
)
    requires
        sample_size(bytes as int),
        samples >= 1,
        base + count * bytes <= old(data).len(),
    ensures
        final(data)@.len() == old(data)@.len(),
        forall|k: int|
            0 <= k < count ==> #[trigger] sample(final(data)@, base as int, k, bytes as int, le)
                == band_sum(old(data)@, base as int, k, samples as int, bytes as int, le) % modulus(
                bytes as int,
            ),
        forall|i: int|
            0 <= i < old(data)@.len() && (i < base || i >= base + count * bytes) ==> final(data)@[i] == old(data)@[i],
{
    let ghost was = data@;
    let mut k: usize = 0;
    while k < count
        invariant
            sample_size(bytes as int),
            samples >= 1,
            k <= count,
            was == old(data)@,
            data@.len() == was.len(),
            base + count * bytes <= data.len(),
            forall|j: int|
                0 <= j < k ==> #[trigger] sample(data@, base as int, j, bytes as int, le)
                    == band_sum(was, base as int, j, samples as int, bytes as int, le) % modulus(
                    bytes as int,
                ),
            forall|i: int|
                0 <= i < was.len() && (i < base || i >= base + k * bytes) ==> data@[i] == was[i],
        decreases count - k,
    {
        proof {
            assert(k * bytes + bytes <= count * bytes) by (nonlinear_arith)
                requires
                    k + 1 <= count,
                    bytes >= 1,
            ;
        }
        let at: usize = base + k * bytes;
        let v = read_word(data, at, bytes, le);
        let ghost before = data@;
        proof {
            assert(v == sample(was, base as int, k as int, bytes as int, le));
        }
        if k >= samples {
            let j: usize = k - samples;
            proof {
                assert(j * bytes + bytes <= k * bytes) by (nonlinear_arith)
                    requires
                        j + 1 <= k,
                        bytes >= 1,
                ;
            }
            let left = read_word(data, base + j * bytes, bytes, le);
            let sum: u128 = v as u128 + left as u128;
            let m: u128 = if bytes == 1 {
                256
            } else if bytes == 2 {
                65536
            } else if bytes == 4 {
                4294967296
            } else {
                18446744073709551616
            };
            let total: u64 = (if sum >= m { sum - m } else { sum }) as u64;
            proof {
                assert(left == sample(before, base as int, j as int, bytes as int, le));
                lemma_wrapped_sum(
                    band_sum(was, base as int, j as int, samples as int, bytes as int, le),
                    v as int,
                    m as int,
                );
            }
            write_word(data, at, bytes, le, total);
        } else {
            proof {
                lemma_wrapped_sum(0, v as int, modulus(bytes as int));
            }
        }
        proof {
            assert(sample(data@, base as int, k as int, bytes as int, le) == band_sum(
                was,
                base as int,
                k as int,
                samples as int,
                bytes as int,
                le,
            ) % modulus(bytes as int));
            assert((k + 1) * bytes == k * bytes + bytes) by (nonlinear_arith);
            assert forall|j: int| 0 <= j < k implies #[trigger] sample(
                data@,
                base as int,
                j,
                bytes as int,
                le,
            ) == band_sum(was, base as int, j, samples as int, bytes as int, le) % modulus(
                bytes as int,
            ) by {
                assert(j * bytes + bytes <= k * bytes && j * bytes >= 0) by (nonlinear_arith)
                    requires
                        0 <= j,
                        j + 1 <= k,
                        bytes >= 1,
                ;
                lemma_same_sample(before, data@, base as int, j, bytes as int, le);
            }
        }
        k += 1;
    }
}

/// Whether every sample of the row at `base` is now the sum along its band of
/// what was stored there.
pub open spec fn row_summed(
    now: Seq<u8>,
    was: Seq<u8>,
    base: int,
    count: int,
    samples: int,
    bytes: int,
    le: bool,
) -> bool {
    forall|k: int|
        0 <= k < count ==> #[trigger] sample(now, base, k, bytes, le) == band_sum(
            was,
            base,
            k,
            samples,
            bytes,
            le,
        ) % modulus(bytes)
}

/// Sums along a row depend on the row's own bytes alone.
proof fn lemma_same_sum(
    a: Seq<u8>,
    b: Seq<u8>,
    base: int,
    k: int,
    samples: int,
    bytes: int,
    le: bool,
)
    requires
        sample_size(bytes as int),
        forall|i: int| base <= i < base + (k + 1) * bytes ==> a[i] == b[i],
    ensures
        band_sum(a, base, k, samples, bytes, le) == band_sum(b, base, k, samples, bytes, le),
    decreases k,
{
    if k >= 0 && samples > 0 {
        assert(k * bytes >= 0 && (k + 1) * bytes == k * bytes + bytes) by (nonlinear_arith)
            requires
                k >= 0,
                bytes >= 1,
        ;
        lemma_same_sample(a, b, base, k, bytes, le);
        if k >= samples {
            assert((k - samples + 1) * bytes <= (k + 1) * bytes) by (nonlinear_arith)
                requires
                    samples > 0,
                    bytes >= 1,
            ;
            lemma_same_sum(a, b, base, k - samples, samples, bytes, le);
        }
    }
}

/// A row that is summed stays so while its bytes and the stored ones stay.
proof fn lemma_row_stays(
    now1: Seq<u8>,
    was1: Seq<u8>,
    now2: Seq<u8>,
    was2: Seq<u8>,
    base: int,
    count: int,
    samples: int,
    bytes: int,
    le: bool,
)
    requires
        sample_size(bytes as int),
        row_summed(now1, was1, base, count, samples, bytes, le),
        forall|i: int| base <= i < base + count * bytes ==> now1[i] == now2[i],
        forall|i: int| base <= i < base + count * bytes ==> was1[i] == was2[i],
    ensures
        row_summed(now2, was2, base, count, samples, bytes, le),
{
    assert forall|k: int| 0 <= k < count implies #[trigger] sample(now2, base, k, bytes, le)
        == band_sum(was2, base, k, samples, bytes, le) % modulus(bytes) by {
        assert((k + 1) * bytes <= count * bytes && k * bytes >= 0 && (k + 1) * bytes == k * bytes
            + bytes) by (nonlinear_arith)
            requires
                0 <= k < count,
                bytes >= 1,
        ;
        lemma_same_sample(now1, now2, base, k, bytes, le);
        lemma_same_sum(was1, was2, base, k, samples, bytes, le);
        assert(sample(now1, base, k, bytes, le) == band_sum(
            was1,
            base,
            k,
            samples,
            bytes,
            le,
        ) % modulus(bytes));
    }
}

/// The bytes that a row of `count` samples takes, where that many can be.
fn row_bytes(w: u64, samples: u64, bytes: u64, len: usize) -> (r: Option<(usize, usize)>)
    requires
        bytes >= 1,
    ensures
        match r {
            Some((count, stride)) => count == w * samples && stride == w * samples * bytes && 0
                < stride <= len && 1 <= samples <= count,
            None => w * samples * bytes == 0 || w * samples * bytes > len,
        },
{
    if w == 0 || samples == 0 {
        proof {
            assert(w * samples == 0) by (nonlinear_arith)
                requires
                    w == 0 || samples == 0,
            ;
            assert(w * samples * bytes == 0) by (nonlinear_arith)
                requires
                    w * samples == 0,
            ;
        }
        return None;
    }
    proof {
        assert(w * samples * bytes >= w * samples) by (nonlinear_arith)
            requires
                bytes >= 1,
                w * samples >= 0,
        ;
        assert(w * samples >= samples && w * samples > 0) by (nonlinear_arith)
            requires
                w >= 1,
                samples >= 1,
        ;
    }
    match w.checked_mul(samples) {
        Some(count) => match count.checked_mul(bytes) {
            Some(stride) => {
                if stride <= len as u64 {
                    Some((count as usize, stride as usize))
                } else {
                    None
                }
            },
            None => None,
        },
        None => None,
    }
}

/// Predictor 2: each sample is stored as its difference from the one to its
/// left, per band. Undone in place, in the file's byte order.
pub fn unpredict_horizontal(data: &mut Vec<u8>, w: u64, h: u64, samples: u64, bits: u64, le: bool)
    ensures
        final(data)@.len() == old(data)@.len(),
        ({
            let bytes = bits as int / 8;
            let stride = w * samples * bytes;
            let len = old(data)@.len() as int;
            if bits == 8 || bits == 16 || bits == 32 || bits == 64 {
                &&& forall|row: int| #[trigger]
                    whole_row(row, stride, h as int, len) ==> row_summed(
                        final(data)@,
                        old(data)@,
                        row * stride,
                        w * samples,
                        samples as int,
                        bytes,
                        le,
                    )
                &&& forall|i: int|
                    0 <= i < len && #[trigger] outside_rows(i, stride, h as int, len) ==> final(
                        data)@[i] == old(data)@[i]
            } else {
                final(data)@ == old(data)@
            }
        }),
{
    if bits != 8 && bits != 16 && bits != 32 && bits != 64 {
        return ;
    }
    let bytes: u64 = bits / 8;
    let len: usize = data.len();
    let ghost was = data@;
    let ghost full = w * samples * (bits as int / 8);
    let (count, stride) = match row_bytes(w, samples, bytes, len) {
        Some(x) => x,
        None => {
            proof {
                assert forall|row: int| !whole_row(row, full, h as int, len as int) by {
                    if 0 <= row && full > len {
                        assert(row * full >= 0) by (nonlinear_arith)
                            requires
                                row >= 0,
                                full >= 0,
                        ;
                    }
                }
            }
            return ;
        },
    };
    let mut row: u64 = 0;
    let mut base: usize = 0;
    while row < h && stride <= len - base
        invariant
            sample_size(bytes as int),
            len == data.len(),
            len == was.len(),
            was == old(data)@,
            0 < stride,
            stride == count * bytes,
            1 <= samples <= count,
            count == w * samples,
            full == stride,
            row <= h,
            base == row * stride,
            base <= len,
            forall|r: int|
                0 <= r < row && #[trigger] whole_row(r, full, h as int, len as int) ==> row_summed(
                    data@,
                    was,
                    r * full,
                    w * samples,
                    samples as int,
                    bytes as int,
                    le,
                ),
            forall|i: int| base <= i < len ==> data@[i] == was[i],
        decreases h - row,
    {
        let ghost before = data@;
        unpredict_row(data, base, count, samples as usize, bytes as usize, le);
        proof {
            lemma_row_stays(
                data@,
                before,
                data@,
                was,
                base as int,
                count as int,
                samples as int,
                bytes as int,
                le,
            );
            assert((row + 1) * stride == row * stride + stride) by (nonlinear_arith);
            assert forall|r: int|
                0 <= r < row + 1 && #[trigger] whole_row(
                    r,
                    full,
                    h as int,
                    len as int,
                ) implies row_summed(
                data@,
                was,
                r * full,
                w * samples,
                samples as int,
                bytes as int,
                le,
            ) by {
                if r < row {
                    assert(r * full + full <= row * stride && r * full >= 0) by (nonlinear_arith)
                        requires
                            0 <= r < row,
                            full == stride,
                            stride > 0,
                    ;
                    lemma_row_stays(
                        before,
                        was,
                        data@,
                        was,
                        r * full,
                        count as int,
                        samples as int,
                        bytes as int,
                        le,
                    );
                }
            }
        }
        base += stride;
        row += 1;
    }
    proof {
        lemma_rows_end(row as int, full, h as int, len as int);
        lemma_rows_reach(row as int, full, h as int, len as int);
    }
}

/// Every byte before row `row` lies in a whole row.
proof fn lemma_rows_reach(row: int, stride: int, h: int, len: int)
    requires
        0 <= row <= h,
        stride > 0,
        row * stride <= len,
    ensures
        forall|i: int| #[trigger] outside_rows(i, stride, h, len) && 0 <= i ==> i >= row * stride,
{
    assert forall|i: int| #[trigger] outside_rows(i, stride, h, len) && 0 <= i implies i >= row
        * stride by {
        if i < row * stride {
            let r = i / stride;
            vstd::arithmetic::div_mod::lemma_fundamental_div_mod(i, stride);
            vstd::arithmetic::div_mod::lemma_div_pos_is_pos(i, stride);
            vstd::arithmetic::mul::lemma_mul_is_commutative(stride, r);
            assert(r < row) by (nonlinear_arith)
                requires
                    r * stride <= i,
                    i < row * stride,
                    stride > 0,
            ;
            assert(r * stride + stride <= row * stride) by (nonlinear_arith)
                requires
                    r + 1 <= row,
                    stride > 0,
            ;
            assert(whole_row(r, stride, h, len));
        }
    }
}

/// Rows that come after the last whole one are not whole.
proof fn lemma_rows_end(row: int, stride: int, h: int, len: int)
    requires
        0 <= row,
        stride > 0,
        row >= h || row * stride + stride > len,
    ensures
        forall|r: int| #[trigger] whole_row(r, stride, h, len) ==> r < row,
{
    assert forall|r: int| #[trigger] whole_row(r, stride, h, len) implies r < row by {
        if r >= row {
            assert(r * stride >= row * stride) by (nonlinear_arith)
                requires
                    r >= row,
                    stride > 0,
            ;
        }
    }
}

/// Byte `p` of the row that starts at `base`.
pub open spec fn row_byte(b: Seq<u8>, base: int, p: int) -> u8 {
    b[base + p]
}

/// The first `p + 1` bytes of a row, added up.
pub open spec fn byte_sum(b: Seq<u8>, base: int, p: int) -> int
    decreases p + 1,
{
    if p < 0 {
        0
    } else {
        byte_sum(b, base, p - 1) + row_byte(b, base, p)
    }
}

/// Where byte `p` of a row is stored before it is put back: all the most
/// significant bytes of the row's samples first, and so on down.
pub open spec fn stored_at(p: int, count: int, bytes: int, le: bool) -> int {
    let plane = if le {
        bytes - 1 - p % bytes
    } else {
        p % bytes
    };
    plane * count + p / bytes
}

/// Whether every byte of the row at `base` is now the sum of the stored bytes
/// up to where it was stored.
pub open spec fn row_restored(
    now: Seq<u8>,
    was: Seq<u8>,
    base: int,
    count: int,
    bytes: int,
    le: bool,
) -> bool {
    forall|p: int|
        0 <= p < count * bytes ==> #[trigger] row_byte(now, base, p) == byte_sum(
            was,
            base,
            stored_at(p, count, bytes, le),
        ) % 256
}

proof fn lemma_stored_inside(p: int, count: int, bytes: int, le: bool)
    requires
        0 <= p < count * bytes,
        bytes >= 1,
        count >= 1,
    ensures
        0 <= p / bytes < count,
        0 <= p % bytes < bytes,
        0 <= stored_at(p, count, bytes, le) < count * bytes,
{
    let i = p / bytes;
    let c = p % bytes;
    vstd::arithmetic::div_mod::lemma_fundamental_div_mod(p, bytes);
    vstd::arithmetic::div_mod::lemma_div_pos_is_pos(p, bytes);
    assert(i < count) by (nonlinear_arith)
        requires
            bytes * i <= p,
            p < count * bytes,
            bytes >= 1,
    ;
    let plane = if le {
        bytes - 1 - c
    } else {
        c
    };
    assert(plane * count + i < count * bytes && plane * count >= 0) by (nonlinear_arith)
        requires
            0 <= plane <= bytes - 1,
            0 <= i < count,
    ;
}

/// Sums along a row of bytes depend on the row's own bytes alone.
proof fn lemma_same_byte_sum(a: Seq<u8>, b: Seq<u8>, base: int, p: int)
    requires
        forall|i: int| base <= i <= base + p ==> a[i] == b[i],
    ensures
        byte_sum(a, base, p) == byte_sum(b, base, p),
    decreases p + 1,
{
    if p >= 0 {
        lemma_same_byte_sum(a, b, base, p - 1);
    }
}

/// A row that is restored stays so while its bytes and the stored ones stay.
proof fn lemma_restored_stays(
    now1: Seq<u8>,
    was1: Seq<u8>,
    now2: Seq<u8>,
    was2: Seq<u8>,
    base: int,
    count: int,
    bytes: int,
    le: bool,
)
    requires
        bytes >= 1,
        count >= 1,
        row_restored(now1, was1, base, count, bytes, le),
        forall|i: int| base <= i < base + count * bytes ==> now1[i] == now2[i],
        forall|i: int| base <= i < base + count * bytes ==> was1[i] == was2[i],
    ensures
        row_restored(now2, was2, base, count, bytes, le),
{
    assert forall|p: int| 0 <= p < count * bytes implies #[trigger] row_byte(now2, base, p)
        == byte_sum(was2, base, stored_at(p, count, bytes, le)) % 256 by {
        lemma_stored_inside(p, count, bytes, le);
        lemma_same_byte_sum(was1, was2, base, stored_at(p, count, bytes, le));
        assert(row_byte(now1, base, p) == byte_sum(was1, base, stored_at(p, count, bytes, le))
            % 256);
    }
}

/// Put the bytes of one row back where they belong.
fn restore_row(data: &mut Vec<u8>, base: usize, count: usize, bytes: usize, le: bool)
    requires
        bytes >= 1,
        count >= 1,
        base + count * bytes <= old(data).len(),
    ensures
        final(data)@.len() == old(data)@.len(),
        row_restored(final(data)@, old(data)@, base as int, count as int, bytes as int, le),
        forall|i: int|
            0 <= i < old(data)@.len() && (i < base || i >= base + count * bytes) ==> final(data)@[i]
                == old(data)@[i],
{
    let ghost was = data@;
    let stride: usize = count * bytes;
    let mut sums: Vec<u8> = Vec::new();
    let mut total: u8 = 0;
    let mut p: usize = 0;
    while p < stride
        invariant
            p <= stride,
            base + stride <= data.len(),
            data@ == was,
            sums@.len() == p,
            total == byte_sum(was, base as int, p - 1) % 256,
            forall|q: int|
                0 <= q < p ==> #[trigger] sums@[q] == byte_sum(was, base as int, q) % 256,
        decreases stride - p,
    {
        proof {
            lemma_wrapped_sum(
                byte_sum(was, base as int, p - 1),
                was[base + p] as int,
                256,
            );
        }
        let v: u16 = total as u16 + data[base + p] as u16;
        total = if v >= 256 { (v - 256) as u8 } else { v as u8 };
        sums.push(total);
        p += 1;
    }
    let mut p: usize = 0;
    while p < stride
        invariant
            bytes >= 1,
            count >= 1,
            p <= stride,
            stride == count * bytes,
            data@.len() == was.len(),
            base + stride <= data.len(),
            sums@.len() == stride,
            forall|q: int|
                0 <= q < stride ==> #[trigger] sums@[q] == byte_sum(was, base as int, q) % 256,
            forall|q: int|
                0 <= q < p ==> #[trigger] row_byte(data@, base as int, q) == byte_sum(
                    was,
                    base as int,
                    stored_at(q, count as int, bytes as int, le),
                ) % 256,
            forall|i: int|
                0 <= i < was.len() && (i < base || i >= base + stride) ==> data@[i] == was[i],
        decreases stride - p,
    {
        proof {
            lemma_stored_inside(p as int, count as int, bytes as int, le);
        }
        let i: usize = p / bytes;
        let c: usize = p % bytes;
        let plane: usize = if le { bytes - 1 - c } else { c };
        proof {
            assert(plane * count + i == stored_at(p as int, count as int, bytes as int, le));
            assert(plane * count <= plane * count + i);
            assert(plane * count >= 0) by (nonlinear_arith)
                requires
                    plane >= 0,
                    count >= 0,
            ;
        }
        let v = sums[plane * count + i];
        let ghost before = data@;
        data[base + p] = v;
        proof {
            assert forall|q: int| 0 <= q < p + 1 implies #[trigger] row_byte(
                data@,
                base as int,
                q,
            ) == byte_sum(was, base as int, stored_at(q, count as int, bytes as int, le)) % 256 by {
                if q < p {
                    assert(row_byte(before, base as int, q) == row_byte(data@, base as int, q));
                }
            }
        }
        p += 1;
    }
}

/// Predictor 3: the bytes of each sample are de-interleaved across the row and
/// the row differenced byte by byte, which compresses floating point far
/// better than differencing whole values. Undone in place.
pub fn unpredict_float(data: &mut Vec<u8>, w: u64, h: u64, samples: u64, bits: u64, le: bool)
    ensures
        final(data)@.len() == old(data)@.len(),
        ({
            let bytes = bits as int / 8;
            let stride = w * samples * bytes;
            let len = old(data)@.len() as int;
            &&& forall|row: int| #[trigger]
                whole_row(row, stride, h as int, len) ==> row_restored(
                    final(data)@,
                    old(data)@,
                    row * stride,
                    w * samples,
                    bytes,
                    le,
                )
            &&& forall|i: int|
                0 <= i < len && #[trigger] outside_rows(i, stride, h as int, len) ==> final(
                    data)@[i] == old(data)@[i]
        }),
{
    let bytes: u64 = bits / 8;
    let len: usize = data.len();
    let ghost was = data@;
    let ghost full = w * samples * (bits as int / 8);
    if bytes == 0 {
        proof {
            assert(full == 0) by (nonlinear_arith)
                requires
                    full == w * samples * (bits as int / 8),
                    bits as int / 8 == 0,
            ;
        }
        return ;
    }
    let (count, stride) = match row_bytes(w, samples, bytes, len) {
        Some(x) => x,
        None => {
            proof {
                assert forall|row: int| !whole_row(row, full, h as int, len as int) by {
                    if 0 <= row && full > len {
                        assert(row * full >= 0) by (nonlinear_arith)
                            requires
                                row >= 0,
                                full >= 0,
                        ;
                    }
                }
            }
            return ;
        },
    };
    proof {
        assert(bytes <= count * bytes) by (nonlinear_arith)
            requires
                count >= 1,
                bytes >= 1,
        ;
    }
    let mut row: u64 = 0;
    let mut base: usize = 0;
    while row < h && stride <= len - base
        invariant
            1 <= bytes <= stride,
            len == data.len(),
            len == was.len(),
            was == old(data)@,
            0 < stride,
            stride == count * bytes,
            1 <= samples <= count,
            count == w * samples,
            full == stride,
            row <= h,
            base == row * stride,
            base <= len,
            forall|r: int|
                0 <= r < row && #[trigger] whole_row(
                    r,
                    full,
                    h as int,
                    len as int,
                ) ==> row_restored(data@, was, r * full, w * samples, bytes as int, le),
            forall|i: int| base <= i < len ==> data@[i] == was[i],
        decreases h - row,
    {
        let ghost before = data@;
        restore_row(data, base, count, bytes as usize, le);
        proof {
            lemma_restored_stays(
                data@,
                before,
                data@,
                was,
                base as int,
                count as int,
                bytes as int,
                le,
            );
            assert((row + 1) * stride == row * stride + stride) by (nonlinear_arith);
            assert forall|r: int|
                0 <= r < row + 1 && #[trigger] whole_row(
                    r,
                    full,
                    h as int,
                    len as int,
                ) implies row_restored(data@, was, r * full, w * samples, bytes as int, le) by {
                if r < row {
                    assert(r * full + full <= row * stride && r * full >= 0) by (nonlinear_arith)
                        requires
                            0 <= r < row,
                            full == stride,
                            stride > 0,
                    ;
                    lemma_restored_stays(
                        before,
                        was,
                        data@,
                        was,
                        r * full,
                        count as int,
                        bytes as int,
                        le,
                    );
                }
            }
        }
        base += stride;
        row += 1;
    }
    proof {
        lemma_rows_end(row as int, full, h as int, len as int);
        lemma_rows_reach(row as int, full, h as int, len as int);
    }
}

// ---- what a predictor is undone to ------------------------------------------

/// Whether `now` is what the block `was` comes to when its predictor is undone.
pub open spec fn undone(
    was: Seq<u8>,
    now: Seq<u8>,
    predictor: u16,
    w: int,
    h: int,
    samples: int,
    bits: int,
    le: bool,
) -> bool {
    let bytes = bits / 8;
    let stride = w * samples * bytes;
    let len = was.len() as int;
    if predictor == 2 && (bits == 8 || bits == 16 || bits == 32 || bits == 64) {
        &&& now.len() == len
        &&& forall|row: int| #[trigger]
            whole_row(row, stride, h, len) ==> row_summed(
                now,
                was,
                row * stride,
                w * samples,
                samples,
                bytes,
                le,
            )
        &&& forall|i: int|
            0 <= i < len && #[trigger] outside_rows(i, stride, h, len) ==> now[i] == was[i]
    } else if predictor == 3 {
        &&& now.len() == len
        &&& forall|row: int| #[trigger]
            whole_row(row, stride, h, len) ==> row_restored(
                now,
                was,
                row * stride,
                w * samples,
                bytes,
                le,
            )
        &&& forall|i: int|
            0 <= i < len && #[trigger] outside_rows(i, stride, h, len) ==> now[i] == was[i]
    } else {
        now == was
    }
}

/// A number has only one spelling in bytes.
proof fn lemma_four_digits(a: u8, b: u8, c: u8, d: u8, w: u8, x: u8, y: u8, z: u8)
    requires
        a + 256 * b + 65536 * c + 16777216 * d == w + 256 * x + 65536 * y + 16777216 * z,
    ensures
        a == w && b == x && c == y && d == z,
{
    assert(d == z);
    assert(c == y);
    assert(b == x);
}

/// Four bytes that hold the same number are the same bytes.
proof fn lemma_word4_bytes(a: Seq<u8>, b: Seq<u8>, o: int, le: bool)
    requires
        bytes::u32_at(a, o, le) == bytes::u32_at(b, o, le),
    ensures
        a[o] == b[o] && a[o + 1] == b[o + 1] && a[o + 2] == b[o + 2] && a[o + 3] == b[o + 3],
{
    if le {
        lemma_four_digits(
            a[o],
            a[o + 1],
            a[o + 2],
            a[o + 3],
            b[o],
            b[o + 1],
            b[o + 2],
            b[o + 3],
        );
    } else {
        lemma_four_digits(
            a[o + 3],
            a[o + 2],
            a[o + 1],
            a[o],
            b[o + 3],
            b[o + 2],
            b[o + 1],
            b[o],
        );
    }
}

/// Bytes that hold the same number are the same bytes.
proof fn lemma_word_bytes(a: Seq<u8>, b: Seq<u8>, o: int, bytes: int, le: bool)
    requires
        sample_size(bytes),
        word_at(a, o, bytes, le) == word_at(b, o, bytes, le),
    ensures
        forall|i: int| o <= i < o + bytes ==> a[i] == b[i],
{
    if bytes == 2 {
        if le {
            lemma_four_digits(a[o], a[o + 1], 0, 0, b[o], b[o + 1], 0, 0);
        } else {
            lemma_four_digits(a[o + 1], a[o], 0, 0, b[o + 1], b[o], 0, 0);
        }
        assert forall|i: int| o <= i < o + bytes implies a[i] == b[i] by {
            assert(i == o || i == o + 1);
        }
    } else if bytes == 4 {
        lemma_word4_bytes(a, b, o, le);
        assert forall|i: int| o <= i < o + bytes implies a[i] == b[i] by {
            assert(i == o || i == o + 1 || i == o + 2 || i == o + 3);
        }
    } else if bytes == 8 {
        assert(bytes::u32_at(a, o, le) == bytes::u32_at(b, o, le) && bytes::u32_at(a, o + 4, le)
            == bytes::u32_at(b, o + 4, le));
        lemma_word4_bytes(a, b, o, le);
        lemma_word4_bytes(a, b, o + 4, le);
        assert forall|i: int| o <= i < o + bytes implies a[i] == b[i] by {
            assert(i == o || i == o + 1 || i == o + 2 || i == o + 3 || i == o + 4 || i == o + 5 || i
                == o + 6 || i == o + 7);
        }
    }
}

/// There is only one way to undo a predictor.
pub proof fn lemma_undone_unique(
    was: Seq<u8>,
    a: Seq<u8>,
    b: Seq<u8>,
    predictor: u16,
    w: int,
    h: int,
    samples: int,
    bits: int,
    le: bool,
)
    requires
        undone(was, a, predictor, w, h, samples, bits, le),
        undone(was, b, predictor, w, h, samples, bits, le),
        bits == 8 || bits == 16 || bits == 32 || bits == 64,
    ensures
        a == b,
{
    let bytes = bits / 8;
    let count = w * samples;
    let stride = w * samples * bytes;
    let len = was.len() as int;
    if predictor == 3 || predictor == 2 {
        assert forall|i: int| 0 <= i < len implies a[i] == b[i] by {
            if !outside_rows(i, stride, h, len) {
                let row = choose|row: int| #[trigger]
                    whole_row(row, stride, h, len) && row * stride <= i < row * stride + stride;
                let base = row * stride;
                let p = i - base;
                if predictor == 3 {
                    assert(row_byte(a, base, p) == row_byte(b, base, p));
                } else {
                    let k = p / bytes;
                    vstd::arithmetic::div_mod::lemma_fundamental_div_mod(p, bytes);
                    vstd::arithmetic::mul::lemma_mul_is_commutative(bytes, k);
                    vstd::arithmetic::div_mod::lemma_div_pos_is_pos(p, bytes);
                    assert(k < count) by (nonlinear_arith)
                        requires
                            k * bytes <= p,
                            p < count * bytes,
                            bytes >= 1,
                    ;
                    assert(sample(a, base, k, bytes, le) == sample(b, base, k, bytes, le));
                    lemma_word_bytes(a, b, base + k * bytes, bytes, le);
                }
            }
        }
        assert(a =~= b);
    }
}

} // verus!
