//! Numbers in byte strings, in either byte order.

use vstd::prelude::*;

verus! {

/// Two bytes as a number.
pub open spec fn word2(a: u8, b: u8, le: bool) -> int {
    if le {
        a + 256 * b
    } else {
        256 * a + b
    }
}

/// Four bytes as a number.
pub open spec fn word4(a: u8, b: u8, c: u8, d: u8, le: bool) -> int {
    if le {
        a + 256 * b + 65536 * c + 16777216 * d
    } else {
        16777216 * a + 65536 * b + 256 * c + d
    }
}

/// The number in two bytes of `b` from `o` on.
pub open spec fn u16_at(b: Seq<u8>, o: int, le: bool) -> int {
    word2(b[o], b[o + 1], le)
}

/// The number in four bytes of `b` from `o` on.
pub open spec fn u32_at(b: Seq<u8>, o: int, le: bool) -> int {
    word4(b[o], b[o + 1], b[o + 2], b[o + 3], le)
}

/// The number in eight bytes of `b` from `o` on.
pub open spec fn u64_at(b: Seq<u8>, o: int, le: bool) -> int {
    if le {
        u32_at(b, o, le) + 4294967296 * u32_at(b, o + 4, le)
    } else {
        4294967296 * u32_at(b, o, le) + u32_at(b, o + 4, le)
    }
}

/// Whether `n` bytes can be read from `o` on.
pub open spec fn holds(b: Seq<u8>, o: int, n: int) -> bool {
    0 <= o && o + n <= b.len()
}

/// The number in two bytes, where they are there.
pub fn get_u16(b: &[u8], o: usize, le: bool) -> (r: Option<u16>)
    ensures
        r is Some <==> holds(b@, o as int, 2),
        r matches Some(v) ==> v == u16_at(b@, o as int, le),
{
    if b.len() < 2 || o > b.len() - 2 {
        return None;
    }
    let (x, y) = (b[o] as u16, b[o + 1] as u16);
    Some(if le { x + 256 * y } else { 256 * x + y })
}

/// The number in four bytes, where they are there.
pub fn get_u32(b: &[u8], o: usize, le: bool) -> (r: Option<u32>)
    ensures
        r is Some <==> holds(b@, o as int, 4),
        r matches Some(v) ==> v == u32_at(b@, o as int, le),
{
    if b.len() < 4 || o > b.len() - 4 {
        return None;
    }
    let (x, y, z, w) = (b[o] as u32, b[o + 1] as u32, b[o + 2] as u32, b[o + 3] as u32);
    Some(
        if le {
            x + 256 * y + 65536 * z + 16777216 * w
        } else {
            16777216 * x + 65536 * y + 256 * z + w
        },
    )
}

/// The number in eight bytes, where they are there.
pub fn get_u64(b: &[u8], o: usize, le: bool) -> (r: Option<u64>)
    ensures
        r is Some <==> holds(b@, o as int, 8),
        r matches Some(v) ==> v == u64_at(b@, o as int, le),
{
    if b.len() < 8 || o > b.len() - 8 {
        return None;
    }
    match (get_u32(b, o, le), get_u32(b, o + 4, le)) {
        (Some(x), Some(y)) => Some(
            if le {
                x as u64 + 4294967296 * y as u64
            } else {
                4294967296 * x as u64 + y as u64
            },
        ),
        _ => None,
    }
}

/// The little-endian number in two bytes, where they are there.
pub fn u16le(b: &[u8], o: usize) -> (r: Option<u16>)
    ensures
        r is Some <==> holds(b@, o as int, 2),
        r matches Some(v) ==> v == u16_at(b@, o as int, true),
{
    get_u16(b, o, true)
}

/// The little-endian signed number in two bytes, where they are there.
pub fn i16le(b: &[u8], o: usize) -> (r: Option<i16>)
    ensures
        r is Some <==> holds(b@, o as int, 2),
        r matches Some(v) ==> v == i16_at(b@, o as int),
{
    match u16le(b, o) {
        Some(v) => Some(signed16(v)),
        None => None,
    }
}

/// The little-endian number in four bytes, where they are there.
pub fn u32le(b: &[u8], o: usize) -> (r: Option<u32>)
    ensures
        r is Some <==> holds(b@, o as int, 4),
        r matches Some(v) ==> v == u32_at(b@, o as int, true),
{
    get_u32(b, o, true)
}

/// The little-endian signed number in four bytes, where they are there.
pub fn i32le(b: &[u8], o: usize) -> (r: Option<i32>)
    ensures
        r is Some <==> holds(b@, o as int, 4),
        r matches Some(v) ==> v == i32_at(b@, o as int),
{
    match u32le(b, o) {
        Some(v) => Some(signed32(v)),
        None => None,
    }
}

/// A number of `2^n` values read as a signed one: the upper half is negative.
pub open spec fn as_signed(v: int, modulus: int) -> int {
    if v < modulus / 2 {
        v
    } else {
        v - modulus
    }
}

/// The little-endian signed number in two bytes.
pub open spec fn i16_at(b: Seq<u8>, o: int) -> int {
    as_signed(u16_at(b, o, true), 65536)
}

/// The little-endian signed number in four bytes.
pub open spec fn i32_at(b: Seq<u8>, o: int) -> int {
    as_signed(u32_at(b, o, true), 4294967296)
}

/// Sixteen bits as a signed number.
pub fn signed16(v: u16) -> (r: i16)
    ensures
        r == as_signed(v as int, 65536),
{
    if v < 32768 {
        v as i16
    } else {
        (v as i32 - 65536) as i16
    }
}

/// Thirty-two bits as a signed number.
pub fn signed32(v: u32) -> (r: i32)
    ensures
        r == as_signed(v as int, 4294967296),
{
    if v < 2147483648 {
        v as i32
    } else {
        (v as i64 - 4294967296) as i32
    }
}

/// Sixty-four bits as a signed number.
pub fn signed64(v: u64) -> (r: i64)
    ensures
        r == as_signed(v as int, 18446744073709551616),
{
    if v < 9223372036854775808 {
        v as i64
    } else {
        (v as i128 - 18446744073709551616) as i64
    }
}

/// A part of a byte string as a vector.
pub fn slice_to_vec(b: &[u8], from: usize, to: usize) -> (v: Vec<u8>)
    requires
        from <= to <= b@.len(),
    ensures
        v@ == b@.subrange(from as int, to as int),
{
    let mut v: Vec<u8> = Vec::new();
    let mut i: usize = from;
    while i < to
        invariant
            from <= i <= to <= b@.len(),
            v@ == b@.subrange(from as int, i as int),
        decreases to - i,
    {
        v.push(b[i]);
        i += 1;
        proof {
            assert(b@.subrange(from as int, i as int) =~= b@.subrange(from as int, i - 1).push(
                b@[i - 1],
            ));
        }
    }
    v
}

/// A number of two bytes, the low one first.
#[verifier::opaque]
pub open spec fn le2(v: int) -> Seq<u8> {
    seq![(v % 256) as u8, (v / 256 % 256) as u8]
}

/// A number of four bytes, the low one first.
#[verifier::opaque]
pub open spec fn le4(v: int) -> Seq<u8> {
    le2(v % 65536) + le2(v / 65536)
}

/// A number of eight bytes, the low one first.
#[verifier::opaque]
pub open spec fn le8(v: int) -> Seq<u8> {
    le4(v % 4294967296) + le4(v / 4294967296)
}

/// How long numbers written as bytes are.
pub proof fn lemma_le_lens(v: int)
    ensures
        le2(v).len() == 2,
        le4(v).len() == 4,
        le8(v).len() == 8,
{
    reveal(le2);
    reveal(le4);
    reveal(le8);
}

/// What a stretch of bytes is made of, where it is two strings joined.
pub proof fn lemma_joined(b: Seq<u8>, o: int, x: Seq<u8>, y: Seq<u8>)
    requires
        0 <= o,
        o + x.len() + y.len() <= b.len(),
        b.subrange(o, o + x.len() + y.len()) == x + y,
    ensures
        b.subrange(o, o + x.len()) == x,
        b.subrange(o + x.len(), o + x.len() + y.len()) == y,
{
    let w = b.subrange(o, o + x.len() + y.len());
    assert(b.subrange(o, o + x.len()) =~= w.subrange(0, x.len() as int));
    assert(w.subrange(0, x.len() as int) =~= x);
    assert(b.subrange(o + x.len(), o + x.len() + y.len()) =~= w.subrange(
        x.len() as int,
        x.len() + y.len() as int,
    ));
    assert(w.subrange(x.len() as int, x.len() + y.len() as int) =~= y);
}

/// Append a number of two bytes, the low one first.
pub fn push_le2(out: &mut Vec<u8>, v: u16)
    ensures
        final(out)@ == old(out)@ + le2(v as int),
{
    out.push((v % 256) as u8);
    out.push((v / 256) as u8);
    proof {
        reveal(le2);
        assert(v / 256 % 256 == v / 256);
        assert(out@ =~= old(out)@ + le2(v as int));
    }
}

/// Append a number of four bytes, the low one first.
pub fn push_le4(out: &mut Vec<u8>, v: u32)
    ensures
        final(out)@ == old(out)@ + le4(v as int),
{
    push_le2(out, (v % 65536) as u16);
    push_le2(out, (v / 65536) as u16);
    proof {
        reveal(le4);
        assert(out@ =~= old(out)@ + le4(v as int));
    }
}

/// Append a number of eight bytes, the low one first.
pub fn push_le8(out: &mut Vec<u8>, v: u64)
    ensures
        final(out)@ == old(out)@ + le8(v as int),
{
    push_le4(out, (v % 4294967296) as u32);
    push_le4(out, (v / 4294967296) as u32);
    proof {
        reveal(le8);
        assert(out@ =~= old(out)@ + le8(v as int));
    }
}

/// A number written in two bytes reads back as itself.
pub proof fn lemma_le2(b: Seq<u8>, o: int, v: int)
    requires
        0 <= o,
        o + 2 <= b.len(),
        0 <= v < 65536,
        b.subrange(o, o + 2) == le2(v),
    ensures
        u16_at(b, o, true) == v,
{
    reveal(le2);
    assert(b[o] == b.subrange(o, o + 2)[0]);
    assert(b[o + 1] == b.subrange(o, o + 2)[1]);
}

/// A number written in four bytes reads back as itself.
pub proof fn lemma_le4(b: Seq<u8>, o: int, v: int)
    requires
        0 <= o,
        o + 4 <= b.len(),
        0 <= v < 4294967296,
        b.subrange(o, o + 4) == le4(v),
    ensures
        u32_at(b, o, true) == v,
{
    reveal(le4);
    lemma_le_lens(v % 65536);
    lemma_le_lens(v / 65536);
    let w = b.subrange(o, o + 4);
    assert(b.subrange(o, o + 2) =~= w.subrange(0, 2));
    assert(w.subrange(0, 2) =~= le2(v % 65536));
    assert(b.subrange(o + 2, o + 4) =~= w.subrange(2, 4));
    assert(w.subrange(2, 4) =~= le2(v / 65536));
    lemma_le2(b, o, v % 65536);
    lemma_le2(b, o + 2, v / 65536);
}

/// A number written in eight bytes reads back as itself.
pub proof fn lemma_le8(b: Seq<u8>, o: int, v: int)
    requires
        0 <= o,
        o + 8 <= b.len(),
        0 <= v < 18446744073709551616,
        b.subrange(o, o + 8) == le8(v),
    ensures
        u64_at(b, o, true) == v,
{
    reveal(le8);
    lemma_le_lens(v % 4294967296);
    lemma_le_lens(v / 4294967296);
    let w = b.subrange(o, o + 8);
    assert(b.subrange(o, o + 4) =~= w.subrange(0, 4));
    assert(w.subrange(0, 4) =~= le4(v % 4294967296));
    assert(b.subrange(o + 4, o + 8) =~= w.subrange(4, 8));
    assert(w.subrange(4, 8) =~= le4(v / 4294967296));
    lemma_le4(b, o, v % 4294967296);
    lemma_le4(b, o + 4, v / 4294967296);
}

/// Whether some bytes stand at `o`.
pub open spec fn carries(b: Seq<u8>, o: int, x: Seq<u8>) -> bool {
    0 <= o && o + x.len() <= b.len() && b.subrange(o, o + x.len()) == x
}

/// Bytes with some of them written over, from `o` on.
pub open spec fn put(b: Seq<u8>, o: int, x: Seq<u8>) -> Seq<u8> {
    b.take(o) + x + b.skip(o + x.len())
}

/// What was written over is there, and nothing else has changed.
pub proof fn law_put(b: Seq<u8>, o: int, x: Seq<u8>)
    requires
        0 <= o,
        o + x.len() <= b.len(),
    ensures
        carries(put(b, o, x), o, x),
        put(b, o, x).len() == b.len(),
        forall|i: int| 0 <= i < o || o + x.len() <= i < b.len() ==> #[trigger] put(b, o, x)[i] == b[i],
{
    assert(put(b, o, x).subrange(o, o + x.len()) =~= x);
}

/// Two bytes are the number that is read from them, written down; a negative
/// number is written as it is stored.
pub proof fn law_read_two_bytes(b: Seq<u8>, o: int)
    requires
        0 <= o,
        o + 2 <= b.len(),
    ensures
        carries(b, o, le2(u16_at(b, o, true))),
        carries(b, o, le2(i16_at(b, o))),
        0 <= u16_at(b, o, true) < 65536,
        -32768 <= i16_at(b, o) < 32768,
{
    reveal(le2);
    let w = b.subrange(o, o + 2);
    assert(w[0] == b[o] && w[1] == b[o + 1]);
    assert(w =~= le2(u16_at(b, o, true)));
    assert(w =~= le2(i16_at(b, o)));
}

/// Four bytes are the number that is read from them, written down; a negative
/// number is written as it is stored.
pub proof fn law_read_four_bytes(b: Seq<u8>, o: int)
    requires
        0 <= o,
        o + 4 <= b.len(),
    ensures
        carries(b, o, le4(u32_at(b, o, true))),
        carries(b, o, le4(i32_at(b, o))),
        0 <= u32_at(b, o, true) < 4294967296,
        -2147483648 <= i32_at(b, o) < 2147483648,
{
    reveal(le2);
    reveal(le4);
    let w = b.subrange(o, o + 4);
    assert(w[0] == b[o] && w[1] == b[o + 1] && w[2] == b[o + 2] && w[3] == b[o + 3]);
    let (x, y) = (u16_at(b, o, true), u16_at(b, o + 2, true));
    let v = u32_at(b, o, true);
    assert(v == x + 65536 * y);
    assert(v % 65536 == x && v / 65536 == y);
    assert(w =~= le4(v));
    let s = i32_at(b, o);
    assert(s % 65536 == x);
    assert(s / 65536 == y || s / 65536 == y - 65536);
    assert(w =~= le4(s));
}

/// Eight bytes are the number that is read from them, written down.
pub proof fn law_read_eight_bytes(b: Seq<u8>, o: int)
    requires
        0 <= o,
        o + 8 <= b.len(),
    ensures
        carries(b, o, le8(u64_at(b, o, true))),
        0 <= u64_at(b, o, true) < 18446744073709551616,
{
    law_read_four_bytes(b, o);
    law_read_four_bytes(b, o + 4);
    lemma_le_lens(u32_at(b, o, true));
    lemma_le_lens(u32_at(b, o + 4, true));
    reveal(le8);
    let (x, y) = (u32_at(b, o, true), u32_at(b, o + 4, true));
    let v = u64_at(b, o, true);
    assert(v == x + 4294967296 * y);
    assert(v % 4294967296 == x && v / 4294967296 == y);
    assert(b.subrange(o, o + 8) =~= b.subrange(o, o + 4) + b.subrange(o + 4, o + 8));
    assert(b.subrange(o, o + 8) =~= le8(v));
}

/// The bytes that a number is written in, the lowest part of it first.
pub proof fn law_low_byte_first(v: int)
    ensures
        le2(v)[0] == v % 256,
        le2(v)[1] == v / 256 % 256,
        le4(v)[0] == v % 256,
        le4(v)[1] == v / 256 % 256,
        le4(v)[2] == v / 65536 % 256,
        le4(v)[3] == v / 16777216 % 256,
{
    reveal(le2);
    reveal(le4);
    assert(v % 65536 % 256 == v % 256);
    assert(v % 65536 / 256 % 256 == v / 256 % 256);
    assert(v / 65536 / 256 == v / 16777216);
}

/// Append bytes.
pub fn push_bytes(out: &mut Vec<u8>, b: &[u8])
    ensures
        final(out)@ == old(out)@ + b@,
{
    let mut i: usize = 0;
    proof {
        assert(out@ =~= old(out)@ + b@.take(0));
    }
    while i < b.len()
        invariant
            i <= b@.len(),
            out@ == old(out)@ + b@.take(i as int),
        decreases b.len() - i,
    {
        out.push(b[i]);
        i += 1;
        proof {
            assert(b@.take(i as int) =~= b@.take(i - 1).push(b@[i - 1]));
            assert(out@ =~= old(out)@ + b@.take(i as int));
        }
    }
    proof {
        assert(b@.take(b@.len() as int) =~= b@);
    }
}

/// Whether two byte strings are the same.
pub fn same_bytes(a: &[u8], b: &[u8]) -> (r: bool)
    ensures
        r == (a@ == b@),
{
    if a.len() != b.len() {
        return false;
    }
    let mut i: usize = 0;
    while i < a.len()
        invariant
            i <= a@.len(),
            a@.len() == b@.len(),
            forall|j: int| 0 <= j < i ==> a@[j] == b@[j],
        decreases a.len() - i,
    {
        if a[i] != b[i] {
            return false;
        }
        i += 1;
    }
    proof {
        assert(a@ =~= b@);
    }
    true
}

/// Some bytes from `o` on, turned round where the low ones come last.
pub open spec fn low_first(b: Seq<u8>, o: int, n: int, le: bool) -> Seq<u8> {
    if le {
        b.subrange(o, o + n)
    } else {
        b.subrange(o, o + n).reverse()
    }
}

/// A number read in either byte order is the one that its bytes, the low one
/// first, are the writing of.
pub proof fn law_read_in_either_order(b: Seq<u8>, o: int, le: bool)
    requires
        0 <= o,
    ensures
        o + 2 <= b.len() ==> low_first(b, o, 2, le) == le2(u16_at(b, o, le)) && 0 <= u16_at(b, o, le)
            < 65536,
        o + 4 <= b.len() ==> low_first(b, o, 4, le) == le4(u32_at(b, o, le)) && 0 <= u32_at(b, o, le)
            < 4294967296,
        o + 8 <= b.len() ==> low_first(b, o, 8, le) == le8(u64_at(b, o, le)) && 0 <= u64_at(b, o, le)
            < 18446744073709551616,
{
    if o + 2 <= b.len() {
        let w = low_first(b, o, 2, le);
        law_read_two_bytes(w, 0);
        assert(w.subrange(0, 2) =~= w);
        assert(u16_at(w, 0, true) == u16_at(b, o, le));
        lemma_le_lens(u16_at(b, o, le));
    }
    if o + 4 <= b.len() {
        let w = low_first(b, o, 4, le);
        law_read_four_bytes(w, 0);
        assert(w.subrange(0, 4) =~= w);
        assert(u32_at(w, 0, true) == u32_at(b, o, le));
        lemma_le_lens(u32_at(b, o, le));
    }
    if o + 8 <= b.len() {
        let w = low_first(b, o, 8, le);
        law_read_eight_bytes(w, 0);
        assert(w.subrange(0, 8) =~= w);
        assert(u64_at(w, 0, true) == u64_at(b, o, le));
        lemma_le_lens(u64_at(b, o, le));
    }
}

/// A number below zero is stored as the one that is a whole turn above it.
pub proof fn law_signed(v: int, modulus: int)
    requires
        0 <= v < modulus,
        modulus % 2 == 0,
    ensures
        as_signed(v, modulus) == v || as_signed(v, modulus) == v - modulus,
        -(modulus / 2) <= as_signed(v, modulus) < modulus / 2,
{
}

} // verus!
