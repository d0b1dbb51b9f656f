//! What holds of everything that is read from a TIFF.

use vstd::prelude::*;

use crate::bytes;
use crate::text;
use crate::tiff;
use crate::tiff::codec;
use crate::tiff::field;
use crate::tiff::field::{Entry, Real, TiffError};
use crate::tiff::pixel;
use crate::tiff::pixel::Sample;
use crate::tiff::{Layout, Opened, SampleKind, Start};

verus! {

// ---- the head and the directory -----------------------------------------------------

/// A head that is accepted is the writing of what was read from it: the byte order
/// twice over, the format's number, and the place of the directory.
pub proof fn law_start_is_written_back(b: Seq<u8>, st: Start)
    requires
        tiff::start_of(b) == Ok::<Start, TiffError>(st),
    ensures
        b[0] == b[1] && b[0] == (if st.le {
            0x49u8
        } else {
            0x4du8
        }),
        !st.big ==> bytes::low_first(b, 2, 2, st.le) == bytes::le2(42) && bytes::low_first(
            b,
            4,
            4,
            st.le,
        ) == bytes::le4(st.ifd as int),
        st.big ==> bytes::low_first(b, 2, 2, st.le) == bytes::le2(43) && bytes::low_first(
            b,
            4,
            2,
            st.le,
        ) == bytes::le2(8) && bytes::low_first(b, 8, 8, st.le) == bytes::le8(st.ifd as int),
{
    bytes::law_read_in_either_order(b, 2, st.le);
    bytes::law_read_in_either_order(b, 4, st.le);
    bytes::law_read_in_either_order(b, 8, st.le);
}

proof fn lemma_two(b: Seq<u8>, o: int, le: bool, v: int)
    requires
        0 <= o,
        o + 2 <= b.len(),
        0 <= v < 65536,
        bytes::low_first(b, o, 2, le) == bytes::le2(v),
    ensures
        bytes::u16_at(b, o, le) == v,
{
    bytes::law_read_in_either_order(b, o, le);
    bytes::law_low_byte_first(v);
    bytes::law_low_byte_first(bytes::u16_at(b, o, le));
}

/// A head in either order and either format is accepted.
pub proof fn law_every_head_is_accepted(b: Seq<u8>, le: bool, big: bool)
    requires
        b.len() >= 16,
        b[0] == b[1] && b[0] == (if le {
            0x49u8
        } else {
            0x4du8
        }),
        bytes::low_first(b, 2, 2, le) == bytes::le2(if big {
            43
        } else {
            42
        }),
        big ==> bytes::low_first(b, 4, 2, le) == bytes::le2(8),
    ensures
        tiff::start_of(b) matches Ok(st) && st.le == le && st.big == big,
{
    lemma_two(
        b,
        2,
        le,
        if big {
            43
        } else {
            42
        },
    );
    if big {
        lemma_two(b, 4, le, 8);
    }
}

/// An entry of a directory is the writing of what was read from it, and its
/// payload is the bytes behind its count.
pub proof fn law_entry_is_written_back(b: Seq<u8>, at: int, le: bool, big: bool)
    requires
        0 <= at,
        at + (if big {
            20int
        } else {
            12
        }) <= b.len(),
    ensures
        ({
            let e = field::entry_at(b, at, le, big);
            &&& bytes::low_first(b, at, 2, le) == bytes::le2(e.tag as int)
            &&& bytes::low_first(b, at + 2, 2, le) == bytes::le2(e.typ as int)
            &&& big ==> bytes::low_first(b, at + 4, 8, le) == bytes::le8(e.count as int)
                && e.payload == b.subrange(at + 12, at + 20)
            &&& !big ==> bytes::low_first(b, at + 4, 4, le) == bytes::le4(e.count as int)
                && e.payload.take(4) == b.subrange(at + 8, at + 12)
        }),
{
    bytes::law_read_in_either_order(b, at, le);
    bytes::law_read_in_either_order(b, at + 2, le);
    bytes::law_read_in_either_order(b, at + 4, le);
    let e = field::entry_at(b, at, le, big);
    if big {
        assert(e.payload =~= b.subrange(at + 12, at + 20));
    } else {
        assert(e.payload.take(4) =~= b.subrange(at + 8, at + 12));
    }
}

/// The entries of a directory stand one behind the other, and all of them are read.
pub proof fn law_entries_tile(b: Seq<u8>, at: int, n: int, le: bool, big: bool)
    requires
        0 <= at,
        0 <= n,
    ensures
        ({
            let size = if big {
                20int
            } else {
                12
            };
            &&& field::entries_at(b, at, n, le, big) is Ok <==> n == 0 || at + n * size <= b.len()
            &&& field::entries_at(b, at, n, le, big) matches Ok(s) ==> s.len() == n && forall|k: int|
                0 <= k < n ==> #[trigger] s[k] == field::entry_at(b, at + k * size, le, big)
        }),
    decreases n,
{
    let size = if big {
        20int
    } else {
        12
    };
    if n > 0 {
        law_entries_tile(b, at + size, n - 1, le, big);
        assert(n * size == (n - 1) * size + size) by (nonlinear_arith);
        assert((n - 1) * size >= 0) by (nonlinear_arith)
            requires
                n >= 1,
                size > 0,
        ;
        if let Ok(s) = field::entries_at(b, at, n, le, big) {
            let rest = field::entries_at(b, at + size, n - 1, le, big)->Ok_0;
            assert forall|k: int| 0 <= k < n implies #[trigger] s[k] == field::entry_at(
                b,
                at + k * size,
                le,
                big,
            ) by {
                if k > 0 {
                    assert(s[k] == rest[k - 1]);
                    assert(at + size + (k - 1) * size == at + k * size) by (nonlinear_arith);
                }
            }
        }
    }
}

/// A directory has as many entries as it says before them.
pub proof fn law_directory_counts_its_entries(b: Seq<u8>, st: Start)
    ensures
        tiff::directory_of(b, st) matches Ok(s) ==> bytes::low_first(
            b,
            st.ifd as int,
            if st.big {
                8
            } else {
                2
            },
            st.le,
        ) == (if st.big {
            bytes::le8(s.len() as int)
        } else {
            bytes::le2(s.len() as int)
        }) && (s.len() > 0 ==> s[0] == field::entry_at(
            b,
            if st.big {
                st.ifd + 8
            } else {
                st.ifd + 2
            },
            st.le,
            st.big,
        )),
{
    if st.big {
        if st.ifd + 8 <= b.len() {
            bytes::law_read_in_either_order(b, st.ifd as int, st.le);
            law_entries_tile(b, st.ifd + 8, bytes::u64_at(b, st.ifd as int, st.le), st.le, st.big);
        }
    } else {
        if st.ifd + 2 <= b.len() {
            bytes::law_read_in_either_order(b, st.ifd as int, st.le);
            law_entries_tile(b, st.ifd + 2, bytes::u16_at(b, st.ifd as int, st.le), st.le, st.big);
        }
    }
}

/// The entry found under a tag is the last that bears it, and none is found only
/// where none bears it.
pub proof fn law_last_entry_counts(fields: Seq<Entry>, tag: u16)
    ensures
        field::lookup(fields, tag) is None <==> forall|k: int|
            0 <= k < fields.len() ==> (#[trigger] fields[k]).tag != tag,
        field::lookup(fields, tag) matches Some(f) ==> exists|k: int|
            0 <= k < fields.len() && f == #[trigger] fields[k] && f.tag == tag && forall|m: int|
                k < m < fields.len() ==> (#[trigger] fields[m]).tag != tag,
    decreases fields.len(),
{
    if fields.len() > 0 {
        let n = fields.len() - 1;
        assert(fields[n] == fields.last());
        if fields.last().tag != tag {
            let rest = fields.drop_last();
            law_last_entry_counts(rest, tag);
            assert(forall|k: int| 0 <= k < n ==> #[trigger] rest[k] == fields[k]);
            if let Some(f) = field::lookup(rest, tag) {
                let k = choose|k: int|
                    0 <= k < rest.len() && f == #[trigger] rest[k] && f.tag == tag && forall|m: int|
                        k < m < rest.len() ==> (#[trigger] rest[m]).tag != tag;
                assert(f == fields[k]);
                assert forall|m: int| k < m < fields.len() implies (#[trigger] fields[m]).tag
                    != tag by {
                    if m < n {
                        assert(rest[m] == fields[m]);
                    }
                }
            } else {
                assert forall|k: int| 0 <= k < fields.len() implies (#[trigger] fields[k]).tag
                    != tag by {
                    if k < n {
                        assert(rest[k].tag != tag);
                    }
                }
            }
        }
    }
}

// ---- values ------------------------------------------------------------------------

/// The bytes of a field are its own, where it has room for them, and those at the
/// place that it gives, where it has not.
pub proof fn law_payload_is_where_it_says(b: Seq<u8>, f: Entry, total: int, le: bool, big: bool)
    requires
        f.payload.len() == 8,
        0 <= total,
        f.inline ==> total <= 8,
    ensures
        f.inline ==> field::payload_of(b, f, total, le, big) == Some(f.payload.take(total)),
        !f.inline && field::payload_of(b, f, total, le, big) is Some ==> exists|off: int|
            0 <= off && off + total <= b.len() && #[trigger] b.subrange(off, off + total)
                == field::payload_of(b, f, total, le, big)->0 && bytes::low_first(
                f.payload,
                0,
                if big {
                    8
                } else {
                    4
                },
                le,
            ) == (if big {
                bytes::le8(off)
            } else {
                bytes::le4(off)
            }),
{
    if f.inline {
        assert(f.payload.take(8) =~= f.payload);
    } else {
        bytes::law_read_in_either_order(f.payload, 0, le);
        let off = if big {
            bytes::u64_at(f.payload, 0, le)
        } else {
            bytes::u32_at(f.payload, 0, le)
        };
        if off + total <= b.len() {
            assert(b.subrange(off, off + total) == field::payload_of(b, f, total, le, big)->0);
        }
    }
}

/// Whether `v` is the number of `n` bytes that stands at `at`; a number below zero
/// is widened with its sign.
pub open spec fn reads_as(b: Seq<u8>, at: int, n: int, signed: bool, le: bool, v: u64) -> bool {
    let written = bytes::low_first(b, at, n, le);
    let (bytes, half) = if n == 2 {
        (bytes::le2(v as int), 32768int)
    } else if n == 4 {
        (bytes::le4(v as int), 2147483648int)
    } else {
        (bytes::le8(v as int), 9223372036854775808int)
    };
    written == bytes && (if signed {
        v < half || v >= 18446744073709551616 - half
    } else {
        v < 2 * half
    })
}

proof fn lemma_turns2(v: int, k: int)
    ensures
        bytes::le2(v) == bytes::le2(v + 65536 * k),
{
    reveal(bytes::le2);
    let u = v + 65536 * k;
    assert(u % 256 == v % 256);
    assert(u / 256 == v / 256 + 256 * k);
    assert(u / 256 % 256 == v / 256 % 256);
}

proof fn lemma_turns4(v: int, k: int)
    ensures
        bytes::le4(v) == bytes::le4(v + 4294967296 * k),
{
    reveal(bytes::le4);
    let u = v + 4294967296 * k;
    assert(u % 65536 == v % 65536);
    assert(u / 65536 == v / 65536 + 65536 * k);
    lemma_turns2(v / 65536, k);
}

/// An integer of a field is the writing of the bytes that it was read from.
pub proof fn law_integer_is_written_back(b: Seq<u8>, at: int, le: bool)
    requires
        0 <= at,
        at + 8 <= b.len(),
    ensures
        field::integer_at(b, at, 1, le) == b[at],
        field::integer_at(b, at, 7, le) == b[at],
        reads_as(b, at, 2, false, le, field::integer_at(b, at, 3, le)),
        reads_as(b, at, 2, true, le, field::integer_at(b, at, 8, le)),
        reads_as(b, at, 4, false, le, field::integer_at(b, at, 4, le)),
        reads_as(b, at, 4, true, le, field::integer_at(b, at, 9, le)),
        reads_as(b, at, 8, false, le, field::integer_at(b, at, 16, le)),
        reads_as(b, at, 8, true, le, field::integer_at(b, at, 17, le)),
        reads_as(b, at, 8, false, le, field::integer_at(b, at, 18, le)),
        b[at] < 128 ==> field::integer_at(b, at, 6, le) == b[at],
        b[at] >= 128 ==> field::integer_at(b, at, 6, le) == b[at] + 18446744073709551360,
{
    bytes::law_read_in_either_order(b, at, le);
    let (x, y) = (bytes::u16_at(b, at, le), bytes::u32_at(b, at, le));
    lemma_turns2(x, 281474976710655);
    lemma_turns4(y, 4294967295);
}

/// The integers of a field stand one behind the other in its bytes, each as wide as
/// its type is.
pub proof fn law_integers_follow(b: Seq<u8>, f: Entry, le: bool, big: bool, wide: int)
    requires
        (f.typ == 1 || f.typ == 6 || f.typ == 7) && wide == 1 || (f.typ == 3 || f.typ == 8) && wide
            == 2 || (f.typ == 4 || f.typ == 9) && wide == 4 || (f.typ == 16 || f.typ == 17 || f.typ
            == 18) && wide == 8,
    ensures
        match field::integers_of(b, f, le, big) {
            Ok(v) => v.len() == f.count && field::payload_of(b, f, wide * f.count, le, big) is Some
                && forall|i: int|
                0 <= i < v.len() ==> #[trigger] v[i] == field::integer_at(
                    field::payload_of(b, f, wide * f.count, le, big)->0,
                    i * wide,
                    f.typ,
                    le,
                ),
            Err(e) => e == TiffError::PayloadOutOfRange && field::payload_of(
                b,
                f,
                wide * f.count,
                le,
                big,
            ) is None,
        },
{
}

/// A real number of a field is kept as the bytes that it was read from.
pub proof fn law_real_is_written_back(b: Seq<u8>, at: int, le: bool)
    requires
        0 <= at,
        at + 8 <= b.len(),
    ensures
        field::real_at(b, at, 11, le) matches Real::Single(v) && bytes::low_first(b, at, 4, le)
            == bytes::le4(v as int),
        field::real_at(b, at, 12, le) matches Real::Double(v) && bytes::low_first(b, at, 8, le)
            == bytes::le8(v as int),
        field::real_at(b, at, 5, le) matches Real::Ratio(p, q) && bytes::low_first(b, at, 4, le)
            == bytes::le4(p as int) && bytes::low_first(b, at + 4, 4, le) == bytes::le4(q as int),
        field::real_at(b, at, 10, le) == field::real_at(b, at, 5, le),
{
    bytes::law_read_in_either_order(b, at, le);
    bytes::law_read_in_either_order(b, at + 4, le);
}

/// The real numbers of a field stand one behind the other in its bytes.
pub proof fn law_reals_follow(b: Seq<u8>, f: Entry, le: bool, big: bool, wide: int)
    requires
        f.typ == 11 && wide == 4 || (f.typ == 5 || f.typ == 10 || f.typ == 12) && wide == 8,
    ensures
        match field::reals_of(b, f, le, big) {
            Ok(v) => v.len() == f.count && forall|i: int|
                0 <= i < v.len() ==> #[trigger] v[i] == field::real_at(
                    field::payload_of(b, f, wide * f.count, le, big)->0,
                    i * wide,
                    f.typ,
                    le,
                ),
            Err(e) => e == TiffError::PayloadOutOfRange,
        },
{
}

/// The text of a field ends before the zeros that fill it up.
pub proof fn law_zeros_are_cut_off(s: Seq<char>, n: nat)
    requires
        s.len() > 0 ==> s.last() != '\0',
    ensures
        field::trim_nul(s + Seq::new(n, |i: int| '\0')) == s,
    decreases n,
{
    let z = Seq::new(n, |i: int| '\0');
    if n == 0 {
        assert(s + z =~= s);
    } else {
        law_zeros_are_cut_off(s, (n - 1) as nat);
        assert((s + z).drop_last() =~= s + Seq::new((n - 1) as nat, |i: int| '\0'));
        assert((s + z).last() == '\0');
    }
}

// ---- the image ---------------------------------------------------------------------

/// What a field's first number stands for when the field is there, and when it is not.
pub proof fn law_first_of_a_field(b: Seq<u8>, fields: Seq<Entry>, st: Start, tag: u16, default: u64)
    ensures
        (forall|k: int| 0 <= k < fields.len() ==> (#[trigger] fields[k]).tag != tag)
            ==> tiff::first_of(b, fields, st, tag, default) == Ok::<u64, TiffError>(default),
        forall|v: Seq<u64>|
            #![trigger v.len()]
            tiff::all_of(b, fields, st, tag) == Ok::<Option<Seq<u64>>, TiffError>(Some(v)) && v.len()
                > 0 ==> tiff::first_of(b, fields, st, tag, default) == Ok::<u64, TiffError>(v[0]),
{
    law_last_entry_counts(fields, tag);
}

/// The shape of an image is what its fields say, each under its tag.
pub proof fn law_shape(b: Seq<u8>, fields: Seq<Entry>, st: Start)
    ensures
        tiff::shape_of(b, fields, st) matches Ok(s) ==> {
            &&& tiff::first_of(b, fields, st, 256, 0) == Ok::<u64, TiffError>(s.width)
            &&& tiff::first_of(b, fields, st, 257, 0) == Ok::<u64, TiffError>(s.height)
            &&& tiff::first_of(b, fields, st, 277, 1) == Ok::<u64, TiffError>(s.samples)
            &&& tiff::first_of(b, fields, st, 258, 1) == Ok::<u64, TiffError>(s.bits)
            &&& tiff::first_of(b, fields, st, 259, 1) matches Ok(v) && v as int % 65536
                == s.compression
            &&& tiff::first_of(b, fields, st, 317, 1) matches Ok(v) && v as int % 65536 == s.predictor
            &&& tiff::first_of(b, fields, st, 262, 1) matches Ok(v) && v as int % 65536
                == s.photometric
            &&& tiff::first_of(b, fields, st, 339, 1) matches Ok(v) && v == (match s.kind {
                SampleKind::Uint => 1u64,
                SampleKind::Int => 2,
                SampleKind::Float => 3,
            })
            &&& s.width > 0 && s.height > 0
            &&& s.bits == 8 || s.bits == 16 || s.bits == 32 || s.bits == 64
            &&& s.kind is Float ==> s.bits == 32 || s.bits == 64
            &&& s.photometric != 5 && s.photometric != 6
            &&& s.samples > 1 ==> (tiff::first_of(b, fields, st, 284, 1) matches Ok(v) && v as int
                % 65536 == 1)
        },
{
    if let Ok(s) = tiff::shape_of(b, fields, st) {
        if let Some(f) = field::lookup(fields, 258) {
            let all = field::integers_of(b, f, st.le, st.big)->Ok_0;
            assert(tiff::depth_from(all) == Ok::<u64, TiffError>(s.bits));
        }
    }
}

/// An image of tiles has its tiles' size and their tables; any other is of strips,
/// which have at least a row each.
pub proof fn law_layout(b: Seq<u8>, fields: Seq<Entry>, st: Start, height: u64)
    requires
        height > 0,
    ensures
        tiff::layout_of(b, fields, st, height) matches Ok(x) ==> {
            &&& x is Tiles <==> exists|k: int|
                0 <= k < fields.len() && (#[trigger] fields[k]).tag == 322
            &&& x matches Layout::Tiles { w, h } ==> tiff::first_of(b, fields, st, 322, 0) == Ok::<
                u64,
                TiffError,
            >(w) && tiff::first_of(b, fields, st, 323, 0) == Ok::<u64, TiffError>(h)
            &&& x matches Layout::Strips { rows_per } ==> rows_per >= 1 && (tiff::first_of(
                b,
                fields,
                st,
                278,
                height,
            ) matches Ok(n) && (n > 0 ==> n == rows_per))
        },
{
    law_last_entry_counts(fields, 322);
}

/// The tables of the blocks are those of the layout, and are as long as each other.
pub proof fn law_tables(b: Seq<u8>, fields: Seq<Entry>, st: Start, layout: Layout)
    ensures
        tiff::tables_of(b, fields, st, layout) matches Ok((o, c)) ==> {
            &&& o.len() == c.len()
            &&& layout is Strips ==> tiff::all_of(b, fields, st, 273) == Ok::<
                Option<Seq<u64>>,
                TiffError,
            >(Some(o)) && tiff::all_of(b, fields, st, 279) == Ok::<Option<Seq<u64>>, TiffError>(
                Some(c),
            )
            &&& layout is Tiles ==> tiff::all_of(b, fields, st, 324) == Ok::<
                Option<Seq<u64>>,
                TiffError,
            >(Some(o)) && tiff::all_of(b, fields, st, 325) == Ok::<Option<Seq<u64>>, TiffError>(
                Some(c),
            )
        },
{
}

/// A colour map is three lists, of reds, of greens and of blues. A colour is the
/// upper half of each of its three numbers.
pub proof fn law_colour_map(r: Seq<u64>, g: Seq<u64>, u: Seq<u64>, i: int)
    requires
        r.len() == g.len(),
        g.len() == u.len(),
        0 <= i < r.len(),
        r[i] < 65536,
        g[i] < 65536,
        u[i] < 65536,
    ensures
        tiff::colours_from(r + g + u).len() == r.len(),
        ({
            let c = tiff::colours_from(r + g + u)[i];
            &&& 256 * c.0 <= r[i] < 256 * c.0 + 256
            &&& 256 * c.1 <= g[i] < 256 * c.1 + 256
            &&& 256 * c.2 <= u[i] < 256 * c.2 + 256
        }),
{
    let v = r + g + u;
    let n = r.len() as int;
    assert(v.len() == 3 * n);
    assert(v[i] == r[i]);
    assert(v[n + i] == g[i]);
    assert(v[2 * n + i] == u[i]);
}

/// Where the pixels are: a whole matrix goes before a scale with a tie point, and
/// with neither nothing is said.
pub proof fn law_georef(b: Seq<u8>, fields: Seq<Entry>, st: Start)
    ensures
        (forall|k: int|
            0 <= k < fields.len() ==> (#[trigger] fields[k]).tag != 34264 && fields[k].tag != 33550)
            ==> tiff::georef_of(b, fields, st) == Ok::<tiff::Georef, TiffError>(
            tiff::Georef::Absent,
        ),
        tiff::georef_of(b, fields, st) matches Ok(tiff::Georef::Matrix { t0, t1, t2, t3, t4, t5 })
            ==> exists|m: Seq<Real>|
            #![trigger m.len()]
            m.len() >= 8 && m.take(2) == seq![t0, t1] && m.subrange(3, 6) == seq![t2, t3, t4] && m[7]
                == t5,
        tiff::georef_of(b, fields, st) matches Ok(tiff::Georef::Tied { sx, sy, i, j, x, y })
            ==> exists|s: Seq<Real>, t: Seq<Real>|
            #![trigger s.len(), t.len()]
            s.len() >= 2 && t.len() >= 6 && s.take(2) == seq![sx, sy] && t.take(2) == seq![i, j]
                && t.subrange(3, 5) == seq![x, y],
{
    law_last_entry_counts(fields, 34264);
    law_last_entry_counts(fields, 33550);
    if let Ok(tiff::Georef::Matrix { t0, t1, t2, t3, t4, t5 }) = tiff::georef_of(b, fields, st) {
        let m = field::reals_of(b, field::lookup(fields, 34264)->0, st.le, st.big)->Ok_0;
        assert(m.len() >= 8);
        assert(m.take(2) =~= seq![t0, t1]);
        assert(m.subrange(3, 6) =~= seq![t2, t3, t4]);
    }
    if let Ok(tiff::Georef::Tied { sx, sy, i, j, x, y }) = tiff::georef_of(b, fields, st) {
        let s = field::reals_of(b, field::lookup(fields, 33550)->0, st.le, st.big)->Ok_0;
        let t = field::reals_of(b, field::lookup(fields, 33922)->0, st.le, st.big)->Ok_0;
        assert(s.len() >= 2 && t.len() >= 6);
        assert(s.take(2) =~= seq![sx, sy]);
        assert(t.take(2) =~= seq![i, j]);
        assert(t.subrange(3, 5) =~= seq![x, y]);
    }
}

/// A name ends at the first bar, and one without a bar is whole.
pub proof fn law_name_before_bar(s: Seq<char>, rest: Seq<char>)
    requires
        forall|i: int| 0 <= i < s.len() ==> #[trigger] s[i] != '|',
    ensures
        tiff::up_to(s, '|') == s,
        tiff::up_to(s + seq!['|'] + rest, '|') == s,
        tiff::before_bar(s + seq!['|'] + rest) == text::trimmed(s),
    decreases s.len(),
{
    if s.len() > 0 {
        law_name_before_bar(s.skip(1), rest);
        assert((s + seq!['|'] + rest).skip(1) =~= s.skip(1) + seq!['|'] + rest);
        assert(seq![s[0]] + s.skip(1) =~= s);
    } else {
        assert(tiff::up_to(s, '|') =~= s);
        assert((s + seq!['|'] + rest)[0] == '|');
    }
}

// ---- blocks and samples ------------------------------------------------------------

/// The strips of an image hold its rows, one strip behind the other: a strip has
/// all the rows that are left to it, up to as many as a strip has.
pub proof fn law_strips_tile(o: Opened, i: int)
    requires
        o.layout is Strips,
        o.layout->rows_per > 0,
        0 <= i,
        i * o.layout->rows_per < o.shape.height,
    ensures
        ({
            let r = o.layout->rows_per as int;
            let (w, h) = pixel::block_size(o, i);
            &&& w == o.shape.width
            &&& 0 < h <= r
            &&& i * r + h <= o.shape.height
            &&& h < r ==> i * r + h == o.shape.height
        }),
{
    let r = o.layout->rows_per as int;
    let height = o.shape.height as int;
    let (q, over) = (height / r, height % r);
    vstd::arithmetic::div_mod::lemma_fundamental_div_mod(height, r);
    assert(r * q == q * r) by (nonlinear_arith);
    if i > q {
        assert(i * r >= q * r + r) by (nonlinear_arith)
            requires
                i >= q + 1,
                r > 0,
        ;
    } else if i < q {
        assert(i * r + r <= q * r) by (nonlinear_arith)
            requires
                i + 1 <= q,
                r > 0,
        ;
    } else {
        assert(i * r == q * r);
    }
}

/// A tile is as large as the layout says.
pub proof fn law_tile_size(o: Opened, i: int, w: u64, h: u64)
    requires
        o.layout == (Layout::Tiles { w, h }),
    ensures
        pixel::block_size(o, i) == (w as int, h as int),
{
}

/// A pixel of an image of strips is in its own column of the strip that its row is
/// counted off to.
pub proof fn law_pixel_in_strip(o: Opened, col: int, row: int)
    requires
        o.layout is Strips,
        o.layout->rows_per > 0,
        0 <= row,
    ensures
        pixel::located(o, col, row) matches Some((bi, bx, by, bw)) && bi * o.layout->rows_per + by
            == row && 0 <= by < o.layout->rows_per && bx == col && bw == o.shape.width,
{
    let r = o.layout->rows_per as int;
    vstd::arithmetic::div_mod::lemma_fundamental_div_mod(row, r);
    assert(r * (row / r) == (row / r) * r) by (nonlinear_arith);
    vstd::arithmetic::div_mod::lemma_mod_bound(row, r);
}

/// A pixel of an image of tiles is in the tile that its column and its row are
/// counted off to. Tiles are counted along a row of them, and a row has as many as
/// the image is wide.
pub proof fn law_pixel_in_tile(o: Opened, w: u64, h: u64, col: int, row: int) -> (r: (int, int, int))
    requires
        o.layout == (Layout::Tiles { w, h }),
        w > 0,
        h > 0,
        0 <= col < o.shape.width,
        0 <= row,
    ensures
        ({
            let (across, tx, ty) = r;
            &&& (across - 1) * w < o.shape.width <= across * w
            &&& 0 <= tx < across
            &&& pixel::located(o, col, row) matches Some((bi, bx, by, bw)) && bi == ty * across + tx
                && tx * w + bx == col && ty * h + by == row && 0 <= bx < w && 0 <= by < h && bw == w
        }),
{
    let (w, h, width) = (w as int, h as int, o.shape.width as int);
    let across = width / w + if width % w > 0 {
        1int
    } else {
        0
    };
    let (tx, ty) = (col / w, row / h);
    vstd::arithmetic::div_mod::lemma_fundamental_div_mod(width, w);
    vstd::arithmetic::div_mod::lemma_fundamental_div_mod(col, w);
    vstd::arithmetic::div_mod::lemma_fundamental_div_mod(row, h);
    vstd::arithmetic::div_mod::lemma_mod_bound(width, w);
    vstd::arithmetic::div_mod::lemma_mod_bound(col, w);
    vstd::arithmetic::div_mod::lemma_mod_bound(row, h);
    assert(w * (width / w) == (width / w) * w) by (nonlinear_arith);
    assert(w * tx == tx * w) by (nonlinear_arith);
    assert(h * ty == ty * h) by (nonlinear_arith);
    assert(((width / w) + 1) * w == (width / w) * w + w) by (nonlinear_arith);
    assert(((width / w) - 1) * w == (width / w) * w - w) by (nonlinear_arith);
    assert(tx >= 0) by (nonlinear_arith)
        requires
            tx * w + col % w == col,
            0 <= col,
            0 <= col % w < w,
            w > 0,
    ;
    assert(tx < across) by (nonlinear_arith)
        requires
            tx * w <= col,
            col < across * w,
            w > 0,
    ;
    (across, tx, ty)
}

/// The samples of a block stand one behind the other: the bands of a pixel, the
/// pixels of a row, and the rows.
pub proof fn law_samples_tile(o: Opened, bx: int, by: int, bw: int, band: int)
    requires
        pixel::readable(o),
    ensures
        ({
            let each = (if o.shape.bits == 8 {
                1int
            } else if o.shape.bits == 16 {
                2
            } else if o.shape.bits == 32 {
                4
            } else {
                8
            });
            let at = pixel::sample_place(o, bx, by, bw, band);
            &&& pixel::sample_place(o, 0, 0, bw, 0) == 0
            &&& pixel::sample_place(o, bx, by, bw, band + 1) == at + each
            &&& pixel::sample_place(o, bx + 1, by, bw, 0) == pixel::sample_place(
                o,
                bx,
                by,
                bw,
                o.shape.samples as int,
            )
            &&& pixel::sample_place(o, 0, by + 1, bw, band) == pixel::sample_place(
                o,
                bw,
                by,
                bw,
                band,
            )
        }),
{
    let each = o.shape.bits as int / 8;
    let pixel = each * o.shape.samples;
    let row = bw * pixel;
    assert(0 * row == 0 && 0 * pixel == 0 && 0 * each == 0);
    assert((band + 1) * each == band * each + each) by (nonlinear_arith);
    assert((bx + 1) * pixel == bx * pixel + pixel) by (nonlinear_arith);
    assert(o.shape.samples * each == pixel) by (nonlinear_arith)
        requires
            pixel == each * o.shape.samples,
    ;
    assert((by + 1) * row == by * row + row) by (nonlinear_arith);
}

/// A sample is the writing of the bytes that it was read from.
pub proof fn law_sample_is_written_back(b: Seq<u8>, at: int, bits: u64, le: bool)
    requires
        bits == 8 || bits == 16 || bits == 32 || bits == 64,
        0 <= at,
        at + bits as int / 8 <= b.len(),
    ensures
        pixel::sample_at(b, at, SampleKind::Uint, bits, le) matches Sample::Uint(v) && (bits == 8
            ==> v == b[at]) && (bits == 16 ==> bytes::low_first(b, at, 2, le) == bytes::le2(
            v as int,
        ) && v < 65536) && (bits == 32 ==> bytes::low_first(b, at, 4, le) == bytes::le4(v as int)
            && v < 4294967296) && (bits == 64 ==> bytes::low_first(b, at, 8, le) == bytes::le8(
            v as int,
        )),
        pixel::sample_at(b, at, SampleKind::Int, bits, le) matches Sample::Int(v) && (bits == 8 ==> v
            as int % 256 == b[at] && -128 <= v < 128) && (bits == 16 ==> bytes::low_first(b, at, 2, le)
            == bytes::le2(v as int) && -32768 <= v < 32768) && (bits == 32 ==> bytes::low_first(
            b,
            at,
            4,
            le,
        ) == bytes::le4(v as int) && -2147483648 <= v < 2147483648),
        bits == 64 ==> pixel::sample_at(b, at, SampleKind::Int, bits, le)->Int_0 as int
            % 18446744073709551616 == bytes::u64_at(b, at, le),
        bits == 32 ==> (pixel::sample_at(b, at, SampleKind::Float, bits, le) matches Sample::Single(v)
            && bytes::low_first(b, at, 4, le) == bytes::le4(v as int)),
        bits == 64 ==> (pixel::sample_at(b, at, SampleKind::Float, bits, le) matches Sample::Double(v)
            && bytes::low_first(b, at, 8, le) == bytes::le8(v as int)),
{
    bytes::law_read_in_either_order(b, at, le);
    if bits == 16 {
        lemma_turns2(bytes::u16_at(b, at, le), -1);
    }
    if bits == 32 {
        lemma_turns4(bytes::u32_at(b, at, le), -1);
    }
}

/// The bytes of a block stand at its place in the file, all of them.
pub proof fn law_block_is_where_it_says(o: Opened, b: Seq<u8>, i: int)
    requires
        0 <= i < o.offsets.len(),
        o.offsets.len() == o.counts.len(),
    ensures
        pixel::stored_block(o, b, i) is Ok <==> o.offsets[i] + o.counts[i] <= b.len(),
        pixel::stored_block(o, b, i) matches Ok(x) ==> x.len() == o.counts[i] && bytes::carries(
            b,
            o.offsets[i] as int,
            x,
        ),
{
}

/// A block that is stored as it is is read as it is stored.
pub proof fn law_plain_block(o: Opened, b: Seq<u8>, i: int)
    requires
        o.shape.compression == 1,
        o.shape.predictor == 1,
        0 <= i < o.offsets.len(),
        o.offsets.len() == o.counts.len(),
        o.offsets[i] + o.counts[i] <= b.len(),
    ensures
        pixel::decoded(o, b, i) == Ok::<Seq<u8>, pixel::Fault>(
            b.subrange(o.offsets[i] as int, o.offsets[i] + o.counts[i]),
        ),
{
    let raw = b.subrange(o.offsets[i] as int, o.offsets[i] + o.counts[i]);
    assert(pixel::finishes(o, i, raw, raw));
}

// ---- packing -----------------------------------------------------------------------

proof fn lemma_packed_behind(a: Seq<u8>, rest: Seq<u8>, i: int)
    requires
        0 <= i,
    ensures
        codec::packbits(a + rest, a.len() + i) == codec::packbits(rest, i),
    decreases rest.len() - i,
{
    let all = a + rest;
    let at = a.len() + i;
    if i < rest.len() {
        assert(all[at] == rest[i]);
        if rest[i] < 128 {
            let end = if i + 2 + rest[i] <= rest.len() {
                i + 2 + rest[i]
            } else {
                rest.len() as int
            };
            lemma_packed_behind(a, rest, end);
            assert(all.subrange(at + 1, a.len() + end) =~= rest.subrange(i + 1, end));
        } else if rest[i] == 128 {
            lemma_packed_behind(a, rest, i + 1);
        } else if i + 1 < rest.len() {
            lemma_packed_behind(a, rest, i + 2);
            assert(all[at + 1] == rest[i + 1]);
            assert(Seq::new((257 - all[at]) as nat, |k: int| all[at + 1]) =~= Seq::new(
                (257 - rest[i]) as nat,
                |k: int| rest[i + 1],
            ));
        }
    }
}

/// Bytes that are packed as they are come out as they are, and what is behind them
/// comes out behind them.
pub proof fn law_packed_plainly(x: Seq<u8>, rest: Seq<u8>)
    requires
        1 <= x.len() <= 128,
    ensures
        codec::packbits(seq![(x.len() - 1) as u8] + x + rest, 0) == x + codec::packbits(rest, 0),
{
    let a = seq![(x.len() - 1) as u8] + x;
    let all = a + rest;
    lemma_packed_behind(a, rest, 0);
    assert(all[0] == x.len() - 1);
    assert(all.subrange(1, 1int + x.len()) =~= x);
}

/// A byte that is packed with a count comes out as often as the count says, and
/// what is behind it comes out behind it.
pub proof fn law_packed_run(n: int, x: u8, rest: Seq<u8>)
    requires
        2 <= n <= 128,
    ensures
        codec::packbits(seq![(257 - n) as u8, x] + rest, 0) == Seq::new(n as nat, |k: int| x)
            + codec::packbits(rest, 0),
{
    let a = seq![(257 - n) as u8, x];
    let all = a + rest;
    lemma_packed_behind(a, rest, 0);
    assert(all[0] == 257 - n && all[1] == x);
    assert(Seq::new((257 - all[0]) as nat, |k: int| all[1]) =~= Seq::new(n as nat, |k: int| x));
}

/// A byte that says nothing is passed over.
pub proof fn law_packed_nothing(rest: Seq<u8>)
    ensures
        codec::packbits(seq![128u8] + rest, 0) == codec::packbits(rest, 0),
        codec::packbits(Seq::empty(), 0) == Seq::<u8>::empty(),
{
    lemma_packed_behind(seq![128u8], rest, 0);
    assert((seq![128u8] + rest)[0] == 128);
}

proof fn lemma_code_below(src: Seq<u8>, pos: int, n: nat)
    ensures
        0 <= codec::code_at(src, pos, n as int) < vstd::arithmetic::power2::pow2(n),
    decreases n,
{
    if n == 0 {
        vstd::arithmetic::power2::lemma2_to64();
    } else {
        lemma_code_below(src, pos, (n - 1) as nat);
        vstd::arithmetic::power2::lemma_pow2_unfold(n);
    }
}

/// Codes are read from the high bit of a byte down: eight bits from where a byte
/// begins are the byte.
pub proof fn law_eight_bits_are_a_byte(src: Seq<u8>, i: int)
    ensures
        codec::code_at(src, 8 * i, 8) == src[i],
{
    let at = 8 * i;
    assert((at + 0) / 8 == i && (at + 0) % 8 == 0);
    assert((at + 1) / 8 == i && (at + 1) % 8 == 1);
    assert((at + 2) / 8 == i && (at + 2) % 8 == 2);
    assert((at + 3) / 8 == i && (at + 3) % 8 == 3);
    assert((at + 4) / 8 == i && (at + 4) % 8 == 4);
    assert((at + 5) / 8 == i && (at + 5) % 8 == 5);
    assert((at + 6) / 8 == i && (at + 6) % 8 == 6);
    assert((at + 7) / 8 == i && (at + 7) % 8 == 7);
    let x = src[i] as int;
    assert(codec::code_at(src, at, 0) == 0);
    assert(codec::code_at(src, at, 1) == x / 128);
    assert(codec::code_at(src, at, 2) == x / 64);
    assert(codec::code_at(src, at, 3) == x / 32);
    assert(codec::code_at(src, at, 4) == x / 16);
    assert(codec::code_at(src, at, 5) == x / 8);
    assert(codec::code_at(src, at, 6) == x / 4);
    assert(codec::code_at(src, at, 7) == x / 2);
}

/// A code is its upper part followed by its lower, and takes no more bits than it is
/// wide.
pub proof fn law_codes_are_read_in_order(src: Seq<u8>, pos: int, m: nat, n: nat)
    ensures
        codec::code_at(src, pos, (m + n) as int) == codec::code_at(src, pos, m as int)
            * vstd::arithmetic::power2::pow2(n) + codec::code_at(src, pos + m, n as int),
        codec::code_at(src, pos, n as int) < vstd::arithmetic::power2::pow2(n),
    decreases n,
{
    lemma_code_below(src, pos, n);
    if n > 0 {
        law_codes_are_read_in_order(src, pos, m, (n - 1) as nat);
        vstd::arithmetic::power2::lemma_pow2_unfold(n);
        let (c, p, q) = (
            codec::code_at(src, pos, m as int),
            vstd::arithmetic::power2::pow2((n - 1) as nat),
            vstd::arithmetic::power2::pow2(n),
        );
        assert(2 * (c * p) == c * q) by (nonlinear_arith)
            requires
                q == 2 * p,
        ;
        assert(codec::code_at(src, pos, (m + n) as int) == 2 * codec::code_at(
            src,
            pos,
            (m + (n - 1) as nat) as int,
        ) + codec::bit_of(src[(pos + m + n - 1) / 8], (pos + m + n - 1) % 8));
    } else {
        vstd::arithmetic::power2::lemma2_to64();
        let c = codec::code_at(src, pos, m as int);
        assert(c * 1 == c);
    }
}

/// A code under 256 stands for its byte, right from the start.
pub proof fn law_single_bytes_stand_for_themselves(x: u8)
    ensures
        codec::string_of(
            codec::lzw_start().prefix,
            codec::lzw_start().suffix,
            x as u16,
            codec::lzw_start().prefix.len(),
        ) == Some(seq![x]),
        codec::lzw_start().prefix.len() == 258,
        codec::lzw_start().width == 9,
{
    let st = codec::lzw_start();
    assert(st.prefix[x as int] == codec::NO_CODE);
    reveal_with_fuel(codec::string_of, 2);
    assert(Seq::<u8>::empty().push(x) =~= seq![x]);
}

/// Codes are as wide as the next string to be numbered needs them, up to twelve bits:
/// the width goes up by one when the table is one short of it.
pub proof fn law_codes_widen(width: int, len: int)
    requires
        9 <= width <= 12,
        width == 9 ==> len <= 511,
        width == 10 ==> 511 <= len <= 1023,
        width == 11 ==> 1023 <= len <= 2047,
        width == 12 ==> 2047 <= len <= 4096,
    ensures
        len <= 510 ==> codec::next_width(width, len) == 9,
        511 <= len <= 1022 ==> codec::next_width(width, len) == 10,
        1023 <= len <= 2046 ==> codec::next_width(width, len) == 11,
        2047 <= len ==> codec::next_width(width, len) == 12,
{
}

/// A code that is in the table puts out its string, and the string before it with
/// the first byte of this one becomes the next string of the table.
pub proof fn law_known_code(src: Seq<u8>, st: codec::Lzw, code: u16, s: Seq<u8>)
    requires
        9 <= st.width <= 12,
        0 <= st.pos,
        st.pos + st.width <= 8 * src.len(),
        codec::code_at(src, st.pos, st.width) == code,
        code != 256 && code != 257,
        code < st.prefix.len() < 4096,
        s.len() > 0,
        codec::string_of(st.prefix, st.suffix, code, st.prefix.len()) == Some(s),
    ensures
        codec::lzw_run(src, st) == codec::lzw_run(
            src,
            codec::Lzw {
                prefix: match st.prev {
                    Some(p) => st.prefix.push(p),
                    None => st.prefix,
                },
                suffix: match st.prev {
                    Some(p) => st.suffix.push(s[0]),
                    None => st.suffix,
                },
                width: codec::next_width(
                    st.width,
                    st.prefix.len() + if st.prev is Some {
                        1int
                    } else {
                        0
                    },
                ),
                pos: st.pos + st.width,
                prev: Some(code),
                out: st.out + s,
            },
        ),
{
}

/// A code that clears the table puts nothing out, and one that ends the stream ends
/// it with what came before.
pub proof fn law_marks_of_a_stream(src: Seq<u8>, st: codec::Lzw)
    requires
        9 <= st.width <= 12,
        0 <= st.pos,
        st.pos + st.width <= 8 * src.len(),
    ensures
        codec::code_at(src, st.pos, st.width) == 257 ==> codec::lzw_run(src, st) == Ok::<
            Seq<u8>,
            codec::LzwError,
        >(st.out),
        codec::code_at(src, st.pos, st.width) == 256 ==> codec::lzw_run(src, st) == codec::lzw_run(
            src,
            codec::Lzw {
                prefix: codec::lzw_start().prefix,
                suffix: codec::lzw_start().suffix,
                width: 9,
                pos: st.pos + st.width,
                prev: None,
                out: st.out,
            },
        ),
{
}

// ---- prediction --------------------------------------------------------------------

/// A row that was stored as differences is restored: the first pixel is as stored,
/// and every sample is what it was stored as more than the same band's before it.
pub proof fn law_differences_are_undone(
    was: Seq<u8>,
    now: Seq<u8>,
    base: int,
    count: int,
    samples: int,
    bytes: int,
    le: bool,
    k: int,
)
    requires
        codec::row_summed(now, was, base, count, samples, bytes, le),
        codec::sample_size(bytes),
        1 <= samples,
        0 <= k < count,
        0 <= base,
        base + count * bytes <= was.len(),
    ensures
        k < samples ==> codec::sample(now, base, k, bytes, le) == codec::sample(
            was,
            base,
            k,
            bytes,
            le,
        ),
        k >= samples ==> exists|turn: int|
            codec::sample(now, base, k, bytes, le) + #[trigger] (turn * codec::modulus(bytes))
                == codec::sample(now, base, k - samples, bytes, le) + codec::sample(
                was,
                base,
                k,
                bytes,
                le,
            ),
{
    let m = codec::modulus(bytes);
    assert(k * bytes + bytes <= count * bytes && k * bytes >= 0) by (nonlinear_arith)
        requires
            0 <= k,
            k + 1 <= count,
            bytes >= 1,
    ;
    bytes::law_read_in_either_order(was, base + k * bytes, le);
    let x = codec::sample(was, base, k, bytes, le);
    assert(0 <= x < m);
    if k >= samples {
        let before = codec::band_sum(was, base, k - samples, samples, bytes, le);
        let all = before + x;
        vstd::arithmetic::div_mod::lemma_fundamental_div_mod(before, m);
        vstd::arithmetic::div_mod::lemma_fundamental_div_mod(all, m);
        let turn = all / m - before / m;
        assert(turn * m == m * (all / m) - m * (before / m)) by (nonlinear_arith)
            requires
                turn == all / m - before / m,
        ;
        assert(codec::sample(now, base, k - samples, bytes, le) == before % m);
        assert(codec::sample(now, base, k, bytes, le) == all % m);
        assert(all % m + turn * m == before % m + x);
    } else {
        vstd::arithmetic::div_mod::lemma_small_mod(x as nat, m as nat);
    }
}

/// A row of real numbers was stored in planes, the highest bytes of all its numbers
/// first, as differences of bytes: each byte of a number is what its plane says of it.
pub proof fn law_planes_are_put_together(
    was: Seq<u8>,
    now: Seq<u8>,
    base: int,
    count: int,
    bytes: int,
    le: bool,
    k: int,
    plane: int,
)
    requires
        codec::row_restored(now, was, base, count, bytes, le),
        1 <= bytes,
        0 <= k < count,
        0 <= plane < bytes,
    ensures
        codec::row_byte(
            now,
            base,
            k * bytes + if le {
                bytes - 1 - plane
            } else {
                plane
            },
        ) == codec::byte_sum(was, base, plane * count + k) % 256,
        codec::byte_sum(was, base, plane * count + k) == codec::byte_sum(
            was,
            base,
            plane * count + k - 1,
        ) + was[base + (plane * count + k)],
        codec::byte_sum(was, base, -1) == 0,
{
    let j = if le {
        bytes - 1 - plane
    } else {
        plane
    };
    let p = k * bytes + j;
    assert(0 <= p < count * bytes) by (nonlinear_arith)
        requires
            p == k * bytes + j,
            0 <= j < bytes,
            0 <= k,
            k + 1 <= count,
    ;
    vstd::arithmetic::div_mod::lemma_fundamental_div_mod_converse(p, bytes, k, j);
    assert(plane * count >= 0) by (nonlinear_arith)
        requires
            plane >= 0,
            count >= 0,
    ;
}

// ---- the reference system ----------------------------------------------------------

/// A key directory of one key that names a projected system is of that system,
/// whatever else is so; one that names a geographic one as well.
pub proof fn law_reference_system(keys: Seq<u64>, id: u64, val: u64, degree_sized: bool)
    requires
        keys.len() == 8,
        keys[3] == 1,
        keys[4] == id,
        keys[5] == 0,
        keys[7] == val,
        0 < val < 32767,
    ensures
        id == 3072 || id == 2048 ==> tiff::epsg_of(Some(keys), degree_sized) == Some(val as u32),
        id == 1024 && val == 2 ==> tiff::epsg_of(Some(keys), degree_sized) == Some(4326u32),
        id == 1024 && val != 2 && !degree_sized ==> tiff::epsg_of(Some(keys), degree_sized) is None,
{
    reveal_with_fuel(tiff::keys_read, 2);
}

/// A projected system goes before a geographic one, wherever the two stand.
pub proof fn law_projected_goes_first(st: tiff::GeoKeys, g: u64, p: u64)
    requires
        0 < g < 32767,
        0 < p < 32767,
    ensures
        tiff::with_key(tiff::with_key(st, 2048, 0, g), 3072, 0, p).epsg == Some(p as u32),
        tiff::with_key(tiff::with_key(st, 3072, 0, p), 2048, 0, g).epsg == Some(p as u32),
        tiff::with_key(st, 2048, 1, g) == st,
        tiff::with_key(st, 3072, 0, 0) == st,
        tiff::with_key(st, 3072, 0, 32767) == st,
{
}

// ---- the file as a whole -------------------------------------------------------------

/// A file has one directory only if nothing is named behind the entries of the first.
pub proof fn law_next_directory(b: Seq<u8>, st: Start, s: Seq<Entry>)
    requires
        tiff::directory_of(b, st) == Ok::<Seq<Entry>, TiffError>(s),
    ensures
        !st.big ==> (tiff::goes_on(b, st) <==> st.ifd + 2 + 12 * s.len() + 4 <= b.len()
            && bytes::low_first(b, st.ifd + 2 + 12 * s.len(), 4, st.le) != bytes::le4(0)),
        st.big ==> (tiff::goes_on(b, st) <==> st.ifd + 8 + 20 * s.len() + 8 <= b.len()
            && bytes::low_first(b, st.ifd + 8 + 20 * s.len(), 8, st.le) != bytes::le8(0)),
{
    let ifd = st.ifd as int;
    bytes::law_read_in_either_order(b, ifd, st.le);
    if st.big {
        let n = bytes::u64_at(b, ifd, st.le);
        law_entries_tile(b, ifd + 8, n, st.le, st.big);
        let end = ifd + 8 + 20 * n;
        if end + 8 <= b.len() {
            bytes::law_read_in_either_order(b, end, st.le);
            lemma_eight_zero(b, end, st.le);
        }
    } else {
        let n = bytes::u16_at(b, ifd, st.le);
        law_entries_tile(b, ifd + 2, n, st.le, st.big);
        let end = ifd + 2 + 12 * n;
        if end + 4 <= b.len() {
            bytes::law_read_in_either_order(b, end, st.le);
            let v = bytes::u32_at(b, end, st.le);
            bytes::law_low_byte_first(v);
            bytes::law_low_byte_first(0);
            if bytes::le4(v) == bytes::le4(0) {
                assert(v % 256 == 0 && v / 256 % 256 == 0 && v / 65536 % 256 == 0 && v / 16777216
                    % 256 == 0);
            }
        }
    }
}

proof fn lemma_eight_zero(b: Seq<u8>, o: int, le: bool)
    requires
        0 <= o,
        o + 8 <= b.len(),
    ensures
        bytes::le8(bytes::u64_at(b, o, le)) == bytes::le8(0) ==> bytes::u64_at(b, o, le) == 0,
{
    let v = bytes::u64_at(b, o, le);
    bytes::law_read_in_either_order(b, o, le);
    reveal(bytes::le8);
    let (x, y) = (v % 4294967296, v / 4294967296);
    assert(0int % 4294967296 == 0 && 0int / 4294967296 == 0);
    bytes::lemma_le_lens(x);
    bytes::lemma_le_lens(y);
    bytes::lemma_le_lens(0);
    if bytes::le8(v) == bytes::le8(0) {
        let p = bytes::le4(x) + bytes::le4(y);
        let q = bytes::le4(0) + bytes::le4(0);
        assert(p.take(4) =~= bytes::le4(x) && q.take(4) =~= bytes::le4(0));
        assert(p.skip(4) =~= bytes::le4(y) && q.skip(4) =~= bytes::le4(0));
        bytes::law_low_byte_first(x);
        bytes::law_low_byte_first(y);
        bytes::law_low_byte_first(0);
        assert(x % 256 == 0 && x / 256 % 256 == 0 && x / 65536 % 256 == 0 && x / 16777216 % 256
            == 0);
        assert(y % 256 == 0 && y / 256 % 256 == 0 && y / 65536 % 256 == 0 && y / 16777216 % 256
            == 0);
    }
}

/// Prediction is undone row by row: each whole row of a block is restored, and what is
/// no whole row stays.
pub proof fn law_rows_are_undone(
    was: Seq<u8>,
    now: Seq<u8>,
    w: int,
    h: int,
    samples: int,
    bits: int,
    le: bool,
    row: int,
)
    requires
        bits == 8 || bits == 16 || bits == 32 || bits == 64,
        0 <= row < h,
        w * samples * (bits / 8) > 0,
        row * (w * samples * (bits / 8)) + w * samples * (bits / 8) <= was.len(),
    ensures
        codec::undone(was, now, 2, w, h, samples, bits, le) ==> now.len() == was.len()
            && codec::row_summed(
            now,
            was,
            row * (w * samples * (bits / 8)),
            w * samples,
            samples,
            bits / 8,
            le,
        ),
        codec::undone(was, now, 3, w, h, samples, bits, le) ==> now.len() == was.len()
            && codec::row_restored(
            now,
            was,
            row * (w * samples * (bits / 8)),
            w * samples,
            bits / 8,
            le,
        ),
        codec::undone(was, now, 1, w, h, samples, bits, le) ==> now == was,
{
    assert(codec::whole_row(row, w * samples * (bits / 8), h, was.len() as int));
}

/// The sample of a pixel of an image that is stored plainly in strips stands where its
/// strip does, behind the rows of the strip before its own and the samples before it
/// in its row.
pub proof fn law_plain_sample(o: Opened, b: Seq<u8>, col: int, row: int, band: int, strip: int)
    requires
        pixel::readable(o),
        o.layout is Strips,
        o.shape.compression == 1,
        o.shape.predictor == 1,
        0 <= col < o.shape.width,
        0 <= row < o.shape.height,
        0 <= band < o.shape.samples,
        0 <= strip < o.offsets.len(),
        o.offsets.len() == o.counts.len(),
        o.offsets[strip] + o.counts[strip] <= b.len(),
        strip * o.layout->rows_per <= row < strip * o.layout->rows_per + o.layout->rows_per,
        ((row - strip * o.layout->rows_per) * o.shape.width + col + 1) * (o.shape.samples * (
        o.shape.bits as int / 8)) <= o.counts[strip],
    ensures
        ({
            let each = o.shape.bits as int / 8;
            let pixels = (row - strip * o.layout->rows_per) * o.shape.width + col;
            pixel::value_of(o, b, col, row, band) == Some(
                pixel::sample_at(
                    b,
                    o.offsets[strip] + pixels * (o.shape.samples * each) + band * each,
                    o.shape.kind,
                    o.shape.bits,
                    o.start.le,
                ),
            )
        }),
{
    let r = o.layout->rows_per as int;
    let each = o.shape.bits as int / 8;
    let samples = o.shape.samples as int;
    let width = o.shape.width as int;
    let by = row - strip * r;
    vstd::arithmetic::div_mod::lemma_fundamental_div_mod_converse(row, r, strip, by);
    assert(pixel::located(o, col, row) == Some((strip, col, by, width)));
    law_plain_block(o, b, strip);
    let base = o.offsets[strip] as int;
    let data = b.subrange(base, base + o.counts[strip]);
    assert(pixel::decoded(o, b, strip) == Ok::<Seq<u8>, pixel::Fault>(data));
    let at = pixel::sample_place(o, col, by, width, band);
    let p = each * samples;
    let pixels = by * width + col;
    assert(by * (width * p) == by * width * p) by (nonlinear_arith);
    assert((by * width) * p + col * p == pixels * p) by (nonlinear_arith)
        requires
            pixels == by * width + col,
    ;
    assert(p == samples * each) by (nonlinear_arith)
        requires
            p == each * samples,
    ;
    assert(at == pixels * (samples * each) + band * each);
    assert(band * each + each <= samples * each) by (nonlinear_arith)
        requires
            band + 1 <= samples,
            each >= 1,
    ;
    assert((pixels + 1) * (samples * each) == pixels * (samples * each) + samples * each)
        by (nonlinear_arith);
    assert(by * width >= 0) by (nonlinear_arith)
        requires
            by >= 0,
            width >= 0,
    ;
    assert(pixels * (samples * each) >= 0) by (nonlinear_arith)
        requires
            pixels >= 0,
            samples >= 0,
            each >= 0,
    ;
    assert(band * each >= 0) by (nonlinear_arith)
        requires
            band >= 0,
            each >= 0,
    ;
    assert(at + each <= data.len());
    assert(forall|k: int| 0 <= k < each ==> #[trigger] data[at + k] == b[base + at + k]);
    assert(data[at] == data[at + 0]);
    assert(pixel::sample_at(data, at, o.shape.kind, o.shape.bits, o.start.le) == pixel::sample_at(
        b,
        base + at,
        o.shape.kind,
        o.shape.bits,
        o.start.le,
    )) by {
        if o.shape.bits == 64 {
            assert(data[at + 4] == b[base + at + 4] && data[at + 5] == b[base + at + 5]);
            assert(data[at + 4 + 1] == b[base + at + 4 + 1]);
            assert(data[at + 4 + 2] == b[base + at + 4 + 2]);
            assert(data[at + 4 + 3] == b[base + at + 4 + 3]);
            assert(data[at + 1] == b[base + at + 1]);
            assert(data[at + 2] == b[base + at + 2]);
            assert(data[at + 3] == b[base + at + 3]);
        }
        if o.shape.bits == 32 {
            assert(data[at + 1] == b[base + at + 1]);
            assert(data[at + 2] == b[base + at + 2]);
            assert(data[at + 3] == b[base + at + 3]);
        }
        if o.shape.bits == 16 {
            assert(data[at + 1] == b[base + at + 1]);
        }
    }
}

/// There is nothing outside an image.
pub proof fn law_nothing_outside(o: Opened, b: Seq<u8>, col: int, row: int, band: int)
    ensures
        col >= o.shape.width || row >= o.shape.height || band >= o.shape.samples ==> pixel::value_of(
            o,
            b,
            col,
            row,
            band,
        ) is None,
{
}

} // verus!
