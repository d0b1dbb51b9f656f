//! What holds of everything that is read from a recording.

use vstd::prelude::*;

use crate::bytes;
use crate::jsf;
use crate::text;
use crate::time;
use crate::xtf;
use crate::xtf::{Packet, Slot, XtfHeader, XtfPing};

verus! {

// ---- pings -------------------------------------------------------------------------

/// Whether a slot is one of a packet's: its sub-header and its samples lie in the
/// packet, behind the packet's own header.
pub open spec fn slot_inside(s: Slot, p: Seq<u8>) -> bool {
    256 <= s.at && s.at + 64 + s.nsamples * s.width <= p.len()
}

/// Writing the numbers of a ping back, each in its place, gives the bytes of the
/// packet that they were read from.
pub proof fn law_ping_is_written_back(x: XtfPing, p: Seq<u8>, offset: u64, s: Slot)
    requires
        slot_inside(s, p),
        xtf::ping_of(x, p, offset, s),
    ensures
        (x.offset, x.channel, x.nsamples) == (offset, s.channel, s.nsamples),
        bytes::carries(p, 28, bytes::le4(x.ping_number as int)),
        bytes::carries(p, 52, bytes::le8(x.lon_bits as int)),
        bytes::carries(p, 60, bytes::le8(x.lat_bits as int)),
        bytes::carries(p, 72, bytes::le4(x.depth_bits as int)),
        bytes::carries(p, 88, bytes::le4(x.heading_bits as int)),
        bytes::carries(p, 92, bytes::le4(x.pitch_bits as int)),
        bytes::carries(p, 96, bytes::le4(x.roll_bits as int)),
        bytes::carries(p, 100, bytes::le4(x.altitude_bits as int)),
        bytes::carries(p, s.at + 40, bytes::le4(x.slant_range_bits as int)),
{
    assert(s.nsamples * s.width >= 0) by (nonlinear_arith)
        requires
            s.nsamples >= 0,
            s.width >= 0,
    ;
    bytes::law_read_four_bytes(p, 28);
    bytes::law_read_eight_bytes(p, 52);
    bytes::law_read_eight_bytes(p, 60);
    bytes::law_read_four_bytes(p, 72);
    bytes::law_read_four_bytes(p, 88);
    bytes::law_read_four_bytes(p, 92);
    bytes::law_read_four_bytes(p, 96);
    bytes::law_read_four_bytes(p, 100);
    bytes::law_read_four_bytes(p, s.at + 40);
}

/// The numbers of a packet's own header.
pub struct Fix {
    pub ping_number: u32,
    pub lon_bits: u64,
    pub lat_bits: u64,
    pub depth_bits: u32,
    pub heading_bits: u32,
    pub pitch_bits: u32,
    pub roll_bits: u32,
    pub altitude_bits: u32,
}

/// A packet with the numbers of its header written into it.
pub open spec fn with_fix(p: Seq<u8>, f: Fix) -> Seq<u8> {
    let p = bytes::put(p, 28, bytes::le4(f.ping_number as int));
    let p = bytes::put(p, 52, bytes::le8(f.lon_bits as int));
    let p = bytes::put(p, 60, bytes::le8(f.lat_bits as int));
    let p = bytes::put(p, 72, bytes::le4(f.depth_bits as int));
    let p = bytes::put(p, 88, bytes::le4(f.heading_bits as int));
    let p = bytes::put(p, 92, bytes::le4(f.pitch_bits as int));
    let p = bytes::put(p, 96, bytes::le4(f.roll_bits as int));
    bytes::put(p, 100, bytes::le4(f.altitude_bits as int))
}

proof fn lemma_put_keeps(b: Seq<u8>, o: int, x: Seq<u8>, at: int, y: Seq<u8>)
    requires
        0 <= o,
        o + x.len() <= b.len(),
        bytes::carries(b, at, y),
        at + y.len() <= o || o + x.len() <= at,
    ensures
        bytes::carries(bytes::put(b, o, x), at, y),
{
    bytes::law_put(b, o, x);
    let c = bytes::put(b, o, x);
    assert(c.subrange(at, at + y.len()) =~= b.subrange(at, at + y.len()));
}

proof fn lemma_fix_is_there(p: Seq<u8>, f: Fix)
    requires
        p.len() >= 256,
    ensures
        ({
            let q = with_fix(p, f);
            &&& q.len() == p.len()
            &&& bytes::carries(q, 28, bytes::le4(f.ping_number as int))
            &&& bytes::carries(q, 52, bytes::le8(f.lon_bits as int))
            &&& bytes::carries(q, 60, bytes::le8(f.lat_bits as int))
            &&& bytes::carries(q, 72, bytes::le4(f.depth_bits as int))
            &&& bytes::carries(q, 88, bytes::le4(f.heading_bits as int))
            &&& bytes::carries(q, 92, bytes::le4(f.pitch_bits as int))
            &&& bytes::carries(q, 96, bytes::le4(f.roll_bits as int))
            &&& bytes::carries(q, 100, bytes::le4(f.altitude_bits as int))
        }),
{
    let (n, lon, lat) = (
        bytes::le4(f.ping_number as int),
        bytes::le8(f.lon_bits as int),
        bytes::le8(f.lat_bits as int),
    );
    let (d, h) = (bytes::le4(f.depth_bits as int), bytes::le4(f.heading_bits as int));
    let (pi, ro) = (bytes::le4(f.pitch_bits as int), bytes::le4(f.roll_bits as int));
    let al = bytes::le4(f.altitude_bits as int);
    bytes::lemma_le_lens(f.ping_number as int);
    bytes::lemma_le_lens(f.lon_bits as int);
    bytes::lemma_le_lens(f.lat_bits as int);
    bytes::lemma_le_lens(f.depth_bits as int);
    bytes::lemma_le_lens(f.heading_bits as int);
    bytes::lemma_le_lens(f.pitch_bits as int);
    bytes::lemma_le_lens(f.roll_bits as int);
    bytes::lemma_le_lens(f.altitude_bits as int);
    let p1 = bytes::put(p, 28, n);
    bytes::law_put(p, 28, n);
    let p2 = bytes::put(p1, 52, lon);
    bytes::law_put(p1, 52, lon);
    lemma_put_keeps(p1, 52, lon, 28, n);
    let p3 = bytes::put(p2, 60, lat);
    bytes::law_put(p2, 60, lat);
    lemma_put_keeps(p2, 60, lat, 28, n);
    lemma_put_keeps(p2, 60, lat, 52, lon);
    let p4 = bytes::put(p3, 72, d);
    bytes::law_put(p3, 72, d);
    lemma_put_keeps(p3, 72, d, 28, n);
    lemma_put_keeps(p3, 72, d, 52, lon);
    lemma_put_keeps(p3, 72, d, 60, lat);
    let p5 = bytes::put(p4, 88, h);
    bytes::law_put(p4, 88, h);
    lemma_put_keeps(p4, 88, h, 28, n);
    lemma_put_keeps(p4, 88, h, 52, lon);
    lemma_put_keeps(p4, 88, h, 60, lat);
    lemma_put_keeps(p4, 88, h, 72, d);
    let p6 = bytes::put(p5, 92, pi);
    bytes::law_put(p5, 92, pi);
    lemma_put_keeps(p5, 92, pi, 28, n);
    lemma_put_keeps(p5, 92, pi, 52, lon);
    lemma_put_keeps(p5, 92, pi, 60, lat);
    lemma_put_keeps(p5, 92, pi, 72, d);
    lemma_put_keeps(p5, 92, pi, 88, h);
    let p7 = bytes::put(p6, 96, ro);
    bytes::law_put(p6, 96, ro);
    lemma_put_keeps(p6, 96, ro, 28, n);
    lemma_put_keeps(p6, 96, ro, 52, lon);
    lemma_put_keeps(p6, 96, ro, 60, lat);
    lemma_put_keeps(p6, 96, ro, 72, d);
    lemma_put_keeps(p6, 96, ro, 88, h);
    lemma_put_keeps(p6, 96, ro, 92, pi);
    bytes::law_put(p7, 100, al);
    lemma_put_keeps(p7, 100, al, 28, n);
    lemma_put_keeps(p7, 100, al, 52, lon);
    lemma_put_keeps(p7, 100, al, 60, lat);
    lemma_put_keeps(p7, 100, al, 72, d);
    lemma_put_keeps(p7, 100, al, 88, h);
    lemma_put_keeps(p7, 100, al, 92, pi);
    lemma_put_keeps(p7, 100, al, 96, ro);
}

/// The numbers that are written into a packet's header are those of every ping
/// that is read from it.
pub proof fn law_written_fix_is_read(
    p: Seq<u8>,
    f: Fix,
    v: Seq<XtfPing>,
    offset: u64,
    widths: Seq<u8>,
    i: int,
)
    requires
        p.len() >= 256,
        xtf::pings_of(
            v,
            with_fix(p, f),
            offset,
            xtf::packet_slots(with_fix(p, f), widths),
        ),
        0 <= i < v.len(),
    ensures
        v[i].ping_number == f.ping_number,
        v[i].lon_bits == f.lon_bits,
        v[i].lat_bits == f.lat_bits,
        v[i].depth_bits == f.depth_bits,
        v[i].heading_bits == f.heading_bits,
        v[i].pitch_bits == f.pitch_bits,
        v[i].roll_bits == f.roll_bits,
        v[i].altitude_bits == f.altitude_bits,
{
    lemma_fix_is_there(p, f);
    let q = with_fix(p, f);
    bytes::lemma_le_lens(f.ping_number as int);
    bytes::lemma_le_lens(f.lon_bits as int);
    bytes::lemma_le_lens(f.lat_bits as int);
    bytes::lemma_le_lens(f.depth_bits as int);
    bytes::lemma_le_lens(f.heading_bits as int);
    bytes::lemma_le_lens(f.pitch_bits as int);
    bytes::lemma_le_lens(f.roll_bits as int);
    bytes::lemma_le_lens(f.altitude_bits as int);
    bytes::lemma_le4(q, 28, f.ping_number as int);
    bytes::lemma_le8(q, 52, f.lon_bits as int);
    bytes::lemma_le8(q, 60, f.lat_bits as int);
    bytes::lemma_le4(q, 72, f.depth_bits as int);
    bytes::lemma_le4(q, 88, f.heading_bits as int);
    bytes::lemma_le4(q, 92, f.pitch_bits as int);
    bytes::lemma_le4(q, 96, f.roll_bits as int);
    bytes::lemma_le4(q, 100, f.altitude_bits as int);
    assert(xtf::ping_of(v[i], q, offset, xtf::packet_slots(q, widths)[i]));
}

/// Whether two packets differ in no byte but those from `from` up to `to`.
pub open spec fn alike_but(p: Seq<u8>, q: Seq<u8>, from: int, to: int) -> bool {
    &&& p.len() == q.len()
    &&& forall|i: int| 0 <= i < p.len() && !(from <= i < to) ==> p[i] == q[i]
}

/// Whether two pings differ in nothing but where they are.
pub open spec fn alike_but_place(x: XtfPing, y: XtfPing) -> bool {
    &&& (x.offset, x.channel, x.nsamples, x.time) == (y.offset, y.channel, y.nsamples, y.time)
    &&& (x.ping_number, x.depth_bits, x.altitude_bits) == (
        y.ping_number,
        y.depth_bits,
        y.altitude_bits,
    )
    &&& (x.heading_bits, x.pitch_bits, x.roll_bits) == (y.heading_bits, y.pitch_bits, y.roll_bits)
    &&& x.slant_range_bits == y.slant_range_bits
    &&& x.data@ == y.data@
}

/// The longitude of a ping rests on bytes 52 to 59 of the packet and on nothing
/// else, and its latitude on bytes 60 to 67; nothing else of a ping rests on
/// either.
pub proof fn law_place_stands_apart(
    x: XtfPing,
    y: XtfPing,
    p: Seq<u8>,
    q: Seq<u8>,
    offset: u64,
    s: Slot,
)
    requires
        slot_inside(s, p),
        alike_but(p, q, 52, 68),
        xtf::ping_of(x, p, offset, s),
        xtf::ping_of(y, q, offset, s),
    ensures
        alike_but_place(x, y),
        x.lon_bits == y.lon_bits <==> p.subrange(52, 60) == q.subrange(52, 60),
        x.lat_bits == y.lat_bits <==> p.subrange(60, 68) == q.subrange(60, 68),
{
    assert(s.nsamples * s.width >= 0) by (nonlinear_arith)
        requires
            s.nsamples >= 0,
            s.width >= 0,
    ;
    law_ping_is_written_back(x, p, offset, s);
    law_ping_is_written_back(y, q, offset, s);
    bytes::lemma_le_lens(x.lon_bits as int);
    bytes::lemma_le_lens(y.lon_bits as int);
    bytes::lemma_le_lens(x.lat_bits as int);
    bytes::lemma_le_lens(y.lat_bits as int);
    if p.subrange(52, 60) == q.subrange(52, 60) {
        bytes::lemma_le8(p, 52, x.lon_bits as int);
        bytes::lemma_le8(p, 52, y.lon_bits as int);
    }
    if p.subrange(60, 68) == q.subrange(60, 68) {
        bytes::lemma_le8(p, 60, x.lat_bits as int);
        bytes::lemma_le8(p, 60, y.lat_bits as int);
    }
    let (a, b) = (s.at + 64, s.at + 64 + s.nsamples * s.width);
    assert(p.subrange(a, b) =~= q.subrange(a, b));
    assert(xtf::stamp_of(p) == xtf::stamp_of(q));
}

/// A packet is stamped just where its date could be one: the seconds are those of
/// its day at midnight and of the time of day, and the hundredths stand behind.
pub proof fn law_stamp(p: Seq<u8>)
    ensures
        match xtf::stamp_of(p) {
            Some((t, h)) => {
                &&& p.len() >= 22
                &&& h == p[21]
                &&& 1970 <= bytes::u16_at(p, 14, true) <= 2100
                &&& 1 <= p[16] <= 12
                &&& 1 <= p[17] <= 31
                &&& t - 86400 * time::civil_days(
                    bytes::u16_at(p, 14, true),
                    p[16] as int,
                    p[17] as int,
                ) == 60 * (60 * p[18] + p[19]) + p[20]
            },
            None => p.len() < 22 || bytes::u16_at(p, 14, true) < 1970 || bytes::u16_at(p, 14, true)
                > 2100 || p[16] < 1 || p[16] > 12 || p[17] < 1 || p[17] > 31,
        },
{
}

// ---- channels and samples ------------------------------------------------------------

/// A packet's channels follow one another without a gap from byte 256 on: each a
/// sub-header, which names the channel and how many samples it has, and then the
/// samples. There are as many as the packet says, eight at most, unless one does
/// not fit.
pub proof fn law_slots_tile(p: Seq<u8>, at: int, n: int, widths: Seq<u8>)
    requires
        0 <= at,
        0 <= n,
        at <= p.len() <= u64::MAX,
    ensures
        ({
            let v = xtf::slots_from(p, at, n, widths);
            let stop = if v.len() > 0 {
                v.last().at + 64 + v.last().nsamples * v.last().width
            } else {
                at
            };
            &&& v.len() <= n
            &&& v.len() > 0 ==> v[0].at == at
            &&& forall|k: int|
                0 <= k < v.len() ==> {
                    let s = #[trigger] v[k];
                    &&& s.channel == p[s.at + 2]
                    &&& bytes::carries(p, s.at + 8, bytes::le4(s.nsamples as int))
                    &&& s.width >= 1
                    &&& s.channel < widths.len() && widths[s.channel as int] > 0 ==> s.width
                        == widths[s.channel as int]
                    &&& s.channel < widths.len() && widths[s.channel as int] == 0 ==> s.width == 1
                    &&& s.channel >= widths.len() ==> s.width == 2
                    &&& s.at >= at
                    &&& s.at + 64 + s.nsamples * s.width <= p.len()
                }
            &&& forall|k: int, l: int|
                0 <= k && l == k + 1 && l < v.len() ==> (#[trigger] v[l]).at == (
                #[trigger] v[k]).at + 64 + v[k].nsamples * v[k].width
            &&& v.len() < n ==> stop + 64 > p.len() || stop + 64 + bytes::u32_at(p, stop + 8, true)
                * xtf::width_of(widths, p[stop + 2] as int) > p.len()
        }),
    decreases n,
{
    let v = xtf::slots_from(p, at, n, widths);
    if n > 0 && at + 64 <= p.len() {
        bytes::law_read_four_bytes(p, at + 8);
        let ch = bytes::u16_at(p, at + 2, true) % 256;
        assert(ch == p[at + 2]);
        let count = bytes::u32_at(p, at + 8, true);
        let w = xtf::width_of(widths, ch);
        let end = at + 64 + count * w;
        assert(count * w >= 0) by (nonlinear_arith)
            requires
                count >= 0,
                w >= 0,
        ;
        if end <= p.len() {
            law_slots_tile(p, end, n - 1, widths);
            let rest = xtf::slots_from(p, end, n - 1, widths);
            let first = Slot {
                at: at as u64,
                channel: ch as u8,
                nsamples: count as u32,
                width: w as u8,
            };
            assert(v == seq![first] + rest);
            assert(first.nsamples * first.width == count * w);
            assert forall|k: int| 0 <= k < v.len() implies {
                let s = #[trigger] v[k];
                &&& s.channel == p[s.at + 2]
                &&& bytes::carries(p, s.at + 8, bytes::le4(s.nsamples as int))
                &&& s.width >= 1
                &&& s.channel < widths.len() && widths[s.channel as int] > 0 ==> s.width
                    == widths[s.channel as int]
                &&& s.channel < widths.len() && widths[s.channel as int] == 0 ==> s.width == 1
                &&& s.channel >= widths.len() ==> s.width == 2
                &&& s.at >= at
                &&& s.at + 64 + s.nsamples * s.width <= p.len()
            } by {
                if k > 0 {
                    assert(v[k] == rest[k - 1]);
                }
            }
            assert forall|k: int, l: int| 0 <= k && l == k + 1 && l < v.len() implies (
            #[trigger] v[l]).at == (#[trigger] v[k]).at + 64 + v[k].nsamples * v[k].width by {
                assert(v[l] == rest[l - 1]);
                if k > 0 {
                    assert(v[k] == rest[k - 1]);
                }
            }
            if rest.len() > 0 {
                assert(v.last() == rest.last());
            }
        }
    }
}

/// The channels of a packet: from byte 256 on, as many as byte 9 says, eight at
/// most.
pub proof fn law_packet_slots(p: Seq<u8>, widths: Seq<u8>, n: int)
    requires
        n <= p[9],
        n <= 8,
        n == p[9] || n == 8,
    ensures
        xtf::packet_slots(p, widths) == xtf::slots_from(p, 256, n, widths),
{
}

/// Every sample of a channel of one, two or four bytes a sample is read, and is
/// what is stored in its place behind the sub-header; of other widths none is.
pub proof fn law_samples_are_written_back(x: XtfPing, p: Seq<u8>, offset: u64, s: Slot, i: int)
    requires
        slot_inside(s, p),
        xtf::ping_of(x, p, offset, s),
        0 <= i < x.nsamples,
    ensures
        s.width == 1 || s.width == 2 || s.width == 4 ==> x.data@.len() == x.nsamples,
        s.width != 1 && s.width != 2 && s.width != 4 ==> x.data@.len() == 0,
        s.width == 1 ==> p[s.at + 64 + i] == x.data@[i],
        s.width == 2 ==> bytes::carries(p, s.at + 64 + 2 * i, bytes::le2(x.data@[i] as int)),
        s.width == 4 ==> bytes::carries(p, s.at + 64 + 4 * i, bytes::le4(x.data@[i] as int)),
{
    let a = s.at + 64;
    let raw = p.subrange(a, a + s.nsamples * s.width);
    if s.width == 1 {
        assert(raw[i] == p[a + i]);
    } else if s.width == 2 {
        let o = 2 * i;
        assert(raw[o] == p[a + o] && raw[o + 1] == p[a + o + 1]);
        bytes::law_read_two_bytes(p, a + o);
    } else if s.width == 4 {
        let o = 4 * i;
        assert(raw[o] == p[a + o] && raw[o + 1] == p[a + o + 1]);
        assert(raw[o + 2] == p[a + o + 2] && raw[o + 3] == p[a + o + 3]);
        bytes::law_read_four_bytes(p, a + o);
    }
}

// ---- packets -------------------------------------------------------------------------

/// Whether the magic number stands at `i`.
pub open spec fn is_magic(b: Seq<u8>, i: int) -> bool {
    0 <= i && i + 2 <= b.len() && b[i] == 0xCE && b[i + 1] == 0xFA
}

proof fn lemma_next_magic(b: Seq<u8>, at: int)
    requires
        0 <= at <= b.len(),
    ensures
        at <= xtf::next_magic(b, at) <= b.len(),
        xtf::next_magic(b, at) < b.len() ==> is_magic(b, xtf::next_magic(b, at)),
        forall|i: int| at <= i < xtf::next_magic(b, at) ==> !#[trigger] is_magic(b, i),
    decreases b.len() - at,
{
    if at + 2 <= b.len() && !is_magic(b, at) {
        lemma_next_magic(b, at + 1);
    }
}

/// Packets start with the magic number and are as long as they say; between one
/// and the next no magic number is passed over, and their type stands behind it.
/// The packets end where no magic number is left, or where one stands so close to
/// the end of the file, or says a length, that there is no packet behind it.
#[verifier::rlimit(60)]
pub proof fn law_packets_follow(b: Seq<u8>, at: int)
    requires
        0 <= at <= b.len(),
        b.len() <= u64::MAX,
    ensures
        ({
            let v = xtf::packets_from(b, at);
            let stop = if v.len() > 0 {
                v.last().end as int
            } else {
                at
            };
            &&& forall|k: int|
                0 <= k < v.len() ==> {
                    let p = #[trigger] v[k];
                    &&& at <= p.start
                    &&& is_magic(b, p.start as int)
                    &&& p.htype == b[p.start + 2]
                    &&& bytes::carries(b, p.start + 10, bytes::le4(p.end - p.start))
                    &&& p.end - p.start >= 14
                    &&& p.end <= b.len()
                }
            &&& forall|k: int, i: int|
                0 <= k < v.len() && (if k == 0 {
                    at
                } else {
                    v[k - 1].end as int
                }) <= i < (#[trigger] v[k]).start ==> !#[trigger] is_magic(b, i)
            &&& forall|k: int, l: int|
                0 <= k && l == k + 1 && l < v.len() ==> (#[trigger] v[k]).end <= (
                #[trigger] v[l]).start
            &&& forall|i: int|
                stop <= i && i + 14 <= b.len() && #[trigger] is_magic(b, i) ==> exists|j: int|
                    stop <= j <= i && #[trigger] is_magic(b, j) && (bytes::u32_at(b, j + 10, true)
                        < 14 || j + bytes::u32_at(b, j + 10, true) > b.len())
        }),
    decreases b.len() - at,
{
    let v = xtf::packets_from(b, at);
    lemma_next_magic(b, at);
    if at + 14 <= b.len() {
        bytes::law_read_four_bytes(b, at + 10);
        assert(bytes::u16_at(b, at, true) == xtf::MAGIC <==> is_magic(b, at));
        if !is_magic(b, at) {
            let next = xtf::next_magic(b, at);
            if next > at && next < b.len() {
                law_packets_follow(b, next);
                assert forall|k: int, i: int|
                    0 <= k < v.len() && (if k == 0 {
                        at
                    } else {
                        v[k - 1].end as int
                    }) <= i < (#[trigger] v[k]).start implies !#[trigger] is_magic(b, i) by {}
            }
        } else {
            let n = bytes::u32_at(b, at + 10, true);
            if n >= 14 && at + n <= b.len() {
                law_packets_follow(b, at + n);
                let rest = xtf::packets_from(b, at + n);
                let first = Packet { start: at as u64, end: (at + n) as u64, htype: b[at + 2] };
                assert(v == seq![first] + rest);
                assert forall|k: int| 0 <= k < v.len() implies {
                    let p = #[trigger] v[k];
                    &&& at <= p.start
                    &&& is_magic(b, p.start as int)
                    &&& p.htype == b[p.start + 2]
                    &&& bytes::carries(b, p.start + 10, bytes::le4(p.end - p.start))
                    &&& p.end - p.start >= 14
                    &&& p.end <= b.len()
                } by {
                    if k > 0 {
                        assert(v[k] == rest[k - 1]);
                    }
                }
                assert forall|k: int, i: int|
                    0 <= k < v.len() && (if k == 0 {
                        at
                    } else {
                        v[k - 1].end as int
                    }) <= i < (#[trigger] v[k]).start implies !#[trigger] is_magic(b, i) by {
                    if k > 0 {
                        assert(v[k] == rest[k - 1]);
                        if k > 1 {
                            assert(v[k - 1] == rest[k - 2]);
                        }
                    }
                }
                assert forall|k: int, l: int|
                    0 <= k && l == k + 1 && l < v.len() implies (#[trigger] v[k]).end <= (
                #[trigger] v[l]).start by {
                    assert(v[l] == rest[l - 1]);
                    if k > 0 {
                        assert(v[k] == rest[k - 1]);
                    }
                }
                if rest.len() > 0 {
                    assert(v.last() == rest.last());
                }
            } else {
                assert(is_magic(b, at));
            }
        }
    }
}

/// Six channels are described in the file's header of 1024 bytes; every one
/// beyond them pushes the packets back by 128 bytes.
pub proof fn law_packets_start(n: int)
    requires
        0 <= n,
    ensures
        n <= 6 ==> xtf::packets_start(n) == 1024,
        n > 6 ==> xtf::packets_start(n) == xtf::packets_start(n - 1) + 128,
{
}

/// The channels of packets come in the order of the packets.
pub proof fn law_traces_in_order(
    b: Seq<u8>,
    before: Seq<Packet>,
    after: Seq<Packet>,
    widths: Seq<u8>,
)
    ensures
        xtf::traces(b, before + after, widths) == xtf::traces(b, before, widths) + xtf::traces(
            b,
            after,
            widths,
        ),
    decreases after.len(),
{
    if after.len() == 0 {
        assert(before + after =~= before);
        assert(xtf::traces(b, before, widths) + xtf::traces(b, after, widths) =~= xtf::traces(
            b,
            before,
            widths,
        ));
    } else {
        law_traces_in_order(b, before, after.drop_last(), widths);
        assert((before + after).drop_last() =~= before + after.drop_last());
        assert(xtf::traces(b, before + after, widths) =~= xtf::traces(b, before, widths)
            + xtf::traces(b, after, widths));
    }
}

/// A packet of sidescan data, which is type zero, has all its channels among the
/// traces; a packet of another type has none.
pub proof fn law_one_packet(b: Seq<u8>, p: Packet, widths: Seq<u8>)
    ensures
        ({
            let v = xtf::traces(b, seq![p], widths);
            let slots = xtf::packet_slots(b.subrange(p.start as int, p.end as int), widths);
            &&& p.htype == 0 ==> v.len() == slots.len()
            &&& p.htype != 0 ==> v.len() == 0
            &&& forall|i: int| 0 <= i < v.len() ==> #[trigger] v[i] == (p, slots[i])
        }),
{
    assert(seq![p].drop_last() =~= Seq::<Packet>::empty());
    assert(xtf::traces(b, Seq::<Packet>::empty(), widths) =~= Seq::<(Packet, Slot)>::empty());
}

// ---- the file's header -----------------------------------------------------------------

/// Writing the numbers of a file's header back, each in its place, gives the bytes
/// that they were read from.
pub proof fn law_header_is_written_back(h: XtfHeader, b: Seq<u8>)
    requires
        b.len() >= 1024,
        xtf::header_of(h, b),
    ensures
        bytes::carries(b, 46, bytes::le2(h.sonar_type as int)),
        bytes::carries(b, 74, bytes::le4(h.nav_offset_y_bits as int)),
        bytes::carries(b, 78, bytes::le4(h.nav_offset_x_bits as int)),
        bytes::carries(b, 166, bytes::le2(h.n_channels - bytes::u16_at(b, 168, true))),
        h.channels@.len() <= h.n_channels,
        h.channels@.len() <= 16,
        h.channels@.len() < h.n_channels && h.channels@.len() < 16 ==> b.len() < 256 + 128 * (
        h.channels@.len() + 1),
        256 + 128 * h.channels@.len() <= b.len(),
{
    bytes::law_read_two_bytes(b, 46);
    bytes::law_read_four_bytes(b, 74);
    bytes::law_read_four_bytes(b, 78);
    bytes::law_read_two_bytes(b, 166);
    bytes::law_read_two_bytes(b, 168);
}

/// Channel `i` is described in 128 bytes of its own, behind the descriptions of
/// those before it: its width, brought into one to eight, its name and its
/// frequency.
pub proof fn law_channel_is_written_back(h: XtfHeader, b: Seq<u8>, i: int)
    requires
        b.len() >= 1024,
        xtf::header_of(h, b),
        0 <= i < h.channels@.len(),
    ensures
        ({
            let c = h.channels@[i];
            let o = 256 + 128 * i;
            &&& 1 <= c.bytes_per_sample <= 8
            &&& 1 <= bytes::u16_at(b, o + 6, true) <= 8 ==> bytes::carries(
                b,
                o + 6,
                bytes::le2(c.bytes_per_sample as int),
            )
            &&& bytes::u16_at(b, o + 6, true) == 0 ==> c.bytes_per_sample == 1
            &&& bytes::u16_at(b, o + 6, true) > 8 ==> c.bytes_per_sample == 8
            &&& bytes::carries(b, o + 32, bytes::le4(c.frequency_bits as int))
        }),
{
    law_header_is_written_back(h, b);
    let o = 256 + 128 * i;
    assert(xtf::channel_of(h.channels@[i], b, i));
    bytes::law_read_two_bytes(b, o + 6);
    bytes::law_read_four_bytes(b, o + 32);
}

/// Text in a field is what stands before the first zero, without white space
/// around it.
pub proof fn law_field_text(b: Seq<u8>, from: int, to: int, n: int)
    requires
        0 <= from <= n <= to <= b.len(),
        n < to ==> b[n] == 0,
        forall|i: int| from <= i < n ==> b[i] != 0,
    ensures
        xtf::field_text(b, from, to) == text::trimmed(text::lossy_text(b.subrange(from, n))),
{
    let all = b.subrange(from, to);
    jsf::law::law_text_ends_at_zero(all);
    let u = jsf::up_to_zero(all);
    let k = n - from;
    if u.len() > k {
        assert(all[k] == b[n]);
        assert(u[k] == 0 && u.contains(u[k]));
    }
    if u.len() < k {
        assert(all[u.len() as int] == b[from + u.len()]);
    }
    assert(u =~= b.subrange(from, n));
}

/// What a file and its channels are called stands in their fields of text: eight
/// bytes for the program, and sixteen for the sonar and for each channel.
pub proof fn law_header_names(h: XtfHeader, b: Seq<u8>, i: int, program: int, sonar: int, name: int)
    requires
        b.len() >= 1024,
        xtf::header_of(h, b),
        0 <= i < h.channels@.len(),
        6 <= program <= 14 && (program < 14 ==> b[program] == 0),
        forall|k: int| 6 <= k < program ==> b[k] != 0,
        30 <= sonar <= 46 && (sonar < 46 ==> b[sonar] == 0),
        forall|k: int| 30 <= k < sonar ==> b[k] != 0,
        268 + 128 * i <= name <= 284 + 128 * i && (name < 284 + 128 * i ==> b[name] == 0),
        forall|k: int| 268 + 128 * i <= k < name ==> b[k] != 0,
    ensures
        h.recording_program@ == text::trimmed(text::lossy_text(b.subrange(6, program))),
        h.sonar_name@ == text::trimmed(text::lossy_text(b.subrange(30, sonar))),
        h.channels@[i].name@ == text::trimmed(
            text::lossy_text(b.subrange(268 + 128 * i, name)),
        ),
{
    law_header_is_written_back(h, b);
    assert(xtf::channel_of(h.channels@[i], b, i));
    law_field_text(b, 6, 14, program);
    law_field_text(b, 30, 46, sonar);
    law_field_text(b, 268 + 128 * i, 284 + 128 * i, name);
}

} // verus!
