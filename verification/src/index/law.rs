//! What holds of every index.

use vstd::prelude::*;

use crate::bytes;
use crate::index;
use crate::index::record;
use crate::index::table;
use crate::index::table::Bounds;
use crate::index::PingRecord;
use crate::jsf;
use crate::jsf::{Message, MessageHeader, Ping};
use crate::order;
use crate::xtf::XtfPing;

verus! {

/// A record is 88 bytes, each of its fields in its place.
pub proof fn law_record_layout(r: PingRecord)
    ensures
        ({
            let b = index::all_bytes(seq![r]);
            &&& b.len() == 88
            &&& bytes::carries(b, 0, bytes::le8(r.time as int))
            &&& bytes::carries(b, 8, bytes::le8(r.lat as int))
            &&& bytes::carries(b, 16, bytes::le8(r.lon as int))
            &&& bytes::carries(b, 24, bytes::le8(r.offset as int))
            &&& bytes::carries(b, 32, bytes::le4(r.ping as int))
            &&& bytes::carries(b, 36, bytes::le4(r.interval_ns as int))
            &&& bytes::carries(b, 40, bytes::le4(r.heading as int))
            &&& bytes::carries(b, 44, bytes::le4(r.depth as int))
            &&& bytes::carries(b, 48, bytes::le4(r.altitude as int))
            &&& bytes::carries(b, 52, bytes::le4(r.pitch as int))
            &&& bytes::carries(b, 56, bytes::le4(r.roll as int))
            &&& bytes::carries(b, 60, bytes::le4(r.f0 as int))
            &&& bytes::carries(b, 64, bytes::le4(r.f1 as int))
            &&& bytes::carries(b, 68, bytes::le2(r.nsamples as int))
            &&& bytes::carries(b, 70, bytes::le2(r.validity as int))
            &&& bytes::carries(b, 72, bytes::le2(r.file_id as int))
            &&& b[74] == r.subsystem
            &&& b[75] == r.channel
            &&& (b[76] - r.weight) % 256 == 0
            &&& (b[77] - r.fmt) % 256 == 0
        }),
{
    let b = index::all_bytes(seq![r]);
    index::law_records_round_trip(seq![r]);
    assert(index::all_records(b)[0] == seq![r][0]);
    reveal(index::record_at);
    assert(index::record_at(b, 0) == r);
    bytes::law_read_eight_bytes(b, 0);
    bytes::law_read_eight_bytes(b, 8);
    bytes::law_read_eight_bytes(b, 16);
    bytes::law_read_eight_bytes(b, 24);
    bytes::law_read_four_bytes(b, 32);
    bytes::law_read_four_bytes(b, 36);
    bytes::law_read_four_bytes(b, 40);
    bytes::law_read_four_bytes(b, 44);
    bytes::law_read_four_bytes(b, 48);
    bytes::law_read_four_bytes(b, 52);
    bytes::law_read_four_bytes(b, 56);
    bytes::law_read_four_bytes(b, 60);
    bytes::law_read_four_bytes(b, 64);
    bytes::law_read_two_bytes(b, 68);
    bytes::law_read_two_bytes(b, 70);
    bytes::law_read_two_bytes(b, 72);
}

/// What the index keeps of a sonar message is what the ping read from it has.
pub proof fn law_index_agrees_with_ping(p: Ping, h: MessageHeader, b: Seq<u8>, file_id: u16)
    requires
        jsf::ping_readable(b),
        jsf::ping_of(p, h, b),
    ensures
        record::raw_record(h, b, file_id) matches Some(r) && {
            &&& r.secs == p.unix_time
            &&& r.millis == p.millis_today % 1000
            &&& r.arc_minutes == (p.coord_units == 2)
            &&& (r.lat, r.lon) == (p.latitude, p.longitude)
            &&& (r.offset, r.subsystem, r.channel) == (p.offset, p.subsystem, p.channel)
            &&& r.ping == p.ping_number
            &&& r.interval_ns == p.sample_interval_ns
            &&& (r.heading, r.pitch, r.roll) == (p.heading, p.pitch, p.roll)
            &&& (r.depth, r.altitude) == (p.depth_mm, p.altitude_mm)
            &&& (r.sweep_start, r.sweep_end) == (p.start_freq, p.end_freq)
            &&& r.nsamples == p.nsamples
            &&& r.validity == p.validity
            &&& r.file_id == file_id
            &&& (r.weight - p.weighting_factor) % 256 == 0
            &&& (r.fmt - p.data_format) % 256 == 0
        },
{
    bytes::law_read_two_bytes(b, 168);
    bytes::law_read_two_bytes(b, 34);
}

/// The records of messages come in the order of the messages.
pub proof fn law_records_in_order(
    b: Seq<u8>,
    before: Seq<Message>,
    after: Seq<Message>,
    file_id: u16,
)
    ensures
        record::raw_records(b, before + after, file_id) == record::raw_records(b, before, file_id)
            + record::raw_records(b, after, file_id),
    decreases after.len(),
{
    if after.len() == 0 {
        assert(before + after =~= before);
        assert(record::raw_records(b, before, file_id) + record::raw_records(b, after, file_id)
            =~= record::raw_records(b, before, file_id));
    } else {
        law_records_in_order(b, before, after.drop_last(), file_id);
        assert((before + after).drop_last() =~= before + after.drop_last());
        assert(record::raw_records(b, before + after, file_id) =~= record::raw_records(
            b,
            before,
            file_id,
        ) + record::raw_records(b, after, file_id));
    }
}

/// A message is indexed just where it is of type 80 and long enough for the header
/// of sonar data.
pub proof fn law_one_record(b: Seq<u8>, m: Message, file_id: u16)
    requires
        m.start <= m.end <= b.len(),
    ensures
        record::raw_records(b, seq![m], file_id).len() == (if m.hdr.mtype == 80 && m.end - m.start
            >= 240 {
            1nat
        } else {
            0
        }),
        record::raw_records(b, seq![m], file_id).len() == 1 ==> Some(
            record::raw_records(b, seq![m], file_id)[0],
        ) == record::raw_record(m.hdr, b.subrange(m.start as int, m.end as int), file_id),
{
    assert(seq![m].drop_last() =~= Seq::<Message>::empty());
    assert(record::raw_records(b, Seq::<Message>::empty(), file_id).len() == 0);
}

/// A ping of the other format is marked with what it has: an altitude above zero,
/// a position, a heading.
pub proof fn law_marks_tell_what_is_there(p: XtfPing)
    ensures
        0 <= record::plausible(p) < 65536,
        jsf::flagged(record::plausible(p) as u16, 64) <==> order::above_zero32(p.altitude_bits),
        jsf::flagged(record::plausible(p) as u16, 1) <==> order::finite64(p.lat_bits)
            && order::finite64(p.lon_bits),
        jsf::flagged(record::plausible(p) as u16, 8) <==> order::finite32(p.heading_bits),
{
}

// ---- what is picked out ------------------------------------------------------------------

/// The records of a channel are listed in the order that they stand in, each
/// once, and no other is.
pub proof fn law_positions(rs: Seq<PingRecord>, s: u8, channel: Option<u8>)
    requires
        rs.len() <= u32::MAX,
    ensures
        ({
            let v = table::positions(rs, s, channel);
            &&& forall|i: int, j: int|
                0 <= i < j < v.len() ==> #[trigger] v[i] < #[trigger] v[j]
            &&& forall|i: int| 0 <= i < v.len() ==> #[trigger] v[i] < rs.len()
            &&& forall|k: u32| #[trigger]
                v.contains(k) <==> k < rs.len() && rs[k as int].subsystem == s && (channel is None
                    || channel == Some(rs[k as int].channel))
        }),
    decreases rs.len(),
{
    let v = table::positions(rs, s, channel);
    if rs.len() > 0 {
        let r = rs.drop_last();
        law_positions(r, s, channel);
        let w = table::positions(r, s, channel);
        assert forall|k: u32| #[trigger] v.contains(k) <==> k < rs.len() && rs[k as int].subsystem
            == s && (channel is None || channel == Some(rs[k as int].channel)) by {
            if v.contains(k) {
                let i = choose|i: int| 0 <= i < v.len() && v[i] == k;
                if i < w.len() {
                    assert(w[i] == k);
                    assert(w.contains(k));
                }
            }
            if w.contains(k) {
                let i = choose|i: int| 0 <= i < w.len() && w[i] == k;
                assert(v[i] == k);
            }
            if k == rs.len() - 1 && v.len() > w.len() {
                assert(v[w.len() as int] == k);
            }
        }
    }
}

/// Counting the pings of a subsystem is keeping those that are of it.
pub proof fn law_pings_counted(rs: Seq<PingRecord>, s: u8)
    ensures
        table::pings_of(rs, s) == rs.filter(|r: PingRecord| r.subsystem == s).len(),
    decreases rs.len(),
{
    reveal(Seq::filter);
    if rs.len() > 0 {
        law_pings_counted(rs.drop_last(), s);
    }
}

/// The sweeps of a subsystem are those of its records that start above zero, as
/// they stand.
pub proof fn law_sweeps_told(rs: Seq<PingRecord>, s: u8)
    ensures
        table::sweeps(rs, s) == rs.filter(
            |r: PingRecord| r.subsystem == s && order::above_zero32(r.f0),
        ).map_values(|r: PingRecord| (r.f0, r.f1)),
    decreases rs.len(),
{
    reveal(Seq::filter);
    let keep = |r: PingRecord| r.subsystem == s && order::above_zero32(r.f0);
    let f = |r: PingRecord| (r.f0, r.f1);
    if rs.len() > 0 {
        law_sweeps_told(rs.drop_last(), s);
        assert(table::sweeps(rs, s) =~= rs.filter(keep).map_values(f));
    } else {
        assert(table::sweeps(rs, s) =~= rs.filter(keep).map_values(f));
    }
}

/// The records of files come in the order of the files, and all of them do.
pub proof fn law_joined(before: Seq<table::Part>, p: table::Part)
    ensures
        table::joined(seq![p]) == p.records@,
        table::joined(before.push(p)) == table::joined(before) + table::joined(seq![p]),
        table::warned(seq![p]) == (match p.warning {
            Some(w) => seq![w@],
            None => Seq::empty(),
        }),
        table::warned(before.push(p)) == table::warned(before) + table::warned(seq![p]),
{
    assert(seq![p].drop_last() =~= Seq::<table::Part>::empty());
    assert(table::joined(Seq::<table::Part>::empty()) =~= Seq::<PingRecord>::empty());
    assert(table::joined(seq![p]) =~= p.records@);
    assert(before.push(p).drop_last() =~= before);
    assert(table::warned(Seq::<table::Part>::empty()) =~= Seq::<Seq<char>>::empty());
    assert(table::warned(seq![p]) =~= (match p.warning {
        Some(w) => seq![w@],
        None => Seq::empty(),
    }));
    assert(table::warned(before.push(p)) =~= table::warned(before) + table::warned(seq![p]));
}

// ---- bounds --------------------------------------------------------------------------------

/// Whether an edge is one of some records', or that of nothing.
spec fn edges_from(b: Bounds, rs: Seq<PingRecord>) -> bool {
    &&& b.min_lat == table::INFINITY || exists|i: int|
        0 <= i < rs.len() && table::placed(#[trigger] rs[i]) && rs[i].lat == b.min_lat
    &&& b.max_lat == table::NEG_INFINITY || exists|i: int|
        0 <= i < rs.len() && table::placed(#[trigger] rs[i]) && rs[i].lat == b.max_lat
    &&& b.min_lon == table::INFINITY || exists|i: int|
        0 <= i < rs.len() && table::placed(#[trigger] rs[i]) && rs[i].lon == b.min_lon
    &&& b.max_lon == table::NEG_INFINITY || exists|i: int|
        0 <= i < rs.len() && table::placed(#[trigger] rs[i]) && rs[i].lon == b.max_lon
}

/// The bounds of records hold every record that has a position, and each of their
/// edges is the latitude or the longitude of one of them.
pub proof fn law_bounds(rs: Seq<PingRecord>, i: int)
    requires
        0 <= i < rs.len(),
        table::placed(rs[i]),
    ensures
        ({
            let b = table::bounds_of(rs);
            &&& !order::less64(rs[i].lat, b.min_lat) && !order::less64(b.max_lat, rs[i].lat)
            &&& !order::less64(rs[i].lon, b.min_lon) && !order::less64(b.max_lon, rs[i].lon)
            &&& exists|k: int| 0 <= k < rs.len() && (#[trigger] rs[k]).lat == b.min_lat
            &&& exists|k: int| 0 <= k < rs.len() && (#[trigger] rs[k]).lat == b.max_lat
            &&& exists|k: int| 0 <= k < rs.len() && (#[trigger] rs[k]).lon == b.min_lon
            &&& exists|k: int| 0 <= k < rs.len() && (#[trigger] rs[k]).lon == b.max_lon
        }),
{
    lemma_bounds(rs);
    let b = table::bounds_of(rs);
    assert(order::finite64(rs[i].lat) && order::finite64(rs[i].lon));
}

proof fn lemma_bounds(rs: Seq<PingRecord>)
    ensures
        ({
            let b = table::bounds_of(rs);
            &&& !order::nan64(b.min_lat) && !order::nan64(b.max_lat)
            &&& !order::nan64(b.min_lon) && !order::nan64(b.max_lon)
            &&& forall|i: int|
                0 <= i < rs.len() && table::placed(#[trigger] rs[i]) ==> {
                    &&& order::value_key(b.min_lat) <= order::value_key(rs[i].lat)
                        <= order::value_key(b.max_lat)
                    &&& order::value_key(b.min_lon) <= order::value_key(rs[i].lon)
                        <= order::value_key(b.max_lon)
                }
            &&& edges_from(b, rs)
        }),
    decreases rs.len(),
{
    if rs.len() > 0 {
        let r = rs.drop_last();
        lemma_bounds(r);
        let (a, b) = (table::bounds_of(r), table::bounds_of(rs));
        let z = rs.last();
        let n = rs.len() - 1;
        assert(rs[n] == z);
        assert forall|i: int| 0 <= i < n implies #[trigger] rs[i] == r[i] by {}
        assert forall|i: int| 0 <= i < rs.len() && table::placed(#[trigger] rs[i]) implies {
            &&& order::value_key(b.min_lat) <= order::value_key(rs[i].lat) <= order::value_key(
                b.max_lat,
            )
            &&& order::value_key(b.min_lon) <= order::value_key(rs[i].lon) <= order::value_key(
                b.max_lon,
            )
        } by {
            if i < n {
                assert(table::placed(r[i]));
            }
        }
        lemma_edges(r, rs, a);
        if table::placed(z) {
            assert(b.min_lat == a.min_lat || b.min_lat == z.lat);
            assert(b.max_lat == a.max_lat || b.max_lat == z.lat);
            assert(b.min_lon == a.min_lon || b.min_lon == z.lon);
            assert(b.max_lon == a.max_lon || b.max_lon == z.lon);
        }
    }
}

proof fn lemma_edges(r: Seq<PingRecord>, rs: Seq<PingRecord>, a: Bounds)
    requires
        rs.len() > 0,
        r == rs.drop_last(),
        edges_from(a, r),
    ensures
        edges_from(a, rs),
{
    assert forall|i: int| 0 <= i < r.len() implies #[trigger] r[i] == rs[i] by {}
}

/// The sweep of a band is the middle one of those told: as many start no higher as
/// start no lower, but for one.
pub proof fn law_middle_sweep(f: Seq<(u32, u32)>, x: (u32, u32))
    requires
        f.len() > 0,
        table::middle_sweep(f, x),
    ensures
        f.contains(x),
        exists|p: Seq<usize>, k: int|
            #![trigger p[k]]
            order::is_order(table::sweep_keys(f), p) && 0 <= k < p.len() && p.len() == f.len() && 2
                * k <= f.len() <= 2 * k + 1 && f[p[k] as int] == x,
{
    let p = choose|p: Seq<usize>|
        #![trigger order::is_order(table::sweep_keys(f), p)]
        order::is_order(table::sweep_keys(f), p) && x == f[p[(f.len() / 2) as int] as int];
    let k = (f.len() / 2) as int;
    assert(f[p[k] as int] == x);
}

/// A position is placed if it is a number on both axes and is not the origin.
pub proof fn law_placed(r: PingRecord)
    ensures
        table::placed(r) ==> order::finite64(r.lat) && order::finite64(r.lon),
        r.lat == 0 && r.lon == 0 ==> !table::placed(r),
        order::nan64(r.lat) || order::nan64(r.lon) ==> !table::placed(r),
{
}

} // verus!
