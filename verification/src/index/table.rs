//! The index of a whole survey.

use vstd::prelude::*;

use crate::index::PingRecord;
use crate::order;
use crate::order::{
    greater64, is_above_zero32, is_finite64, is_less64, lesser64, sort_order, total_order_key,
};
use crate::text::push_str;

verus! {

#[derive(Debug)]
pub struct IndexHeader {
    pub version: u32,
    pub files: Vec<String>,
    pub count: usize,
    /// Set when a file stopped early, so that a short survey is not shown in
    /// silence.
    pub warnings: Vec<String>,
}

#[derive(Debug)]
pub struct PingIndex {
    pub header: IndexHeader,
    pub records: Vec<PingRecord>,
}

/// What one file gave: its records, and a warning where it stopped early.
#[derive(Debug)]
pub struct Part {
    pub records: Vec<PingRecord>,
    pub warning: Option<String>,
}

/// The records of all files, one file after the other.
pub open spec fn joined(parts: Seq<Part>) -> Seq<PingRecord>
    decreases parts.len(),
{
    if parts.len() == 0 {
        Seq::empty()
    } else {
        joined(parts.drop_last()) + parts.last().records@
    }
}

/// The warnings of all files.
pub open spec fn warned(parts: Seq<Part>) -> Seq<Seq<char>>
    decreases parts.len(),
{
    if parts.len() == 0 {
        Seq::empty()
    } else {
        match parts.last().warning {
            Some(w) => warned(parts.drop_last()).push(w@),
            None => warned(parts.drop_last()),
        }
    }
}

pub open spec fn views(v: Seq<String>) -> Seq<Seq<char>> {
    v.map_values(|s: String| s@)
}

/// Records by the time they were made, as a stable sort compares it.
pub open spec fn time_keys(rs: Seq<PingRecord>) -> Seq<i64> {
    rs.map_values(|r: PingRecord| order::total_key(r.time) as i64)
}

/// Whether `out` is `rs` put in order of time, stably.
pub open spec fn in_time_order(rs: Seq<PingRecord>, out: Seq<PingRecord>) -> bool {
    exists|p: Seq<usize>|
        #![trigger order::is_order(time_keys(rs), p)]
        order::is_order(time_keys(rs), p) && out == p.map_values(|i: usize| rs[i as int])
}

/// A number that stands for a channel: subsystems first, channels within them.
pub open spec fn channel_key(r: PingRecord) -> u16 {
    (r.subsystem * 256 + r.channel) as u16
}

/// Whether numbers are those that occur in `all`, each once, ascending.
pub open spec fn distinct_of(v: Seq<u16>, all: Seq<u16>) -> bool {
    &&& forall|i: int, j: int| 0 <= i < j < v.len() ==> #[trigger] v[i] < #[trigger] v[j]
    &&& forall|k: u16| v.contains(k) <==> all.contains(k)
}

fn distinct(all: &Vec<u16>) -> (v: Vec<u16>)
    ensures
        distinct_of(v@, all@),
{
    let mut seen: Vec<bool> = Vec::new();
    let mut i: usize = 0;
    while i < 65536
        invariant
            i <= 65536,
            seen@.len() == i,
            forall|k: int| 0 <= k < i ==> !#[trigger] seen@[k],
        decreases 65536 - i,
    {
        seen.push(false);
        i += 1;
    }
    i = 0;
    while i < all.len()
        invariant
            i <= all@.len(),
            seen@.len() == 65536,
            forall|k: int| 0 <= k < 65536 ==> #[trigger] seen@[k] == all@.take(i as int).contains(k as u16),
        decreases all.len() - i,
    {
        let x: u16 = all[i];
        let ghost was = seen@;
        seen.set(x as usize, true);
        i += 1;
        proof {
            assert forall|k: int| 0 <= k < 65536 implies #[trigger] seen@[k] == all@.take(
                i as int,
            ).contains(k as u16) by {
                let t = all@.take(i - 1);
                let u = all@.take(i as int);
                assert(u =~= t.push(x));
                if k == x {
                    assert(u[i - 1] == x);
                } else {
                    assert(was[k] == t.contains(k as u16));
                    if t.contains(k as u16) {
                        let m = choose|m: int| 0 <= m < t.len() && t[m] == k as u16;
                        assert(u[m] == k as u16);
                    }
                    if u.contains(k as u16) {
                        let m = choose|m: int| 0 <= m < u.len() && u[m] == k as u16;
                        assert(t[m] == k as u16);
                    }
                }
            }
        }
    }
    proof {
        assert(all@.take(all@.len() as int) =~= all@);
    }
    let mut v: Vec<u16> = Vec::new();
    let mut n: u32 = 0;
    while n < 65536
        invariant
            n <= 65536,
            seen@.len() == 65536,
            forall|k: int| 0 <= k < 65536 ==> #[trigger] seen@[k] == all@.contains(k as u16),
            forall|a: int, b: int| 0 <= a < b < v@.len() ==> #[trigger] v@[a] < #[trigger] v@[b],
            forall|a: int| 0 <= a < v@.len() ==> #[trigger] v@[a] < n,
            forall|k: u16| v@.contains(k) <==> (k < n && all@.contains(k)),
        decreases 65536 - n,
    {
        let ghost was = v@;
        if seen[n as usize] {
            v.push(n as u16);
        }
        proof {
            assert(seen@[n as int] == all@.contains(n as u16));
            assert forall|k: u16| v@.contains(k) <==> (k < n + 1 && all@.contains(k)) by {
                if was.contains(k) {
                    let m = choose|m: int| 0 <= m < was.len() && was[m] == k;
                    assert(v@[m] == k);
                }
                if v@.contains(k) && !was.contains(k) {
                    let m = choose|m: int| 0 <= m < v@.len() && v@[m] == k;
                    assert(m == was.len());
                }
                if k == n && seen@[n as int] {
                    assert(v@[was.len() as int] == k);
                }
            }
        }
        n += 1;
    }
    v
}

/// One subsystem and the chirp it transmits.
#[derive(Clone, Copy, Debug, PartialEq, Eq, Structural)]
pub struct Band {
    pub subsystem: u8,
    /// Start and end of the sweep as recorded: bits of single-precision
    /// numbers, in hertz. Zero when the format does not carry them.
    pub f0: u32,
    pub f1: u32,
    pub pings: usize,
}

/// Whether a record tells what its subsystem transmits.
pub open spec fn tells_sweep(r: PingRecord, s: u8) -> bool {
    r.subsystem == s && order::above_zero32(r.f0)
}

/// The sweeps that a subsystem's records tell.
pub open spec fn sweeps(rs: Seq<PingRecord>, s: u8) -> Seq<(u32, u32)>
    decreases rs.len(),
{
    if rs.len() == 0 {
        Seq::empty()
    } else if tells_sweep(rs.last(), s) {
        sweeps(rs.drop_last(), s).push((rs.last().f0, rs.last().f1))
    } else {
        sweeps(rs.drop_last(), s)
    }
}

/// How many of some records are a subsystem's.
pub open spec fn pings_of(rs: Seq<PingRecord>, s: u8) -> nat
    decreases rs.len(),
{
    if rs.len() == 0 {
        0
    } else {
        pings_of(rs.drop_last(), s) + (if rs.last().subsystem == s {
            1nat
        } else {
            0nat
        })
    }
}

pub open spec fn sweep_keys(f: Seq<(u32, u32)>) -> Seq<i64> {
    f.map_values(|x: (u32, u32)| x.0 as i64)
}

/// Whether a sweep is the middle one of some, by where it starts; nothing at
/// all where there is none.
pub open spec fn middle_sweep(f: Seq<(u32, u32)>, x: (u32, u32)) -> bool {
    if f.len() == 0 {
        x == (0u32, 0u32)
    } else {
        exists|p: Seq<usize>|
            #![trigger order::is_order(sweep_keys(f), p)]
            order::is_order(sweep_keys(f), p) && x == f[p[(f.len() / 2) as int] as int]
    }
}

/// Whether a band is what some records say of a subsystem.
pub open spec fn band_of(b: Band, rs: Seq<PingRecord>, s: u8) -> bool {
    &&& b.subsystem == s
    &&& middle_sweep(sweeps(rs, s), (b.f0, b.f1))
    &&& b.pings == pings_of(rs, s)
}

/// Whether a record is on a channel: any channel of the subsystem where none is
/// named.
pub open spec fn on_channel(r: PingRecord, subsystem: u8, channel: Option<u8>) -> bool {
    r.subsystem == subsystem && (channel matches Some(c) ==> r.channel == c)
}

/// The positions of a channel's records among some.
pub open spec fn positions(rs: Seq<PingRecord>, subsystem: u8, channel: Option<u8>) -> Seq<u32>
    decreases rs.len(),
{
    if rs.len() == 0 {
        Seq::empty()
    } else if on_channel(rs.last(), subsystem, channel) {
        positions(rs.drop_last(), subsystem, channel).push((rs.len() - 1) as u32)
    } else {
        positions(rs.drop_last(), subsystem, channel)
    }
}

// ---- ground covered ------------------------------------------------------------

/// A part of the ground, in degrees: bits of double-precision numbers.
#[derive(Clone, Copy, Debug, PartialEq, Eq, Structural)]
pub struct Bounds {
    pub min_lat: u64,
    pub min_lon: u64,
    pub max_lat: u64,
    pub max_lon: u64,
}

/// Bits of positive and negative infinity.
pub const INFINITY: u64 = 0x7ff0_0000_0000_0000;

pub const NEG_INFINITY: u64 = 0xfff0_0000_0000_0000;

/// Bounds that hold nothing.
pub open spec fn empty_bounds() -> Bounds {
    Bounds {
        min_lat: INFINITY,
        min_lon: INFINITY,
        max_lat: NEG_INFINITY,
        max_lon: NEG_INFINITY,
    }
}

impl Bounds {
    pub open spec fn holds_nothing(self) -> bool {
        order::less64(self.max_lat, self.min_lat)
    }

    pub open spec fn extended(self, lat: u64, lon: u64) -> Bounds {
        Bounds {
            min_lat: order::min64(self.min_lat, lat),
            min_lon: order::min64(self.min_lon, lon),
            max_lat: order::max64(self.max_lat, lat),
            max_lon: order::max64(self.max_lon, lon),
        }
    }

    /// Whether a position lies inside. What is not a number lies nowhere.
    pub open spec fn covers(self, lat: u64, lon: u64) -> bool {
        &&& within(self.min_lat, lat, self.max_lat)
        &&& within(self.min_lon, lon, self.max_lon)
    }

    /// Bounds that hold nothing.
    pub fn empty() -> (b: Bounds)
        ensures
            b == empty_bounds(),
            b.holds_nothing(),
    {
        Bounds {
            min_lat: INFINITY,
            min_lon: INFINITY,
            max_lat: NEG_INFINITY,
            max_lon: NEG_INFINITY,
        }
    }

    /// Whether the bounds hold nothing.
    pub fn is_empty(&self) -> (r: bool)
        ensures
            r == self.holds_nothing(),
    {
        is_less64(self.max_lat, self.min_lat)
    }

    /// Grow to hold a position.
    pub fn extend(&mut self, lat: u64, lon: u64)
        ensures
            *final(self) == old(self).extended(lat, lon),
    {
        self.min_lat = lesser64(self.min_lat, lat);
        self.min_lon = lesser64(self.min_lon, lon);
        self.max_lat = greater64(self.max_lat, lat);
        self.max_lon = greater64(self.max_lon, lon);
    }

    /// Bounds that hold what either holds.
    pub fn union(&self, o: &Bounds) -> (b: Bounds)
        ensures
            b == (if self.holds_nothing() {
                *o
            } else if o.holds_nothing() {
                *self
            } else {
                Bounds {
                    min_lat: order::min64(self.min_lat, o.min_lat),
                    min_lon: order::min64(self.min_lon, o.min_lon),
                    max_lat: order::max64(self.max_lat, o.max_lat),
                    max_lon: order::max64(self.max_lon, o.max_lon),
                }
            }),
    {
        if self.is_empty() {
            return *o;
        }
        if o.is_empty() {
            return *self;
        }
        Bounds {
            min_lat: lesser64(self.min_lat, o.min_lat),
            min_lon: lesser64(self.min_lon, o.min_lon),
            max_lat: greater64(self.max_lat, o.max_lat),
            max_lon: greater64(self.max_lon, o.max_lon),
        }
    }

    /// Whether a position lies inside.
    pub fn contains(&self, lat: u64, lon: u64) -> (r: bool)
        ensures
            r == self.covers(lat, lon),
    {
        is_within(self.min_lat, lat, self.max_lat) && is_within(self.min_lon, lon, self.max_lon)
    }
}

/// Whether a number lies between two others, ends included.
pub open spec fn within(lo: u64, v: u64, hi: u64) -> bool {
    &&& !order::nan64(lo) && !order::nan64(v) && !order::nan64(hi)
    &&& order::value_key(lo) <= order::value_key(v) <= order::value_key(hi)
}

fn is_within(lo: u64, v: u64, hi: u64) -> (r: bool)
    ensures
        r == within(lo, v, hi),
{
    !order::is_nan64(lo) && !order::is_nan64(v) && !order::is_nan64(hi) && !is_less64(v, lo)
        && !is_less64(hi, v)
}

/// Whether a record says where it was made: a position of two finite numbers
/// that are not both zero.
pub open spec fn placed(r: PingRecord) -> bool {
    &&& order::finite64(r.lat)
    &&& order::finite64(r.lon)
    &&& order::value_key(r.lat) != 0 || order::value_key(r.lon) != 0
}

/// The ground that some records cover.
pub open spec fn bounds_of(rs: Seq<PingRecord>) -> Bounds
    decreases rs.len(),
{
    if rs.len() == 0 {
        empty_bounds()
    } else {
        let b = bounds_of(rs.drop_last());
        if placed(rs.last()) {
            b.extended(rs.last().lat, rs.last().lon)
        } else {
            b
        }
    }
}

fn is_zero64(v: u64) -> (r: bool)
    ensures
        r == (order::value_key(v) == 0),
{
    v == 0 || v == 0x8000_0000_0000_0000
}

// ---- the index -----------------------------------------------------------------

impl PingIndex {
    /// Put together what all files gave. The result is in order of time,
    /// stably, so channels interleave the way the recording did.
    pub fn assemble(files: Vec<String>, parts: &Vec<Part>) -> (r: PingIndex)
        ensures
            in_time_order(joined(parts@), r.records@),
            r.header.version == 1,
            r.header.files == files,
            r.header.count == r.records@.len(),
            r.records@.len() == joined(parts@).len(),
            views(r.header.warnings@) == warned(parts@),
    {
        let mut all: Vec<PingRecord> = Vec::new();
        let mut warnings: Vec<String> = Vec::new();
        let mut i: usize = 0;
        proof {
            assert(views(warnings@) =~= Seq::<Seq<char>>::empty());
        }
        while i < parts.len()
            invariant
                i <= parts@.len(),
                all@ == joined(parts@.take(i as int)),
                views(warnings@) == warned(parts@.take(i as int)),
            decreases parts.len() - i,
        {
            proof {
                assert(parts@.take(i + 1).drop_last() =~= parts@.take(i as int));
            }
            push_records(&mut all, &parts[i].records);
            match &parts[i].warning {
                Some(w) => {
                    let mut s = String::new();
                    push_str(&mut s, w.as_str());
                    let ghost was = warnings@;
                    warnings.push(s);
                    proof {
                        assert(s@ =~= w@);
                        assert(views(warnings@) =~= views(was).push(w@));
                    }
                },
                None => {},
            }
            i += 1;
        }
        proof {
            assert(parts@.take(parts@.len() as int) =~= parts@);
        }
        let records = by_time(&all);
        let count = records.len();
        PingIndex { header: IndexHeader { version: 1, files, count, warnings }, records }
    }

    pub fn len(&self) -> (n: usize)
        ensures
            n == self.records@.len(),
    {
        self.records.len()
    }

    pub fn is_empty(&self) -> (r: bool)
        ensures
            r == (self.records@.len() == 0),
    {
        self.records.len() == 0
    }

    /// Distinct (subsystem, channel) pairs present, in ascending order.
    pub fn channels(&self) -> (v: Vec<(u8, u8)>)
        ensures
            distinct_of(
                v@.map_values(|c: (u8, u8)| (c.0 * 256 + c.1) as u16),
                self.records@.map_values(|r: PingRecord| channel_key(r)),
            ),
    {
        let mut keys: Vec<u16> = Vec::new();
        let mut i: usize = 0;
        let ghost all = self.records@.map_values(|r: PingRecord| channel_key(r));
        while i < self.records.len()
            invariant
                i <= self.records@.len(),
                keys@.len() == i,
                forall|k: int| 0 <= k < i ==> #[trigger] keys@[k] == channel_key(self.records@[k]),
            decreases self.records.len() - i,
        {
            let r = &self.records[i];
            keys.push(r.subsystem as u16 * 256 + r.channel as u16);
            i += 1;
        }
        proof {
            assert(keys@ =~= all);
        }
        let d = distinct(&keys);
        let mut v: Vec<(u8, u8)> = Vec::new();
        i = 0;
        while i < d.len()
            invariant
                i <= d@.len(),
                v@.len() == i,
                forall|k: int|
                    0 <= k < i ==> (#[trigger] v@[k]).0 * 256 + v@[k].1 == d@[k],
            decreases d.len() - i,
        {
            v.push(((d[i] / 256) as u8, (d[i] % 256) as u8));
            i += 1;
        }
        proof {
            assert(v@.map_values(|c: (u8, u8)| (c.0 * 256 + c.1) as u16) =~= d@);
        }
        v
    }

    /// Distinct subsystems present, in ascending order.
    pub fn subsystems(&self) -> (v: Vec<u8>)
        ensures
            distinct_of(
                v@.map_values(|s: u8| s as u16),
                self.records@.map_values(|r: PingRecord| r.subsystem as u16),
            ),
    {
        let mut keys: Vec<u16> = Vec::new();
        let mut i: usize = 0;
        let ghost all = self.records@.map_values(|r: PingRecord| r.subsystem as u16);
        while i < self.records.len()
            invariant
                i <= self.records@.len(),
                keys@.len() == i,
                forall|k: int|
                    0 <= k < i ==> #[trigger] keys@[k] == self.records@[k].subsystem,
            decreases self.records.len() - i,
        {
            keys.push(self.records[i].subsystem as u16);
            i += 1;
        }
        proof {
            assert(keys@ =~= all);
        }
        let d = distinct(&keys);
        proof {
            assert forall|k: int| 0 <= k < d@.len() implies #[trigger] d@[k] < 256 by {
                assert(d@.contains(d@[k]));
                assert(keys@.contains(d@[k]));
                let m = choose|m: int| 0 <= m < keys@.len() && keys@[m] == d@[k];
                assert(keys@[m] == self.records@[m].subsystem);
            }
        }
        let mut v: Vec<u8> = Vec::new();
        i = 0;
        while i < d.len()
            invariant
                i <= d@.len(),
                v@.len() == i,
                forall|k: int| 0 <= k < d@.len() ==> #[trigger] d@[k] < 256,
                forall|k: int| 0 <= k < i ==> #[trigger] v@[k] == d@[k],
            decreases d.len() - i,
        {
            v.push(d[i] as u8);
            i += 1;
        }
        proof {
            assert(v@.map_values(|s: u8| s as u16) =~= d@);
        }
        v
    }

    /// The frequency bands present, one per subsystem, each with the middle one
    /// of the sweeps its records tell: one corrupt header should not name the
    /// channel for the whole recording.
    pub fn bands(&self) -> (v: Vec<Band>)
        ensures
            distinct_of(
                v@.map_values(|b: Band| b.subsystem as u16),
                self.records@.map_values(|r: PingRecord| r.subsystem as u16),
            ),
            forall|i: int|
                0 <= i < v@.len() ==> band_of(
                    #[trigger] v@[i],
                    self.records@,
                    v@[i].subsystem,
                ),
    {
        let subs = self.subsystems();
        let mut v: Vec<Band> = Vec::new();
        let mut i: usize = 0;
        while i < subs.len()
            invariant
                i <= subs@.len(),
                v@.len() == i,
                forall|k: int|
                    0 <= k < i ==> band_of(#[trigger] v@[k], self.records@, subs@[k]),
            decreases subs.len() - i,
        {
            let s: u8 = subs[i];
            let (f0, f1) = median_sweep(&sweeps_told(&self.records, s));
            v.push(Band { subsystem: s, f0, f1, pings: self.count_of(s) });
            i += 1;
        }
        proof {
            assert forall|k: int| 0 <= k < v@.len() implies (#[trigger] v@[k]).subsystem
                == subs@[k] by {
                assert(band_of(v@[k], self.records@, subs@[k]));
            }
            assert(v@.map_values(|b: Band| b.subsystem as u16) =~= subs@.map_values(
                |s: u8| s as u16,
            ));
        }
        v
    }

    fn count_of(&self, subsystem: u8) -> (n: usize)
        ensures
            n == pings_of(self.records@, subsystem),
    {
        let mut n: usize = 0;
        let mut i: usize = 0;
        while i < self.records.len()
            invariant
                i <= self.records@.len(),
                n <= i,
                n == pings_of(self.records@.take(i as int), subsystem),
            decreases self.records.len() - i,
        {
            proof {
                assert(self.records@.take(i + 1).drop_last() =~= self.records@.take(i as int));
            }
            if self.records[i].subsystem == subsystem {
                n += 1;
            }
            i += 1;
        }
        proof {
            assert(self.records@.take(self.records@.len() as int) =~= self.records@);
        }
        n
    }

    /// Row positions of every ping on one channel, in time order.
    pub fn select(&self, subsystem: u8, channel: Option<u8>) -> (v: Vec<u32>)
        requires
            self.records@.len() <= u32::MAX,
        ensures
            v@ == positions(self.records@, subsystem, channel),
    {
        let mut v: Vec<u32> = Vec::new();
        let mut i: usize = 0;
        while i < self.records.len()
            invariant
                i <= self.records@.len() <= u32::MAX,
                v@ == positions(self.records@.take(i as int), subsystem, channel),
            decreases self.records.len() - i,
        {
            proof {
                assert(self.records@.take(i + 1).drop_last() =~= self.records@.take(i as int));
            }
            let r = &self.records[i];
            let on = r.subsystem == subsystem && match channel {
                Some(c) => r.channel == c,
                None => true,
            };
            if on {
                v.push(i as u32);
            }
            i += 1;
        }
        proof {
            assert(self.records@.take(self.records@.len() as int) =~= self.records@);
        }
        v
    }

    /// The ground the survey covers, or none where no record says where it was
    /// made.
    pub fn bounds(&self) -> (r: Option<Bounds>)
        ensures
            r == (if bounds_of(self.records@).holds_nothing() {
                None
            } else {
                Some(bounds_of(self.records@))
            }),
    {
        let mut b = Bounds::empty();
        let mut i: usize = 0;
        while i < self.records.len()
            invariant
                i <= self.records@.len(),
                b == bounds_of(self.records@.take(i as int)),
            decreases self.records.len() - i,
        {
            proof {
                assert(self.records@.take(i + 1).drop_last() =~= self.records@.take(i as int));
            }
            let r = &self.records[i];
            if is_finite64(r.lat) && is_finite64(r.lon) && (!is_zero64(r.lat) || !is_zero64(
                r.lon,
            )) {
                b.extend(r.lat, r.lon);
            }
            i += 1;
        }
        proof {
            assert(self.records@.take(self.records@.len() as int) =~= self.records@);
        }
        if b.is_empty() {
            None
        } else {
            Some(b)
        }
    }

    /// When the survey starts and ends: bits of double-precision numbers.
    pub fn time_range(&self) -> (r: Option<(u64, u64)>)
        ensures
            r == (if self.records@.len() == 0 {
                None
            } else {
                Some((self.records@[0].time, self.records@.last().time))
            }),
    {
        let n = self.records.len();
        if n == 0 {
            return None;
        }
        Some((self.records[0].time, self.records[n - 1].time))
    }

    /// The file that a record came from.
    pub fn file_of(&self, rec: &PingRecord) -> (r: Option<&String>)
        ensures
            r is Some <==> rec.file_id < self.header.files@.len(),
            r matches Some(f) ==> f == self.header.files@[rec.file_id as int],
    {
        if (rec.file_id as usize) < self.header.files.len() {
            Some(&self.header.files[rec.file_id as usize])
        } else {
            None
        }
    }
}

fn push_records(out: &mut Vec<PingRecord>, more: &Vec<PingRecord>)
    ensures
        final(out)@ == old(out)@ + more@,
{
    let mut i: usize = 0;
    proof {
        assert(out@ =~= old(out)@ + more@.take(0));
    }
    while i < more.len()
        invariant
            i <= more@.len(),
            out@ == old(out)@ + more@.take(i as int),
        decreases more.len() - i,
    {
        out.push(more[i]);
        i += 1;
        proof {
            assert(out@ =~= old(out)@ + more@.take(i as int));
        }
    }
    proof {
        assert(more@.take(more@.len() as int) =~= more@);
    }
}

fn by_time(all: &Vec<PingRecord>) -> (out: Vec<PingRecord>)
    ensures
        in_time_order(all@, out@),
        out@.len() == all@.len(),
{
    let mut keys: Vec<i64> = Vec::new();
    let mut i: usize = 0;
    while i < all.len()
        invariant
            i <= all@.len(),
            keys@.len() == i,
            forall|k: int| 0 <= k < i ==> #[trigger] keys@[k] == order::total_key(all@[k].time),
        decreases all.len() - i,
    {
        keys.push(total_order_key(all[i].time));
        i += 1;
    }
    proof {
        assert(keys@ =~= time_keys(all@));
    }
    let p = sort_order(&keys);
    let mut out: Vec<PingRecord> = Vec::new();
    i = 0;
    while i < p.len()
        invariant
            i <= p@.len(),
            p@.len() == all@.len(),
            forall|k: int| 0 <= k < p@.len() ==> #[trigger] p@[k] < all@.len(),
            out@.len() == i,
            forall|k: int| 0 <= k < i ==> #[trigger] out@[k] == all@[p@[k] as int],
        decreases p.len() - i,
    {
        out.push(all[p[i]]);
        i += 1;
    }
    proof {
        assert(out@ =~= p@.map_values(|i: usize| all@[i as int]));
        assert(order::is_order(time_keys(all@), p@));
    }
    out
}

fn sweeps_told(rs: &Vec<PingRecord>, s: u8) -> (v: Vec<(u32, u32)>)
    ensures
        v@ == sweeps(rs@, s),
{
    let mut v: Vec<(u32, u32)> = Vec::new();
    let mut i: usize = 0;
    while i < rs.len()
        invariant
            i <= rs@.len(),
            v@ == sweeps(rs@.take(i as int), s),
        decreases rs.len() - i,
    {
        proof {
            assert(rs@.take(i + 1).drop_last() =~= rs@.take(i as int));
        }
        if rs[i].subsystem == s && is_above_zero32(rs[i].f0) {
            v.push((rs[i].f0, rs[i].f1));
        }
        i += 1;
    }
    proof {
        assert(rs@.take(rs@.len() as int) =~= rs@);
    }
    v
}

fn median_sweep(f: &Vec<(u32, u32)>) -> (x: (u32, u32))
    ensures
        middle_sweep(f@, x),
{
    if f.len() == 0 {
        return (0, 0);
    }
    let mut keys: Vec<i64> = Vec::new();
    let mut i: usize = 0;
    while i < f.len()
        invariant
            i <= f@.len(),
            keys@.len() == i,
            forall|k: int| 0 <= k < i ==> #[trigger] keys@[k] == f@[k].0,
        decreases f.len() - i,
    {
        keys.push(f[i].0 as i64);
        i += 1;
    }
    proof {
        assert(keys@ =~= sweep_keys(f@));
    }
    let p = sort_order(&keys);
    let m: usize = f.len() / 2;
    proof {
        assert(order::is_order(sweep_keys(f@), p@));
        assert(p@[m as int] < f@.len());
    }
    f[p[m]]
}

// ---- laws ----------------------------------------------------------------------

/// In the index of a survey no record comes before one made earlier.
pub proof fn law_index_in_order(parts: Seq<Part>, out: Seq<PingRecord>, i: int, j: int)
    requires
        in_time_order(joined(parts), out),
        0 <= i <= j < out.len(),
    ensures
        order::total_key(out[i].time) <= order::total_key(out[j].time),
{
    let all = joined(parts);
    let p = choose|p: Seq<usize>|
        #![trigger order::is_order(time_keys(all), p)]
        order::is_order(time_keys(all), p) && out == p.map_values(|i: usize| all[i as int]);
    assert(p[i] < all.len() && p[j] < all.len());
    if i < j {
        assert(order::before(time_keys(all), p[i] as int, p[j] as int));
    }
}

/// Every record that a file gave is in the index.
pub proof fn law_index_keeps_all(parts: Seq<Part>, out: Seq<PingRecord>, k: int)
    requires
        in_time_order(joined(parts), out),
        0 <= k < joined(parts).len() <= usize::MAX,
    ensures
        out.contains(joined(parts)[k]),
        out.len() == joined(parts).len(),
{
    let all = joined(parts);
    let p = choose|p: Seq<usize>|
        #![trigger order::is_order(time_keys(all), p)]
        order::is_order(time_keys(all), p) && out == p.map_values(|i: usize| all[i as int]);
    let kk = k as usize;
    assert(p.contains(kk));
    let m = choose|m: int| 0 <= m < p.len() && p[m] == kk;
    assert(out[m] == all[k]);
}

/// Bounds that have been grown to hold a position hold it, and go on holding
/// every position that they held.
pub proof fn law_extended_covers(b: Bounds, lat: u64, lon: u64, lat2: u64, lon2: u64)
    requires
        order::finite64(lat),
        order::finite64(lon),
        b == empty_bounds() || b.covers(lat2, lon2),
    ensures
        b.extended(lat, lon).covers(lat, lon),
        b.covers(lat2, lon2) ==> b.extended(lat, lon).covers(lat2, lon2),
{
}

} // verus!
