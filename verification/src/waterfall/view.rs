//! What a waterfall shows: which rows are drawn, how they are grouped by range
//! setting, and how the two sides are laid out.

use vstd::prelude::*;

use crate::index::PingRecord;
use crate::order;
use crate::order::{is_less64, sort_order};

verus! {

/// Pings a range group's gain model is measured over.
pub const GAIN_SAMPLE_PINGS: usize = 1200;

// ---- rows ----------------------------------------------------------------------

/// The width an image is drawn at: even, so that the two halves are equal, and
/// no less than 16.
pub open spec fn even_width(w: int) -> int {
    if w < 16 {
        16
    } else {
        w - w % 2
    }
}

/// The width an image is drawn at.
pub fn image_width(width: usize) -> (w: usize)
    ensures
        w == even_width(width as int),
        w % 2 == 0,
{
    if width < 16 {
        16
    } else {
        width - width % 2
    }
}

/// Where the rows that are asked for end.
pub open spec fn rows_end(start: int, count: int, len: int) -> int {
    if start + count < len {
        start + count
    } else {
        len
    }
}

/// The rows to draw: every `stride`th from `start` on, as far as `count` rows
/// go and there are any.
pub fn picks(start: usize, count: usize, stride: usize, len: usize) -> (v: Vec<usize>)
    ensures
        ({
            let step = if stride < 1 {
                1
            } else {
                stride as int
            };
            let end = rows_end(start as int, count as int, len as int);
            &&& forall|k: int| 0 <= k < v@.len() ==> #[trigger] v@[k] == start + k * step
            &&& forall|k: int| 0 <= k < v@.len() ==> #[trigger] v@[k] < end
            &&& start + v@.len() * step >= end
        }),
{
    let step: usize = if stride < 1 { 1 } else { stride };
    let end: usize = if start >= len || len - start <= count { len } else { start + count };
    let mut v: Vec<usize> = Vec::new();
    let mut at: usize = start;
    proof {
        assert(0 * step == 0) by (nonlinear_arith);
    }
    while at < end
        invariant
            step >= 1,
            step == (if stride < 1 {
                1
            } else {
                stride as int
            }),
            end == rows_end(start as int, count as int, len as int),
            at == start + v@.len() * step,
            forall|k: int| 0 <= k < v@.len() ==> #[trigger] v@[k] == start + k * step,
            forall|k: int| 0 <= k < v@.len() ==> #[trigger] v@[k] < end,
        decreases end - at,
    {
        let ghost n = v@.len() as int;
        v.push(at);
        proof {
            assert((n + 1) * step == n * step + step) by (nonlinear_arith);
        }
        if end - at <= step {
            return v;
        }
        at += step;
    }
    v
}

/// Lay out one row of an image: port is mirrored, so that nadir sits at the
/// centre and the image reads port left, nadir middle, starboard right.
pub fn lay_out(port: &Vec<u8>, stbd: &Vec<u8>) -> (row: Vec<u8>)
    requires
        port@.len() == stbd@.len(),
    ensures
        row@ == port@.reverse() + stbd@,
{
    let half: usize = port.len();
    let mut row: Vec<u8> = Vec::new();
    let mut i: usize = 0;
    while i < half
        invariant
            i <= half,
            half == port@.len(),
            row@ == port@.reverse().take(i as int),
        decreases half - i,
    {
        row.push(port[half - 1 - i]);
        i += 1;
        proof {
            assert(port@.reverse().take(i as int) =~= port@.reverse().take(i - 1).push(
                port@.reverse()[i - 1],
            ));
        }
    }
    proof {
        assert(port@.reverse().take(half as int) =~= port@.reverse());
    }
    let mut j: usize = 0;
    while j < half
        invariant
            j <= half,
            half == stbd@.len(),
            row@ == port@.reverse() + stbd@.take(j as int),
        decreases half - j,
    {
        row.push(stbd[j]);
        j += 1;
        proof {
            assert(row@ =~= port@.reverse() + stbd@.take(j as int));
        }
    }
    proof {
        assert(stbd@.take(half as int) =~= stbd@);
    }
    row
}

/// Looking along a row outward from its centre, the two sides are mirror
/// images: the sample at a range stands as far to the left on port as it does
/// to the right on starboard.
pub proof fn law_sides_mirror(port: Seq<u8>, stbd: Seq<u8>, i: int)
    requires
        port.len() == stbd.len(),
        0 <= i < port.len(),
    ensures
        (port.reverse() + stbd)[port.len() - 1 - i] == port[i],
        (port.reverse() + stbd)[port.len() + i] == stbd[i],
{
}

/// Whether `i` is the first of the least keys: none before it is less or equal,
/// none after it is less. Rows without a key do not count, and where the first
/// key is not a number it stays.
pub open spec fn is_first_least(keys: Seq<Option<u64>>, n: int) -> Option<int>
    decreases n,
{
    if n <= 0 {
        None
    } else {
        let before = is_first_least(keys, n - 1);
        match keys[n - 1] {
            None => before,
            Some(k) => match before {
                None => Some(n - 1),
                Some(b) => if order::less64(k, keys[b]->0) {
                    Some(n - 1)
                } else {
                    before
                },
            },
        }
    }
}

/// The row whose key is least, the first of them where there are several: bits
/// of double-precision numbers, such as how far off each row is in seconds.
pub fn nearest(keys: &Vec<Option<u64>>) -> (r: Option<usize>)
    ensures
        match is_first_least(keys@, keys@.len() as int) {
            None => r is None,
            Some(i) => r matches Some(x) && x == i && x < keys@.len() && keys@[x as int] is Some,
        },
{
    let mut best: Option<(usize, u64)> = None;
    let mut i: usize = 0;
    while i < keys.len()
        invariant
            i <= keys@.len(),
            match is_first_least(keys@, i as int) {
                None => best is None,
                Some(b) => best matches Some(x) && x.0 == b && x.0 < i && keys@[b] == Some(x.1),
            },
        decreases keys.len() - i,
    {
        match keys[i] {
            None => {},
            Some(k) => {
                let better = match best {
                    None => true,
                    Some((_, b)) => is_less64(k, b),
                };
                if better {
                    best = Some((i, k));
                }
            },
        }
        i += 1;
    }
    match best {
        Some((i, _)) => Some(i),
        None => None,
    }
}

/// The row that is nearest is as near as any, where all keys are numbers.
pub proof fn law_nearest_is_least(keys: Seq<Option<u64>>, n: int, j: int)
    requires
        0 <= j < n <= keys.len(),
        keys[j] is Some,
        forall|i: int| 0 <= i < n ==> (#[trigger] keys[i] matches Some(k) ==> !order::nan64(k)),
    ensures
        is_first_least(keys, n) is Some,
        0 <= is_first_least(keys, n)->0 < n,
        keys[is_first_least(keys, n)->0] is Some,
        order::value_key(keys[is_first_least(keys, n)->0]->0) <= order::value_key(keys[j]->0),
    decreases n,
{
    if j < n - 1 {
        law_nearest_is_least(keys, n - 1, j);
        assert(keys[n - 1] matches Some(k) ==> !order::nan64(k));
    } else {
        lemma_least_inside(keys, n - 1);
        let before = is_first_least(keys, n - 1);
        if before is Some {
            assert(keys[before->0] matches Some(k) ==> !order::nan64(k));
        }
    }
}

proof fn lemma_least_inside(keys: Seq<Option<u64>>, n: int)
    requires
        0 <= n <= keys.len(),
    ensures
        is_first_least(keys, n) matches Some(b) ==> 0 <= b < n && keys[b] is Some,
    decreases n,
{
    if n > 0 {
        lemma_least_inside(keys, n - 1);
    }
}

// ---- range settings ------------------------------------------------------------

/// The numbers that occur, each once, in the order they first do.
pub open spec fn first_seen(b: Seq<Option<u32>>) -> Seq<u32>
    decreases b.len(),
{
    if b.len() == 0 {
        Seq::empty()
    } else {
        let front = first_seen(b.drop_last());
        match b.last() {
            Some(k) if !front.contains(k) => front.push(k),
            _ => front,
        }
    }
}

/// The positions at which a number stands.
pub open spec fn members_of(b: Seq<Option<u32>>, k: u32) -> Seq<usize>
    decreases b.len(),
{
    if b.len() == 0 {
        Seq::empty()
    } else {
        let front = members_of(b.drop_last(), k);
        if b.last() == Some(k) {
            front.push((b.len() - 1) as usize)
        } else {
            front
        }
    }
}

fn holds(v: &Vec<u32>, k: u32) -> (r: bool)
    ensures
        r == v@.contains(k),
{
    let mut i: usize = 0;
    while i < v.len()
        invariant
            i <= v@.len(),
            forall|j: int| 0 <= j < i ==> v@[j] != k,
        decreases v.len() - i,
    {
        if v[i] == k {
            return true;
        }
        i += 1;
    }
    false
}

/// The range settings of a recording, in the order they were first used. A row
/// that a band missed has none.
pub fn settings(buckets: &Vec<Option<u32>>) -> (v: Vec<u32>)
    ensures
        v@ == first_seen(buckets@),
{
    let mut v: Vec<u32> = Vec::new();
    let mut i: usize = 0;
    while i < buckets.len()
        invariant
            i <= buckets@.len(),
            v@ == first_seen(buckets@.take(i as int)),
        decreases buckets.len() - i,
    {
        proof {
            assert(buckets@.take(i + 1).drop_last() =~= buckets@.take(i as int));
        }
        match buckets[i] {
            Some(k) => {
                if !holds(&v, k) {
                    v.push(k);
                }
            },
            None => {},
        }
        i += 1;
    }
    proof {
        assert(buckets@.take(buckets@.len() as int) =~= buckets@);
    }
    v
}

/// The rows recorded at a range setting.
pub fn members(buckets: &Vec<Option<u32>>, k: u32) -> (v: Vec<usize>)
    ensures
        v@ == members_of(buckets@, k),
{
    let mut v: Vec<usize> = Vec::new();
    let mut i: usize = 0;
    while i < buckets.len()
        invariant
            i <= buckets@.len(),
            v@ == members_of(buckets@.take(i as int), k),
        decreases buckets.len() - i,
    {
        proof {
            assert(buckets@.take(i + 1).drop_last() =~= buckets@.take(i as int));
        }
        if let Some(b) = buckets[i] {
            if b == k {
                v.push(i);
            }
        }
        i += 1;
    }
    proof {
        assert(buckets@.take(buckets@.len() as int) =~= buckets@);
    }
    v
}

/// A row recorded at some setting is in the group of that setting.
pub proof fn law_every_row_is_grouped(b: Seq<Option<u32>>, i: int)
    requires
        0 <= i < b.len() <= usize::MAX,
        b[i] is Some,
    ensures
        first_seen(b).contains(b[i]->0),
        members_of(b, b[i]->0).contains(i as usize),
    decreases b.len(),
{
    let k = b[i]->0;
    let front = first_seen(b.drop_last());
    let ms = members_of(b.drop_last(), k);
    if i < b.len() - 1 {
        law_every_row_is_grouped(b.drop_last(), i);
        let j = choose|j: int| 0 <= j < front.len() && front[j] == k;
        assert(first_seen(b)[j] == k);
        let m = choose|m: int| 0 <= m < ms.len() && ms[m] == i as usize;
        assert(members_of(b, k)[m] == i as usize);
    } else {
        if !front.contains(k) {
            assert(first_seen(b)[front.len() as int] == k);
        }
        assert(members_of(b, k)[ms.len() as int] == i as usize);
    }
}

/// By how often a setting was used, the most used first.
pub open spec fn by_use(pings: Seq<usize>) -> Seq<i64> {
    pings.map_values(|n: usize| (-n) as i64)
}

/// The order of range settings by how often they were used: the most used
/// first, and as they came where they were used as often.
pub fn most_used_first(pings: &Vec<usize>) -> (p: Vec<usize>)
    requires
        forall|i: int| 0 <= i < pings@.len() ==> #[trigger] pings@[i] <= i64::MAX,
    ensures
        order::is_order(by_use(pings@), p@),
{
    let mut keys: Vec<i64> = Vec::new();
    let mut i: usize = 0;
    while i < pings.len()
        invariant
            i <= pings@.len(),
            forall|k: int| 0 <= k < pings@.len() ==> #[trigger] pings@[k] <= i64::MAX,
            keys@.len() == i,
            forall|k: int| 0 <= k < i ==> #[trigger] keys@[k] == -pings@[k],
        decreases pings.len() - i,
    {
        keys.push(-(pings[i] as i64));
        i += 1;
    }
    proof {
        assert(keys@ =~= by_use(pings@));
    }
    sort_order(&keys)
}

/// Which of some range settings to draw a row with: its own, or the first of
/// them where it is not among them.
pub open spec fn setting_for(buckets: Seq<u32>, b: u32) -> Option<int> {
    if buckets.len() == 0 {
        None
    } else if buckets.contains(b) {
        Some(buckets.index_of_first(b)->0)
    } else {
        Some(0)
    }
}

/// Which of some range settings to draw a row with.
pub fn for_bucket(buckets: &Vec<u32>, b: u32) -> (r: Option<usize>)
    ensures
        match setting_for(buckets@, b) {
            None => r is None,
            Some(i) => r matches Some(x) && x == i && x < buckets@.len(),
        },
{
    let mut i: usize = 0;
    while i < buckets.len()
        invariant
            i <= buckets@.len(),
            forall|j: int| 0 <= j < i ==> buckets@[j] != b,
        decreases buckets.len() - i,
    {
        if buckets[i] == b {
            proof {
                assert(buckets@.contains(b));
                buckets@.index_of_first_ensures(b);
                let at = buckets@.index_of_first(b)->0;
                assert(buckets@[at] == b);
                assert(at == i);
            }
            return Some(i);
        }
        i += 1;
    }
    if buckets.len() == 0 {
        None
    } else {
        Some(0)
    }
}

// ---- ping interval -------------------------------------------------------------

/// The times of the records on one channel: bits of double-precision numbers.
pub open spec fn channel_times(rs: Seq<PingRecord>, s: u8, c: u8) -> Seq<u64>
    decreases rs.len(),
{
    if rs.len() == 0 {
        Seq::empty()
    } else {
        let front = channel_times(rs.drop_last(), s, c);
        if rs.last().subsystem == s && rs.last().channel == c {
            front.push(rs.last().time)
        } else {
            front
        }
    }
}

/// The times of the busiest of the first `n` channels; the first of them where
/// several are as busy.
pub open spec fn busiest(rs: Seq<PingRecord>, cs: Seq<(u8, u8)>, n: int) -> Seq<u64>
    decreases n,
{
    if n <= 0 {
        Seq::empty()
    } else {
        let best = busiest(rs, cs, n - 1);
        let t = channel_times(rs, cs[n - 1].0, cs[n - 1].1);
        if t.len() > best.len() {
            t
        } else {
            best
        }
    }
}

fn times_on(rs: &Vec<PingRecord>, s: u8, c: u8) -> (v: Vec<u64>)
    ensures
        v@ == channel_times(rs@, s, c),
{
    let mut v: Vec<u64> = Vec::new();
    let mut i: usize = 0;
    while i < rs.len()
        invariant
            i <= rs@.len(),
            v@ == channel_times(rs@.take(i as int), s, c),
        decreases rs.len() - i,
    {
        proof {
            assert(rs@.take(i + 1).drop_last() =~= rs@.take(i as int));
        }
        if rs[i].subsystem == s && rs[i].channel == c {
            v.push(rs[i].time);
        }
        i += 1;
    }
    proof {
        assert(rs@.take(rs@.len() as int) =~= rs@);
    }
    v
}

/// The times of the busiest channel in a recording, to measure the interval
/// between pings from. One channel of one band is a clean sequence: gaps across
/// the whole index would measure the interleaving of the bands instead.
pub fn busiest_times(rs: &Vec<PingRecord>, channels: &Vec<(u8, u8)>) -> (v: Vec<u64>)
    ensures
        v@ == busiest(rs@, channels@, channels@.len() as int),
{
    let mut best: Vec<u64> = Vec::new();
    let mut i: usize = 0;
    while i < channels.len()
        invariant
            i <= channels@.len(),
            best@ == busiest(rs@, channels@, i as int),
        decreases channels.len() - i,
    {
        let (s, c) = channels[i];
        let t = times_on(rs, s, c);
        if t.len() > best.len() {
            best = t;
        }
        i += 1;
    }
    best
}

/// A picture is even and at least sixteen dots wide, and otherwise as wide as is
/// asked for, but for one.
pub proof fn law_width_is_even(w: int)
    requires
        0 <= w,
    ensures
        even_width(w) % 2 == 0,
        even_width(w) >= 16,
        w >= 16 ==> w - 1 <= even_width(w) <= w,
        w < 16 ==> even_width(w) == 16,
{
}

/// The settings of most pings come first, and those of equally many as they came.
pub proof fn law_most_used_first(pings: Seq<usize>, p: Seq<usize>, i: int, j: int)
    requires
        forall|k: int| 0 <= k < pings.len() ==> #[trigger] pings[k] <= i64::MAX,
        order::is_order(by_use(pings), p),
        0 <= i < j < p.len(),
    ensures
        pings[p[i] as int] >= pings[p[j] as int],
        pings[p[i] as int] == pings[p[j] as int] ==> p[i] < p[j],
{
    order::law_sorted(by_use(pings), p, i, j);
}

/// The times of a channel are those of its records, as they stand.
pub proof fn law_channel_times(rs: Seq<PingRecord>, s: u8, c: u8)
    ensures
        channel_times(rs, s, c) == rs.filter(
            |r: PingRecord| r.subsystem == s && r.channel == c,
        ).map_values(|r: PingRecord| r.time),
    decreases rs.len(),
{
    reveal(Seq::filter);
    let keep = |r: PingRecord| r.subsystem == s && r.channel == c;
    let f = |r: PingRecord| r.time;
    if rs.len() > 0 {
        law_channel_times(rs.drop_last(), s, c);
    }
    assert(channel_times(rs, s, c) =~= rs.filter(keep).map_values(f));
}

/// The busiest channel is one of those there are, and none has more pings.
pub proof fn law_busiest(rs: Seq<PingRecord>, cs: Seq<(u8, u8)>, n: int)
    requires
        0 <= n <= cs.len(),
    ensures
        forall|i: int|
            0 <= i < n ==> busiest(rs, cs, n).len() >= channel_times(
                rs,
                (#[trigger] cs[i]).0,
                cs[i].1,
            ).len(),
        busiest(rs, cs, n).len() > 0 ==> exists|i: int|
            0 <= i < n && busiest(rs, cs, n) == channel_times(rs, (#[trigger] cs[i]).0, cs[i].1),
    decreases n,
{
    if n > 0 {
        law_busiest(rs, cs, n - 1);
        let t = channel_times(rs, cs[n - 1].0, cs[n - 1].1);
        assert(busiest(rs, cs, n) == t || busiest(rs, cs, n) == busiest(rs, cs, n - 1));
    }
}

/// A setting is the first of its bucket; where there is none, it is the first of
/// all.
pub proof fn law_setting_for(buckets: Seq<u32>, b: u32)
    ensures
        match setting_for(buckets, b) {
            None => buckets.len() == 0,
            Some(i) => {
                &&& 0 <= i < buckets.len()
                &&& buckets[i] == b || (i == 0 && !buckets.contains(b))
                &&& forall|j: int| 0 <= j < i ==> #[trigger] buckets[j] != b
            },
        },
{
    if buckets.contains(b) {
        buckets.index_of_first_ensures(b);
    }
}

} // verus!
