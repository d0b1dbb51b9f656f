//! Navigation: how the fish trails the boat, and where a track is line and
//! where it is turn.

use vstd::prelude::*;

use crate::index::table;
use crate::index::PingRecord;
use crate::order;
use crate::order::{is_finite64, sort_order, total_order_key};

verus! {

/// Where the fish is, behind the boat.
#[derive(Clone, Copy, Debug, PartialEq, Eq, Structural)]
pub enum LaybackModel {
    /// Straight astern of the boat's course.
    Astern,
    /// On the boat's own wake.
    Wake,
    /// Pulled along by the boat, cutting corners.
    Tractrix,
}

impl Default for LaybackModel {
    fn default() -> (m: LaybackModel)
        ensures
            m == LaybackModel::Astern,
    {
        LaybackModel::Astern
    }
}

/// Which way the fish points.
#[derive(Clone, Copy, Debug, PartialEq, Eq, Structural)]
pub enum Bearing {
    /// Along the course made good.
    Cog,
    /// As its compass says.
    Compass,
}

// ---- fixes ---------------------------------------------------------------------

/// The records that say where they were made, among the first `n`.
pub open spec fn placed_among(rs: Seq<PingRecord>, n: int) -> Seq<usize>
    decreases n,
{
    if n <= 0 {
        Seq::empty()
    } else if table::placed(rs[n - 1]) {
        placed_among(rs, n - 1).push((n - 1) as usize)
    } else {
        placed_among(rs, n - 1)
    }
}

pub open spec fn times_of(rs: Seq<PingRecord>, at: Seq<usize>) -> Seq<i64> {
    at.map_values(|i: usize| order::total_key(rs[i as int].time) as i64)
}

/// The records that say where they were made, in order of time, stably.
pub fn fix_order(rs: &Vec<PingRecord>) -> (v: Vec<usize>)
    ensures
        exists|p: Seq<usize>|
            #![trigger order::is_order(
                times_of(rs@, placed_among(rs@, rs@.len() as int)),
                p,
            )]
            order::is_order(times_of(rs@, placed_among(rs@, rs@.len() as int)), p) && v@
                == p.map_values(|k: usize| placed_among(rs@, rs@.len() as int)[k as int]),
        forall|k: int| 0 <= k < v@.len() ==> #[trigger] v@[k] < rs@.len(),
{
    let ghost all = placed_among(rs@, rs@.len() as int);
    let mut at: Vec<usize> = Vec::new();
    let mut keys: Vec<i64> = Vec::new();
    let mut i: usize = 0;
    while i < rs.len()
        invariant
            i <= rs@.len(),
            at@ == placed_among(rs@, i as int),
            keys@ == times_of(rs@, at@),
            forall|k: int| 0 <= k < at@.len() ==> #[trigger] at@[k] < i,
        decreases rs.len() - i,
    {
        let r = &rs[i];
        let placed = is_finite64(r.lat) && is_finite64(r.lon) && !((r.lat == 0 || r.lat
            == 0x8000_0000_0000_0000) && (r.lon == 0 || r.lon == 0x8000_0000_0000_0000));
        if placed {
            at.push(i);
            keys.push(total_order_key(r.time));
            proof {
                assert(keys@ =~= times_of(rs@, at@));
            }
        }
        i += 1;
    }
    let p = sort_order(&keys);
    let mut v: Vec<usize> = Vec::new();
    let mut k: usize = 0;
    while k < p.len()
        invariant
            k <= p@.len(),
            p@.len() == at@.len(),
            forall|j: int| 0 <= j < p@.len() ==> #[trigger] p@[j] < at@.len(),
            forall|j: int| 0 <= j < at@.len() ==> #[trigger] at@[j] < rs@.len(),
            v@.len() == k,
            forall|j: int| 0 <= j < k ==> #[trigger] v@[j] == at@[p@[j] as int],
            forall|j: int| 0 <= j < k ==> #[trigger] v@[j] < rs@.len(),
        decreases p.len() - k,
    {
        v.push(at[p[k]]);
        k += 1;
    }
    proof {
        assert(v@ =~= p@.map_values(|k: usize| all[k as int]));
        assert(order::is_order(times_of(rs@, all), p@));
    }
    v
}

// ---- lines and turns -----------------------------------------------------------

#[derive(Clone, Copy, Debug, PartialEq, Eq, Structural)]
pub enum SegmentKind {
    Line,
    Turn,
}

/// A stretch of a track: its first and last fix, and whether it is straight.
#[derive(Clone, Copy, Debug, PartialEq, Eq, Structural)]
pub struct Stretch {
    pub first: usize,
    pub last: usize,
    pub straight: bool,
}

/// The last fix of a stretch that starts at `i`: as far as the track goes on as
/// it does there.
pub open spec fn last_alike(s: Seq<bool>, i: int) -> int
    decreases s.len() - i,
{
    if 0 <= i && i + 1 < s.len() && s[i + 1] == s[i] {
        last_alike(s, i + 1)
    } else {
        i
    }
}

/// The stretches of a track from fix `i` on.
pub open spec fn stretches_from(s: Seq<bool>, i: int) -> Seq<Stretch>
    decreases s.len() - i,
{
    if i < 0 || i >= s.len() {
        Seq::empty()
    } else {
        let j = last_alike(s, i);
        if j < i || j >= s.len() {
            Seq::empty()
        } else {
            seq![Stretch { first: i as usize, last: j as usize, straight: s[i] }] + stretches_from(
                s,
                j + 1,
            )
        }
    }
}

proof fn lemma_last_alike(s: Seq<bool>, i: int)
    requires
        0 <= i < s.len(),
    ensures
        i <= last_alike(s, i) < s.len(),
        forall|k: int| i <= k <= last_alike(s, i) ==> #[trigger] s[k] == s[i],
    decreases s.len() - i,
{
    if i + 1 < s.len() && s[i + 1] == s[i] {
        lemma_last_alike(s, i + 1);
        assert forall|k: int| i <= k <= last_alike(s, i) implies #[trigger] s[k] == s[i] by {
            if k > i {
                assert(s[k] == s[i + 1]);
            }
        }
    }
}

/// Cut a track into stretches that are straight and ones that are not.
pub fn stretches(straight: &Vec<bool>) -> (v: Vec<Stretch>)
    ensures
        v@ == stretches_from(straight@, 0),
{
    let n: usize = straight.len();
    let mut v: Vec<Stretch> = Vec::new();
    let mut i: usize = 0;
    proof {
        assert(v@ + stretches_from(straight@, 0) =~= stretches_from(straight@, 0));
    }
    while i < n
        invariant
            i <= n,
            n == straight@.len(),
            v@ + stretches_from(straight@, i as int) == stretches_from(straight@, 0),
        decreases n - i,
    {
        let s = straight[i];
        let mut j: usize = i;
        while j + 1 < n && straight[j + 1] == s
            invariant
                i <= j < n,
                n == straight@.len(),
                s == straight@[i as int],
                straight@[j as int] == s,
                last_alike(straight@, i as int) == last_alike(straight@, j as int),
            decreases n - j,
        {
            j += 1;
        }
        let x = Stretch { first: i, last: j, straight: s };
        let ghost was = v@;
        v.push(x);
        proof {
            let rest = stretches_from(straight@, j + 1);
            assert(last_alike(straight@, i as int) == j);
            assert(was + (seq![x] + rest) =~= v@ + rest);
        }
        i = j + 1;
    }
    proof {
        assert(v@ + Seq::<Stretch>::empty() =~= v@);
    }
    v
}

/// A line or a turn: its first and last fix, and the first and last of the
/// stretches it is made of.
#[derive(Clone, Copy, Debug, PartialEq, Eq, Structural)]
pub struct Segment {
    pub kind: SegmentKind,
    pub index0: usize,
    pub index1: usize,
    pub stretch0: usize,
    pub stretch1: usize,
}

/// A stretch is line where it is straight and lasts long enough, and turn
/// otherwise.
pub open spec fn kind_of(s: Stretch, long: bool) -> SegmentKind {
    if s.straight && long {
        SegmentKind::Line
    } else {
        SegmentKind::Turn
    }
}

/// The segments that the first `n` stretches make. Turns that follow one
/// another are one turn.
pub open spec fn segments_of(ss: Seq<Stretch>, long: Seq<bool>, n: int) -> Seq<Segment>
    decreases n,
{
    if n <= 0 {
        Seq::empty()
    } else {
        let front = segments_of(ss, long, n - 1);
        let s = ss[n - 1];
        let kind = kind_of(s, long[n - 1]);
        if front.len() > 0 && front.last().kind == SegmentKind::Turn && kind == SegmentKind::Turn {
            front.update(
                front.len() - 1,
                Segment { index1: s.last, stretch1: (n - 1) as usize, ..front.last() },
            )
        } else {
            front.push(
                Segment {
                    kind,
                    index0: s.first,
                    index1: s.last,
                    stretch0: (n - 1) as usize,
                    stretch1: (n - 1) as usize,
                },
            )
        }
    }
}

/// Tell lines from turns, given of each stretch whether it lasts long enough to
/// be a line.
pub fn segments(ss: &Vec<Stretch>, long: &Vec<bool>) -> (v: Vec<Segment>)
    requires
        ss@.len() == long@.len(),
    ensures
        v@ == segments_of(ss@, long@, ss@.len() as int),
{
    let mut v: Vec<Segment> = Vec::new();
    let mut i: usize = 0;
    while i < ss.len()
        invariant
            i <= ss@.len(),
            ss@.len() == long@.len(),
            v@ == segments_of(ss@, long@, i as int),
        decreases ss.len() - i,
    {
        let s = ss[i];
        let kind = if s.straight && long[i] { SegmentKind::Line } else { SegmentKind::Turn };
        let n: usize = v.len();
        if n > 0 && v[n - 1].kind == SegmentKind::Turn && kind == SegmentKind::Turn {
            let p = v[n - 1];
            v.set(
                n - 1,
                Segment {
                    kind: p.kind,
                    index0: p.index0,
                    index1: s.last,
                    stretch0: p.stretch0,
                    stretch1: i,
                },
            );
        } else {
            v.push(
                Segment { kind, index0: s.first, index1: s.last, stretch0: i, stretch1: i },
            );
        }
        i += 1;
    }
    v
}

/// After a turn comes a line: no two turns follow one another.
pub proof fn law_turns_are_whole(ss: Seq<Stretch>, long: Seq<bool>, n: int, k: int)
    requires
        0 <= n <= ss.len(),
        0 <= k,
        k + 1 < segments_of(ss, long, n).len(),
        segments_of(ss, long, n)[k].kind == SegmentKind::Turn,
    ensures
        segments_of(ss, long, n)[k + 1].kind == SegmentKind::Line,
    decreases n,
{
    let front = segments_of(ss, long, n - 1);
    if k + 1 < front.len() {
        law_turns_are_whole(ss, long, n - 1, k);
    }
}

/// The stretches of a track leave out no fix: each starts right after the one
/// before it, and the last ends with the track.
pub proof fn law_stretches_cover(s: Seq<bool>, i: int, k: int)
    requires
        0 <= i < s.len() <= usize::MAX,
        0 <= k < stretches_from(s, i).len(),
    ensures
        stretches_from(s, i)[0].first == i,
        k + 1 < stretches_from(s, i).len() ==> stretches_from(s, i)[k + 1].first
            == stretches_from(s, i)[k].last + 1,
        stretches_from(s, i).last().last == s.len() - 1,
        stretches_from(s, i)[k].first <= stretches_from(s, i)[k].last,
    decreases s.len() - i,
{
    lemma_last_alike(s, i);
    let j = last_alike(s, i);
    let all = stretches_from(s, i);
    let rest = stretches_from(s, j + 1);
    assert(all == seq![all[0]] + rest);
    if j + 1 < s.len() {
        lemma_last_alike(s, j + 1);
        assert(rest.len() > 0);
        if k > 0 {
            law_stretches_cover(s, j + 1, k - 1);
            assert(all[k] == rest[k - 1]);
            if k + 1 < all.len() {
                assert(all[k + 1] == rest[k]);
            }
        } else {
            law_stretches_cover(s, j + 1, 0);
            assert(all[1] == rest[0]);
        }
        assert(all.last() == rest.last());
    }
}

/// Straight stretches and others take turns.
pub proof fn law_stretches_alternate(s: Seq<bool>, i: int, k: int)
    requires
        0 <= i < s.len() <= usize::MAX,
        0 <= k,
        k + 1 < stretches_from(s, i).len(),
    ensures
        stretches_from(s, i)[k + 1].straight != stretches_from(s, i)[k].straight,
    decreases s.len() - i,
{
    lemma_last_alike(s, i);
    lemma_alike_ends(s, i);
    let j = last_alike(s, i);
    let all = stretches_from(s, i);
    let rest = stretches_from(s, j + 1);
    assert(all == seq![all[0]] + rest);
    assert(all[k + 1] == rest[k]);
    if k > 0 {
        law_stretches_alternate(s, j + 1, k - 1);
        assert(all[k] == rest[k - 1]);
    } else {
        lemma_last_alike(s, j + 1);
        assert(s[j] == s[i]);
    }
}

proof fn lemma_alike_ends(s: Seq<bool>, i: int)
    requires
        0 <= i < s.len(),
    ensures
        last_alike(s, i) + 1 < s.len() ==> s[last_alike(s, i) + 1] != s[last_alike(s, i)],
    decreases s.len() - i,
{
    if i + 1 < s.len() && s[i + 1] == s[i] {
        lemma_alike_ends(s, i + 1);
    }
}

/// Whether segments follow one another without a gap from fix `first` to fix
/// `last`, lines and turns taking turns.
pub open spec fn segments_tile(v: Seq<Segment>, first: int, last: int) -> bool {
    &&& v.len() > 0
    &&& v[0].index0 == first
    &&& v.last().index1 == last
    &&& forall|k: int| 0 <= k < v.len() ==> (#[trigger] v[k]).index0 <= v[k].index1
    &&& forall|k: int, m: int|
        0 <= k && m == k + 1 && m < v.len() ==> (#[trigger] v[m]).index0 == (
        #[trigger] v[k]).index1 + 1 && v[m].kind != v[k].kind
}

proof fn lemma_segments_tile(s: Seq<bool>, long: Seq<bool>, n: int)
    requires
        0 < s.len() <= usize::MAX,
        0 < n <= stretches_from(s, 0).len(),
    ensures
        ({
            let ss = stretches_from(s, 0);
            let v = segments_of(ss, long, n);
            &&& segments_tile(v, 0, ss[n - 1].last as int)
            &&& v.last().kind == kind_of(ss[n - 1], long[n - 1])
        }),
    decreases n,
{
    let ss = stretches_from(s, 0);
    let v = segments_of(ss, long, n);
    law_stretches_cover(s, 0, n - 1);
    if n > 1 {
        lemma_segments_tile(s, long, n - 1);
        law_stretches_cover(s, 0, n - 2);
        law_stretches_alternate(s, 0, n - 2);
        let front = segments_of(ss, long, n - 1);
        let z = front.len() - 1;
        assert forall|k: int| 0 <= k < v.len() implies (#[trigger] v[k]).index0 <= v[k].index1 by {
            if k <= z {
                assert(front[k].index0 <= front[k].index1);
            }
        }
        assert forall|k: int, m: int| 0 <= k && m == k + 1 && m < v.len() implies (
        #[trigger] v[m]).index0 == (#[trigger] v[k]).index1 + 1 && v[m].kind != v[k].kind by {
            if m <= z {
                assert(front[m].index0 == front[k].index1 + 1);
            } else {
                assert(k == z);
            }
        }
    } else {
        assert(segments_of(ss, long, 0).len() == 0);
    }
}

/// The lines and turns of a track leave out no fix: the first starts with the
/// track, each starts right after the one before it, the last ends with the
/// track, and lines and turns take turns.
pub proof fn law_segments_cover(s: Seq<bool>, long: Seq<bool>)
    requires
        0 < s.len() <= usize::MAX,
    ensures
        segments_tile(
            segments_of(stretches_from(s, 0), long, stretches_from(s, 0).len() as int),
            0,
            s.len() - 1,
        ),
{
    lemma_last_alike(s, 0);
    let n = stretches_from(s, 0).len() as int;
    assert(n > 0);
    law_stretches_cover(s, 0, n - 1);
    lemma_segments_tile(s, long, n);
}

/// The fixes of a track are the records that have a position, and no other, as
/// they stand.
pub proof fn law_fixes_are_placed(rs: Seq<PingRecord>, n: int)
    requires
        0 <= n <= rs.len() <= usize::MAX,
    ensures
        ({
            let v = placed_among(rs, n);
            &&& forall|k: usize| #[trigger]
                v.contains(k) <==> k < n && order::finite64(rs[k as int].lat) && order::finite64(
                    rs[k as int].lon,
                ) && !(order::size64(rs[k as int].lat) == 0 && order::size64(rs[k as int].lon) == 0)
            &&& forall|i: int, j: int|
                0 <= i < j < v.len() ==> #[trigger] v[i] < #[trigger] v[j]
            &&& forall|i: int| 0 <= i < v.len() ==> #[trigger] v[i] < n
        }),
    decreases n,
{
    if n > 0 {
        law_fixes_are_placed(rs, n - 1);
        let (v, w) = (placed_among(rs, n), placed_among(rs, n - 1));
        let z = (n - 1) as usize;
        assert forall|k: usize| #[trigger] v.contains(k) <==> w.contains(k) || (k == z && v.len()
            > w.len()) by {
            if w.contains(k) {
                let i = choose|i: int| 0 <= i < w.len() && w[i] == k;
                assert(v[i] == k);
            }
            if v.contains(k) && !w.contains(k) {
                let i = choose|i: int| 0 <= i < v.len() && v[i] == k;
                if i < w.len() {
                    assert(w[i] == k);
                }
            }
            if k == z && v.len() > w.len() {
                assert(v[w.len() as int] == k);
            }
        }
    }
}

/// A line is one stretch that is straight and lasts long enough; no stretch of a
/// turn is both.
pub proof fn law_lines_are_straight(ss: Seq<Stretch>, long: Seq<bool>, n: int)
    requires
        0 <= n <= ss.len() <= usize::MAX,
    ensures
        ({
            let v = segments_of(ss, long, n);
            &&& forall|k: int|
                0 <= k < v.len() ==> {
                    let g = #[trigger] v[k];
                    &&& g.stretch0 <= g.stretch1 < n
                    &&& g.index0 == ss[g.stretch0 as int].first
                    &&& g.index1 == ss[g.stretch1 as int].last
                    &&& g.kind == SegmentKind::Line ==> g.stretch0 == g.stretch1
                        && ss[g.stretch0 as int].straight && long[g.stretch0 as int]
                    &&& g.kind == SegmentKind::Turn ==> forall|i: int|
                        g.stretch0 <= i <= g.stretch1 ==> !(#[trigger] ss[i].straight && long[i])
                }
            &&& n > 0 ==> v.len() > 0 && v.last().stretch1 == n - 1
        }),
    decreases n,
{
    if n > 0 {
        law_lines_are_straight(ss, long, n - 1);
        let (v, w) = (segments_of(ss, long, n), segments_of(ss, long, n - 1));
        assert forall|k: int| 0 <= k < v.len() implies {
            let g = #[trigger] v[k];
            &&& g.stretch0 <= g.stretch1 < n
            &&& g.index0 == ss[g.stretch0 as int].first
            &&& g.index1 == ss[g.stretch1 as int].last
            &&& g.kind == SegmentKind::Line ==> g.stretch0 == g.stretch1
                && ss[g.stretch0 as int].straight && long[g.stretch0 as int]
            &&& g.kind == SegmentKind::Turn ==> forall|i: int|
                g.stretch0 <= i <= g.stretch1 ==> !(#[trigger] ss[i].straight && long[i])
        } by {
            if k < w.len() {
                let h = w[k];
                if v.len() == w.len() && k == w.len() - 1 {
                    let g = v[k];
                    assert(g.stretch0 == h.stretch0 && h.stretch1 == n - 2);
                    assert forall|i: int| g.stretch0 <= i <= g.stretch1 implies !(
                    #[trigger] ss[i].straight && long[i]) by {
                        if i < n - 1 {
                            assert(h.stretch0 <= i <= h.stretch1);
                        }
                    }
                } else {
                    assert(v[k] == h);
                }
            }
        }
    }
}

} // verus!
