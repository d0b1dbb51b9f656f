//! A plan on the chart: what is drawn of the legs, and where nothing reaches.

use vstd::prelude::*;

verus! {

/// What a part of a leg is.
#[derive(Clone, Copy, Debug, PartialEq, Eq, Structural)]
pub enum LegPart {
    RunIn,
    /// Line that surveys the box.
    Line,
    /// Box that is crossed and not surveyed.
    Short,
    RunOut,
}

/// What a part of a leg is called on the chart.
pub open spec fn part_name(p: LegPart) -> Seq<char> {
    match p {
        LegPart::RunIn => "runin"@,
        LegPart::Line => "line"@,
        LegPart::Short => "short"@,
        LegPart::RunOut => "runout"@,
    }
}

impl LegPart {
    pub fn name(&self) -> (s: &'static str)
        ensures
            s@ == part_name(*self),
    {
        match self {
            LegPart::RunIn => "runin",
            LegPart::Line => "line",
            LegPart::Short => "short",
            LegPart::RunOut => "runout",
        }
    }
}

/// Which stretches of a leg are long enough to draw: from its start to the box,
/// from where it enters the box to where the fish is when the wheel goes over,
/// from there and from the edge it entered by to the edge it leaves by, and from
/// the box to its end.
#[derive(Clone, Copy, Debug, PartialEq, Eq, Structural)]
pub struct Ahead {
    pub run_in: bool,
    pub covered: bool,
    pub short_from_covered: bool,
    pub short_from_enter: bool,
    pub run_out: bool,
}

/// The parts of a leg that are drawn, in order. A leg is cut at the box edge,
/// not at the recording points: the chart is a statement about water, not about
/// time. Where the shortfall is longer than the box nothing on the line is
/// surveyed at all.
pub open spec fn parts_of(a: Ahead) -> Seq<LegPart> {
    (if a.run_in {
        seq![LegPart::RunIn]
    } else {
        Seq::empty()
    }) + (if a.covered {
        seq![LegPart::Line]
    } else {
        Seq::empty()
    }) + (if (a.covered && a.short_from_covered) || (!a.covered && a.short_from_enter) {
        seq![LegPart::Short]
    } else {
        Seq::empty()
    }) + (if a.run_out {
        seq![LegPart::RunOut]
    } else {
        Seq::empty()
    })
}

/// The parts of a leg that are drawn, in order.
pub fn leg_parts(a: Ahead) -> (v: Vec<LegPart>)
    ensures
        v@ == parts_of(a),
{
    let mut v: Vec<LegPart> = Vec::new();
    if a.run_in {
        v.push(LegPart::RunIn);
    }
    if a.covered {
        v.push(LegPart::Line);
    }
    if (a.covered && a.short_from_covered) || (!a.covered && a.short_from_enter) {
        v.push(LegPart::Short);
    }
    if a.run_out {
        v.push(LegPart::RunOut);
    }
    proof {
        assert(v@ =~= parts_of(a));
    }
    v
}

/// Where a stretch that started at `from` and holds at `i` ends.
pub open spec fn stretch_end(open: Seq<bool>, i: int) -> int
    decreases open.len() - i,
{
    if 0 <= i < open.len() && open[i] {
        stretch_end(open, i + 1)
    } else {
        i
    }
}

/// The stretches of places, from `i` on, that nothing reaches: first place and
/// the one after the last.
pub open spec fn gaps_from(open: Seq<bool>, i: int) -> Seq<(int, int)>
    decreases open.len() - i,
{
    if i < 0 || i >= open.len() {
        Seq::empty()
    } else if open[i] {
        let end = stretch_end(open, i + 1);
        if end <= i || end > open.len() {
            Seq::empty()
        } else {
            seq![(i, end)] + gaps_from(open, end)
        }
    } else {
        gaps_from(open, i + 1)
    }
}

pub open spec fn gap_views(v: Seq<(usize, usize)>) -> Seq<(int, int)> {
    v.map_values(|g: (usize, usize)| (g.0 as int, g.1 as int))
}

proof fn lemma_stretch_end(open: Seq<bool>, i: int)
    requires
        0 <= i <= open.len(),
    ensures
        i <= stretch_end(open, i) <= open.len(),
        stretch_end(open, i) < open.len() ==> !open[stretch_end(open, i)],
        forall|k: int| i <= k < stretch_end(open, i) ==> #[trigger] open[k],
    decreases open.len() - i,
{
    if i < open.len() && open[i] {
        lemma_stretch_end(open, i + 1);
    }
}

/// The stretches of places that nothing reaches, to be drawn as themselves
/// rather than left as absence.
pub fn gaps(open: &Vec<bool>) -> (v: Vec<(usize, usize)>)
    ensures
        gap_views(v@) == gaps_from(open@, 0),
{
    let mut v: Vec<(usize, usize)> = Vec::new();
    let mut i: usize = 0;
    proof {
        assert(gap_views(v@) + gaps_from(open@, 0) =~= gaps_from(open@, 0));
    }
    while i < open.len()
        invariant
            i <= open@.len(),
            gap_views(v@) + gaps_from(open@, i as int) == gaps_from(open@, 0),
        decreases open.len() - i,
    {
        if open[i] {
            let from: usize = i;
            i += 1;
            while i < open.len() && open[i]
                invariant
                    from < i <= open@.len(),
                    stretch_end(open@, from + 1) == stretch_end(open@, i as int),
                decreases open.len() - i,
            {
                i += 1;
            }
            let ghost was = v@;
            v.push((from, i));
            proof {
                lemma_stretch_end(open@, from + 1);
                let rest = gaps_from(open@, i as int);
                assert(gap_views(v@) =~= gap_views(was).push((from as int, i as int)));
                assert(gap_views(was) + (seq![(from as int, i as int)] + rest) =~= gap_views(v@)
                    + rest);
            }
        } else {
            i += 1;
        }
    }
    proof {
        assert(gap_views(v@) + Seq::<(int, int)>::empty() =~= gap_views(v@));
    }
    v
}

/// Whether a place lies in one of some stretches.
pub open spec fn in_gaps(gs: Seq<(int, int)>, k: int) -> bool {
    exists|j: int| 0 <= j < gs.len() && (#[trigger] gs[j]).0 <= k < gs[j].1
}

/// The stretches that are drawn are just the places that nothing reaches.
pub proof fn law_gaps_are_what_is_open(open: Seq<bool>, i: int, k: int)
    requires
        0 <= i <= open.len(),
        i <= k < open.len(),
    ensures
        in_gaps(gaps_from(open, i), k) <==> open[k],
    decreases open.len() - i,
{
    let gs = gaps_from(open, i);
    if open[i] {
        lemma_stretch_end(open, i + 1);
        let end = stretch_end(open, i + 1);
        let rest = gaps_from(open, end);
        assert(gs == seq![(i, end)] + rest);
        if k < end {
            assert(gs[0].0 <= k < gs[0].1);
            if k > i {
                assert(open[k]);
            }
        } else {
            law_gaps_are_what_is_open(open, end, k);
            if in_gaps(rest, k) {
                let j = choose|j: int| 0 <= j < rest.len() && (#[trigger] rest[j]).0 <= k < rest[j].1;
                assert(gs[j + 1] == rest[j]);
            }
            if in_gaps(gs, k) {
                let j = choose|j: int| 0 <= j < gs.len() && (#[trigger] gs[j]).0 <= k < gs[j].1;
                assert(j > 0);
                assert(rest[j - 1] == gs[j]);
            }
        }
    } else if k == i {
        lemma_gaps_start(open, i + 1);
        if in_gaps(gs, k) {
            let j = choose|j: int| 0 <= j < gs.len() && (#[trigger] gs[j]).0 <= k < gs[j].1;
            assert(gaps_from(open, i + 1)[j].0 >= i + 1);
        }
    } else {
        law_gaps_are_what_is_open(open, i + 1, k);
    }
}

proof fn lemma_gaps_start(open: Seq<bool>, i: int)
    requires
        0 <= i <= open.len(),
    ensures
        forall|j: int| 0 <= j < gaps_from(open, i).len() ==> (#[trigger] gaps_from(open, i)[j]).0
            >= i,
    decreases open.len() - i,
{
    if i < open.len() {
        if open[i] {
            lemma_stretch_end(open, i + 1);
            let end = stretch_end(open, i + 1);
            lemma_gaps_start(open, end);
            let gs = gaps_from(open, i);
            let rest = gaps_from(open, end);
            assert forall|j: int| 0 <= j < gs.len() implies (#[trigger] gs[j]).0 >= i by {
                if j > 0 {
                    assert(gs[j] == rest[j - 1]);
                }
            }
        } else {
            lemma_gaps_start(open, i + 1);
            let gs = gaps_from(open, i);
            assert forall|j: int| 0 <= j < gs.len() implies (#[trigger] gs[j]).0 >= i by {
                assert(gaps_from(open, i + 1)[j].0 >= i + 1);
            }
        }
    }
}

/// Which part of a leg comes before which.
pub open spec fn part_rank(p: LegPart) -> int {
    match p {
        LegPart::RunIn => 0,
        LegPart::Line => 1,
        LegPart::Short => 2,
        LegPart::RunOut => 3,
    }
}

/// A leg has each of its parts once, in the order that the boat comes to them.
pub proof fn law_leg_parts(a: Ahead)
    ensures
        parts_of(a).contains(LegPart::RunIn) == a.run_in,
        parts_of(a).contains(LegPart::Line) == a.covered,
        parts_of(a).contains(LegPart::RunOut) == a.run_out,
        a.covered ==> parts_of(a).contains(LegPart::Short) == a.short_from_covered,
        !a.covered ==> parts_of(a).contains(LegPart::Short) == a.short_from_enter,
        forall|i: int, j: int|
            0 <= i < j < parts_of(a).len() ==> part_rank(#[trigger] parts_of(a)[i]) < part_rank(
                #[trigger] parts_of(a)[j],
            ),
{
    let s = parts_of(a);
    let b = a.run_in;
    let c = a.covered;
    let d = (a.covered && a.short_from_covered) || (!a.covered && a.short_from_enter);
    let i0 = 0int;
    let i1 = if b {
        1int
    } else {
        0
    };
    let i2 = i1 + if c {
        1int
    } else {
        0
    };
    let i3 = i2 + if d {
        1int
    } else {
        0
    };
    if b {
        assert(s[i0] == LegPart::RunIn);
    }
    if c {
        assert(s[i1] == LegPart::Line);
    }
    if d {
        assert(s[i2] == LegPart::Short);
    }
    if a.run_out {
        assert(s[i3] == LegPart::RunOut);
    }
}

} // verus!
