//! What holds of every plan.

use vstd::prelude::*;

use crate::plan;
use crate::plan::{Direction, Judged, Looks, Order, Verdict};

verus! {

// ---- verdicts ----------------------------------------------------------------------

/// Whether a judgement holds the worst that some places get.
pub open spec fn worst_of(j: Judged, at: Seq<Looks>) -> bool {
    &&& forall|i: int| 0 <= i < at.len() ==> j.looks <= (#[trigger] at[i]).looks
    &&& exists|i: int| 0 <= i < at.len() && j.looks == (#[trigger] at[i]).looks
    &&& forall|i: int| 0 <= i < at.len() ==> j.good <= (#[trigger] at[i]).good
    &&& exists|i: int| 0 <= i < at.len() && j.good == (#[trigger] at[i]).good
    &&& j.both_aspects == (forall|i: int|
        0 <= i < at.len() ==> (#[trigger] at[i]).pos > 0 && at[i].neg > 0)
}

/// Whether every place gets two looks or more, from both sides, at least one of
/// them at a useful range.
pub open spec fn seen_well(at: Seq<Looks>) -> bool {
    forall|i: int|
        0 <= i < at.len() ==> (#[trigger] at[i]).looks >= 2 && at[i].good >= 1 && at[i].pos > 0
            && at[i].neg > 0
}

/// Whether some place is not looked at.
pub open spec fn unseen_somewhere(at: Seq<Looks>) -> bool {
    exists|i: int| 0 <= i < at.len() && (#[trigger] at[i]).looks == 0
}

/// A target is well covered just where every place in its circle is seen well,
/// missed just where some place is not looked at, and thinly covered otherwise.
pub proof fn law_verdict(at: Seq<Looks>, j: Judged)
    requires
        at.len() > 0,
        worst_of(j, at),
        j.verdict == plan::verdict_on(j.looks as int, j.good as int, j.both_aspects),
    ensures
        j.verdict == Verdict::Good <==> seen_well(at),
        j.verdict == Verdict::Missed <==> unseen_somewhere(at),
        j.verdict == Verdict::Thin <==> !seen_well(at) && !unseen_somewhere(at),
{
    let a = choose|i: int| 0 <= i < at.len() && j.looks == (#[trigger] at[i]).looks;
    let b = choose|i: int| 0 <= i < at.len() && j.good == (#[trigger] at[i]).good;
    if seen_well(at) {
        assert(at[a].looks >= 2 && at[b].good >= 1);
    }
    if j.looks >= 2 && j.good >= 1 && j.both_aspects {
        assert forall|i: int| 0 <= i < at.len() implies (#[trigger] at[i]).looks >= 2
            && at[i].good >= 1 && at[i].pos > 0 && at[i].neg > 0 by {
            assert(j.looks <= at[i].looks && j.good <= at[i].good);
        }
    }
    if unseen_somewhere(at) {
        let i = choose|i: int| 0 <= i < at.len() && (#[trigger] at[i]).looks == 0;
        assert(j.looks <= at[i].looks);
    }
}

/// Looking at a place more often, or from another side, makes no verdict worse.
pub proof fn law_more_looks_are_no_worse(looks: int, good: int, both: bool, more: int, better: int)
    requires
        0 <= looks <= more,
        0 <= good <= better,
    ensures
        plan::rank(plan::verdict_on(looks, good, both)) <= plan::rank(
            plan::verdict_on(more, better, both),
        ),
        plan::rank(plan::verdict_on(looks, good, both)) <= plan::rank(
            plan::verdict_on(looks, good, true),
        ),
{
}

/// Good is better than thin, and thin is better than missed.
pub proof fn law_verdicts_are_ranked()
    ensures
        plan::rank(Verdict::Missed) < plan::rank(Verdict::Thin) < plan::rank(Verdict::Good),
{
}

// ---- lines -------------------------------------------------------------------------

/// The lines of a box, one spacing apart, reach across it; there are two at
/// least, and no more than that takes; where two looks are promised there is one
/// more beyond each side.
pub proof fn law_lines_reach_across(across: int)
    requires
        0 <= across,
    ensures
        plan::lines_for(across, false) - 1 >= across,
        plan::lines_for(across, false) >= 2,
        plan::lines_for(across, false) > 2 ==> plan::lines_for(across, false) - 2 < across,
        plan::lines_for(across, true) == plan::lines_for(across, false) + 2,
{
}

/// Lines are skipped only where that is asked for and headings alternate, and then
/// by no less than a turn needs, and by no more, but for one.
pub proof fn law_skip_leaves_room(order: Order, direction: Direction, turn: int)
    ensures
        plan::skip_for(order, direction, turn) >= 1,
        plan::skip_for(order, direction, turn) > 1 ==> order == Order::Skip && direction
            == Direction::Alternate && plan::skip_for(order, direction, turn) == turn,
        order == Order::Skip && direction == Direction::Alternate ==> plan::skip_for(
            order,
            direction,
            turn,
        ) >= turn,
{
}

proof fn lemma_sweep_steps(from: int, skip: int, n: int)
    requires
        0 <= from,
        1 <= skip,
        0 <= n <= usize::MAX,
    ensures
        ({
            let v = plan::sweep(from, skip, n);
            &&& v.len() > 0 <==> from < n
            &&& v.len() > 0 ==> v[0] == from && v.last() + skip >= n && v.last() < n
            &&& forall|k: int, l: int|
                0 <= k && l == k + 1 && l < v.len() ==> #[trigger] v[l] == #[trigger] v[k] + skip
        }),
    decreases (if from < n {
        n - from
    } else {
        0
    }),
{
    if from < n {
        lemma_sweep_steps(from + skip, skip, n);
        let v = plan::sweep(from, skip, n);
        let rest = plan::sweep(from + skip, skip, n);
        assert(v == seq![from as usize] + rest);
        assert forall|k: int, l: int| 0 <= k && l == k + 1 && l < v.len() implies #[trigger] v[l]
            == #[trigger] v[k] + skip by {
            assert(v[l] == rest[l - 1]);
            if k > 0 {
                assert(v[k] == rest[k - 1]);
            }
        }
        if rest.len() > 0 {
            assert(v.last() == rest.last());
        }
    }
}

proof fn lemma_sweeps_start(k: int, skip: int, n: int)
    requires
        0 <= k <= skip,
        1 <= skip,
        0 <= n <= usize::MAX,
    ensures
        ({
            let v = plan::sweeps(k, skip, n);
            &&& v.len() > 0 <==> k > 0 && n > 0
            &&& v.len() > 0 ==> v[0] == 0 && v.last() + skip >= n && v.last() < n
            &&& v.len() > 0 && k <= n ==> v.last() as int % skip == k - 1
            &&& forall|a: int, b: int|
                0 <= a && b == a + 1 && b < v.len() ==> {
                    ||| #[trigger] v[b] == #[trigger] v[a] + skip
                    ||| v[a] + skip >= n && v[b] == v[a] as int % skip + 1
                }
        }),
    decreases k,
{
    if k > 0 {
        lemma_sweeps_start(k - 1, skip, n);
        lemma_sweep_steps(k - 1, skip, n);
        let front = plan::sweeps(k - 1, skip, n);
        let last = plan::sweep(k - 1, skip, n);
        let v = plan::sweeps(k, skip, n);
        assert(v == front + last);
        if last.len() > 0 {
            lemma_same_residue(last, skip, last.len() - 1);
            assert(v.last() == last.last());
            vstd::arithmetic::div_mod::lemma_small_mod((k - 1) as nat, skip as nat);
        } else {
            assert(v =~= front);
        }
        assert forall|a: int, b: int| 0 <= a && b == a + 1 && b < v.len() implies {
            ||| #[trigger] v[b] == #[trigger] v[a] + skip
            ||| v[a] + skip >= n && v[b] == v[a] as int % skip + 1
        } by {
            if b < front.len() {
                assert(v[a] == front[a] && v[b] == front[b]);
            } else if a >= front.len() {
                assert(v[a] == last[a - front.len()] && v[b] == last[b - front.len()]);
            } else {
                assert(v[a] == front.last() && v[b] == last[0]);
            }
        }
    }
}

proof fn lemma_same_residue(v: Seq<usize>, skip: int, j: int)
    requires
        1 <= skip,
        0 <= j < v.len(),
        forall|k: int, l: int|
            0 <= k && l == k + 1 && l < v.len() ==> #[trigger] v[l] == #[trigger] v[k] + skip,
    ensures
        v[j] as int % skip == v[0] as int % skip,
    decreases j,
{
    if j > 0 {
        lemma_same_residue(v, skip, j - 1);
        assert(v[j] == v[j - 1] + skip);
        vstd::arithmetic::div_mod::lemma_mod_add_multiples_vanish(v[j - 1] as int, skip);
        assert((skip + v[j - 1]) % skip == v[j - 1] as int % skip);
    }
}

/// The first line is run first. From one run to the next `skip` lines are passed;
/// where there are not so many left, the next run is the first of those that have
/// been skipped.
pub proof fn law_runs_skip(n: int, skip: int, a: int)
    requires
        0 <= n <= usize::MAX,
        1 <= skip,
        0 <= a < plan::sweeps(skip, skip, n).len(),
    ensures
        plan::sweeps(skip, skip, n)[0] == 0,
        a + 1 < plan::sweeps(skip, skip, n).len() ==> {
            let (x, y) = (plan::sweeps(skip, skip, n)[a], plan::sweeps(skip, skip, n)[a + 1]);
            ||| y == x + skip
            ||| x + skip >= n && y == x as int % skip + 1
        },
{
    lemma_sweeps_start(skip, skip, n);
}

/// Lines that are run one way are all run along the azimuth; else the first one
/// is, and the heading swaps from each to the next.
pub proof fn law_headings(direction: Direction, j: int)
    requires
        0 <= j,
    ensures
        plan::runs_forward(direction, 0),
        direction == Direction::OneWay ==> plan::runs_forward(direction, j),
        direction == Direction::Alternate ==> plan::runs_forward(direction, j + 1)
            != plan::runs_forward(direction, j),
{
}

// ---- coverage ----------------------------------------------------------------------

/// Counting how many places get so many passes is keeping those that do.
pub proof fn law_counted_are_those_kept(passes: Seq<usize>, k: int, n: int)
    requires
        0 <= n <= passes.len(),
    ensures
        plan::at_least(passes, k, n) == passes.take(n).filter(|c: usize| c >= k).len(),
    decreases n,
{
    reveal(Seq::filter);
    if n > 0 {
        law_counted_are_those_kept(passes, k, n - 1);
        assert(passes.take(n).drop_last() =~= passes.take(n - 1));
        assert(passes.take(n).last() == passes[n - 1]);
    } else {
        assert(passes.take(0).len() == 0);
    }
}

/// Minutes from an hour on are said in hours and minutes.
pub proof fn law_minutes(h: nat, m: nat)
    requires
        m < 60,
    ensures
        h > 0 ==> plan::minutes_text((60 * h + m) as int) == crate::text::dec(h) + " h "@
            + crate::text::padded(m, 2) + " min"@,
        plan::minutes_text(m as int) == crate::text::dec(m) + " min"@,
{
}

} // verus!
