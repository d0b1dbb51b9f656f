//! Planning a search: which lines are run in which order, and what the passes
//! over a place are worth.

use vstd::prelude::*;

use crate::text;
use crate::text::{push_dec, push_padded, push_str};

pub mod chart;
pub mod export;
pub mod law;
pub mod route;

verus! {

/// How close together the lines are, said as what it buys rather than as a
/// percentage of overlap.
#[derive(Clone, Copy, Debug, PartialEq, Eq, Structural)]
pub enum Regime {
    /// One pass over each patch of seabed. Fast, and it leaves the nadir open.
    Recon,
    /// Neighbours cover each other's nadir gap. Nothing on the seabed is unseen.
    Full,
    /// Every point twice, from opposite sides.
    Double,
    /// As the operator says.
    Custom,
}

impl Default for Regime {
    fn default() -> (r: Regime)
        ensures
            r == Regime::Double,
    {
        Regime::Double
    }
}

/// Lines run one after the next, or every k-th with the gaps filled in after.
#[derive(Clone, Copy, Debug, PartialEq, Eq, Structural)]
pub enum Order {
    /// 1, 2, 3, turning 180 degrees each time. What a boat actually does.
    Sequential,
    /// Enough room between consecutive runs for a clean semicircle, then back
    /// for the ones that were skipped.
    Skip,
}

impl Default for Order {
    fn default() -> (r: Order)
        ensures
            r == Order::Sequential,
    {
        Order::Sequential
    }
}

#[derive(Clone, Copy, Debug, PartialEq, Eq, Structural)]
pub enum Direction {
    /// Mow the lawn: the heading swaps on every line.
    Alternate,
    /// Every line run the same way, so every line meets the sea the same way.
    /// It costs a full transit back after each one.
    OneWay,
}

impl Default for Direction {
    fn default() -> (r: Direction)
        ensures
            r == Direction::Alternate,
    {
        Direction::Alternate
    }
}

#[derive(Clone, Copy, Debug, PartialEq, Eq, Structural)]
pub enum Verdict {
    /// Two looks or more, from both sides, at least one at a useful range.
    Good,
    /// Seen, but not well enough to argue a classification from.
    Thin,
    /// Not seen at all.
    Missed,
}

// ---- lines ---------------------------------------------------------------------

/// How many lines a box takes, given how many spacings it is across, rounded
/// up: one more than that, two at least, and one beyond each side where two
/// looks are promised.
pub open spec fn lines_for(across: int, twice: bool) -> int {
    (if across + 1 < 2 {
        2
    } else {
        across + 1
    }) + (if twice {
        2int
    } else {
        0int
    })
}

/// How many lines a box takes.
///
/// A line array that stops at the box edge leaves that edge one look short: the
/// outermost line's own nadir gap sits on it and there is nothing outside to
/// fill it.
pub fn line_count(across: usize, twice: bool) -> (n: usize)
    requires
        across <= usize::MAX - 3,
    ensures
        n == lines_for(across as int, twice),
{
    let inner: usize = if across + 1 < 2 { 2 } else { across + 1 };
    if twice {
        inner + 2
    } else {
        inner
    }
}

/// Whether a regime promises two looks at every point; `close` says whether a
/// spacing set by hand is close enough to.
pub fn promises_two_looks(regime: Regime, close: bool) -> (r: bool)
    ensures
        r == (regime == Regime::Double || (regime == Regime::Custom && close)),
{
    regime == Regime::Double || (regime == Regime::Custom && close)
}

/// Every how-many-th line is run: all of them in turn, unless lines are to be
/// skipped, and then as many as a turn needs, rounded up.
pub open spec fn skip_for(order: Order, direction: Direction, turn: int) -> int {
    if direction == Direction::OneWay || order == Order::Sequential {
        1
    } else if turn < 1 {
        1
    } else {
        turn
    }
}

/// Every how-many-th line is run.
pub fn line_skip(order: Order, direction: Direction, turn: usize) -> (k: usize)
    ensures
        k == skip_for(order, direction, turn as int),
        k >= 1,
{
    if direction == Direction::OneWay || order == Order::Sequential {
        1
    } else if turn < 1 {
        1
    } else {
        turn
    }
}

/// The lines of one sweep: every `skip`th from `from` on.
pub open spec fn sweep(from: int, skip: int, n: int) -> Seq<usize>
    decreases (if from < n {
        n - from
    } else {
        0
    }),
{
    if from < 0 || from >= n || skip < 1 {
        Seq::empty()
    } else {
        seq![from as usize] + sweep(from + skip, skip, n)
    }
}

/// The lines of the first `k` sweeps, one sweep after the other.
pub open spec fn sweeps(k: int, skip: int, n: int) -> Seq<usize>
    decreases k,
{
    if k <= 0 {
        Seq::empty()
    } else {
        sweeps(k - 1, skip, n) + sweep(k - 1, skip, n)
    }
}

/// The order that lines are run in: every `skip`th, and then back for the ones
/// that were skipped.
pub fn run_order(n: usize, skip: usize) -> (v: Vec<usize>)
    requires
        skip >= 1,
    ensures
        v@ == sweeps(skip as int, skip as int, n as int),
{
    let mut v: Vec<usize> = Vec::new();
    let mut p: usize = 0;
    while p < skip
        invariant
            p <= skip,
            skip >= 1,
            v@ == sweeps(p as int, skip as int, n as int),
        decreases skip - p,
    {
        let ghost done = v@;
        let mut i: usize = p;
        let mut more = i < n;
        proof {
            assert(done + sweep(p as int, skip as int, n as int) =~= v@ + sweep(
                i as int,
                skip as int,
                n as int,
            ));
        }
        while more
            invariant
                skip >= 1,
                more ==> i < n,
                done + sweep(p as int, skip as int, n as int) == v@ + (if more {
                    sweep(i as int, skip as int, n as int)
                } else {
                    Seq::empty()
                }),
            decreases (if more {
                n - i + 1
            } else {
                0
            }),
        {
            let ghost was = v@;
            v.push(i);
            proof {
                let rest = sweep(i + skip, skip as int, n as int);
                assert(was + (seq![i] + rest) =~= v@ + rest);
                assert(v@ + Seq::<usize>::empty() =~= v@);
            }
            if n - i > skip {
                i += skip;
            } else {
                more = false;
            }
        }
        proof {
            assert(v@ + Seq::<usize>::empty() =~= v@);
        }
        p += 1;
    }
    v
}

proof fn lemma_sweep(from: int, skip: int, n: int, i: usize)
    requires
        0 <= from,
        1 <= skip,
        n <= usize::MAX,
    ensures
        sweep(from, skip, n).contains(i) <==> from <= i < n && (i - from) % skip == 0,
    decreases (if from < n {
        n - from
    } else {
        0
    }),
{
    if from < n {
        lemma_sweep(from + skip, skip, n, i);
        let rest = sweep(from + skip, skip, n);
        let all = sweep(from, skip, n);
        assert(all == seq![from as usize] + rest);
        if rest.contains(i) {
            let j = choose|j: int| 0 <= j < rest.len() && rest[j] == i;
            assert(all[j + 1] == i);
        }
        if all.contains(i) && i != from {
            let j = choose|j: int| 0 <= j < all.len() && all[j] == i;
            assert(rest[j - 1] == i);
        }
        if i == from {
            assert(all[0] == i);
            vstd::arithmetic::div_mod::lemma_small_mod(0, skip as nat);
        }
        if from + skip <= i {
            lemma_mod_shift(i - from - skip, skip);
        } else if from < i < from + skip {
            vstd::arithmetic::div_mod::lemma_small_mod((i - from) as nat, skip as nat);
        }
    }
}

proof fn lemma_mod_shift(a: int, m: int)
    requires
        m >= 1,
    ensures
        (a + m) % m == a % m,
{
    vstd::arithmetic::div_mod::lemma_mod_add_multiples_vanish(a, m);
    assert((m + a) % m == a % m);
}

proof fn lemma_sweeps(k: int, skip: int, n: int, i: usize)
    requires
        0 <= k <= skip,
        1 <= skip,
        0 <= n <= usize::MAX,
    ensures
        sweeps(k, skip, n).contains(i) <==> i < n && i as int % skip < k,
    decreases k,
{
    if k > 0 {
        lemma_sweeps(k - 1, skip, n, i);
        lemma_sweep(k - 1, skip, n, i);
        let front = sweeps(k - 1, skip, n);
        let last = sweep(k - 1, skip, n);
        let all = sweeps(k, skip, n);
        assert(all == front + last);
        if front.contains(i) {
            let j = choose|j: int| 0 <= j < front.len() && front[j] == i;
            assert(all[j] == i);
        }
        if last.contains(i) {
            let j = choose|j: int| 0 <= j < last.len() && last[j] == i;
            assert(all[front.len() + j] == i);
        }
        if all.contains(i) {
            let j = choose|j: int| 0 <= j < all.len() && all[j] == i;
            if j < front.len() {
                assert(front[j] == i);
            } else {
                assert(last[j - front.len()] == i);
            }
        }
        lemma_residue(i as int, k - 1, skip);
    } else {
        vstd::arithmetic::div_mod::lemma_mod_bound(i as int, skip);
    }
}

proof fn lemma_residue(i: int, r: int, m: int)
    requires
        0 <= r < m,
        0 <= i,
    ensures
        (r <= i && (i - r) % m == 0) <==> i % m == r,
{
    vstd::arithmetic::div_mod::lemma_fundamental_div_mod(i, m);
    let q = i / m;
    let s = i % m;
    assert(0 <= s < m) by {
        vstd::arithmetic::div_mod::lemma_mod_bound(i, m);
    }
    if s == r {
        assert(i - r == q * m + 0) by (nonlinear_arith)
            requires
                i == m * q + r,
        ;
        vstd::arithmetic::div_mod::lemma_fundamental_div_mod_converse(i - r, m, q, 0);
        assert(q >= 0) by (nonlinear_arith)
            requires
                i == m * q + s,
                0 <= s < m,
                0 <= i,
                m >= 1,
        ;
        assert(m * q >= 0) by (nonlinear_arith)
            requires
                q >= 0,
                m >= 1,
        ;
    }
    if r <= i && (i - r) % m == 0 {
        vstd::arithmetic::div_mod::lemma_fundamental_div_mod(i - r, m);
        let p = (i - r) / m;
        assert(i == p * m + r) by (nonlinear_arith)
            requires
                i - r == m * p + 0,
        ;
        vstd::arithmetic::div_mod::lemma_fundamental_div_mod_converse(i, m, p, r);
    }
}

/// Whichever lines are skipped on the way, every line is run.
pub proof fn law_every_line_is_run(n: int, skip: int, line: usize)
    requires
        0 <= n <= usize::MAX,
        1 <= skip,
    ensures
        sweeps(skip, skip, n).contains(line) <==> line < n,
{
    lemma_sweeps(skip, skip, n, line);
    vstd::arithmetic::div_mod::lemma_mod_bound(line as int, skip);
}

proof fn lemma_sweep_len(from: int, skip: int, n: int)
    requires
        0 <= from,
        1 <= skip,
        0 <= n <= usize::MAX,
    ensures
        sweep(from, skip, n).no_duplicates(),
        forall|j: int| 0 <= j < sweep(from, skip, n).len() ==> #[trigger] sweep(
            from,
            skip,
            n,
        )[j] >= from,
    decreases (if from < n {
        n - from
    } else {
        0
    }),
{
    if from < n {
        lemma_sweep_len(from + skip, skip, n);
    }
}

proof fn lemma_sweeps_distinct(k: int, skip: int, n: int)
    requires
        0 <= k <= skip,
        1 <= skip,
        0 <= n <= usize::MAX,
    ensures
        sweeps(k, skip, n).no_duplicates(),
    decreases k,
{
    if k > 0 {
        lemma_sweeps_distinct(k - 1, skip, n);
        lemma_sweep_len(k - 1, skip, n);
        let front = sweeps(k - 1, skip, n);
        let last = sweep(k - 1, skip, n);
        let all = sweeps(k, skip, n);
        assert forall|a: int, b: int| 0 <= a < b < all.len() implies all[a] != all[b] by {
            if a < front.len() && b >= front.len() {
                let x = all[a];
                assert(front[a] == x && front.contains(x));
                lemma_sweeps(k - 1, skip, n, x);
                assert(last[b - front.len()] == all[b]);
                assert(last.contains(all[b]));
                lemma_sweep(k - 1, skip, n, all[b]);
                lemma_residue(all[b] as int, k - 1, skip);
            } else if b < front.len() {
                assert(front[a] != front[b]);
            } else {
                assert(last[a - front.len()] != last[b - front.len()]);
            }
        }
    }
}

/// No line is run twice.
pub proof fn law_no_line_is_run_twice(n: int, skip: int, a: int, b: int)
    requires
        0 <= n <= usize::MAX,
        1 <= skip,
        0 <= a < b < sweeps(skip, skip, n).len(),
    ensures
        sweeps(skip, skip, n)[a] != sweeps(skip, skip, n)[b],
{
    lemma_sweeps_distinct(skip, skip, n);
}

/// Whether the `j`th run goes along the plan's azimuth rather than against it.
pub open spec fn runs_forward(direction: Direction, j: int) -> bool {
    direction == Direction::OneWay || j % 2 == 0
}

/// Whether the `j`th run goes along the plan's azimuth rather than against it.
pub fn is_forward(direction: Direction, j: usize) -> (r: bool)
    ensures
        r == runs_forward(direction, j as int),
{
    direction == Direction::OneWay || j % 2 == 0
}

// ---- coverage ------------------------------------------------------------------

/// How many places across the box are passed over by nothing, at least once and
/// at least twice, and the fewest passes over any.
#[derive(Clone, Copy, Debug, PartialEq, Eq, Structural)]
pub struct CoverageCount {
    pub none: usize,
    pub once: usize,
    pub twice: usize,
    pub worst: usize,
}

/// How many of the first `n` counts are at least `k`.
pub open spec fn at_least(passes: Seq<usize>, k: int, n: int) -> int
    decreases n,
{
    if n <= 0 {
        0
    } else {
        at_least(passes, k, n - 1) + (if passes[n - 1] >= k {
            1int
        } else {
            0int
        })
    }
}

/// Count what the passes over places across the box cover.
pub fn count_coverage(passes: &Vec<usize>) -> (c: CoverageCount)
    ensures
        c.once == at_least(passes@, 1, passes@.len() as int),
        c.none == passes@.len() - c.once,
        c.twice == at_least(passes@, 2, passes@.len() as int),
        passes@.len() == 0 ==> c.worst == 0,
        passes@.len() > 0 ==> passes@.contains(c.worst),
        forall|i: int| 0 <= i < passes@.len() ==> c.worst <= #[trigger] passes@[i],
{
    let mut none: usize = 0;
    let mut once: usize = 0;
    let mut twice: usize = 0;
    let mut worst: usize = 0;
    let mut i: usize = 0;
    while i < passes.len()
        invariant
            i <= passes@.len(),
            once == at_least(passes@, 1, i as int),
            none == i - once,
            once <= i,
            twice == at_least(passes@, 2, i as int),
            twice <= i,
            i == 0 ==> worst == 0,
            i > 0 ==> passes@.take(i as int).contains(worst),
            forall|k: int| 0 <= k < i ==> worst <= #[trigger] passes@[k],
        decreases passes.len() - i,
    {
        let c: usize = passes[i];
        if c == 0 {
            none += 1;
        } else {
            once += 1;
            if c >= 2 {
                twice += 1;
            }
        }
        let ghost was = worst;
        if i == 0 || c < worst {
            worst = c;
        }
        proof {
            let t = passes@.take(i as int);
            let u = passes@.take(i + 1);
            assert(u[i as int] == c);
            if worst == was && i > 0 {
                let m = choose|m: int| 0 <= m < t.len() && t[m] == was;
                assert(u[m] == was);
            }
        }
        i += 1;
    }
    proof {
        assert(passes@.take(passes@.len() as int) =~= passes@);
    }
    CoverageCount { none, once, twice, worst }
}

/// What one place in a target's circle gets: how often it is looked at, how
/// often at a useful range, and how often from each side.
#[derive(Clone, Copy, Debug, PartialEq, Eq, Structural)]
pub struct Looks {
    pub looks: usize,
    pub good: usize,
    pub pos: usize,
    pub neg: usize,
}

/// What a target gets, at worst, over the whole of its circle.
#[derive(Clone, Copy, Debug, PartialEq, Eq, Structural)]
pub struct Judged {
    pub looks: usize,
    pub good: usize,
    pub both_aspects: bool,
    pub verdict: Verdict,
}

/// The verdict on looks.
pub open spec fn verdict_on(looks: int, good: int, both: bool) -> Verdict {
    if looks == 0 {
        Verdict::Missed
    } else if looks >= 2 && both && good >= 1 {
        Verdict::Good
    } else {
        Verdict::Thin
    }
}

/// Judge what a target gets over its whole circle, not only at its centre.
pub fn judge(at: &Vec<Looks>) -> (j: Judged)
    requires
        at@.len() > 0,
    ensures
        forall|i: int| 0 <= i < at@.len() ==> j.looks <= (#[trigger] at@[i]).looks,
        exists|i: int| 0 <= i < at@.len() && j.looks == (#[trigger] at@[i]).looks,
        forall|i: int| 0 <= i < at@.len() ==> j.good <= (#[trigger] at@[i]).good,
        exists|i: int| 0 <= i < at@.len() && j.good == (#[trigger] at@[i]).good,
        j.both_aspects == (forall|i: int|
            0 <= i < at@.len() ==> (#[trigger] at@[i]).pos > 0 && at@[i].neg > 0),
        j.verdict == verdict_on(j.looks as int, j.good as int, j.both_aspects),
        j.verdict == Verdict::Good <==> forall|i: int|
            0 <= i < at@.len() ==> (#[trigger] at@[i]).looks >= 2 && at@[i].good >= 1 && at@[i].pos
                > 0 && at@[i].neg > 0,
        j.verdict == Verdict::Missed <==> exists|i: int|
            0 <= i < at@.len() && (#[trigger] at@[i]).looks == 0,
{
    let mut looks: usize = at[0].looks;
    let mut good: usize = at[0].good;
    let mut both: bool = at[0].pos > 0 && at[0].neg > 0;
    let mut i: usize = 1;
    let ghost mut li: int = 0;
    let ghost mut gi: int = 0;
    while i < at.len()
        invariant
            1 <= i <= at@.len(),
            0 <= li < i,
            0 <= gi < i,
            at@[li].looks == looks,
            at@[gi].good == good,
            forall|k: int| 0 <= k < i ==> looks <= (#[trigger] at@[k]).looks,
            forall|k: int| 0 <= k < i ==> good <= (#[trigger] at@[k]).good,
            both == (forall|k: int|
                0 <= k < i ==> (#[trigger] at@[k]).pos > 0 && at@[k].neg > 0),
        decreases at.len() - i,
    {
        let a = at[i];
        if a.looks < looks {
            looks = a.looks;
            proof {
                li = i as int;
            }
        }
        if a.good < good {
            good = a.good;
            proof {
                gi = i as int;
            }
        }
        proof {
            assert(at@[i as int] == a);
        }
        if a.pos == 0 || a.neg == 0 {
            both = false;
        }
        i += 1;
    }
    proof {
        assert(at@[li].looks == looks);
        assert(at@[gi].good == good);
        if both && looks >= 2 && good >= 1 {
            assert forall|k: int| 0 <= k < at@.len() implies (#[trigger] at@[k]).looks >= 2
                && at@[k].good >= 1 && at@[k].pos > 0 && at@[k].neg > 0 by {
                assert(looks <= at@[k].looks && good <= at@[k].good);
            }
        }
    }
    let verdict = if looks == 0 {
        Verdict::Missed
    } else if looks >= 2 && both && good >= 1 {
        Verdict::Good
    } else {
        Verdict::Thin
    };
    Judged { looks, good, both_aspects: both, verdict }
}

/// How good a verdict is.
pub open spec fn rank(v: Verdict) -> int {
    match v {
        Verdict::Good => 2,
        Verdict::Thin => 1,
        Verdict::Missed => 0,
    }
}

fn rank_of(v: Verdict) -> (r: u8)
    ensures
        r == rank(v),
{
    match v {
        Verdict::Good => 2,
        Verdict::Thin => 1,
        Verdict::Missed => 0,
    }
}

/// The worst of some verdicts; good where there are none.
pub fn worst_verdict(vs: &Vec<Verdict>) -> (w: Verdict)
    ensures
        forall|i: int| 0 <= i < vs@.len() ==> rank(w) <= rank(#[trigger] vs@[i]),
        vs@.contains(w) || w == Verdict::Good,
        w == Verdict::Missed <==> vs@.contains(Verdict::Missed),
        w == Verdict::Good <==> forall|i: int|
            0 <= i < vs@.len() ==> #[trigger] vs@[i] == Verdict::Good,
{
    let mut w = Verdict::Good;
    let mut i: usize = 0;
    while i < vs.len()
        invariant
            i <= vs@.len(),
            forall|k: int| 0 <= k < i ==> rank(w) <= rank(#[trigger] vs@[k]),
            vs@.contains(w) || w == Verdict::Good,
            w == Verdict::Good <==> forall|k: int|
                0 <= k < i ==> #[trigger] vs@[k] == Verdict::Good,
        decreases vs.len() - i,
    {
        if rank_of(vs[i]) < rank_of(w) {
            w = vs[i];
            proof {
                assert(vs@[i as int] == w);
            }
        }
        i += 1;
    }
    w
}

// ---- words ---------------------------------------------------------------------

/// Hours and minutes, for a line of prose, of a number of minutes.
pub open spec fn minutes_text(m: int) -> Seq<char> {
    if m >= 60 {
        text::dec((m / 60) as nat) + " h "@ + text::padded((m % 60) as nat, 2) + " min"@
    } else if m >= 0 {
        text::dec(m as nat) + " min"@
    } else {
        seq!['-'] + text::dec((-m) as nat) + " min"@
    }
}

/// Hours and minutes, for a line of prose, of a number of minutes.
pub fn hms(m: i64) -> (s: String)
    requires
        m > i64::MIN,
    ensures
        s@ == minutes_text(m as int),
{
    let mut s = String::new();
    if m >= 60 {
        push_dec(&mut s, (m / 60) as u64);
        push_str(&mut s, " h ");
        push_padded(&mut s, (m % 60) as u64, 2);
    } else if m >= 0 {
        push_dec(&mut s, m as u64);
    } else {
        s.push('-');
        push_dec(&mut s, (-m) as u64);
    }
    push_str(&mut s, " min");
    proof {
        assert(s@ =~= minutes_text(m as int));
    }
    s
}

/// What a regime is called.
pub open spec fn regime_text(r: Regime) -> Seq<char> {
    match r {
        Regime::Recon => "reconnaissance"@,
        Regime::Full => "nadir filled"@,
        Regime::Double => "double coverage"@,
        Regime::Custom => "set by hand"@,
    }
}

/// What a regime is called.
pub fn regime_name(r: Regime) -> (s: &'static str)
    ensures
        s@ == regime_text(r),
{
    match r {
        Regime::Recon => "reconnaissance",
        Regime::Full => "nadir filled",
        Regime::Double => "double coverage",
        Regime::Custom => "set by hand",
    }
}

} // verus!
