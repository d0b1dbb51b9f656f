//! Which pings are looked at: the points of a track that are drawn, and the
//! search for the ping nearest to a position.

use vstd::prelude::*;

use crate::order;
use crate::order::is_less64;

verus! {

/// Every so many numbers below a limit, from one on.
pub open spec fn every_from(at: int, n: int, step: int) -> Seq<usize>
    decreases (if at < n { n - at } else { 0 }),
{
    if at >= n || step <= 0 {
        Seq::empty()
    } else {
        seq![at as usize] + every_from(at + step, n, step)
    }
}

/// Every so many numbers below a limit, starting with 0.
pub fn every(n: usize, step: usize) -> (v: Vec<usize>)
    requires
        step > 0,
    ensures
        v@ == every_from(0, n as int, step as int),
{
    let mut v: Vec<usize> = Vec::new();
    let mut at: usize = 0;
    let ghost whole = every_from(0, n as int, step as int);
    proof {
        assert(v@ + whole =~= whole);
    }
    while at < n
        invariant
            step > 0,
            whole == every_from(0, n as int, step as int),
            v@ + every_from(at as int, n as int, step as int) == whole,
        decreases n - at,
    {
        let ghost before = v@;
        let ghost rest = every_from(at + step, n as int, step as int);
        v.push(at);
        proof {
            assert(before + (seq![at] + rest) =~= v@ + rest);
        }
        if n - at <= step {
            proof {
                assert(rest =~= Seq::empty());
                assert(v@ + rest =~= v@);
            }
            return v;
        }
        at += step;
    }
    proof {
        assert(v@ + Seq::empty() =~= v@);
    }
    v
}

/// How many pings apart the drawn points of a track are, so that no more than
/// about so many are drawn.
pub fn stride(n: usize, max: usize) -> (s: usize)
    ensures
        s > 0,
        max == 0 ==> s == (if n == 0 {
            1
        } else {
            n
        }),
        max > 0 ==> s == (if n / max == 0 {
            1
        } else {
            n / max
        }),
{
    let d: usize = if max == 0 { 1 } else { max };
    let s: usize = n / d;
    if s == 0 {
        1
    } else {
        s
    }
}

/// How many pings the first sweep of a search looks at, about.
pub const COARSE: usize = 4000;

/// How many pings apart the first sweep of a search looks.
pub open spec fn coarse(n: int) -> int {
    if n / 4000 == 0 {
        1
    } else {
        n / 4000
    }
}

/// The pings that the first sweep of a search looks at.
pub fn coarse_rows(n: usize) -> (v: Vec<usize>)
    ensures
        v@ == every_from(0, n as int, coarse(n as int)),
{
    every(n, stride(n, COARSE))
}

/// The pings that the second sweep looks at: those up to the neighbours of the
/// best of the first.
///
/// It is narrow on purpose. A survey line doubles back on itself, and a wider
/// sweep could jump to the neighbouring pass, which is another place on the
/// image and the same place on the seabed.
pub open spec fn fine(best: int, n: int) -> Seq<usize> {
    let lo = if best < coarse(n) { 0 } else { best - coarse(n) };
    let hi = if best + coarse(n) < n - 1 { best + coarse(n) } else { n - 1 };
    Seq::new((hi - lo + 1) as nat, |i: int| (lo + i) as usize)
}

/// The pings that the second sweep of a search looks at.
pub fn fine_rows(best: usize, n: usize) -> (v: Vec<usize>)
    requires
        best < n,
    ensures
        v@ == fine(best as int, n as int),
{
    let c = stride(n, COARSE);
    let lo: usize = if best < c { 0 } else { best - c };
    let hi: usize = if n - 1 - best > c { best + c } else { n - 1 };
    let mut v: Vec<usize> = Vec::new();
    let mut i: usize = lo;
    while i <= hi
        invariant
            lo <= i <= hi + 1,
            hi < n,
            hi - lo + 1 == fine(best as int, n as int).len(),
            forall|j: int|
                0 <= j < hi - lo + 1 ==> #[trigger] fine(best as int, n as int)[j] == lo + j,
            v@ == fine(best as int, n as int).take(i - lo),
        decreases hi + 1 - i,
    {
        v.push(i);
        proof {
            let f = fine(best as int, n as int);
            assert(f.take(i + 1 - lo) =~= f.take(i - lo).push(f[i - lo]));
        }
        i += 1;
    }
    proof {
        let f = fine(best as int, n as int);
        assert(f.take(i - lo) =~= f);
    }
    v
}

/// The ping a search has found so far, and how far off it is, as the bits of
/// the distance.
#[derive(Clone, Copy, PartialEq, Eq, Structural, Debug)]
pub struct Best {
    pub row: usize,
    pub distance: u64,
}

/// The bits of the largest finite distance, which stands for none.
pub const FAR: u64 = 0x7fef_ffff_ffff_ffff;

/// What a search has found after looking at some pings: the first of those that
/// are nearest, where one of them is nearer than what it had.
pub open spec fn swept(best: Best, rows: Seq<usize>, distances: Seq<u64>) -> Best
    decreases rows.len(),
{
    if rows.len() == 0 {
        best
    } else {
        let b = swept(best, rows.drop_last(), distances.drop_last());
        if order::less64(distances.last(), b.distance) {
            Best { row: rows.last(), distance: distances.last() }
        } else {
            b
        }
    }
}

/// A search that has found nothing yet.
pub fn nothing_found() -> (b: Best)
    ensures
        b == (Best { row: 0, distance: FAR }),
{
    Best { row: 0, distance: FAR }
}

/// Look at some pings.
pub fn sweep(best: Best, rows: &Vec<usize>, distances: &Vec<u64>) -> (b: Best)
    requires
        rows@.len() == distances@.len(),
    ensures
        b == swept(best, rows@, distances@),
{
    let mut b = best;
    let mut i: usize = 0;
    while i < rows.len()
        invariant
            i <= rows@.len() == distances@.len(),
            b == swept(best, rows@.take(i as int), distances@.take(i as int)),
        decreases rows.len() - i,
    {
        proof {
            assert(rows@.take(i + 1).drop_last() =~= rows@.take(i as int));
            assert(distances@.take(i + 1).drop_last() =~= distances@.take(i as int));
        }
        if is_less64(distances[i], b.distance) {
            b = Best { row: rows[i], distance: distances[i] };
        }
        i += 1;
    }
    proof {
        assert(rows@.take(i as int) =~= rows@);
        assert(distances@.take(i as int) =~= distances@);
    }
    b
}

/// Whether a search has found a ping.
pub fn is_found(b: Best) -> (r: bool)
    ensures
        r == (b.distance != FAR),
{
    b.distance != FAR
}

/// Nothing a search has looked at is nearer than what it found.
pub proof fn law_nothing_is_nearer(best: Best, rows: Seq<usize>, distances: Seq<u64>, i: int)
    requires
        rows.len() == distances.len(),
        0 <= i < rows.len(),
    ensures
        !order::less64(distances[i], swept(best, rows, distances).distance),
        !order::less64(best.distance, swept(best, rows, distances).distance),
    decreases rows.len(),
{
    let d = distances.drop_last();
    let r = rows.drop_last();
    if i < r.len() {
        law_nothing_is_nearer(best, r, d, i);
        assert(d[i] == distances[i]);
    } else if r.len() > 0 {
        law_nothing_is_nearer(best, r, d, 0);
    }
}

/// Rows that are taken at a step stand a step apart from the first on, and none is
/// left out.
pub proof fn law_every_step_is_taken(n: int, step: int, i: int)
    requires
        0 < step,
        0 <= n <= usize::MAX,
    ensures
        0 <= i < every_from(0, n, step).len() ==> every_from(0, n, step)[i] == i * step && i * step
            < n,
        (every_from(0, n, step).len() as int) * step >= n,
{
    lemma_every_from(0, n, step, i);
}

proof fn lemma_every_from(at: int, n: int, step: int, i: int)
    requires
        0 < step,
        0 <= at,
        0 <= n <= usize::MAX,
    ensures
        0 <= i < every_from(at, n, step).len() ==> every_from(at, n, step)[i] == at + i * step && at
            + i * step < n,
        at + (every_from(at, n, step).len() as int) * step >= n,
    decreases (if at < n { n - at } else { 0 }),
{
    if at < n {
        lemma_every_from(at + step, n, step, i - 1);
        let rest = every_from(at + step, n, step);
        let all = every_from(at, n, step);
        assert(all.len() == rest.len() + 1);
        assert((rest.len() + 1) * step == (rest.len() as int) * step + step) by (nonlinear_arith);
        if 0 < i < all.len() {
            assert(all[i] == rest[i - 1]);
            assert(i * step == (i - 1) * step + step) by (nonlinear_arith);
        } else if i == 0 {
            assert(0 * step == 0);
        }
    } else {
        assert(0 * step == 0);
    }
}

/// The coarse rows are a step apart that four thousand of them reach over all rows.
pub proof fn law_coarse_step(n: int)
    requires
        0 <= n,
    ensures
        1 <= coarse(n),
        n >= 4000 ==> 4000 * coarse(n) <= n,
        n < 4000 * (coarse(n) + 1),
{
}

/// The fine rows are all those within a coarse step of the best, in order, as far as
/// there are rows.
pub proof fn law_fine_rows(best: int, n: int, row: int)
    requires
        0 <= best < n <= usize::MAX,
    ensures
        fine(best, n).contains(row as usize) && 0 <= row <= usize::MAX <==> 0 <= row < n && best
            - coarse(n) <= row <= best + coarse(n),
        forall|i: int, j: int|
            0 <= i < j < fine(best, n).len() ==> #[trigger] fine(best, n)[i] < #[trigger] fine(
                best,
                n,
            )[j],
{
    let lo = if best < coarse(n) {
        0
    } else {
        best - coarse(n)
    };
    let f = fine(best, n);
    if 0 <= row < n && best - coarse(n) <= row <= best + coarse(n) {
        assert(f[row - lo] == row as usize);
    }
    if f.contains(row as usize) && 0 <= row <= usize::MAX {
        let i = choose|i: int| 0 <= i < f.len() && f[i] == row as usize;
        assert(f[i] == (lo + i) as usize);
        assert(row == lo + i);
    }
}

/// Whatever row is meant, a coarse row is within a step of it, so that the fine rows
/// around the coarse one have it.
pub proof fn law_coarse_rows_are_near(n: int, row: int)
    requires
        0 <= row < n <= usize::MAX,
    ensures
        exists|i: int|
            0 <= i < every_from(0, n, coarse(n)).len() && (#[trigger] every_from(0, n, coarse(n))[i])
                <= row < every_from(0, n, coarse(n))[i] + coarse(n),
{
    let step = coarse(n);
    let i = row / step;
    vstd::arithmetic::div_mod::lemma_fundamental_div_mod(row, step);
    vstd::arithmetic::div_mod::lemma_mod_bound(row, step);
    assert(step * i == i * step) by (nonlinear_arith);
    law_every_step_is_taken(n, step, i);
    let len = every_from(0, n, step).len() as int;
    assert(i >= 0) by (nonlinear_arith)
        requires
            i * step + row % step == row,
            0 <= row,
            0 <= row % step < step,
    ;
    assert(i < len) by (nonlinear_arith)
        requires
            i * step <= row,
            row < len * step,
            step > 0,
    ;
}

} // verus!
