//! What a ping is levelled against.
//!
//! Levels are bits of single-precision numbers; a level that is not above zero
//! says nothing.

use vstd::prelude::*;

use crate::order;
use crate::order::{is_above_zero32, sort_order};

verus! {

/// Pings around a ping that give it something to be level with. Long against
/// the banding, short against a real change of seabed.
pub const AGC_WINDOW: usize = 41;

/// The levels of `tail` and then of `levels`, those that say something, from
/// `from` up to `to`, counted in the two put together.
pub open spec fn told(all: Seq<u32>, from: int, to: int) -> Seq<u32>
    decreases to - from,
{
    if from >= to {
        Seq::empty()
    } else {
        let front = told(all, from, to - 1);
        if order::above_zero32(all[to - 1]) {
            front.push(all[to - 1])
        } else {
            front
        }
    }
}

/// Where the window of a ping starts and ends among the levels of the pings
/// before this stretch and those of this one: half a window either side, as far
/// as there are any.
pub open spec fn window_of(tail: int, levels: int, i: int) -> (int, int) {
    let at = tail + i;
    let from = if at < 20 {
        0
    } else {
        at - 20
    };
    let to = if i + 21 < levels {
        at + 21
    } else {
        tail + levels
    };
    (from, to)
}

pub open spec fn keys_of(v: Seq<u32>) -> Seq<i64> {
    v.map_values(|x: u32| x as i64)
}

/// Whether a level is the middle one of some.
pub open spec fn middle(v: Seq<u32>, x: u32) -> bool {
    exists|p: Seq<usize>|
        #![trigger order::is_order(keys_of(v), p)]
        order::is_order(keys_of(v), p) && x == v[p[(v.len() / 2) as int] as int]
}

fn levels_told(tail: &Vec<u32>, levels: &Vec<u32>, from: usize, to: usize) -> (v: Vec<u32>)
    requires
        from <= to <= tail@.len() + levels@.len(),
        tail@.len() + levels@.len() <= usize::MAX,
    ensures
        v@ == told(tail@ + levels@, from as int, to as int),
{
    let ghost all = tail@ + levels@;
    let mut v: Vec<u32> = Vec::new();
    let mut k: usize = from;
    while k < to
        invariant
            from <= k <= to <= tail@.len() + levels@.len(),
            tail@.len() + levels@.len() <= usize::MAX,
            all == tail@ + levels@,
            v@ == told(all, from as int, k as int),
        decreases to - k,
    {
        let x: u32 = if k < tail.len() { tail[k] } else { levels[k - tail.len()] };
        proof {
            assert(all[k as int] == x);
        }
        if is_above_zero32(x) {
            v.push(x);
        }
        k += 1;
    }
    v
}

/// What a ping is to be level with: the middle one of the levels around it,
/// where at least five say something, and none where its own says nothing. The
/// pings of the stretch before are in `tail`, so that one at a seam is levelled
/// against the same neighbourhood as the one before it.
pub fn reference_level(tail: &Vec<u32>, levels: &Vec<u32>, i: usize) -> (r: Option<u32>)
    requires
        i < levels@.len(),
        tail@.len() + levels@.len() <= usize::MAX,
    ensures
        ({
            let (from, to) = window_of(tail@.len() as int, levels@.len() as int, i as int);
            let v = told(tail@ + levels@, from, to);
            &&& r is Some <==> order::above_zero32(levels@[i as int]) && v.len() >= 5
            &&& r matches Some(x) ==> middle(v, x)
        }),
{
    if !is_above_zero32(levels[i]) {
        return None;
    }
    let at: usize = tail.len() + i;
    let from: usize = if at < 20 { 0 } else { at - 20 };
    let to: usize = if levels.len() - i > 21 { at + 21 } else { tail.len() + levels.len() };
    let v = levels_told(tail, levels, from, to);
    if v.len() < 5 {
        return None;
    }
    let mut keys: Vec<i64> = Vec::new();
    let mut k: usize = 0;
    while k < v.len()
        invariant
            k <= v@.len(),
            keys@.len() == k,
            forall|j: int| 0 <= j < k ==> #[trigger] keys@[j] == v@[j],
        decreases v.len() - k,
    {
        keys.push(v[k] as i64);
        k += 1;
    }
    proof {
        assert(keys@ =~= keys_of(v@));
    }
    let p = sort_order(&keys);
    let m: usize = v.len() / 2;
    proof {
        assert(order::is_order(keys_of(v@), p@));
        assert(p@[m as int] < v@.len());
    }
    Some(v[p[m]])
}

/// The levels that the next stretch of pings is told of: a window's worth from
/// the end of this one.
pub fn next_tail(levels: &Vec<u32>) -> (t: Vec<u32>)
    ensures
        t@ == (if levels@.len() > AGC_WINDOW {
            levels@.subrange(levels@.len() - AGC_WINDOW, levels@.len() as int)
        } else {
            levels@
        }),
{
    let n: usize = levels.len();
    let from: usize = if n > AGC_WINDOW { n - AGC_WINDOW } else { 0 };
    let mut t: Vec<u32> = Vec::new();
    let mut i: usize = from;
    while i < n
        invariant
            from <= i <= n,
            n == levels@.len(),
            t@ == levels@.subrange(from as int, i as int),
        decreases n - i,
    {
        t.push(levels[i]);
        i += 1;
        proof {
            assert(t@ =~= levels@.subrange(from as int, i as int));
        }
    }
    proof {
        assert(from == 0 ==> levels@.subrange(0, n as int) =~= levels@);
    }
    t
}

/// Pings spread evenly over a recording: every `step`th, so that there are
/// about as many as asked for.
pub open spec fn spread_step(n: int, want: int) -> int {
    if n / want < 1 {
        1
    } else {
        n / want
    }
}

/// Pick pings spread evenly over a recording.
pub fn spread(n: usize, want: usize) -> (v: Vec<usize>)
    requires
        want > 0,
    ensures
        forall|k: int|
            0 <= k < v@.len() ==> #[trigger] v@[k] == k * spread_step(n as int, want as int),
        forall|k: int| 0 <= k < v@.len() ==> #[trigger] v@[k] < n,
        v@.len() * spread_step(n as int, want as int) >= n,
{
    let step: usize = if n / want < 1 { 1 } else { n / want };
    let mut v: Vec<usize> = Vec::new();
    let mut at: usize = 0;
    proof {
        assert(0 * step == 0) by (nonlinear_arith);
    }
    while at < n
        invariant
            step == spread_step(n as int, want as int),
            step >= 1,
            at == v@.len() * step,
            forall|k: int| 0 <= k < v@.len() ==> #[trigger] v@[k] == k * step,
            forall|k: int| 0 <= k < v@.len() ==> #[trigger] v@[k] < n,
        decreases n - at,
    {
        let ghost len = v@.len() as int;
        v.push(at);
        proof {
            assert((len + 1) * step == len * step + step) by (nonlinear_arith);
        }
        if n - at <= step {
            return v;
        }
        at += step;
    }
    v
}

/// The window about a level holds it, with twenty levels on either side where
/// there are as many; those of the stretch before count with them.
pub proof fn law_window_of(tail: int, levels: int, i: int)
    requires
        0 <= tail,
        0 <= i < levels,
    ensures
        ({
            let (from, to) = window_of(tail, levels, i);
            &&& 0 <= from <= tail + i < to <= tail + levels
            &&& tail + i - from <= 20
            &&& tail + i - from < 20 ==> from == 0
            &&& to - 1 - (tail + i) <= 20
            &&& to - 1 - (tail + i) < 20 ==> to == tail + levels
        }),
{
}

/// The levels that are told are those above zero, as they stand.
pub proof fn law_told(all: Seq<u32>, from: int, to: int)
    requires
        0 <= from <= to <= all.len(),
    ensures
        told(all, from, to) == all.subrange(from, to).filter(|b: u32| order::above_zero32(b)),
    decreases to - from,
{
    reveal(Seq::filter);
    if from < to {
        law_told(all, from, to - 1);
        assert(all.subrange(from, to).drop_last() =~= all.subrange(from, to - 1));
        assert(all.subrange(from, to).last() == all[to - 1]);
    } else {
        assert(all.subrange(from, to).len() == 0);
    }
}

/// The middle of an odd number of levels has as many before it as behind it, those
/// before it no greater and those behind it no less.
pub proof fn law_middle(v: Seq<u32>, x: u32)
    requires
        v.len() % 2 == 1,
        middle(v, x),
    ensures
        exists|p: Seq<usize>, i: int|
            {
                &&& #[trigger] order::is_order(keys_of(v), p)
                &&& 0 <= i < p.len()
                &&& v[#[trigger] p[i] as int] == x
                &&& i == p.len() - 1 - i
            },
        v.contains(x),
{
    let p = choose|p: Seq<usize>|
        #![trigger order::is_order(keys_of(v), p)]
        order::is_order(keys_of(v), p) && x == v[p[(v.len() / 2) as int] as int];
    let i = (v.len() / 2) as int;
    assert(v[p[i] as int] == x);
}

/// A spread takes no fewer than are wanted, where there are as many, and fewer
/// than twice as many and one.
pub proof fn law_spread_step(n: int, want: int)
    requires
        0 <= n,
        0 < want,
    ensures
        spread_step(n, want) >= 1,
        n >= want ==> spread_step(n, want) * want <= n,
        n < (spread_step(n, want) + 1) * want,
{
    let q = n / want;
    assert(q * want <= n < (q + 1) * want && q >= 0) by (nonlinear_arith)
        requires
            q == n / want,
            want > 0,
            n >= 0,
    ;
    if q < 1 {
        assert(n < 2 * want);
        assert(n >= want ==> 1 * want <= n);
    }
}

} // verus!
