//! What is done to a trace by comparing its samples and choosing among them.
//!
//! A sample is a single-precision number, given by its bits.

use vstd::prelude::*;

use crate::order;
use crate::order::{is_above_zero32, is_finite32, sort_order};

verus! {

/// Where a single-precision number stands in the total order of such numbers,
/// from its bits.
pub open spec fn rank32(bits: u32) -> i64 {
    (if bits < 0x8000_0000 {
        bits as int
    } else {
        0x7fff_ffff - bits
    }) as i64
}

/// Where a single-precision number stands in the total order of such numbers.
pub fn rank_of(bits: u32) -> (k: i64)
    ensures
        k == rank32(bits),
{
    if bits < 0x8000_0000 {
        bits as i64
    } else {
        0x7fff_ffff - bits as i64
    }
}

/// Whether a single-precision number is at least another, from their bits. What
/// is not a number is not at least anything.
pub open spec fn at_least32(a: u32, b: u32) -> bool {
    !nan32(a) && !nan32(b) && value32(a) >= value32(b)
}

/// Whether a single-precision number is not a number at all.
pub open spec fn nan32(bits: u32) -> bool {
    bits as int % 0x8000_0000 > 0x7f80_0000
}

/// The value of a single-precision number, up to a scale that keeps order. Both
/// zeros count as zero.
pub open spec fn value32(bits: u32) -> int {
    if bits < 0x8000_0000 {
        bits as int
    } else {
        0x8000_0000 - bits
    }
}

fn value_of(bits: u32) -> (k: i64)
    ensures
        k == value32(bits),
{
    if bits < 0x8000_0000 {
        bits as i64
    } else {
        0x8000_0000 - bits as i64
    }
}

fn is_at_least32(a: u32, b: u32) -> (r: bool)
    ensures
        r == at_least32(a, b),
{
    if a % 0x8000_0000 > 0x7f80_0000 || b % 0x8000_0000 > 0x7f80_0000 {
        return false;
    }
    value_of(a) >= value_of(b)
}

/// Where samples stand in the total order.
pub open spec fn ranks(v: Seq<u32>) -> Seq<i64> {
    v.map_values(|b: u32| rank32(b))
}

fn ranks_of(v: &Vec<u32>) -> (k: Vec<i64>)
    ensures
        k@ == ranks(v@),
{
    let mut k: Vec<i64> = Vec::new();
    let mut i: usize = 0;
    while i < v.len()
        invariant
            i <= v@.len(),
            k@ == ranks(v@).take(i as int),
        decreases v.len() - i,
    {
        k.push(rank_of(v[i]));
        i += 1;
        proof {
            assert(ranks(v@).take(i as int) =~= ranks(v@).take(i - 1).push(ranks(v@)[i - 1]));
        }
    }
    proof {
        assert(ranks(v@).take(i as int) =~= ranks(v@));
    }
    k
}

/// Whether samples are others put in the total order.
pub open spec fn is_sorted(v: Seq<u32>, r: Seq<u32>) -> bool {
    exists|p: Seq<usize>|
        #![trigger order::is_order(ranks(v), p)]
        order::is_order(ranks(v), p) && r == p.map_values(|i: usize| v[i as int])
}

/// Those samples that are finite.
pub open spec fn finite_of(v: Seq<u32>) -> Seq<u32>
    decreases v.len(),
{
    if v.len() == 0 {
        v
    } else if order::finite32(v.last()) {
        finite_of(v.drop_last()).push(v.last())
    } else {
        finite_of(v.drop_last())
    }
}

/// The finite samples in order, from which a percentile is read.
pub fn ranked(v: &Vec<u32>) -> (r: Vec<u32>)
    ensures
        is_sorted(finite_of(v@), r@),
{
    let mut f: Vec<u32> = Vec::new();
    let mut i: usize = 0;
    proof {
        assert(v@.take(0) =~= Seq::empty());
    }
    while i < v.len()
        invariant
            i <= v@.len(),
            f@ == finite_of(v@.take(i as int)),
        decreases v.len() - i,
    {
        proof {
            assert(v@.take(i + 1).drop_last() =~= v@.take(i as int));
        }
        if is_finite32(v[i]) {
            f.push(v[i]);
        }
        i += 1;
    }
    proof {
        assert(v@.take(i as int) =~= v@);
    }
    sorted(&f)
}

fn sorted(v: &Vec<u32>) -> (r: Vec<u32>)
    ensures
        is_sorted(v@, r@),
        r@.len() == v@.len(),
{
    let p = sort_order(&ranks_of(v));
    let ghost want = p@.map_values(|i: usize| v@[i as int]);
    let mut r: Vec<u32> = Vec::new();
    let mut i: usize = 0;
    while i < p.len()
        invariant
            i <= p@.len(),
            order::is_order(ranks(v@), p@),
            want == p@.map_values(|i: usize| v@[i as int]),
            r@ == want.take(i as int),
        decreases p.len() - i,
    {
        r.push(v[p[i]]);
        i += 1;
        proof {
            assert(want.take(i as int) =~= want.take(i - 1).push(want[i - 1]));
        }
    }
    proof {
        assert(want.take(i as int) =~= want);
        assert(order::is_order(ranks(v@), p@));
    }
    r
}

/// The first sample from one on that is at least a level.
pub open spec fn first_from(t: Seq<u32>, from: int, level: u32) -> Option<int>
    decreases t.len() - from,
{
    if from < 0 || from >= t.len() {
        None
    } else if at_least32(t[from], level) {
        Some(from)
    } else {
        first_from(t, from + 1, level)
    }
}

/// Find the first sample from one on that is at least a level: where the bottom
/// comes up in a trace.
pub fn first_at_least(t: &Vec<u32>, from: usize, level: u32) -> (r: Option<usize>)
    ensures
        match first_from(t@, from as int, level) {
            Some(i) => r matches Some(x) && x == i,
            None => r is None,
        },
{
    let mut i: usize = from;
    while i < t.len()
        invariant
            first_from(t@, from as int, level) == first_from(t@, i as int, level),
        decreases t.len() - i,
    {
        if is_at_least32(t[i], level) {
            return Some(i);
        }
        i += 1;
    }
    None
}

// ---- the median filter -------------------------------------------------------------

/// The width of a filter: odd, and at least one.
pub open spec fn odd(k: usize) -> int {
    if k % 2 == 0 {
        k + 1
    } else {
        k as int
    }
}

/// A place in a trace, or the end of the trace that lies nearest to it.
pub open spec fn held(i: int, n: int) -> int {
    if i < 0 {
        0
    } else if i >= n {
        n - 1
    } else {
        i
    }
}

/// The samples around one, with the ends of the trace repeated.
pub open spec fn window(v: Seq<u32>, i: int, k: int) -> Seq<u32> {
    Seq::new(k as nat, |j: int| v[held(i + j - k / 2, v.len() as int)])
}

/// Whether a sample is the middle one of some that are put in order.
pub open spec fn is_middle(w: Seq<u32>, m: u32) -> bool {
    exists|r: Seq<u32>| #[trigger] is_sorted(w, r) && m == r[w.len() as int / 2]
}

fn window_of(v: &Vec<u32>, i: usize, k: usize) -> (w: Vec<u32>)
    requires
        i < v@.len(),
    ensures
        w@ == window(v@, i as int, k as int),
{
    let n = v.len();
    let h: usize = k / 2;
    let mut w: Vec<u32> = Vec::new();
    let mut j: usize = 0;
    while j < k
        invariant
            j <= k,
            i < n == v@.len(),
            h == k / 2,
            w@ == window(v@, i as int, k as int).take(j as int),
        decreases k - j,
    {
        let at: usize = if j >= h {
            if n - 1 - i <= j - h {
                n - 1
            } else {
                i + (j - h)
            }
        } else if i <= h - j {
            0
        } else {
            i - (h - j)
        };
        w.push(v[at]);
        j += 1;
        proof {
            let all = window(v@, i as int, k as int);
            assert(at == held(i + (j - 1) - k / 2, n as int));
            assert(all.take(j as int) =~= all.take(j - 1).push(all[j - 1]));
        }
    }
    proof {
        let all = window(v@, i as int, k as int);
        assert(all.take(j as int) =~= all);
    }
    w
}

/// Whether samples are others with each replaced by the middle one of those
/// around it.
pub open spec fn is_filtered(v: Seq<u32>, k: usize, r: Seq<u32>) -> bool {
    if odd(k) == 1 || v.len() < 2 {
        r == v
    } else {
        &&& r.len() == v.len()
        &&& forall|i: int| 0 <= i < v.len() ==> is_middle(window(v, i, odd(k)), #[trigger] r[i])
    }
}

/// Replace each sample by the middle one of those around it.
pub fn median_filter(v: &Vec<u32>, k: usize) -> (r: Vec<u32>)
    ensures
        is_filtered(v@, k, r@),
{
    let k: usize = if k % 2 == 0 { k + 1 } else { k };
    let mut r: Vec<u32> = Vec::new();
    let mut i: usize = 0;
    if k == 1 || v.len() < 2 {
        while i < v.len()
            invariant
                i <= v@.len(),
                r@ == v@.take(i as int),
            decreases v.len() - i,
        {
            r.push(v[i]);
            i += 1;
            proof {
                assert(v@.take(i as int) =~= v@.take(i - 1).push(v@[i - 1]));
            }
        }
        proof {
            assert(v@.take(i as int) =~= v@);
        }
        return r;
    }
    while i < v.len()
        invariant
            i <= v@.len(),
            k > 1,
            r@.len() == i,
            forall|j: int|
                0 <= j < i ==> is_middle(window(v@, j, k as int), #[trigger] r@[j]),
        decreases v.len() - i,
    {
        let w = window_of(v, i, k);
        let s = sorted(&w);
        let m = s[k / 2];
        proof {
            assert(is_sorted(w@, s@));
            assert(is_middle(w@, m));
        }
        r.push(m);
        i += 1;
    }
    r
}

// ---- holes -------------------------------------------------------------------------

/// Samples with each that is not above zero replaced by the last one before it
/// that is.
pub open spec fn carried(v: Seq<u32>, last: u32) -> Seq<u32>
    decreases v.len(),
{
    if v.len() == 0 {
        v
    } else {
        let before = carried(v.drop_last(), last);
        if order::above_zero32(v.last()) {
            before.push(v.last())
        } else if before.len() == 0 {
            before.push(last)
        } else {
            before.push(before.last())
        }
    }
}

/// The first sample that is above zero, or zero.
pub open spec fn first_above(v: Seq<u32>) -> u32
    decreases v.len(),
{
    if v.len() == 0 {
        0
    } else if order::above_zero32(v[0]) {
        v[0]
    } else {
        first_above(v.skip(1))
    }
}

/// Whether no sample is above zero.
pub open spec fn none_above(v: Seq<u32>) -> bool {
    forall|i: int| 0 <= i < v.len() ==> !order::above_zero32(#[trigger] v[i])
}

fn first_positive(v: &Vec<u32>) -> (r: Option<u32>)
    ensures
        r is None == none_above(v@),
        r matches Some(x) ==> x == first_above(v@),
{
    let mut i: usize = 0;
    proof {
        assert(v@.skip(0) =~= v@);
    }
    while i < v.len()
        invariant
            i <= v@.len(),
            forall|j: int| 0 <= j < i ==> !order::above_zero32(#[trigger] v@[j]),
            first_above(v@) == first_above(v@.skip(i as int)),
        decreases v.len() - i,
    {
        proof {
            assert(v@.skip(i as int)[0] == v@[i as int]);
            assert(v@.skip(i as int).skip(1) =~= v@.skip(i + 1));
        }
        if is_above_zero32(v[i]) {
            return Some(v[i]);
        }
        i += 1;
    }
    None
}

/// Whether samples are heights above the bottom made steady: the holes among
/// them bridged, the whole filtered, and the holes left holes.
pub open spec fn is_steady(v: Seq<u32>, window: usize, r: Seq<u32>) -> bool {
    if none_above_or_nan(v) {
        r == v
    } else {
        exists|m: Seq<u32>|
            #![trigger is_filtered(carried(v, first_above(v)), window, m)]
            is_filtered(carried(v, first_above(v)), window, m) && r.len() == v.len() && forall|i: int|
                0 <= i < v.len() ==> #[trigger] r[i] == (if order::above_zero32(v[i]) {
                    m[i]
                } else {
                    0
                })
    }
}

/// Whether every sample is zero or below: one that is not a number is neither.
pub open spec fn none_above_or_nan(v: Seq<u32>) -> bool {
    forall|i: int| 0 <= i < v.len() ==> !order::above_zero32(#[trigger] v[i]) && !nan32(v[i])
}

fn all_low(v: &Vec<u32>) -> (r: bool)
    ensures
        r == none_above_or_nan(v@),
{
    let mut i: usize = 0;
    while i < v.len()
        invariant
            i <= v@.len(),
            forall|j: int|
                0 <= j < i ==> !order::above_zero32(#[trigger] v@[j]) && !nan32(v@[j]),
        decreases v.len() - i,
    {
        if is_above_zero32(v[i]) || v[i] % 0x8000_0000 > 0x7f80_0000 {
            return false;
        }
        i += 1;
    }
    true
}

/// Make heights above the bottom steady. A hole is bridged by the height before
/// it while the rest is filtered, so that it does not pull its neighbours down,
/// and is a hole again afterwards.
pub fn steady_prior(v: &Vec<u32>, window: usize) -> (r: Vec<u32>)
    ensures
        is_steady(v@, window, r@),
{
    let mut r: Vec<u32> = Vec::new();
    let mut i: usize = 0;
    if all_low(v) {
        while i < v.len()
            invariant
                i <= v@.len(),
                r@ == v@.take(i as int),
            decreases v.len() - i,
        {
            r.push(v[i]);
            i += 1;
            proof {
                assert(v@.take(i as int) =~= v@.take(i - 1).push(v@[i - 1]));
            }
        }
        proof {
            assert(v@.take(i as int) =~= v@);
        }
        return r;
    }
    let first: u32 = match first_positive(v) {
        Some(x) => x,
        None => 0,
    };
    proof {
        if none_above(v@) {
            lemma_first_above(v@);
        }
        assert(first == first_above(v@));
        assert(v@.take(0) =~= Seq::empty());
    }
    let mut full: Vec<u32> = Vec::new();
    let mut last: u32 = first;
    while i < v.len()
        invariant
            i <= v@.len(),
            full@.len() == i,
            full@ == carried(v@.take(i as int), first),
            last == (if i == 0 {
                first
            } else {
                full@[i - 1]
            }),
        decreases v.len() - i,
    {
        proof {
            assert(v@.take(i + 1).drop_last() =~= v@.take(i as int));
        }
        if is_above_zero32(v[i]) {
            last = v[i];
        }
        full.push(last);
        i += 1;
    }
    proof {
        assert(v@.take(i as int) =~= v@);
    }
    let m = median_filter(&full, window);
    proof {
        assert(is_filtered(carried(v@, first_above(v@)), window, m@));
        assert(m@.len() == v@.len());
    }
    let mut j: usize = 0;
    while j < v.len()
        invariant
            j <= v@.len() == m@.len(),
            r@.len() == j,
            forall|i: int|
                0 <= i < j ==> #[trigger] r@[i] == (if order::above_zero32(v@[i]) {
                    m@[i]
                } else {
                    0
                }),
        decreases v.len() - j,
    {
        if is_above_zero32(v[j]) {
            r.push(m[j]);
        } else {
            r.push(0);
        }
        j += 1;
    }
    r
}

proof fn lemma_first_above(v: Seq<u32>)
    requires
        none_above(v),
    ensures
        first_above(v) == 0,
    decreases v.len(),
{
    if v.len() > 0 {
        assert forall|i: int| 0 <= i < v.skip(1).len() implies !order::above_zero32(
            #[trigger] v.skip(1)[i],
        ) by {
            assert(v.skip(1)[i] == v[i + 1]);
        }
        lemma_first_above(v.skip(1));
    }
}

/// A hole stays a hole.
pub proof fn law_holes_stay(v: Seq<u32>, window: usize, r: Seq<u32>, i: int)
    requires
        is_steady(v, window, r),
        0 <= i < v.len(),
        !order::above_zero32(v[i]),
    ensures
        r.len() == v.len(),
        !order::above_zero32(r[i]),
{
}

// ---- gaps in a profile -------------------------------------------------------------

/// The bits of a number that is none.
pub const NOT_A_NUMBER: u32 = 0x7fc0_0000;

/// Whether a level was measured: it is finite, and above zero.
pub open spec fn measured(b: u32) -> bool {
    order::finite32(b) && order::above_zero32(b)
}

/// The last level that was measured up to a place.
pub open spec fn last_measured(v: Seq<u32>, i: int) -> Option<u32>
    decreases i + 1,
{
    if i < 0 || i >= v.len() {
        None
    } else if measured(v[i]) {
        Some(v[i])
    } else {
        last_measured(v, i - 1)
    }
}

/// The first level that was measured from a place on.
pub open spec fn next_measured(v: Seq<u32>, i: int) -> Option<u32>
    decreases v.len() - i,
{
    if i < 0 || i >= v.len() {
        None
    } else if measured(v[i]) {
        Some(v[i])
    } else {
        next_measured(v, i + 1)
    }
}

/// What a gap in a profile is filled with: the level before it, or where there
/// is none the one behind it.
pub open spec fn level_at(v: Seq<u32>, i: int) -> u32 {
    match last_measured(v, i) {
        Some(x) => x,
        None => match next_measured(v, i) {
            Some(x) => x,
            None => NOT_A_NUMBER,
        },
    }
}

/// A profile with its gaps filled.
pub open spec fn bridged(v: Seq<u32>) -> Seq<u32> {
    Seq::new(v.len(), |i: int| level_at(v, i))
}

proof fn lemma_measured(v: Seq<u32>, i: int)
    ensures
        last_measured(v, i) matches Some(x) ==> measured(x),
    decreases i + 1,
{
    if 0 <= i < v.len() && !measured(v[i]) {
        lemma_measured(v, i - 1);
    }
}

/// Fill the gaps in a profile.
pub fn fill_gaps(v: &Vec<u32>) -> (r: Vec<u32>)
    ensures
        r@ == bridged(v@),
{
    let n = v.len();
    let mut r: Vec<u32> = Vec::new();
    let mut last: Option<u32> = None;
    let mut i: usize = 0;
    while i < n
        invariant
            i <= n == v@.len(),
            r@.len() == i,
            last == last_measured(v@, i - 1),
            forall|j: int|
                0 <= j < i ==> #[trigger] r@[j] == (match last_measured(v@, j) {
                    Some(x) => x,
                    None => NOT_A_NUMBER,
                }),
        decreases n - i,
    {
        if is_finite32(v[i]) && is_above_zero32(v[i]) {
            last = Some(v[i]);
        }
        r.push(
            match last {
                Some(x) => x,
                None => NOT_A_NUMBER,
            },
        );
        i += 1;
    }
    let mut next: Option<u32> = None;
    while i > 0
        invariant
            i <= n == v@.len(),
            r@.len() == n,
            next == next_measured(v@, i as int),
            forall|j: int|
                0 <= j < i ==> #[trigger] r@[j] == (match last_measured(v@, j) {
                    Some(x) => x,
                    None => NOT_A_NUMBER,
                }),
            forall|j: int| i <= j < n ==> #[trigger] r@[j] == level_at(v@, j),
        decreases i,
    {
        i -= 1;
        if is_finite32(v[i]) && is_above_zero32(v[i]) {
            next = Some(v[i]);
        }
        proof {
            lemma_measured(v@, i as int);
            assert(r@[i as int] == (match last_measured(v@, i as int) {
                Some(x) => x,
                None => NOT_A_NUMBER,
            }));
        }
        if !is_finite32(r[i]) {
            r.set(
                i,
                match next {
                    Some(x) => x,
                    None => NOT_A_NUMBER,
                },
            );
        }
    }
    proof {
        assert(r@ =~= bridged(v@));
    }
    r
}

/// Where anything was measured, a filled profile has a level everywhere, and
/// keeps those it had.
pub proof fn law_no_gap_is_left(v: Seq<u32>, i: int, k: int)
    requires
        0 <= i < v.len(),
        0 <= k < v.len(),
        measured(v[k]),
    ensures
        measured(bridged(v)[i]),
        measured(v[i]) ==> bridged(v)[i] == v[i],
{
    lemma_measured(v, i);
    if last_measured(v, i) is None {
        lemma_none_before(v, i, k);
        lemma_some_behind(v, i, k);
    }
}

proof fn lemma_none_before(v: Seq<u32>, i: int, k: int)
    requires
        0 <= i < v.len(),
        0 <= k < v.len(),
        measured(v[k]),
        last_measured(v, i) is None,
    ensures
        k > i,
    decreases i + 1,
{
    if i > 0 && k < i {
        lemma_none_before(v, i - 1, k);
    }
}

proof fn lemma_some_behind(v: Seq<u32>, i: int, k: int)
    requires
        0 <= i <= k < v.len(),
        measured(v[k]),
    ensures
        next_measured(v, i) matches Some(x) && measured(x),
    decreases k - i,
{
    if i < k && !measured(v[i]) {
        lemma_some_behind(v, i + 1, k);
    }
}

/// Single-precision numbers are in order as they are on the line of numbers, and
/// what is no number is at least nothing.
pub proof fn law_small_numbers_in_order(a: u32, b: u32)
    ensures
        nan32(a) <==> a as int % 0x8000_0000 / 0x80_0000 == 255 && a as int % 0x80_0000 != 0,
        at_least32(a, b) ==> !nan32(a) && !nan32(b),
        !nan32(a) && !nan32(b) ==> (at_least32(a, b) <==> (if a < 0x8000_0000 && b < 0x8000_0000 {
            a >= b
        } else if a < 0x8000_0000 {
            true
        } else if b < 0x8000_0000 {
            a == 0x8000_0000 && b == 0
        } else {
            a <= b
        })),
        rank32(a) < rank32(b) <==> (if a < 0x8000_0000 && b < 0x8000_0000 {
            a < b
        } else if a < 0x8000_0000 {
            false
        } else if b < 0x8000_0000 {
            true
        } else {
            a > b
        }),
{
}

/// The first value that is high enough is high enough, and none before it is;
/// where there is none, none is.
pub proof fn law_first_from(t: Seq<u32>, from: int, level: u32)
    requires
        0 <= from,
    ensures
        match first_from(t, from, level) {
            Some(i) => from <= i < t.len() && at_least32(t[i], level) && forall|k: int|
                from <= k < i ==> !at_least32(#[trigger] t[k], level),
            None => forall|k: int| from <= k < t.len() ==> !at_least32(#[trigger] t[k], level),
        },
    decreases t.len() - from,
{
    if from < t.len() && !at_least32(t[from], level) {
        law_first_from(t, from + 1, level);
    }
}

/// The values that are kept are the finite ones, as they stand.
pub proof fn law_finite_of(v: Seq<u32>)
    ensures
        finite_of(v) == v.filter(|b: u32| order::finite32(b)),
    decreases v.len(),
{
    reveal(Seq::filter);
    if v.len() > 0 {
        law_finite_of(v.drop_last());
    }
}

/// A window is as long as is asked for and has the value it is about in its
/// middle; inside the values it is the stretch of them around it, and beyond their
/// ends the end goes on.
pub proof fn law_window(v: Seq<u32>, i: int, k: int, j: int)
    requires
        0 <= i < v.len(),
        k % 2 == 1,
        k >= 1,
        0 <= j < k,
    ensures
        window(v, i, k).len() == k,
        window(v, i, k)[(k - 1) / 2] == v[i],
        0 <= i - (k - 1) / 2 && i + (k - 1) / 2 < v.len() ==> window(v, i, k) == v.subrange(
            i - (k - 1) / 2,
            i + (k + 1) / 2,
        ),
        i + j < (k - 1) / 2 ==> window(v, i, k)[j] == v[0],
        i + j - (k - 1) / 2 >= v.len() ==> window(v, i, k)[j] == v.last(),
{
    if 0 <= i - (k - 1) / 2 && i + (k - 1) / 2 < v.len() {
        assert(window(v, i, k) =~= v.subrange(i - (k - 1) / 2, i + (k + 1) / 2));
    }
}

/// A filter's window is an odd number of values, the number that is asked for or
/// one more.
pub proof fn law_window_is_odd(k: usize)
    ensures
        odd(k) % 2 == 1,
        k <= odd(k) <= k + 1,
{
}

/// The middle of an odd number of values has as many of them before it as behind
/// it, those before it no greater and those behind it no less.
pub proof fn law_middle(w: Seq<u32>, m: u32)
    requires
        w.len() % 2 == 1,
        is_middle(w, m),
    ensures
        exists|r: Seq<u32>, i: int|
            {
                &&& #[trigger] is_sorted(w, r)
                &&& r.len() == w.len()
                &&& 0 <= i < r.len()
                &&& #[trigger] r[i] == m
                &&& i == r.len() - 1 - i
            },
{
    let r = choose|r: Seq<u32>| #[trigger] is_sorted(w, r) && m == r[w.len() as int / 2];
    let p = choose|p: Seq<usize>|
        #![trigger order::is_order(ranks(w), p)]
        order::is_order(ranks(w), p) && r == p.map_values(|i: usize| w[i as int]);
    assert(p.len() == w.len());
    let i = w.len() as int / 2;
    assert(is_sorted(w, r) && r[i] == m);
}

/// Sorted values rise.
pub proof fn law_sorted_values_rise(v: Seq<u32>, r: Seq<u32>, i: int, j: int)
    requires
        is_sorted(v, r),
        0 <= i < j < r.len(),
    ensures
        rank32(r[i]) <= rank32(r[j]),
        r.len() == v.len(),
{
    let p = choose|p: Seq<usize>|
        #![trigger order::is_order(ranks(v), p)]
        order::is_order(ranks(v), p) && r == p.map_values(|i: usize| v[i as int]);
    order::law_sorted(ranks(v), p, i, j);
}

/// A value above zero stays; any other gives way to the one before it, or, at the
/// start, to the one that is given.
pub proof fn law_carried(v: Seq<u32>, last: u32, i: int)
    requires
        0 <= i < v.len(),
    ensures
        carried(v, last).len() == v.len(),
        order::above_zero32(v[i]) ==> carried(v, last)[i] == v[i],
        !order::above_zero32(v[i]) && i > 0 ==> carried(v, last)[i] == carried(v, last)[i - 1],
        !order::above_zero32(v[0]) ==> carried(v, last)[0] == last,
    decreases v.len(),
{
    let d = v.drop_last();
    if d.len() > 0 {
        law_carried(d, last, if i < d.len() {
            i
        } else {
            d.len() - 1
        });
    } else {
        assert(carried(d, last).len() == 0);
    }
}

/// The first value above zero is above zero, and none before it is.
pub proof fn law_first_above(v: Seq<u32>)
    requires
        !none_above(v),
    ensures
        exists|i: int|
            0 <= i < v.len() && #[trigger] v[i] == first_above(v) && order::above_zero32(v[i])
                && forall|k: int| 0 <= k < i ==> !order::above_zero32(#[trigger] v[k]),
    decreases v.len(),
{
    if !order::above_zero32(v[0]) {
        let s = v.skip(1);
        let j = choose|j: int| 0 <= j < v.len() && order::above_zero32(#[trigger] v[j]);
        assert(s[j - 1] == v[j]);
        law_first_above(s);
        let i = choose|i: int|
            0 <= i < s.len() && #[trigger] s[i] == first_above(s) && order::above_zero32(s[i])
                && forall|k: int| 0 <= k < i ==> !order::above_zero32(#[trigger] s[k]);
        assert(v[i + 1] == s[i]);
        assert forall|k: int| 0 <= k < i + 1 implies !order::above_zero32(#[trigger] v[k]) by {
            if k > 0 {
                assert(s[k - 1] == v[k]);
            }
        }
    } else {
        assert(v[0] == first_above(v));
    }
}

proof fn lemma_last_measured(v: Seq<u32>, i: int)
    requires
        0 <= i < v.len(),
    ensures
        match last_measured(v, i) {
            Some(x) => exists|j: int|
                0 <= j <= i && #[trigger] v[j] == x && measured(x) && forall|k: int|
                    j < k <= i ==> !measured(#[trigger] v[k]),
            None => forall|k: int| 0 <= k <= i ==> !measured(#[trigger] v[k]),
        },
    decreases i,
{
    if !measured(v[i]) {
        if i > 0 {
            lemma_last_measured(v, i - 1);
            match last_measured(v, i - 1) {
                Some(x) => {
                    let j = choose|j: int|
                        0 <= j <= i - 1 && #[trigger] v[j] == x && measured(x) && forall|k: int|
                            j < k <= i - 1 ==> !measured(#[trigger] v[k]);
                    assert(v[j] == x);
                },
                None => {},
            }
        } else {
            assert(last_measured(v, -1) is None);
        }
    } else {
        assert(v[i] == v[i]);
    }
}

proof fn lemma_next_measured(v: Seq<u32>, i: int)
    requires
        0 <= i <= v.len(),
    ensures
        match next_measured(v, i) {
            Some(x) => exists|j: int|
                i <= j < v.len() && #[trigger] v[j] == x && measured(x) && forall|k: int|
                    i <= k < j ==> !measured(#[trigger] v[k]),
            None => forall|k: int| i <= k < v.len() ==> !measured(#[trigger] v[k]),
        },
    decreases v.len() - i,
{
    if i < v.len() {
        if !measured(v[i]) {
            lemma_next_measured(v, i + 1);
            match next_measured(v, i + 1) {
                Some(x) => {
                    let j = choose|j: int|
                        i + 1 <= j < v.len() && #[trigger] v[j] == x && measured(x) && forall|
                            k: int,
                        |
                            i + 1 <= k < j ==> !measured(#[trigger] v[k]);
                    assert(v[j] == x);
                },
                None => {},
            }
        } else {
            assert(v[i] == v[i]);
        }
    }
}

/// Where gaps are bridged, a measured level stays, and a missing one is the last
/// that was measured before it; where none was, it is the first that comes after.
pub proof fn law_gaps_are_bridged(v: Seq<u32>, i: int)
    requires
        0 <= i < v.len(),
    ensures
        bridged(v).len() == v.len(),
        order::finite32(v[i]) && order::above_zero32(v[i]) ==> bridged(v)[i] == v[i],
        (exists|j: int| 0 <= j <= i && measured(#[trigger] v[j])) ==> exists|j: int|
            0 <= j <= i && #[trigger] v[j] == bridged(v)[i] && measured(v[j]) && forall|k: int|
                j < k <= i ==> !measured(#[trigger] v[k]),
        (forall|j: int| 0 <= j <= i ==> !measured(#[trigger] v[j])) && (exists|j: int|
            i <= j < v.len() && measured(#[trigger] v[j])) ==> exists|j: int|
            i <= j < v.len() && #[trigger] v[j] == bridged(v)[i] && measured(v[j]) && forall|k: int|
                i <= k < j ==> !measured(#[trigger] v[k]),
{
    lemma_last_measured(v, i);
    lemma_next_measured(v, i);
}

} // verus!
