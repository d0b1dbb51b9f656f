//! Putting things in order, stably.

use vstd::prelude::*;

verus! {

/// Whether item `a` comes before item `b`: by key, and as they came where the
/// keys are equal.
pub open spec fn before(keys: Seq<i64>, a: int, b: int) -> bool {
    keys[a] < keys[b] || (keys[a] == keys[b] && a < b)
}

/// Whether `p` lists items of `lo..hi`, each before the next.
pub open spec fn in_order(keys: Seq<i64>, p: Seq<usize>, lo: int, hi: int) -> bool {
    &&& forall|i: int| 0 <= i < p.len() ==> lo <= #[trigger] p[i] < hi
    &&& forall|i: int, j: int|
        0 <= i < j < p.len() ==> before(keys, #[trigger] p[i] as int, #[trigger] p[j] as int)
}

/// Whether `p` lists every item of `lo..hi`.
pub open spec fn lists_all(p: Seq<usize>, lo: int, hi: int) -> bool {
    forall|k: usize| lo <= k < hi ==> #[trigger] p.contains(k)
}

/// Whether `p` is the order that a stable sort by key puts items in: every item
/// once, each before the next.
pub open spec fn is_order(keys: Seq<i64>, p: Seq<usize>) -> bool {
    &&& p.len() == keys.len()
    &&& in_order(keys, p, 0, keys.len() as int)
    &&& lists_all(p, 0, keys.len() as int)
}

fn merge(keys: &Vec<i64>, a: &Vec<usize>, b: &Vec<usize>, lo: usize, mid: usize, hi: usize) -> (r:
    Vec<usize>)
    requires
        lo <= mid <= hi <= keys@.len(),
        in_order(keys@, a@, lo as int, mid as int),
        in_order(keys@, b@, mid as int, hi as int),
        lists_all(a@, lo as int, mid as int),
        lists_all(b@, mid as int, hi as int),
    ensures
        in_order(keys@, r@, lo as int, hi as int),
        lists_all(r@, lo as int, hi as int),
        r@.len() == a@.len() + b@.len(),
{
    let mut r: Vec<usize> = Vec::new();
    let mut i: usize = 0;
    let mut j: usize = 0;
    while i < a.len() || j < b.len()
        invariant
            lo <= mid <= hi <= keys@.len(),
            in_order(keys@, a@, lo as int, mid as int),
            in_order(keys@, b@, mid as int, hi as int),
            in_order(keys@, r@, lo as int, hi as int),
            i <= a@.len(),
            j <= b@.len(),
            r@.len() == i + j,
            forall|m: int| 0 <= m < i ==> r@.contains(#[trigger] a@[m]),
            forall|m: int| 0 <= m < j ==> r@.contains(#[trigger] b@[m]),
            forall|k: int, m: int|
                0 <= k < r@.len() && i <= m < a@.len() ==> before(
                    keys@,
                    #[trigger] r@[k] as int,
                    #[trigger] a@[m] as int,
                ),
            forall|k: int, m: int|
                0 <= k < r@.len() && j <= m < b@.len() ==> before(
                    keys@,
                    #[trigger] r@[k] as int,
                    #[trigger] b@[m] as int,
                ),
        decreases a.len() - i + b.len() - j,
    {
        let left = if i >= a.len() {
            false
        } else if j >= b.len() {
            true
        } else {
            proof {
                assert(a@[i as int] < mid <= b@[j as int]);
            }
            keys[a[i]] <= keys[b[j]]
        };
        let ghost was = r@;
        if left {
            r.push(a[i]);
            proof {
                if j < b@.len() {
                    assert(before(keys@, a@[i as int] as int, b@[j as int] as int));
                    assert forall|m: int| j <= m < b@.len() implies before(
                        keys@,
                        a@[i as int] as int,
                        #[trigger] b@[m] as int,
                    ) by {
                        if m > j {
                            assert(before(keys@, b@[j as int] as int, b@[m] as int));
                        }
                    }
                }
            }
            i += 1;
        } else {
            r.push(b[j]);
            proof {
                if i < a@.len() {
                    assert(before(keys@, b@[j as int] as int, a@[i as int] as int));
                    assert forall|m: int| i <= m < a@.len() implies before(
                        keys@,
                        b@[j as int] as int,
                        #[trigger] a@[m] as int,
                    ) by {
                        if m > i {
                            assert(before(keys@, a@[i as int] as int, a@[m] as int));
                        }
                    }
                }
            }
            j += 1;
        }
        proof {
            assert forall|x: usize| was.contains(x) implies r@.contains(x) by {
                let at = choose|at: int| 0 <= at < was.len() && was[at] == x;
                assert(r@[at] == x);
            }
            assert(r@[r@.len() - 1] == r@.last());
            assert(r@.contains(r@.last()));
        }
    }
    proof {
        assert forall|k: usize| lo <= k < hi implies #[trigger] r@.contains(k) by {
            if k < mid {
                assert(a@.contains(k));
                let m = choose|m: int| 0 <= m < a@.len() && a@[m] == k;
                assert(r@.contains(a@[m]));
            } else {
                assert(b@.contains(k));
                let m = choose|m: int| 0 <= m < b@.len() && b@[m] == k;
                assert(r@.contains(b@[m]));
            }
        }
    }
    r
}

fn sort_range(keys: &Vec<i64>, lo: usize, hi: usize) -> (r: Vec<usize>)
    requires
        lo <= hi <= keys@.len(),
    ensures
        in_order(keys@, r@, lo as int, hi as int),
        lists_all(r@, lo as int, hi as int),
        r@.len() == hi - lo,
    decreases hi - lo,
{
    if hi - lo <= 1 {
        let mut r: Vec<usize> = Vec::new();
        if lo < hi {
            r.push(lo);
            proof {
                assert(r@[0] == lo);
            }
        }
        return r;
    }
    let mid: usize = lo + (hi - lo) / 2;
    let a = sort_range(keys, lo, mid);
    let b = sort_range(keys, mid, hi);
    merge(keys, &a, &b, lo, mid, hi)
}

/// The order that a stable sort by key puts items in.
pub fn sort_order(keys: &Vec<i64>) -> (p: Vec<usize>)
    ensures
        is_order(keys@, p@),
{
    sort_range(keys, 0, keys.len())
}

/// Where a double-precision number stands in the total order of such numbers,
/// from its bits: negative numbers count down from minus one, whatever their
/// bits say, and the others count up from zero.
pub open spec fn total_key(bits: u64) -> int {
    if bits < 9223372036854775808 {
        bits as int
    } else {
        9223372036854775807 - bits
    }
}

/// Where a double-precision number stands in the total order of such numbers.
pub fn total_order_key(bits: u64) -> (k: i64)
    ensures
        k == total_key(bits),
{
    if bits < 9223372036854775808 {
        bits as i64
    } else {
        -((bits - 9223372036854775808) as i64) - 1
    }
}

/// The value of a double-precision number, up to a scale that keeps order,
/// from its bits. Both zeros count as zero.
pub open spec fn value_key(bits: u64) -> int {
    if bits < 9223372036854775808 {
        bits as int
    } else {
        9223372036854775808 - bits
    }
}

/// Whether a double-precision number is not a number at all.
pub open spec fn nan64(bits: u64) -> bool {
    bits as int % 0x8000_0000_0000_0000 > 0x7ff0_0000_0000_0000
}

/// Whether one double-precision number is less than another, from their bits.
pub open spec fn less64(a: u64, b: u64) -> bool {
    !nan64(a) && !nan64(b) && value_key(a) < value_key(b)
}

/// Whether one double-precision number is less than another, from their bits.
pub fn is_less64(a: u64, b: u64) -> (r: bool)
    ensures
        r == less64(a, b),
{
    if is_nan64(a) || is_nan64(b) {
        return false;
    }
    value_order_key(a) < value_order_key(b)
}

/// Whether a double-precision number is not a number at all.
pub fn is_nan64(bits: u64) -> (r: bool)
    ensures
        r == nan64(bits),
{
    bits % 0x8000_0000_0000_0000 > 0x7ff0_0000_0000_0000
}

fn value_order_key(bits: u64) -> (k: i64)
    ensures
        k == value_key(bits),
{
    if bits < 9223372036854775808 {
        bits as i64
    } else {
        -((bits - 9223372036854775808) as i64)
    }
}

/// The lesser of two double-precision numbers. What is not a number gives way.
pub open spec fn min64(a: u64, b: u64) -> u64 {
    if nan64(a) {
        b
    } else if nan64(b) || !less64(b, a) {
        a
    } else {
        b
    }
}

/// The greater of two double-precision numbers. What is not a number gives way.
pub open spec fn max64(a: u64, b: u64) -> u64 {
    if nan64(a) {
        b
    } else if nan64(b) || !less64(a, b) {
        a
    } else {
        b
    }
}

/// The lesser of two double-precision numbers.
pub fn lesser64(a: u64, b: u64) -> (r: u64)
    ensures
        r == min64(a, b),
{
    if is_nan64(a) {
        b
    } else if is_nan64(b) || !is_less64(b, a) {
        a
    } else {
        b
    }
}

/// The greater of two double-precision numbers.
pub fn greater64(a: u64, b: u64) -> (r: u64)
    ensures
        r == max64(a, b),
{
    if is_nan64(a) {
        b
    } else if is_nan64(b) || !is_less64(a, b) {
        a
    } else {
        b
    }
}

/// Whether a single-precision number is above zero, from its bits.
pub open spec fn above_zero32(bits: u32) -> bool {
    0 < bits <= 0x7f80_0000
}

/// Whether a single-precision number is above zero, from its bits.
pub fn is_above_zero32(bits: u32) -> (r: bool)
    ensures
        r == above_zero32(bits),
{
    0 < bits && bits <= 0x7f80_0000
}

/// Whether a single-precision number is finite, from its bits.
pub open spec fn finite32(bits: u32) -> bool {
    bits as int % 0x8000_0000 < 0x7f80_0000
}

/// Whether a single-precision number is finite, from its bits.
pub fn is_finite32(bits: u32) -> (r: bool)
    ensures
        r == finite32(bits),
{
    bits % 0x8000_0000 < 0x7f80_0000
}

/// Whether a double-precision number is finite, from its bits.
pub open spec fn finite64(bits: u64) -> bool {
    bits as int % 0x8000_0000_0000_0000 < 0x7ff0_0000_0000_0000
}

/// Whether a double-precision number is finite, from its bits.
pub fn is_finite64(bits: u64) -> (r: bool)
    ensures
        r == finite64(bits),
{
    bits % 0x8000_0000_0000_0000 < 0x7ff0_0000_0000_0000
}

// ---- laws ----------------------------------------------------------------------

/// Whether the sign of a double-precision number is set.
pub open spec fn negative64(bits: u64) -> bool {
    bits as int / 0x8000_0000_0000_0000 == 1
}

/// A double-precision number without its sign.
pub open spec fn size64(bits: u64) -> int {
    bits as int % 0x8000_0000_0000_0000
}

/// A number is none at all just where all bits of its exponent are set and one
/// of its fraction is, and finite where one bit of its exponent is not set.
pub proof fn law_what_numbers_are(d: u64, s: u32)
    ensures
        nan64(d) <==> size64(d) / 0x10_0000_0000_0000 == 2047 && size64(d) % 0x10_0000_0000_0000
            != 0,
        finite64(d) <==> size64(d) / 0x10_0000_0000_0000 < 2047,
        finite32(s) <==> s as int % 0x8000_0000 / 0x80_0000 < 255,
        above_zero32(s) <==> s < 0x8000_0000 && s != 0 && (s as int / 0x80_0000 < 255 || s as int
            % 0x80_0000 == 0),
{
}

/// Numbers are in order as they are on the line of numbers: a negative one comes
/// before one that is not, and of two with the same sign the one that is further
/// from zero comes further out. The two zeros are equal in value, and in the total
/// order the negative one comes first.
pub proof fn law_numbers_in_order(a: u64, b: u64)
    ensures
        less64(a, b) <==> !nan64(a) && !nan64(b) && (if negative64(a) && negative64(b) {
            size64(b) < size64(a)
        } else if negative64(a) {
            size64(a) > 0 || size64(b) > 0
        } else {
            !negative64(b) && size64(a) < size64(b)
        }),
        total_key(a) < total_key(b) <==> (if negative64(a) && negative64(b) {
            size64(b) < size64(a)
        } else if negative64(a) {
            true
        } else {
            !negative64(b) && size64(a) < size64(b)
        }),
        total_key(a) == total_key(b) <==> a == b,
{
}

/// The lesser of two numbers is one of them, and neither is less; the greater is
/// one of them, and is less than neither; what is no number loses to one that is.
pub proof fn law_lesser_and_greater(a: u64, b: u64)
    ensures
        min64(a, b) == a || min64(a, b) == b,
        max64(a, b) == a || max64(a, b) == b,
        !less64(a, min64(a, b)) && !less64(b, min64(a, b)),
        !less64(max64(a, b), a) && !less64(max64(a, b), b),
        nan64(min64(a, b)) ==> nan64(a) && nan64(b),
        nan64(max64(a, b)) ==> nan64(a) && nan64(b),
{
}

/// Items that have been put in order come by rising key, and those with the same
/// key as they came.
pub proof fn law_sorted(keys: Seq<i64>, p: Seq<usize>, i: int, j: int)
    requires
        is_order(keys, p),
        0 <= i < j < p.len(),
    ensures
        keys[p[i] as int] <= keys[p[j] as int],
        keys[p[i] as int] == keys[p[j] as int] ==> p[i] < p[j],
        p[i] != p[j],
{
    assert(before(keys, p[i] as int, p[j] as int));
}

} // verus!
