//! The chart tiles that are still to be fetched.
//!
//! Panning asks for tiles faster than they arrive, so what was asked for last
//! is fetched first, a tile is asked for once however often it is wanted, and
//! what has waited too long is dropped and may be asked for again.

use vstd::prelude::*;

use crate::text::{copy, same};

verus! {

/// How many tiles may wait.
pub const FETCH_BACKLOG: usize = 96;

/// A tile: the layer it is of, the zoom level, and its column and row.
pub struct Key {
    pub layer: String,
    pub z: u32,
    pub x: i64,
    pub y: i64,
}

impl View for Key {
    type V = (Seq<char>, u32, i64, i64);

    open spec fn view(&self) -> (Seq<char>, u32, i64, i64) {
        (self.layer@, self.z, self.x, self.y)
    }
}

impl Key {
    /// The same tile.
    pub fn copied(&self) -> (r: Key)
        ensures
            r@ == self@,
    {
        Key { layer: copy(self.layer.as_str()), z: self.z, x: self.x, y: self.y }
    }

    fn is(&self, other: &Key) -> (r: bool)
        ensures
            r == (self@ == other@),
    {
        self.z == other.z && self.x == other.x && self.y == other.y && same(
            self.layer.as_str(),
            other.layer.as_str(),
        )
    }
}

/// Keys as values.
pub open spec fn keys(v: Seq<Key>) -> Seq<(Seq<char>, u32, i64, i64)> {
    v.map_values(|k: Key| k@)
}

fn find(v: &Vec<Key>, key: &Key) -> (r: usize)
    ensures
        r <= v@.len(),
        r < v@.len() ==> keys(v@)[r as int] == key@,
        r == v@.len() ==> !keys(v@).contains(key@),
{
    let mut i: usize = 0;
    while i < v.len()
        invariant
            i <= v@.len(),
            forall|j: int| 0 <= j < i ==> keys(v@)[j] != key@,
        decreases v.len() - i,
    {
        if v[i].is(key) {
            return i;
        }
        i += 1;
    }
    i
}

/// What is waiting, and what nobody else may ask for.
pub struct Queue {
    /// The tiles that wait, the one asked for last at the end.
    pub want: Vec<Key>,
    /// The tiles that wait or are being fetched.
    pub claimed: Vec<Key>,
}

impl Queue {
    /// The tiles that wait, oldest first.
    pub open spec fn waiting(self) -> Seq<(Seq<char>, u32, i64, i64)> {
        keys(self.want@)
    }

    /// Whether a tile waits or is being fetched.
    pub open spec fn holds(self, k: (Seq<char>, u32, i64, i64)) -> bool {
        keys(self.claimed@).contains(k)
    }

    /// No more wait than may; none twice; and each of them is claimed.
    pub open spec fn valid(self) -> bool {
        &&& self.want@.len() <= FETCH_BACKLOG
        &&& self.waiting().no_duplicates()
        &&& keys(self.claimed@).no_duplicates()
        &&& forall|k: (Seq<char>, u32, i64, i64)| #[trigger]
            self.waiting().contains(k) ==> self.holds(k)
    }

    /// Nothing is waiting.
    pub fn new() -> (q: Queue)
        ensures
            q.valid(),
            q.waiting() == Seq::<(Seq<char>, u32, i64, i64)>::empty(),
            forall|k: (Seq<char>, u32, i64, i64)| !#[trigger] q.holds(k),
    {
        let q = Queue { want: Vec::new(), claimed: Vec::new() };
        proof {
            assert(q.waiting() =~= Seq::empty());
            assert(keys(q.claimed@) =~= Seq::empty());
        }
        q
    }

    fn unclaim(claimed: &mut Vec<Key>, key: &Key)
        requires
            keys(old(claimed)@).no_duplicates(),
        ensures
            keys(final(claimed)@).no_duplicates(),
            forall|k: (Seq<char>, u32, i64, i64)| #[trigger]
                keys(final(claimed)@).contains(k) == (keys(old(claimed)@).contains(k) && k != key@),
    {
        let i = find(claimed, key);
        let ghost before = keys(claimed@);
        if i < claimed.len() {
            claimed.remove(i);
            let ghost after = keys(claimed@);
            proof {
                assert(after =~= before.remove(i as int));
                assert forall|a: int, b: int|
                    0 <= a < b < after.len() implies after[a] != after[b] by {
                    let a1 = if a < i { a } else { a + 1 };
                    let b1 = if b < i { b } else { b + 1 };
                    assert(after[a] == before[a1] && after[b] == before[b1]);
                }
                assert forall|k: (Seq<char>, u32, i64, i64)| #[trigger]
                    after.contains(k) == (before.contains(k) && k != key@) by {
                    if after.contains(k) {
                        let a = choose|a: int| 0 <= a < after.len() && after[a] == k;
                        let a1 = if a < i { a } else { a + 1 };
                        assert(before[a1] == k);
                    }
                    if before.contains(k) && k != key@ {
                        let a = choose|a: int| 0 <= a < before.len() && before[a] == k;
                        let a1 = if a < i { a } else { a - 1 };
                        assert(after[a1] == k);
                    }
                }
            }
        }
    }

    /// Ask for a tile. One that waits already, or is being fetched, is not
    /// asked for again; where too many wait, the oldest is given up.
    pub fn want(&mut self, key: Key)
        requires
            old(self).valid(),
        ensures
            final(self).valid(),
            old(self).holds(key@) ==> *final(self) == *old(self),
            !old(self).holds(key@) ==> final(self).waiting() == (if old(self).waiting().len() < FETCH_BACKLOG {
                old(self).waiting().push(key@)
            } else {
                old(self).waiting().skip(1).push(key@)
            }),
            !old(self).holds(key@) ==> forall|k: (Seq<char>, u32, i64, i64)| #[trigger]
                final(self).holds(k) == (k == key@ || (old(self).holds(k) && !(
                old(self).waiting().len() == FETCH_BACKLOG && k == old(self).waiting()[0]))),
    {
        let ghost waited = self.waiting();
        let ghost held = keys(self.claimed@);
        if find(&self.claimed, &key) < self.claimed.len() {
            return;
        }
        proof {
            assert(!waited.contains(key@));
        }
        let ghost k0 = key@;
        self.claimed.push(key.copied());
        proof {
            assert(keys(self.claimed@) =~= held.push(k0));
            lemma_pushed(held, k0);
        }
        self.want.push(key);
        proof {
            assert(self.waiting() =~= waited.push(k0));
            lemma_pushed(waited, k0);
        }
        if self.want.len() > FETCH_BACKLOG {
            let old = self.want.remove(0);
            proof {
                assert(old@ == waited[0]);
                assert(self.waiting() =~= waited.skip(1).push(k0));
                lemma_skipped(waited.push(k0));
                assert(waited.push(k0).skip(1) =~= waited.skip(1).push(k0));
            }
            Queue::unclaim(&mut self.claimed, &old);
        }
    }

    /// The tile to fetch next: the one asked for last.
    pub fn next(&mut self) -> (r: Option<Key>)
        requires
            old(self).valid(),
        ensures
            final(self).valid(),
            r is Some == (old(self).waiting().len() > 0),
            r is None ==> final(self).waiting() == old(self).waiting(),
            r matches Some(k) ==> k@ == old(self).waiting().last() && final(self).waiting() == old(
                self,
            ).waiting().drop_last() && !final(self).waiting().contains(k@) && final(self).holds(k@),
            final(self).claimed == old(self).claimed,
    {
        let ghost waited = self.waiting();
        let r = self.want.pop();
        proof {
            if waited.len() > 0 {
                assert(self.waiting() =~= waited.drop_last());
                let k = waited.last();
                assert(waited[waited.len() - 1] == k);
                assert(waited.contains(k));
                assert forall|o: (Seq<char>, u32, i64, i64)| #[trigger]
                    self.waiting().contains(o) implies self.holds(o) by {
                    let i = choose|i: int| 0 <= i < self.waiting().len() && self.waiting()[i] == o;
                    assert(waited[i] == o);
                    assert(waited.contains(o));
                }
            } else {
                assert(self.want@ =~= old(self).want@);
            }
        }
        r
    }

    /// A tile has been fetched, or could not be: it may be asked for again.
    pub fn done(&mut self, key: &Key)
        requires
            old(self).valid(),
            !old(self).waiting().contains(key@),
        ensures
            final(self).valid(),
            final(self).waiting() == old(self).waiting(),
            forall|k: (Seq<char>, u32, i64, i64)| #[trigger]
                final(self).holds(k) == (old(self).holds(k) && k != key@),
    {
        Queue::unclaim(&mut self.claimed, key);
    }
}

proof fn lemma_pushed(s: Seq<(Seq<char>, u32, i64, i64)>, k: (Seq<char>, u32, i64, i64))
    requires
        s.no_duplicates(),
        !s.contains(k),
    ensures
        s.push(k).no_duplicates(),
        forall|o: (Seq<char>, u32, i64, i64)| #[trigger]
            s.push(k).contains(o) == (s.contains(o) || o == k),
{
    assert forall|o: (Seq<char>, u32, i64, i64)| #[trigger]
        s.push(k).contains(o) == (s.contains(o) || o == k) by {
        if s.contains(o) {
            let i = choose|i: int| 0 <= i < s.len() && s[i] == o;
            assert(s.push(k)[i] == o);
        }
        assert(s.push(k)[s.len() as int] == k);
    }
}

proof fn lemma_skipped(s: Seq<(Seq<char>, u32, i64, i64)>)
    requires
        s.no_duplicates(),
        s.len() > 0,
    ensures
        s.skip(1).no_duplicates(),
        forall|o: (Seq<char>, u32, i64, i64)| #[trigger]
            s.skip(1).contains(o) == (s.contains(o) && o != s[0]),
{
    assert forall|o: (Seq<char>, u32, i64, i64)| #[trigger]
        s.skip(1).contains(o) == (s.contains(o) && o != s[0]) by {
        if s.contains(o) && o != s[0] {
            let i = choose|i: int| 0 <= i < s.len() && s[i] == o;
            assert(s.skip(1)[i - 1] == o);
        }
        if s.skip(1).contains(o) {
            let i = choose|i: int| 0 <= i < s.skip(1).len() && s.skip(1)[i] == o;
            assert(s[i + 1] == o);
        }
    }
}

} // verus!
