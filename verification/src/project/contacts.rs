//! What was marked on the seabed.
//!
//! A contact is a person's observation and cannot be recreated from anything
//! else in the workspace, so nothing is written back over a file that could not
//! be understood.

use vstd::prelude::*;

use crate::text;
use crate::text::{chars_of, copy, parse_unsigned, part, push_dec, push_padded, push_str, same};

verus! {

/// A contact: what names and dates it, and everything else there is to it.
#[derive(Debug)]
pub struct Contact<T> {
    pub id: String,
    pub created: String,
    pub modified: String,
    pub rest: T,
}

/// Every contact in a project.
#[derive(Debug)]
pub struct Contacts<T> {
    /// Set when the file could not be read: an empty list saved over a file
    /// full of contacts is a silent deletion of work that cannot be redone.
    pub sealed: bool,
    pub items: Vec<Contact<T>>,
}

/// A contact's names and dates, and the rest of it.
pub struct Mark<T> {
    pub id: Seq<char>,
    pub created: Seq<char>,
    pub modified: Seq<char>,
    pub rest: T,
}

impl<T> View for Contact<T> {
    type V = Mark<T>;

    open spec fn view(&self) -> Mark<T> {
        Mark {
            id: self.id@,
            created: self.created@,
            modified: self.modified@,
            rest: self.rest,
        }
    }
}

pub open spec fn marks<T>(v: Seq<Contact<T>>) -> Seq<Mark<T>> {
    v.map_values(|c: Contact<T>| c@)
}

/// The number of a contact whose identifier is a `C` and a number.
pub open spec fn number_in(id: Seq<char>) -> nat {
    if id.len() > 0 && id[0] == 'C' {
        match text::unsigned_of(id.skip(1)) {
            Some(n) if n <= u32::MAX => n,
            _ => 0,
        }
    } else {
        0
    }
}

/// The highest number of some contacts.
pub open spec fn highest<T>(ms: Seq<Mark<T>>) -> nat
    decreases ms.len(),
{
    if ms.len() == 0 {
        0
    } else {
        let h = highest(ms.drop_last());
        let n = number_in(ms.last().id);
        if n > h {
            n
        } else {
            h
        }
    }
}

/// The identifier of the `n`th contact.
pub open spec fn numbered(n: nat) -> Seq<char> {
    "C"@ + text::padded(n, 3)
}

/// The first contact with the given identifier.
pub open spec fn first_with<T>(ms: Seq<Mark<T>>, id: Seq<char>) -> Option<int>
    decreases ms.len(),
{
    if ms.len() == 0 {
        None
    } else {
        match first_with(ms.drop_last(), id) {
            Some(i) => Some(i),
            None => if ms.last().id == id {
                Some(ms.len() - 1)
            } else {
                None
            },
        }
    }
}

/// A contact as it is kept: with an identifier of its own, and dated.
pub open spec fn dated<T>(ms: Seq<Mark<T>>, c: Mark<T>, now: Seq<char>) -> Mark<T> {
    Mark {
        id: if c.id.len() == 0 {
            numbered(highest(ms) + 1)
        } else {
            c.id
        },
        created: if c.created.len() == 0 {
            now
        } else {
            c.created
        },
        modified: now,
        rest: c.rest,
    }
}

/// Contacts with one put in: in place of the one with its identifier, or at the
/// end.
pub open spec fn upserted<T>(ms: Seq<Mark<T>>, c: Mark<T>) -> Seq<Mark<T>> {
    match first_with(ms, c.id) {
        Some(i) => ms.update(i, c),
        None => ms.push(c),
    }
}

/// Contacts without those of the given identifier.
pub open spec fn without<T>(ms: Seq<Mark<T>>, id: Seq<char>) -> Seq<Mark<T>>
    decreases ms.len(),
{
    if ms.len() == 0 {
        Seq::empty()
    } else {
        let front = without(ms.drop_last(), id);
        if ms.last().id == id {
            front
        } else {
            front.push(ms.last())
        }
    }
}

proof fn lemma_first_with<T>(ms: Seq<Mark<T>>, id: Seq<char>)
    ensures
        first_with(ms, id) matches Some(i) ==> 0 <= i < ms.len() && ms[i].id == id,
        first_with(ms, id) is None ==> forall|i: int|
            0 <= i < ms.len() ==> (#[trigger] ms[i]).id != id,
    decreases ms.len(),
{
    if ms.len() > 0 {
        lemma_first_with(ms.drop_last(), id);
        if first_with(ms, id) is None {
            assert forall|i: int| 0 <= i < ms.len() implies (#[trigger] ms[i]).id != id by {
                if i < ms.len() - 1 {
                    assert(ms.drop_last()[i].id != id);
                }
            }
        }
    }
}

proof fn lemma_highest<T>(ms: Seq<Mark<T>>, i: int)
    requires
        0 <= i < ms.len(),
    ensures
        number_in(ms[i].id) <= highest(ms),
    decreases ms.len(),
{
    if i < ms.len() - 1 {
        lemma_highest(ms.drop_last(), i);
    }
}

proof fn lemma_highest_small<T>(ms: Seq<Mark<T>>)
    ensures
        highest(ms) <= u32::MAX,
    decreases ms.len(),
{
    if ms.len() > 0 {
        lemma_highest_small(ms.drop_last());
    }
}

fn number_of_id(id: &str) -> (n: u64)
    ensures
        n == number_in(id@),
        n <= u32::MAX,
{
    let v = chars_of(id);
    if v.len() == 0 || v[0] != 'C' {
        return 0;
    }
    let d = part(v.as_slice(), 1, v.len());
    proof {
        assert(d@ =~= id@.skip(1));
    }
    match parse_unsigned(d.as_slice(), 0xffff_ffff) {
        Some(n) => n,
        None => 0,
    }
}

impl<T> Contacts<T> {
    /// A list of which nothing may be written back.
    pub fn sealed() -> (c: Contacts<T>)
        ensures
            c.sealed,
            c.items@ == Seq::<Contact<T>>::empty(),
    {
        Contacts { items: Vec::new(), sealed: true }
    }

    /// Whether the list may be written back over the file it came from.
    pub fn may_be_saved(&self) -> (r: bool)
        ensures
            r == !self.sealed,
    {
        !self.sealed
    }

    /// The next free `C###` identifier.
    pub fn next_id(&self) -> (s: String)
        ensures
            s@ == numbered(highest(marks(self.items@)) + 1),
    {
        let ghost ms = marks(self.items@);
        let mut n: u64 = 0;
        let mut i: usize = 0;
        while i < self.items.len()
            invariant
                i <= self.items@.len(),
                ms == marks(self.items@),
                n == highest(ms.take(i as int)),
                n <= u32::MAX,
            decreases self.items.len() - i,
        {
            proof {
                assert(ms.take(i + 1).drop_last() =~= ms.take(i as int));
                assert(ms.take(i + 1).last().id == self.items@[i as int].id@);
            }
            let v = number_of_id(self.items[i].id.as_str());
            if v > n {
                n = v;
            }
            i += 1;
        }
        proof {
            assert(ms.take(self.items@.len() as int) =~= ms);
        }
        let mut s = copy("C");
        push_padded(&mut s, n + 1, 3);
        s
    }

    /// Where the contact with the given identifier is.
    pub fn get(&self, id: &str) -> (r: Option<usize>)
        ensures
            match first_with(marks(self.items@), id@) {
                None => r is None,
                Some(i) => r matches Some(x) && x == i && x < self.items@.len(),
            },
    {
        let ghost ms = marks(self.items@);
        let mut found: Option<usize> = None;
        let mut i: usize = 0;
        while i < self.items.len()
            invariant
                i <= self.items@.len(),
                ms == marks(self.items@),
                match first_with(ms.take(i as int), id@) {
                    None => found is None,
                    Some(k) => found matches Some(x) && x == k && x < i,
                },
            decreases self.items.len() - i,
        {
            proof {
                assert(ms.take(i + 1).drop_last() =~= ms.take(i as int));
                assert(ms.take(i + 1).last().id == self.items@[i as int].id@);
            }
            if found.is_none() && same(self.items[i].id.as_str(), id) {
                found = Some(i);
            }
            i += 1;
        }
        proof {
            assert(ms.take(self.items@.len() as int) =~= ms);
        }
        found
    }

    /// Put a contact in, and say under which identifier.
    pub fn upsert(&mut self, c: Contact<T>, now: &str) -> (id: String)
        ensures
            marks(final(self).items@) == upserted(
                marks(old(self).items@),
                dated(marks(old(self).items@), c@, now@),
            ),
            id@ == dated(marks(old(self).items@), c@, now@).id,
            final(self).sealed == old(self).sealed,
    {
        let ghost ms = marks(self.items@);
        let id = if c.id.as_str().unicode_len() == 0 { self.next_id() } else { c.id };
        let created = if c.created.as_str().unicode_len() == 0 { copy(now) } else { c.created };
        let kept = Contact {
            id: copy(id.as_str()),
            created,
            modified: copy(now),
            rest: c.rest,
        };
        proof {
            assert(kept@ == dated(ms, c@, now@));
        }
        match self.get(id.as_str()) {
            Some(i) => {
                self.items.set(i, kept);
                proof {
                    assert(marks(self.items@) =~= ms.update(i as int, kept@));
                }
            },
            None => {
                self.items.push(kept);
                proof {
                    assert(marks(self.items@) =~= ms.push(kept@));
                }
            },
        }
        id
    }

    /// Take a contact out, and say whether there was one.
    pub fn remove(&mut self, id: &str) -> (r: bool)
        ensures
            marks(final(self).items@) == without(marks(old(self).items@), id@),
            r == (marks(final(self).items@).len() != marks(old(self).items@).len()),
            final(self).sealed == old(self).sealed,
    {
        let ghost ms = marks(self.items@);
        let n: usize = self.items.len();
        let mut kept: Vec<Contact<T>> = Vec::new();
        let mut rest: Vec<Contact<T>> = Vec::new();
        std::mem::swap(&mut rest, &mut self.items);
        let ghost all = rest@;
        proof {
            assert(marks(rest@) =~= ms);
            assert(ms.take(rest@.len() as int) =~= ms);
            assert(marks(kept@).reverse() =~= Seq::<Mark<T>>::empty());
            assert(without(ms, id@) + Seq::<Mark<T>>::empty() =~= without(ms, id@));
        }
        // Taken from the end, so that no item is moved more than once; what is
        // kept comes out the other way round.
        while rest.len() > 0
            invariant
                rest@ == all.take(rest@.len() as int),
                rest@.len() <= all.len(),
                ms == marks(all),
                without(ms, id@) == without(ms.take(rest@.len() as int), id@) + marks(
                    kept@,
                ).reverse(),
            decreases rest.len(),
        {
            let ghost k = rest@.len() as int;
            let c = rest.pop();
            proof {
                assert(rest@ =~= all.take(k - 1));
                assert(ms.take(k).drop_last() =~= ms.take(k - 1));
                assert(ms.take(k).last() == all[k - 1]@);
            }
            if let Some(c) = c {
                let ghost was = kept@;
                if !same(c.id.as_str(), id) {
                    kept.push(c);
                    proof {
                        let front = without(ms.take(k - 1), id@);
                        assert(marks(kept@) =~= marks(was).push(c@));
                        assert(marks(kept@).reverse() =~= seq![c@] + marks(was).reverse());
                        assert(front.push(c@) + marks(was).reverse() =~= front + marks(
                            kept@,
                        ).reverse());
                    }
                }
            }
        }
        proof {
            assert(ms.take(0) =~= Seq::<Mark<T>>::empty());
            assert(without(ms, id@) =~= marks(kept@).reverse());
        }
        let mut out: Vec<Contact<T>> = Vec::new();
        let ghost back = kept@;
        while kept.len() > 0
            invariant
                kept@ == back.take(kept@.len() as int),
                kept@.len() <= back.len(),
                marks(back).reverse() == marks(out@) + marks(kept@).reverse(),
            decreases kept.len(),
        {
            let ghost k = kept@.len() as int;
            let ghost was = marks(kept@);
            let c = kept.pop();
            if let Some(c) = c {
                let ghost before = marks(out@);
                out.push(c);
                proof {
                    assert(kept@ =~= back.take(k - 1));
                    assert(c == back[k - 1]);
                    assert(was =~= marks(kept@).push(c@));
                    assert(was.reverse() =~= seq![c@] + marks(kept@).reverse());
                    assert(marks(out@) =~= before.push(c@));
                    assert(before + (seq![c@] + marks(kept@).reverse()) =~= marks(out@) + marks(
                        kept@,
                    ).reverse());
                }
            }
        }
        proof {
            assert(marks(kept@).reverse() =~= Seq::<Mark<T>>::empty());
            assert(marks(out@) =~= without(ms, id@));
        }
        self.items = out;
        self.items.len() != n
    }
}

// ---- files ---------------------------------------------------------------------

/// What is said where some contacts in a file could not be read.
pub open spec fn refusal(read: nat, total: nat, path: Seq<char>) -> Seq<char> {
    text::dec((total - read) as nat) + " of "@ + text::dec(total) + " contacts in "@ + path
        + " could not be read; refusing to open the project rather than overwrite them"@
}

/// Whether a file's contacts may be taken, and what is said where not: only
/// where every one of them could be read.
pub fn check_read(read: usize, total: usize, path: &str) -> (r: Result<(), String>)
    requires
        read <= total,
    ensures
        read == total ==> r is Ok,
        read < total ==> (r matches Err(s) && s@ == refusal(
            read as nat,
            total as nat,
            path@,
        )),
{
    if read == total {
        return Ok(());
    }
    let mut s = String::new();
    push_dec(&mut s, (total - read) as u64);
    push_str(&mut s, " of ");
    push_dec(&mut s, total as u64);
    push_str(&mut s, " contacts in ");
    push_str(&mut s, path);
    push_str(
        &mut s,
        " could not be read; refusing to open the project rather than overwrite them",
    );
    proof {
        assert(s@ =~= refusal(read as nat, total as nat, path@));
    }
    Err(s)
}

// ---- laws ----------------------------------------------------------------------

/// Whether no two contacts have the same identifier.
pub open spec fn ids_differ<T>(ms: Seq<Mark<T>>) -> bool {
    forall|i: int, j: int|
        0 <= i < j < ms.len() ==> (#[trigger] ms[i]).id != (#[trigger] ms[j]).id
}

/// A contact that was put in is found under its identifier, and no other
/// contact's identifier comes to be the same as another's.
pub proof fn law_upsert_finds<T>(ms: Seq<Mark<T>>, c: Mark<T>)
    requires
        ids_differ(ms),
    ensures
        first_with(upserted(ms, c), c.id) matches Some(i) && upserted(ms, c)[i] == c,
        ids_differ(upserted(ms, c)),
{
    let out = upserted(ms, c);
    lemma_first_with(ms, c.id);
    lemma_first_with(out, c.id);
    match first_with(ms, c.id) {
        Some(i) => {
            assert(out[i] == c);
            assert forall|a: int, b: int| 0 <= a < b < out.len() implies (#[trigger] out[a]).id != (
            #[trigger] out[b]).id by {
                assert(ms[a].id != ms[b].id);
            }
        },
        None => {
            assert(out[ms.len() as int] == c);
            assert forall|a: int, b: int| 0 <= a < b < out.len() implies (#[trigger] out[a]).id != (
            #[trigger] out[b]).id by {
                if b < ms.len() {
                    assert(ms[a].id != ms[b].id);
                } else {
                    assert(ms[a].id != c.id);
                }
            }
        },
    }
}

/// A contact that was taken out is not found any more, and every other one is
/// kept.
pub proof fn law_removed_is_gone<T>(ms: Seq<Mark<T>>, id: Seq<char>, i: int)
    requires
        0 <= i < ms.len(),
    ensures
        first_with(without(ms, id), id) is None,
        ms[i].id != id ==> without(ms, id).contains(ms[i]),
{
    lemma_without(ms, id);
    lemma_first_with(without(ms, id), id);
    lemma_kept(ms, id, i);
}

proof fn lemma_without<T>(ms: Seq<Mark<T>>, id: Seq<char>)
    ensures
        forall|j: int| 0 <= j < without(ms, id).len() ==> (#[trigger] without(ms, id)[j]).id != id,
    decreases ms.len(),
{
    if ms.len() > 0 {
        lemma_without(ms.drop_last(), id);
        let front = without(ms.drop_last(), id);
        let all = without(ms, id);
        assert forall|j: int| 0 <= j < all.len() implies (#[trigger] all[j]).id != id by {
            if j < front.len() {
                assert(all[j] == front[j]);
            }
        }
    }
}

proof fn lemma_kept<T>(ms: Seq<Mark<T>>, id: Seq<char>, i: int)
    requires
        0 <= i < ms.len(),
    ensures
        ms[i].id != id ==> without(ms, id).contains(ms[i]),
    decreases ms.len(),
{
    let front = without(ms.drop_last(), id);
    if ms[i].id != id {
        if i < ms.len() - 1 {
            lemma_kept(ms.drop_last(), id, i);
            let j = choose|j: int| 0 <= j < front.len() && front[j] == ms[i];
            assert(without(ms, id)[j] == ms[i]);
        } else {
            assert(without(ms, id)[front.len() as int] == ms[i]);
        }
    }
}

/// An identifier that is made up for a contact is no other contact's, as long
/// as the numbers go that far.
pub proof fn law_next_id_is_free<T>(ms: Seq<Mark<T>>)
    requires
        highest(ms) < u32::MAX,
    ensures
        first_with(ms, numbered(highest(ms) + 1)) is None,
{
    let n = highest(ms) + 1;
    let id = numbered(n);
    lemma_first_with(ms, id);
    lemma_number_in(n);
    if first_with(ms, id) is Some {
        let i = first_with(ms, id)->0;
        lemma_highest(ms, i);
    }
}

proof fn lemma_number_in(n: nat)
    requires
        n <= u32::MAX,
    ensures
        number_in(numbered(n)) == n,
{
    reveal_strlit("C");
    let id = numbered(n);
    let d = text::padded(n, 3);
    assert(id[0] == 'C');
    assert(id.skip(1) =~= d);
    text::lemma_padded_reads(n, 3);
}

/// The highest number is that of some contact, and no contact has a higher one.
pub proof fn law_highest<T>(ms: Seq<Mark<T>>)
    ensures
        forall|i: int| 0 <= i < ms.len() ==> number_in((#[trigger] ms[i]).id) <= highest(ms),
        highest(ms) == 0 || exists|i: int|
            0 <= i < ms.len() && number_in((#[trigger] ms[i]).id) == highest(ms),
    decreases ms.len(),
{
    if ms.len() > 0 {
        let front = ms.drop_last();
        law_highest(front);
        assert forall|i: int| 0 <= i < ms.len() implies number_in((#[trigger] ms[i]).id) <= highest(
            ms,
        ) by {
            if i < front.len() {
                assert(front[i] == ms[i]);
            }
        }
        if number_in(ms.last().id) > highest(front) {
            assert(number_in(ms[ms.len() - 1].id) == highest(ms));
        } else if highest(front) != 0 {
            let i = choose|i: int|
                0 <= i < front.len() && number_in((#[trigger] front[i]).id) == highest(front);
            assert(ms[i] == front[i]);
        }
    }
}

/// A number is written as a C and at least three digits, and is read from them again.
pub proof fn law_numbered(n: nat)
    requires
        n <= u32::MAX,
    ensures
        number_in(numbered(n)) == n,
        numbered(n)[0] == 'C',
        numbered(n).len() >= 4,
        n < 1000 ==> numbered(n).len() == 4,
{
    reveal_strlit("C");
    lemma_number_in(n);
    text::law_number_of_digits(n);
    text::law_written_number_is_read(n, 3);
}

/// A contact that is put in changes no other: it takes the place of the one of its
/// name or comes behind them all.
pub proof fn law_upsert_leaves_the_others<T>(ms: Seq<Mark<T>>, c: Mark<T>)
    ensures
        forall|i: int|
            0 <= i < ms.len() && (#[trigger] ms[i]).id != c.id ==> upserted(ms, c)[i] == ms[i],
        (forall|i: int| 0 <= i < ms.len() ==> (#[trigger] ms[i]).id != c.id) ==> upserted(ms, c)
            == ms.push(c),
        (exists|i: int| 0 <= i < ms.len() && (#[trigger] ms[i]).id == c.id) ==> upserted(ms, c).len()
            == ms.len(),
{
    lemma_first_with(ms, c.id);
}

/// What is left when a name is taken out is all that do not bear it, in their order.
pub proof fn law_removal_keeps_the_order<T>(ms: Seq<Mark<T>>, id: Seq<char>)
    ensures
        without(ms, id) == ms.filter(|m: Mark<T>| m.id != id),
    decreases ms.len(),
{
    reveal(Seq::filter);
    if ms.len() > 0 {
        law_removal_keeps_the_order(ms.drop_last(), id);
    } else {
        assert(without(ms, id) =~= ms.filter(|m: Mark<T>| m.id != id));
    }
}

/// A contact keeps the name and the time of its making that it has, and what it says;
/// it is changed now.
pub proof fn law_dated<T>(ms: Seq<Mark<T>>, c: Mark<T>, now: Seq<char>)
    ensures
        dated(ms, c, now).modified == now,
        dated(ms, c, now).rest == c.rest,
        c.id.len() > 0 ==> dated(ms, c, now).id == c.id,
        c.created.len() > 0 ==> dated(ms, c, now).created == c.created,
        c.created.len() == 0 ==> dated(ms, c, now).created == now,
        c.id.len() == 0 && highest(ms) < u32::MAX ==> number_in(dated(ms, c, now).id) == highest(ms)
            + 1,
{
    if highest(ms) < u32::MAX {
        lemma_number_in(highest(ms) + 1);
    }
}

} // verus!
