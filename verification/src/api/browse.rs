//! Choosing a file or a folder, and putting a layer on the chart.

use vstd::prelude::*;

use crate::api;
use crate::api::importable;
use crate::names;
use crate::names::name_order;
use crate::text::{chars_of, same};

verus! {

/// Something in a directory.
pub struct Entry {
    pub name: String,
    pub is_dir: bool,
}

/// What is offered of a directory: by their places among its entries, the
/// folders, and the files with the kind of layer each can be imported as.
pub struct Listing {
    pub dirs: Vec<usize>,
    pub files: Vec<(usize, &'static str)>,
}

/// The names of a directory's entries.
pub open spec fn entry_names(e: Seq<Entry>) -> Seq<Seq<char>> {
    e.map_values(|x: Entry| x.name@)
}

/// Whether an entry is hidden.
pub open spec fn is_hidden(name: Seq<char>) -> bool {
    name.len() > 0 && name[0] == '.'
}

/// Whether a folder is offered.
pub open spec fn shows_dir(e: Entry) -> bool {
    !is_hidden(e.name@) && e.is_dir
}

/// Whether a file is offered: where files are looked for, those that can be
/// imported.
pub open spec fn shows_file(e: Entry, recordings: bool) -> bool {
    !is_hidden(e.name@) && !e.is_dir && !recordings && api::importable_as(e.name@) is Some
}

/// Whether `p` is the order by name of those entries for which `shown` holds.
pub open spec fn picks(e: Seq<Entry>, p: Seq<usize>, shown: spec_fn(Entry) -> bool) -> bool {
    &&& forall|i: int| 0 <= i < p.len() ==> #[trigger] p[i] < e.len()
    &&& forall|i: int, j: int|
        0 <= i < j < p.len() ==> names::name_before(
            entry_names(e),
            #[trigger] p[i] as int,
            #[trigger] p[j] as int,
        )
    &&& forall|k: usize| k < e.len() ==> (#[trigger] p.contains(k) == shown(e[k as int]))
}

/// The places of the files of a listing.
pub open spec fn places(v: Seq<(usize, &'static str)>) -> Seq<usize> {
    v.map_values(|x: (usize, &'static str)| x.0)
}

proof fn lemma_kept(
    e: Seq<Entry>,
    p: Seq<usize>,
    n: int,
    out: Seq<usize>,
    shown: spec_fn(Entry) -> bool,
)
    requires
        names::is_name_order(entry_names(e), p),
        0 <= n < p.len(),
        kept_of(e, p, n, out, shown),
    ensures
        shown(e[p[n] as int]) ==> kept_of(e, p, n + 1, out.push(p[n]), shown),
        !shown(e[p[n] as int]) ==> kept_of(e, p, n + 1, out, shown),
{
    let k0 = p[n];
    if shown(e[k0 as int]) {
        let next = out.push(k0);
        assert forall|i: int, j: int| 0 <= i < j < next.len() implies names::name_before(
            entry_names(e),
            #[trigger] next[i] as int,
            #[trigger] next[j] as int,
        ) by {
            if j == out.len() {
                assert(out.contains(out[i]));
                let q = choose|q: int| 0 <= q < n && p[q] == out[i];
                assert(names::name_before(entry_names(e), p[q] as int, p[n] as int));
            }
        }
        assert forall|k: usize| #[trigger] next.contains(k) == (shown(e[k as int]) && exists|q: int|
            0 <= q < n + 1 && #[trigger] p[q] == k) by {
            if next.contains(k) && k != k0 {
                let i = choose|i: int| 0 <= i < next.len() && next[i] == k;
                assert(out[i] == k);
                assert(out.contains(k));
            }
            if out.contains(k) {
                let i = choose|i: int| 0 <= i < out.len() && out[i] == k;
                assert(next[i] == k);
            }
            assert(next[out.len() as int] == k0);
            if exists|q: int| 0 <= q < n + 1 && #[trigger] p[q] == k {
                let q = choose|q: int| 0 <= q < n + 1 && #[trigger] p[q] == k;
                if q < n {
                    assert(shown(e[k as int]) ==> out.contains(k));
                }
            }
        }
    }
}

spec fn kept_of(
    e: Seq<Entry>,
    p: Seq<usize>,
    n: int,
    out: Seq<usize>,
    shown: spec_fn(Entry) -> bool,
) -> bool {
    &&& forall|i: int| 0 <= i < out.len() ==> #[trigger] out[i] < e.len()
    &&& forall|i: int, j: int|
        0 <= i < j < out.len() ==> names::name_before(
            entry_names(e),
            #[trigger] out[i] as int,
            #[trigger] out[j] as int,
        )
    &&& forall|k: usize| #[trigger]
        out.contains(k) == (shown(e[k as int]) && exists|q: int| 0 <= q < n && #[trigger] p[q] == k)
}

proof fn lemma_done(e: Seq<Entry>, p: Seq<usize>, out: Seq<usize>, shown: spec_fn(Entry) -> bool)
    requires
        names::is_name_order(entry_names(e), p),
        kept_of(e, p, p.len() as int, out, shown),
    ensures
        picks(e, out, shown),
{
    assert forall|k: usize| k < e.len() implies (#[trigger] out.contains(k) == shown(
        e[k as int],
    )) by {
        assert(p.contains(k));
        let q = choose|q: int| 0 <= q < p.len() && p[q] == k;
        assert(p[q] == k);
    }
}

fn hidden(name: &str) -> (r: bool)
    ensures
        r == is_hidden(name@),
{
    let v = chars_of(name);
    v.len() > 0 && v[0] == '.'
}

/// Choose what is offered of a directory: folders, and where a file is looked
/// for rather than a folder of recordings, the files that can be imported; each
/// by name, and nothing that is hidden.
pub fn listing(entries: &Vec<Entry>, recordings: bool) -> (l: Listing)
    ensures
        picks(entries@, l.dirs@, |e: Entry| shows_dir(e)),
        picks(entries@, places(l.files@), |e: Entry| shows_file(e, recordings)),
        forall|i: int|
            0 <= i < l.files@.len() ==> api::importable_as(
                entries@[(#[trigger] l.files@[i]).0 as int].name@,
            ) == Some(l.files@[i].1@),
{
    let ghost dir_shown = |e: Entry| shows_dir(e);
    let ghost file_shown = |e: Entry| shows_file(e, recordings);
    let mut all: Vec<String> = Vec::new();
    let mut i: usize = 0;
    while i < entries.len()
        invariant
            i <= entries@.len(),
            names::views(all@) == entry_names(entries@).take(i as int),
        decreases entries.len() - i,
    {
        let s = crate::text::copy(entries[i].name.as_str());
        let ghost before = names::views(all@);
        let ghost one = s@;
        all.push(s);
        i += 1;
        proof {
            assert(names::views(all@) =~= before.push(one));
            assert(entry_names(entries@).take(i as int) =~= entry_names(entries@).take(i - 1).push(
                entry_names(entries@)[i - 1],
            ));
        }
    }
    proof {
        assert(entry_names(entries@).take(i as int) =~= entry_names(entries@));
    }
    let p = name_order(&all);
    let mut dirs: Vec<usize> = Vec::new();
    let mut files: Vec<(usize, &'static str)> = Vec::new();
    let mut n: usize = 0;
    proof {
        assert(places(files@) =~= Seq::empty());
    }
    while n < p.len()
        invariant
            n <= p@.len(),
            names::is_name_order(entry_names(entries@), p@),
            dir_shown == (|e: Entry| shows_dir(e)),
            file_shown == (|e: Entry| shows_file(e, recordings)),
            kept_of(entries@, p@, n as int, dirs@, dir_shown),
            kept_of(entries@, p@, n as int, places(files@), file_shown),
            forall|i: int|
                0 <= i < files@.len() ==> api::importable_as(
                    entries@[(#[trigger] files@[i]).0 as int].name@,
                ) == Some(files@[i].1@),
        decreases p.len() - n,
    {
        let k = p[n];
        let ghost before = places(files@);
        proof {
            lemma_kept(entries@, p@, n as int, dirs@, dir_shown);
            lemma_kept(entries@, p@, n as int, before, file_shown);
        }
        let e = &entries[k];
        if !hidden(e.name.as_str()) {
            if e.is_dir {
                dirs.push(k);
            } else if !recordings {
                match importable(e.name.as_str()) {
                    Some(kind) => {
                        files.push((k, kind));
                        proof {
                            assert(places(files@) =~= before.push(k));
                        }
                    },
                    None => {},
                }
            }
        }
        n += 1;
    }
    proof {
        lemma_done(entries@, p@, dirs@, dir_shown);
        lemma_done(entries@, p@, places(files@), file_shown);
    }
    Listing { dirs, files }
}

/// The layers of a stack but for those of an identifier.
pub open spec fn others<T>(s: Seq<(Seq<char>, T)>, id: Seq<char>) -> Seq<(Seq<char>, T)>
    decreases s.len(),
{
    if s.len() == 0 {
        s
    } else if s.last().0 == id {
        others(s.drop_last(), id)
    } else {
        others(s.drop_last(), id).push(s.last())
    }
}

/// A stack of layers, each under its identifier.
pub open spec fn stack<T>(v: Seq<(String, T)>) -> Seq<(Seq<char>, T)> {
    v.map_values(|x: (String, T)| (x.0@, x.1))
}

/// Put a layer on top of a stack, in place of one of the same identifier.
pub fn put_on_top<T>(layers: Vec<(String, T)>, id: String, layer: T) -> (r: Vec<(String, T)>)
    ensures
        stack(r@) == seq![(id@, layer)] + others(stack(layers@), id@),
{
    let mut v = layers;
    let ghost all = stack(v@);
    let ghost key = id@;
    let mut i: usize = v.len();
    let ghost mut tail: Seq<(Seq<char>, T)> = Seq::empty();
    proof {
        assert(others(all.take(i as int), key) + tail =~= others(all, key)) by {
            assert(all.take(i as int) =~= all);
        }
        assert(stack(v@) =~= all.take(i as int) + tail);
    }
    while i > 0
        invariant
            i <= all.len(),
            key == id@,
            stack(v@) == all.take(i as int) + tail,
            others(all.take(i as int), key) + tail == others(all, key),
        decreases i,
    {
        let ghost before = stack(v@);
        let ghost was = tail;
        proof {
            assert(before.len() == v@.len());
            assert(before[i - 1] == all[i - 1]);
            assert(all.take(i as int).drop_last() =~= all.take(i - 1));
            assert(all.take(i as int).last() == all[i - 1]);
        }
        if same(v[i - 1].0.as_str(), id.as_str()) {
            v.remove(i - 1);
            proof {
                assert(stack(v@) =~= before.remove(i - 1));
                assert(stack(v@) =~= all.take(i - 1) + tail);
            }
        } else {
            proof {
                tail = seq![all[i - 1]] + was;
                assert(stack(v@) =~= all.take(i - 1) + tail);
                assert(others(all.take(i - 1), key).push(all[i - 1]) + was =~= others(
                    all.take(i - 1),
                    key,
                ) + tail);
            }
        }
        i -= 1;
    }
    proof {
        assert(all.take(0) =~= Seq::empty());
        assert(stack(v@) =~= tail);
        assert(others(all, key) =~= tail);
    }
    v.insert(0, (id, layer));
    proof {
        assert(stack(v@) =~= seq![(key, layer)] + tail);
    }
    v
}

/// The others are all that do not bear the name, in their order.
pub proof fn law_others_stay_in_order<T>(s: Seq<(Seq<char>, T)>, id: Seq<char>)
    ensures
        others(s, id) == s.filter(|x: (Seq<char>, T)| x.0 != id),
    decreases s.len(),
{
    reveal(Seq::filter);
    if s.len() > 0 {
        law_others_stay_in_order(s.drop_last(), id);
    } else {
        assert(others(s, id) =~= s.filter(|x: (Seq<char>, T)| x.0 != id));
    }
}

/// What is hidden is not shown, and nothing is shown both as a directory and as a
/// file.
pub proof fn law_shown_once(e: Entry, recordings: bool)
    ensures
        !(shows_dir(e) && shows_file(e, recordings)),
        e.name@.len() > 0 && e.name@[0] == '.' ==> !shows_dir(e) && !shows_file(e, recordings),
        recordings ==> !shows_file(e, recordings),
        e.is_dir && e.name@.len() > 0 && e.name@[0] != '.' ==> shows_dir(e),
{
}

} // verus!
