//! Names and paths as text.

use vstd::prelude::*;

use crate::text;
use crate::text::{chars_of, copy, push_str, same};

verus! {

// ---- order ---------------------------------------------------------------------

/// Whether one text comes before another, character by character.
pub open spec fn lex_less(a: Seq<char>, b: Seq<char>) -> bool
    decreases b.len(),
{
    if b.len() == 0 {
        false
    } else if a.len() == 0 {
        true
    } else if a[0] != b[0] {
        (a[0] as int) < (b[0] as int)
    } else {
        lex_less(a.drop_first(), b.drop_first())
    }
}

pub proof fn lemma_lex_transitive(a: Seq<char>, b: Seq<char>, c: Seq<char>)
    requires
        !lex_less(b, a),
        lex_less(b, c) || b == c,
        lex_less(a, b) || lex_less(b, c),
    ensures
        lex_less(a, c),
    decreases a.len() + b.len() + c.len(),
{
    if a.len() > 0 && b.len() > 0 && c.len() > 0 && a[0] == b[0] && b[0] == c[0] {
        lemma_lex_transitive(a.drop_first(), b.drop_first(), c.drop_first());
    }
}

pub proof fn lemma_lex_total(a: Seq<char>, b: Seq<char>)
    requires
        !lex_less(a, b),
        !lex_less(b, a),
    ensures
        a == b,
    decreases a.len(),
{
    if a.len() > 0 && b.len() > 0 && a[0] == b[0] {
        lemma_lex_total(a.drop_first(), b.drop_first());
        assert(a =~= seq![a[0]] + a.drop_first());
        assert(b =~= seq![b[0]] + b.drop_first());
    } else {
        assert(a =~= b);
    }
}

pub proof fn lemma_lex_strict(a: Seq<char>, b: Seq<char>)
    ensures
        !lex_less(a, a),
        lex_less(a, b) ==> !lex_less(b, a),
    decreases a.len() + b.len(),
{
    lemma_lex_irreflexive(a);
    if a.len() > 0 && b.len() > 0 && a[0] == b[0] {
        lemma_lex_strict(a.drop_first(), b.drop_first());
    }
}

proof fn lemma_lex_irreflexive(a: Seq<char>)
    ensures
        !lex_less(a, a),
    decreases a.len(),
{
    if a.len() > 0 {
        lemma_lex_irreflexive(a.drop_first());
    }
}

/// Whether one text comes before another.
pub fn is_before(a: &str, b: &str) -> (r: bool)
    ensures
        r == lex_less(a@, b@),
{
    let x = chars_of(a);
    let y = chars_of(b);
    let mut i: usize = 0;
    proof {
        assert(x@.skip(0) =~= x@);
        assert(y@.skip(0) =~= y@);
    }
    while i < x.len() && i < y.len()
        invariant
            i <= x@.len(),
            i <= y@.len(),
            x@ == a@,
            y@ == b@,
            lex_less(x@, y@) == lex_less(x@.skip(i as int), y@.skip(i as int)),
        decreases x.len() - i,
    {
        proof {
            assert(x@.skip(i as int)[0] == x@[i as int]);
            assert(y@.skip(i as int)[0] == y@[i as int]);
            assert(x@.skip(i as int).drop_first() =~= x@.skip(i + 1));
            assert(y@.skip(i as int).drop_first() =~= y@.skip(i + 1));
        }
        if x[i] != y[i] {
            return x[i] < y[i];
        }
        i += 1;
    }
    i < y.len()
}

pub open spec fn views(v: Seq<String>) -> Seq<Seq<char>> {
    v.map_values(|s: String| s@)
}

/// Whether name `a` of some comes before name `b`, as they came where they are
/// the same.
pub open spec fn name_before(ns: Seq<Seq<char>>, a: int, b: int) -> bool {
    lex_less(ns[a], ns[b]) || (ns[a] == ns[b] && a < b)
}

/// Whether `p` is the order that a stable sort puts names in: every name once,
/// each before the next.
pub open spec fn is_name_order(ns: Seq<Seq<char>>, p: Seq<usize>) -> bool {
    &&& p.len() == ns.len()
    &&& forall|i: int| 0 <= i < p.len() ==> #[trigger] p[i] < ns.len()
    &&& forall|i: int, j: int|
        0 <= i < j < p.len() ==> name_before(ns, #[trigger] p[i] as int, #[trigger] p[j] as int)
    &&& forall|k: usize| k < ns.len() ==> #[trigger] p.contains(k)
}

proof fn lemma_before_transitive(ns: Seq<Seq<char>>, a: int, b: int, c: int)
    requires
        name_before(ns, a, b),
        name_before(ns, b, c),
    ensures
        name_before(ns, a, c),
{
    lemma_lex_strict(ns[a], ns[b]);
    lemma_lex_strict(ns[b], ns[c]);
    if lex_less(ns[a], ns[b]) || lex_less(ns[b], ns[c]) {
        lemma_lex_transitive(ns[a], ns[b], ns[c]);
    }
}

fn insert_name(p: &mut Vec<usize>, names: &Vec<String>, i: usize)
    requires
        i < names@.len(),
        is_name_order(views(names@).take(i as int), old(p)@),
    ensures
        is_name_order(views(names@).take(i + 1), final(p)@),
{
    let ghost ns = views(names@);
    let ghost was = p@;
    let mut k: usize = p.len();
    proof {
        assert(was.len() == i);
    }
    while k > 0 && is_before(names[i].as_str(), names[p[k - 1]].as_str())
        invariant
            k <= p@.len(),
            p@ == was,
            i < names@.len(),
            ns == views(names@),
            is_name_order(ns.take(i as int), was),
            forall|j: int| k <= j < was.len() ==> lex_less(ns[i as int], ns[#[trigger] was[j] as int]),
        decreases k,
    {
        k -= 1;
    }
    proof {
        if k > 0 {
            assert(was[k - 1] < i);
            assert(!lex_less(ns[i as int], ns[was[k - 1] as int]));
        }
    }
    p.insert(k, i);
    proof {
        let now = p@;
        let t = ns.take(i as int);
        let u = ns.take(i + 1);
        assert(now == was.insert(k as int, i));
        assert forall|a: int| 0 <= a < i implies #[trigger] t[a] == u[a] by {}
        assert forall|j: int| 0 <= j < now.len() implies #[trigger] now[j] < u.len() by {
            if j < k {
                assert(now[j] == was[j]);
            } else if j > k {
                assert(now[j] == was[j - 1]);
            }
        }
        assert forall|a: int, b: int| 0 <= a < b < now.len() implies name_before(
            u,
            #[trigger] now[a] as int,
            #[trigger] now[b] as int,
        ) by {
            let x = if a < k {
                a
            } else {
                a - 1
            };
            let y = if b < k {
                b
            } else {
                b - 1
            };
            if a != k && b != k {
                assert(now[a] == was[x] && now[b] == was[y]);
                assert(name_before(t, was[x] as int, was[y] as int));
            } else if a == k {
                assert(now[b] == was[y]);
                assert(lex_less(ns[i as int], ns[was[y] as int]));
            } else {
                assert(now[a] == was[a]);
                let last = was[k - 1] as int;
                if !lex_less(ns[last], ns[i as int]) {
                    lemma_lex_total(ns[last], ns[i as int]);
                }
                assert(name_before(u, last, i as int));
                if a < k - 1 {
                    assert(name_before(t, was[a] as int, was[k - 1] as int));
                    lemma_before_transitive(u, was[a] as int, last, i as int);
                }
            }
        }
        assert forall|c: usize| c < u.len() implies #[trigger] now.contains(c) by {
            if c == i {
                assert(now[k as int] == c);
            } else {
                assert(was.contains(c));
                let m = choose|m: int| 0 <= m < was.len() && was[m] == c;
                if m < k {
                    assert(now[m] == c);
                } else {
                    assert(now[m + 1] == c);
                }
            }
        }
    }
}

/// The order that a stable sort puts names in.
pub fn name_order(names: &Vec<String>) -> (p: Vec<usize>)
    ensures
        is_name_order(views(names@), p@),
{
    let mut p: Vec<usize> = Vec::new();
    let mut i: usize = 0;
    while i < names.len()
        invariant
            i <= names@.len(),
            is_name_order(views(names@).take(i as int), p@),
        decreases names.len() - i,
    {
        insert_name(&mut p, names, i);
        i += 1;
    }
    proof {
        assert(views(names@).take(names@.len() as int) =~= views(names@));
    }
    p
}

/// Whether `out` is `ns` in order.
pub open spec fn names_sorted(ns: Seq<Seq<char>>, out: Seq<Seq<char>>) -> bool {
    exists|p: Seq<usize>|
        #![trigger is_name_order(ns, p)]
        is_name_order(ns, p) && out == p.map_values(|i: usize| ns[i as int])
}

/// Names in order.
pub fn sort_names(names: &Vec<String>) -> (v: Vec<String>)
    ensures
        names_sorted(views(names@), views(v@)),
{
    let p = name_order(names);
    let mut v: Vec<String> = Vec::new();
    let mut i: usize = 0;
    let ghost ns = views(names@);
    let ghost want = p@.map_values(|i: usize| ns[i as int]);
    proof {
        assert(views(v@) =~= want.take(0));
    }
    while i < p.len()
        invariant
            i <= p@.len(),
            ns == views(names@),
            is_name_order(ns, p@),
            want == p@.map_values(|i: usize| ns[i as int]),
            views(v@) == want.take(i as int),
        decreases p.len() - i,
    {
        let s = copy(names[p[i]].as_str());
        let ghost was = v@;
        v.push(s);
        i += 1;
        proof {
            assert(views(v@) =~= views(was).push(s@));
            assert(want.take(i as int) =~= want.take(i - 1).push(want[i - 1]));
        }
    }
    proof {
        assert(want.take(p@.len() as int) =~= want);
    }
    v
}

/// Whether a name is among some.
pub fn among(names: &Vec<String>, name: &str) -> (r: bool)
    ensures
        r == views(names@).contains(name@),
{
    let mut i: usize = 0;
    while i < names.len()
        invariant
            i <= names@.len(),
            forall|j: int| 0 <= j < i ==> #[trigger] names@[j]@ != name@,
        decreases names.len() - i,
    {
        if same(names[i].as_str(), name) {
            proof {
                assert(views(names@)[i as int] == name@);
            }
            return true;
        }
        i += 1;
    }
    proof {
        if views(names@).contains(name@) {
            let j = choose|j: int| 0 <= j < views(names@).len() && views(names@)[j] == name@;
            assert(names@[j]@ == name@);
        }
    }
    false
}

// ---- paths ---------------------------------------------------------------------

/// A path with something appended to it: what starts with a separator replaces
/// it.
pub open spec fn joined(base: Seq<char>, name: Seq<char>) -> Seq<char> {
    if name.len() > 0 && name[0] == '/' {
        name
    } else if base.len() == 0 || base.last() == '/' {
        base + name
    } else {
        base + seq!['/'] + name
    }
}

/// Append to a path.
pub fn join(base: &str, name: &str) -> (p: String)
    ensures
        p@ == joined(base@, name@),
{
    let b = chars_of(base);
    let n = chars_of(name);
    if n.len() > 0 && n[0] == '/' {
        return copy(name);
    }
    let mut p = copy(base);
    if b.len() > 0 && b[b.len() - 1] != '/' {
        p.push('/');
    }
    push_str(&mut p, name);
    proof {
        assert(p@ =~= joined(base@, name@));
    }
    p
}

/// A path without separators at its end, and without steps there that lead
/// nowhere.
pub open spec fn without_tail(p: Seq<char>) -> Seq<char>
    decreases p.len(),
{
    if p.len() > 0 && p.last() == '/' {
        without_tail(p.drop_last())
    } else if p.len() > 1 && p.last() == '.' && p[p.len() - 2] == '/' {
        without_tail(p.drop_last())
    } else {
        p
    }
}

/// The text after the last separator.
pub open spec fn after_slash(p: Seq<char>) -> Seq<char>
    decreases p.len(),
{
    if p.len() == 0 {
        p
    } else if p.last() == '/' {
        Seq::empty()
    } else {
        after_slash(p.drop_last()).push(p.last())
    }
}

/// The last component of a path: nothing where the path is a step up, or leads
/// nowhere.
pub open spec fn file_name(p: Seq<char>) -> Seq<char> {
    let n = after_slash(without_tail(p));
    if n == ".."@ || n == "."@ {
        Seq::empty()
    } else {
        n
    }
}

/// What follows the last dot of a file's name: nothing where it has none but at
/// its start.
pub open spec fn extension(p: Seq<char>) -> Option<Seq<char>> {
    let n = file_name(p);
    let d = last_dot(n, n.len() as int);
    if d <= 0 {
        None
    } else {
        Some(n.skip(d + 1))
    }
}

/// Where the last dot before `i` stands, or -1.
pub open spec fn last_dot(s: Seq<char>, i: int) -> int
    decreases i,
{
    if i <= 0 {
        -1
    } else if s[i - 1] == '.' {
        i - 1
    } else {
        last_dot(s, i - 1)
    }
}

/// A letter in lower case, where it is one of the alphabet's.
pub open spec fn lower(c: char) -> char {
    if 65 <= c as int <= 90 {
        (c as int + 32) as char
    } else {
        c
    }
}

pub open spec fn lowered(s: Seq<char>) -> Seq<char> {
    s.map_values(|c: char| lower(c))
}

/// A letter in lower case.
pub fn lower_char(c: char) -> (r: char)
    ensures
        r == lower(c),
{
    let n: u32 = c as u32;
    if 65 <= n && n <= 90 {
        (n as u8 + 32) as char
    } else {
        c
    }
}

/// Whether a path has an extension, in whichever case.
pub open spec fn with_extension(p: Seq<char>, ext: Seq<char>) -> bool {
    extension(p) matches Some(e) && lowered(e) == lowered(ext)
}

fn name_of(v: &Vec<char>) -> (r: Vec<char>)
    ensures
        r@ == after_slash(without_tail(v@)),
{
    let mut end: usize = v.len();
    proof {
        assert(v@.take(end as int) =~= v@);
    }
    while end > 0 && (v[end - 1] == '/' || (end > 1 && v[end - 1] == '.' && v[end - 2] == '/'))
        invariant
            end <= v@.len(),
            without_tail(v@) == without_tail(v@.take(end as int)),
        decreases end,
    {
        proof {
            assert(v@.take(end as int).drop_last() =~= v@.take(end - 1));
            assert(v@.take(end as int).last() == v@[end - 1]);
        }
        end -= 1;
    }
    proof {
        let t = v@.take(end as int);
        if end > 0 {
            assert(t.last() == v@[end - 1]);
            if end > 1 {
                assert(t[end - 2] == v@[end - 2]);
            }
        }
        assert(without_tail(t) == t);
    }
    let mut from: usize = end;
    while from > 0 && v[from - 1] != '/'
        invariant
            from <= end <= v@.len(),
            after_slash(v@.take(end as int)) == after_slash(v@.take(from as int))
                + v@.subrange(from as int, end as int),
        decreases from,
    {
        proof {
            assert(v@.take(from as int).drop_last() =~= v@.take(from - 1));
            assert(v@.take(from as int).last() == v@[from - 1]);
            let a = after_slash(v@.take(from - 1));
            assert(a.push(v@[from - 1]) + v@.subrange(from as int, end as int) =~= a + v@.subrange(
                from - 1,
                end as int,
            ));
        }
        from -= 1;
    }
    proof {
        if from > 0 {
            assert(v@.take(from as int).last() == '/');
        }
        assert(after_slash(v@.take(from as int)) =~= Seq::<char>::empty());
        assert(Seq::<char>::empty() + v@.subrange(from as int, end as int) =~= v@.subrange(
            from as int,
            end as int,
        ));
    }
    text::part(v.as_slice(), from, end)
}

/// The last component of a path.
pub fn base_name(p: &str) -> (r: String)
    ensures
        r@ == file_name(p@),
{
    let v = chars_of(p);
    let n = name_of(&v);
    let s = text::text_of(n.as_slice());
    if same(s.as_str(), "..") || same(s.as_str(), ".") {
        return String::new();
    }
    s
}

/// Whether a path has an extension, in whichever case.
pub fn has_ext(p: &str, ext: &str) -> (r: bool)
    ensures
        r == with_extension(p@, ext@),
{
    let name = base_name(p);
    let n = chars_of(name.as_str());
    let e = chars_of(ext);
    let mut d: usize = n.len();
    while d > 0 && n[d - 1] != '.'
        invariant
            d <= n@.len(),
            last_dot(n@, n@.len() as int) == last_dot(n@, d as int),
        decreases d,
    {
        d -= 1;
    }
    if d <= 1 {
        return false;
    }
    let ghost x = n@.skip(d as int);
    if n.len() - d != e.len() {
        proof {
            assert(lowered(x).len() == x.len());
            assert(lowered(e@).len() == e@.len());
        }
        return false;
    }
    let mut i: usize = 0;
    while i < e.len()
        invariant
            i <= e@.len(),
            1 < d <= n.len(),
            n@ == file_name(p@),
            e@ == ext@,
            last_dot(n@, n@.len() as int) == d - 1,
            n@.len() - d == e@.len(),
            x == n@.skip(d as int),
            forall|j: int| 0 <= j < i ==> lower(#[trigger] e@[j]) == lower(n@[d + j]),
        decreases e.len() - i,
    {
        if lower_char(n[d + i]) != lower_char(e[i]) {
            proof {
                assert(lowered(x)[i as int] == lower(n@[d + i]));
                assert(lowered(e@)[i as int] == lower(e@[i as int]));
            }
            return false;
        }
        i += 1;
    }
    proof {
        assert(lowered(x) =~= lowered(e@));
    }
    true
}

// ---- folder names --------------------------------------------------------------

/// A character that a folder's name is not to start with.
pub open spec fn is_edge(c: char) -> bool {
    text::is_space(c) || c == '.'
}

pub open spec fn strip_edges_start(s: Seq<char>) -> Seq<char>
    decreases s.len(),
{
    if s.len() > 0 && is_edge(s[0]) {
        strip_edges_start(s.drop_first())
    } else {
        s
    }
}

pub open spec fn strip_dots_end(s: Seq<char>) -> Seq<char>
    decreases s.len(),
{
    if s.len() > 0 && s.last() == '.' {
        strip_dots_end(s.drop_last())
    } else {
        s
    }
}

/// A character as it stands in a folder's name.
pub open spec fn plain_char(c: char) -> char {
    if c == '/' || c as int == 0 {
        '_'
    } else {
        c
    }
}

pub open spec fn plain_chars(s: Seq<char>) -> Seq<char> {
    s.map_values(|c: char| plain_char(c))
}

/// One plain folder name: no separators, no step up, nothing hidden. Whatever
/// dots and white space it starts with are gone; at its end the white space is,
/// the dots before that, and the white space before those.
pub open spec fn sanitised(s: Seq<char>) -> Seq<char> {
    text::trim_end(strip_dots_end(text::trim_end(strip_edges_start(plain_chars(s)))))
}

fn edge(c: char) -> (r: bool)
    ensures
        r == is_edge(c),
{
    text::space(c) || c == '.'
}

/// One plain folder name: no separators, no step up, nothing hidden.
///
/// These names are pasted into paths under the workspace, so this is the only
/// thing standing between a typed name and a write outside it.
pub fn sanitise_name(s: &str) -> (r: String)
    ensures
        r@ == sanitised(s@),
{
    let raw = chars_of(s);
    let mut v: Vec<char> = Vec::new();
    let mut i: usize = 0;
    while i < raw.len()
        invariant
            i <= raw@.len(),
            v@ == plain_chars(raw@.take(i as int)),
        decreases raw.len() - i,
    {
        let c = raw[i];
        v.push(
            if c == '/' || c as u32 == 0 {
                '_'
            } else {
                c
            },
        );
        i += 1;
        proof {
            assert(v@ =~= plain_chars(raw@.take(i as int)));
        }
    }
    proof {
        assert(raw@.take(raw@.len() as int) =~= raw@);
    }
    let mut from: usize = 0;
    proof {
        assert(v@.skip(0) =~= v@);
    }
    while from < v.len() && edge(v[from])
        invariant
            from <= v@.len(),
            strip_edges_start(v@) == strip_edges_start(v@.skip(from as int)),
        decreases v.len() - from,
    {
        proof {
            assert(v@.skip(from as int)[0] == v@[from as int]);
            assert(v@.skip(from as int).drop_first() =~= v@.skip(from + 1));
        }
        from += 1;
    }
    let ghost start = v@.skip(from as int);
    proof {
        if from < v@.len() {
            assert(start[0] == v@[from as int]);
        }
        assert(strip_edges_start(v@) == start);
    }
    let tail = text::part(v.as_slice(), from, v.len());
    proof {
        assert(tail@ =~= start);
    }
    let w = text::trim_tail(tail.as_slice());
    let mut to: usize = w.len();
    proof {
        assert(w@.take(to as int) =~= w@);
    }
    while to > 0 && w[to - 1] == '.'
        invariant
            to <= w@.len(),
            strip_dots_end(w@) == strip_dots_end(w@.take(to as int)),
        decreases to,
    {
        proof {
            assert(w@.take(to as int).last() == w@[to - 1]);
            assert(w@.take(to as int).drop_last() =~= w@.take(to - 1));
        }
        to -= 1;
    }
    let x = text::part(w.as_slice(), 0, to);
    proof {
        assert(x@ =~= w@.take(to as int));
        if to > 0 {
            assert(x@.last() == w@[to - 1]);
        }
    }
    text::text_of(text::trim_tail(x.as_slice()).as_slice())
}

/// Whether a name is one that a folder can have.
pub fn is_plain_name(s: &str) -> (r: bool)
    ensures
        r == (s@.len() > 0 && s@ == sanitised(s@)),
{
    let t = sanitise_name(s);
    same(s, t.as_str()) && s.unicode_len() > 0
}

proof fn lemma_strip_start(s: Seq<char>)
    ensures
        strip_edges_start(s).len() <= s.len(),
        strip_edges_start(s).len() > 0 ==> !is_edge(strip_edges_start(s)[0]),
        forall|c: char| #[trigger] strip_edges_start(s).contains(c) ==> s.contains(c),
    decreases s.len(),
{
    if s.len() > 0 && is_edge(s[0]) {
        lemma_strip_start(s.drop_first());
        assert forall|c: char| #[trigger] strip_edges_start(s).contains(c) implies s.contains(c) by {
            let t = s.drop_first();
            assert(t.contains(c));
            let j = choose|j: int| 0 <= j < t.len() && t[j] == c;
            assert(s[j + 1] == c);
        }
    }
}

proof fn lemma_strip_dots(s: Seq<char>)
    ensures
        strip_dots_end(s).len() <= s.len(),
        strip_dots_end(s) == s.take(strip_dots_end(s).len() as int),
    decreases s.len(),
{
    if s.len() > 0 && s.last() == '.' {
        lemma_strip_dots(s.drop_last());
        let n = strip_dots_end(s).len() as int;
        assert(s.drop_last().take(n) =~= s.take(n));
    } else {
        assert(s.take(s.len() as int) =~= s);
    }
}

proof fn lemma_trim_end(s: Seq<char>)
    ensures
        text::trim_end(s).len() <= s.len(),
        text::trim_end(s) == s.take(text::trim_end(s).len() as int),
        text::trim_end(s).len() > 0 ==> !text::is_space(text::trim_end(s).last()),
    decreases s.len(),
{
    if s.len() > 0 && text::is_space(s.last()) {
        lemma_trim_end(s.drop_last());
        let n = text::trim_end(s).len() as int;
        assert(s.drop_last().take(n) =~= s.take(n));
    } else {
        assert(s.take(s.len() as int) =~= s);
    }
}

/// A folder name that was made plain holds no separator and no zero, starts with
/// neither a dot nor white space and does not end with white space: it is no
/// step up, and it is not hidden.
pub proof fn law_plain_name(s: Seq<char>)
    ensures
        !sanitised(s).contains('/'),
        !sanitised(s).contains('\0'),
        sanitised(s).len() > 0 ==> sanitised(s)[0] != '.',
        sanitised(s) != ".."@,
        sanitised(s).len() > 0 ==> !text::is_space(sanitised(s)[0]) && !text::is_space(
            sanitised(s).last(),
        ),
{
    let p = plain_chars(s);
    let a = strip_edges_start(p);
    let b = text::trim_end(a);
    let c = strip_dots_end(b);
    lemma_strip_start(p);
    lemma_trim_end(a);
    lemma_strip_dots(b);
    lemma_trim_end(c);
    let r = sanitised(s);
    assert(r =~= a.take(r.len() as int));
    assert forall|x: char| #[trigger] r.contains(x) implies plain_char(x) == x by {
        let j = choose|j: int| 0 <= j < r.len() && r[j] == x;
        assert(a[j] == x);
        assert(a.contains(x));
        assert(p.contains(x));
        let k = choose|k: int| 0 <= k < p.len() && p[k] == x;
        assert(plain_char(s[k]) == x);
    }
    reveal_strlit("..");
    if r.len() > 0 {
        assert(r[0] == a[0]);
    }
    assert(".."@.len() == 2 && ".."@[0] == '.');
}

/// Making a plain name plain changes nothing, where it does not end with a dot.
pub proof fn law_plain_name_stays(s: Seq<char>)
    requires
        sanitised(s).len() > 0 ==> sanitised(s).last() != '.',
    ensures
        sanitised(sanitised(s)) == sanitised(s),
{
    let r = sanitised(s);
    law_plain_name(s);
    assert(plain_chars(r) =~= r) by {
        assert forall|j: int| 0 <= j < r.len() implies plain_char(r[j]) == r[j] by {
            assert(r.contains(r[j]));
            if r[j] as int == 0 {
                assert(r[j] == '\0');
            }
        }
    }
}

/// Names are ordered by their first difference, and one that goes on is behind the
/// one that it begins with.
pub proof fn law_first_difference(p: Seq<char>, x: char, y: char, s: Seq<char>, t: Seq<char>)
    ensures
        x != y ==> (lex_less(p + seq![x] + s, p + seq![y] + t) <==> (x as int) < (y as int)),
        lex_less(p, p + seq![y] + t),
        !lex_less(p + seq![y] + t, p),
        !lex_less(p, p),
    decreases p.len(),
{
    let a = p + seq![x] + s;
    let b = p + seq![y] + t;
    if p.len() == 0 {
        assert(a[0] == x && b[0] == y);
    } else {
        let q = p.drop_first();
        law_first_difference(q, x, y, s, t);
        assert(a.drop_first() =~= q + seq![x] + s);
        assert(b.drop_first() =~= q + seq![y] + t);
        assert(a[0] == p[0] && b[0] == p[0]);
    }
}

/// Of two names one is before the other or they are the same.
pub proof fn law_one_of_two_is_before(a: Seq<char>, b: Seq<char>)
    ensures
        lex_less(a, b) || lex_less(b, a) || a == b,
        !(lex_less(a, b) && lex_less(b, a)),
    decreases a.len(),
{
    if a.len() > 0 && b.len() > 0 && a[0] == b[0] {
        law_one_of_two_is_before(a.drop_first(), b.drop_first());
        assert(seq![a[0]] + a.drop_first() =~= a);
        assert(seq![b[0]] + b.drop_first() =~= b);
    } else if a.len() == 0 && b.len() == 0 {
        assert(a =~= b);
    }
}

proof fn lemma_after_slash(base: Seq<char>, n: Seq<char>)
    requires
        forall|i: int| 0 <= i < n.len() ==> #[trigger] n[i] != '/',
        base.len() == 0 || base.last() == '/',
    ensures
        after_slash(base + n) == n,
    decreases n.len(),
{
    if n.len() == 0 {
        assert(base + n =~= base);
        assert(after_slash(base) =~= n);
    } else {
        assert((base + n).drop_last() =~= base + n.drop_last());
        assert((base + n).last() == n.last());
        assert(n[n.len() - 1] == n.last());
        assert forall|i: int| 0 <= i < n.drop_last().len() implies #[trigger] n.drop_last()[i]
            != '/' by {
            assert(n[i] != '/');
        }
        lemma_after_slash(base, n.drop_last());
        assert(n.drop_last().push(n.last()) =~= n);
    }
}

/// The name of a file in a folder is the file's, whatever the folder's is.
pub proof fn law_file_in_folder(base: Seq<char>, name: Seq<char>)
    requires
        name.len() > 0,
        name != "."@,
        name != ".."@,
        forall|i: int| 0 <= i < name.len() ==> #[trigger] name[i] != '/',
    ensures
        file_name(joined(base, name)) == name,
        base.is_prefix_of(joined(base, name)),
{
    let p = joined(base, name);
    assert(name[0] != '/');
    let front = if base.len() == 0 || base.last() == '/' {
        base
    } else {
        base + seq!['/']
    };
    assert(p =~= front + name);
    assert(p.last() == name.last() && name[name.len() - 1] == name.last());
    reveal_strlit(".");
    if p.len() > 1 && p.last() == '.' && p[p.len() - 2] == '/' {
        if name.len() > 1 {
            assert(p[p.len() - 2] == name[name.len() - 2]);
        } else {
            assert(name =~= "."@);
        }
    }
    assert(without_tail(p) == p);
    lemma_after_slash(front, name);
    assert(p.subrange(0, base.len() as int) =~= base);
}

proof fn lemma_last_dot(s: Seq<char>, i: int, d: int)
    requires
        0 <= d < i <= s.len(),
        s[d] == '.',
        forall|k: int| d < k < i ==> #[trigger] s[k] != '.',
    ensures
        last_dot(s, i) == d,
    decreases i,
{
    if i - 1 != d {
        assert(s[i - 1] != '.');
        lemma_last_dot(s, i - 1, d);
    }
}

/// The extension of a file is what is behind its last point, in letters of either
/// size.
pub proof fn law_extension(base: Seq<char>, stem: Seq<char>, ext: Seq<char>)
    requires
        stem.len() > 0,
        ext.len() > 0,
        forall|i: int| 0 <= i < stem.len() ==> #[trigger] stem[i] != '/',
        forall|i: int| 0 <= i < ext.len() ==> #[trigger] ext[i] != '/' && ext[i] != '.',
    ensures
        extension(joined(base, stem + seq!['.'] + ext)) == Some(ext),
        with_extension(joined(base, stem + seq!['.'] + ext), ext),
        with_extension(joined(base, stem + seq!['.'] + ext), lowered(ext)),
{
    let n = stem + seq!['.'] + ext;
    reveal_strlit(".");
    reveal_strlit("..");
    assert(n.len() >= 3);
    assert(n.last() == ext[ext.len() - 1]);
    assert("."@.len() == 1 && ".."@.len() == 2);
    assert forall|i: int| 0 <= i < n.len() implies #[trigger] n[i] != '/' by {
        if i < stem.len() {
            assert(n[i] == stem[i]);
        } else if i > stem.len() {
            assert(n[i] == ext[i - stem.len() - 1]);
        }
    }
    law_file_in_folder(base, n);
    let d = stem.len() as int;
    assert forall|k: int| d < k < n.len() implies #[trigger] n[k] != '.' by {
        assert(n[k] == ext[k - d - 1]);
    }
    lemma_last_dot(n, n.len() as int, d);
    assert(n.skip(d + 1) =~= ext);
    assert(lowered(lowered(ext)) =~= lowered(ext));
}

/// A letter made small is the same letter, and nothing else changes.
pub proof fn law_lowered(c: char)
    ensures
        'A' <= c <= 'Z' ==> 'a' <= lower(c) <= 'z' && lower(c) as int - 'a' as int == c as int - 'A'
            as int,
        !('A' <= c <= 'Z') ==> lower(c) == c,
{
}

} // verus!
