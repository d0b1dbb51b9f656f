//! What is written can be read back.

use vstd::prelude::*;

use crate::gpx;
use crate::gpx::scan;
use crate::gpx::scan::Elem;
use crate::gpx::writer;
use crate::gpx::writer::Chunk;
use crate::gpx::{Doc, Ln, Pt, Reading, Wp};
use crate::text;

verus! {

// ---- references -------------------------------------------------------------

/// A text that starts with a reference is read as the character and the rest.
proof fn lemma_hit(s: Seq<char>, i: int)
    requires
        0 <= i < s.len(),
    ensures
        ({
            let t = scan::written(s, i);
            let rest = scan::escaped_from(s, i + 1);
            scan::unescaped_rest(t + rest, i == 0) == seq![s[i]] + scan::unescaped_rest(
                rest,
                false,
            )
        }),
{
    scan::lemma_entities();
    let c = s[i];
    let t = scan::written(s, i);
    let rest = scan::escaped_from(s, i + 1);
    let u = t + rest;
    assert(u.skip(t.len() as int) =~= rest);
    if (i == 0 || i == s.len() - 1) && text::is_space(c) {
        let d = text::dec(c as nat);
        text::lemma_dec_reads(c as nat);
        let end = 2 + d.len();
        assert(u[0] == '&' && u[1] == '#');
        assert(u[end as int] == ';');
        assert forall|j: int| 2 <= j < end implies u[j] != ';' by {
            assert(u[j] == d[j - 2]);
            assert(text::is_digit(d[j - 2]));
        }
        lemma_index_is(u, ';', 2, end as int);
        assert(u.subrange(2, end as int) =~= d);
        assert(u[1] != 'l' && u[1] != 'g' && u[1] != 'q' && u[1] != 'a');
        assert forall|w: Seq<char>| w.len() > 1 && w[1] != '#' implies !#[trigger] scan::stands_at(
            u,
            w,
            0,
        ) by {
            if scan::stands_at(u, w, 0) {
                assert(u.subrange(0, w.len() as int)[1] == u[1]);
            }
        }
        assert(t.len() == end + 1);
        assert(i > 0 ==> rest.len() == 0);
        assert(scan::reference(u, i == 0) == Some((c, (end + 1) as int)));
    } else if t.len() == 1 {
        assert(t =~= seq![c]);
        assert(u[0] == c && c != '&');
        assert forall|w: Seq<char>| w.len() > 0 && w[0] == '&' implies !#[trigger] scan::stands_at(
            u,
            w,
            0,
        ) by {
            if scan::stands_at(u, w, 0) {
                assert(u.subrange(0, w.len() as int)[0] == u[0]);
            }
        }
        assert(scan::reference(u, i == 0) is None);
    } else {
        assert(u.subrange(0, t.len() as int) =~= t);
        assert(scan::stands_at(u, t, 0));
        assert(u[1] == t[1] && u[2] == t[2]);
        assert forall|w: Seq<char>|
            w.len() > 2 && (w[1] != t[1] || w[2] != t[2]) implies !#[trigger] scan::stands_at(
            u,
            w,
            0,
        ) by {
            if scan::stands_at(u, w, 0) {
                assert(u.subrange(0, w.len() as int)[1] == u[1]);
                assert(u.subrange(0, w.len() as int)[2] == u[2]);
            }
        }
        assert(scan::reference(u, i == 0) == Some((c, t.len() as int)));
    }
}

proof fn lemma_unescape_rest(s: Seq<char>, i: int)
    requires
        0 <= i <= s.len(),
    ensures
        scan::unescaped_rest(scan::escaped_from(s, i), i == 0) == s.skip(i),
    decreases s.len() - i,
{
    if i < s.len() {
        lemma_unescape_rest(s, i + 1);
        lemma_hit(s, i);
        assert(seq![s[i]] + s.skip(i + 1) =~= s.skip(i));
    } else {
        assert(s.skip(i) =~= Seq::<char>::empty());
    }
}

/// Turning the references of an escaped text back gives the text.
pub proof fn law_unescape_escape(s: Seq<char>)
    ensures
        scan::unescaped(scan::escaped(s)) == s,
{
    lemma_unescape_rest(s, 0);
    assert(s.skip(0) =~= s);
}

// ---- white space ------------------------------------------------------------

spec fn all_space(s: Seq<char>) -> bool {
    forall|i: int| 0 <= i < s.len() ==> text::is_space(#[trigger] s[i])
}

proof fn lemma_trim_start_space(s: Seq<char>)
    requires
        all_space(s),
    ensures
        text::trim_start(s).len() == 0,
    decreases s.len(),
{
    if s.len() > 0 {
        assert(text::is_space(s[0]));
        lemma_trim_start_space(s.skip(1));
    }
}

proof fn lemma_trim_start_add(t: Seq<char>, w: Seq<char>)
    requires
        !all_space(t),
    ensures
        text::trim_start(t + w) == text::trim_start(t) + w,
    decreases t.len(),
{
    if t.len() > 0 {
        assert((t + w)[0] == t[0]);
        if text::is_space(t[0]) {
            assert((t + w).skip(1) =~= t.skip(1) + w);
            assert(!all_space(t.skip(1))) by {
                let i = choose|i: int| 0 <= i < t.len() && !text::is_space(#[trigger] t[i]);
                assert(!text::is_space(t.skip(1)[i - 1]));
            }
            lemma_trim_start_add(t.skip(1), w);
        }
    }
}

proof fn lemma_trim_end_add(t: Seq<char>, w: Seq<char>)
    requires
        all_space(w),
    ensures
        text::trim_end(t + w) == text::trim_end(t),
    decreases w.len(),
{
    if w.len() == 0 {
        assert(t + w =~= t);
    } else {
        assert(text::is_space(w[w.len() - 1]));
        assert((t + w).last() == w[w.len() - 1]);
        assert((t + w).drop_last() =~= t + w.drop_last());
        lemma_trim_end_add(t, w.drop_last());
    }
}

/// White space at the end makes no difference to trimmed text.
proof fn lemma_trim_add(t: Seq<char>, w: Seq<char>)
    requires
        all_space(w),
    ensures
        text::trimmed(t + w) == text::trimmed(t),
{
    if all_space(t) {
        assert(all_space(t + w));
        lemma_trim_start_space(t);
        lemma_trim_start_space(t + w);
        assert(text::trim_start(t) =~= text::trim_start(t + w));
    } else {
        lemma_trim_start_add(t, w);
        lemma_trim_end_add(text::trim_start(t), w);
    }
}

/// Text with no white space at its ends is trimmed already.
proof fn lemma_tidy(t: Seq<char>)
    requires
        t.len() > 0 ==> !text::is_space(t[0]) && !text::is_space(t.last()),
    ensures
        text::trimmed(t) == t,
{
}

// ---- tags in text -----------------------------------------------------------

spec fn no_brackets(s: Seq<char>) -> bool {
    forall|i: int| 0 <= i < s.len() ==> #[trigger] s[i] != '<' && s[i] != '>'
}

/// Whether a tag can be told apart from what is around it.
spec fn clean(c: Chunk) -> bool {
    no_brackets(c.lead) && all_space(c.lead) && no_brackets(c.inner) && no_brackets(c.text)
}

spec fn all_clean(cs: Seq<Chunk>) -> bool {
    forall|i: int| 0 <= i < cs.len() ==> clean(#[trigger] cs[i])
}

/// The elements that tags stand for.
spec fn elems(cs: Seq<Chunk>) -> Seq<Elem>
    decreases cs.len(),
{
    if cs.len() == 0 {
        Seq::empty()
    } else {
        (if scan::is_markup(cs[0].inner) {
            Seq::empty()
        } else {
            seq![scan::element(cs[0].inner, cs[0].text)]
        }) + elems(cs.skip(1))
    }
}

/// Where a character is found that stands at `i` and not before.
proof fn lemma_index_is(s: Seq<char>, c: char, from: int, i: int)
    requires
        0 <= from <= i <= s.len(),
        forall|j: int| from <= j < i ==> s[j] != c,
        i < s.len() ==> s[i] == c,
    ensures
        text::index_from(s, c, from) == i,
    decreases i - from,
{
    if from < i {
        lemma_index_is(s, c, from + 1, i);
    }
}

/// The elements from a place on are those of the text from there on.
proof fn lemma_elements_rest(s: Seq<char>, base: int, at: int)
    requires
        0 <= base,
        0 <= at,
        base + at <= s.len(),
    ensures
        scan::elements(s, base + at) == scan::elements(s.skip(base), at),
    decreases s.len() - base - at,
{
    let r = s.skip(base);
    text::lemma_index_in_rest(s, '<', base, at);
    text::lemma_index_in_rest(s, '>', base, at);
    text::lemma_index_from(s, '<', base + at);
    text::lemma_index_from(s, '>', base + at);
    let open = text::index_from(r, '<', at);
    let close = text::index_from(r, '>', at);
    if at < r.len() && open < r.len() && close < r.len() {
        lemma_elements_rest(s, base, close + 1);
        if close > open {
            text::lemma_index_in_rest(s, '<', base, close + 1);
            text::lemma_index_from(s, '<', base + close + 1);
            let end = text::index_from(r, '<', close + 1);
            assert(s.subrange(base + open + 1, base + close) =~= r.subrange(open + 1, close));
            assert(s.subrange(base + close + 1, base + end) =~= r.subrange(close + 1, end));
        }
    }
}

/// Scanning rendered tags finds their elements.
proof fn lemma_scan_chunks(cs: Seq<Chunk>)
    requires
        all_clean(cs),
    ensures
        scan::elements(writer::render(cs), 0) == elems(cs),
    decreases cs.len(),
{
    if cs.len() > 0 {
        let c = cs[0];
        assert(clean(c));
        let rest = writer::render(cs.skip(1));
        let s = writer::chunk_text(c) + rest;
        assert(all_clean(cs.skip(1))) by {
            assert forall|i: int| 0 <= i < cs.skip(1).len() implies clean(
                #[trigger] cs.skip(1)[i],
            ) by {
                assert(clean(cs[i + 1]));
            }
        }
        lemma_scan_chunks(cs.skip(1));
        let open = c.lead.len() as int;
        let close = open + 1 + c.inner.len();
        assert(s[open] == '<');
        assert(s[close] == '>');
        assert(forall|j: int| 0 <= j < open ==> s[j] == c.lead[j]);
        assert(forall|j: int| open < j < close ==> s[j] == c.inner[j - open - 1]);
        assert(forall|j: int|
            close < j < close + 1 + c.text.len() ==> s[j] == c.text[j - close - 1]);
        lemma_index_is(s, '<', 0, open);
        lemma_index_is(s, '>', 0, close);
        assert(s.subrange(open + 1, close) =~= c.inner);
        lemma_elements_rest(s, writer::chunk_text(c).len() as int, 0);
        assert(s.skip(writer::chunk_text(c).len() as int) =~= rest);
        // the tag's text runs on into what comes before the next tag
        let from = close + 1;
        let tail = if cs.len() > 1 {
            cs[1].lead
        } else {
            Seq::empty()
        };
        let end = from + c.text.len() + tail.len();
        if cs.len() > 1 {
            assert(clean(cs[1]));
            assert(cs.skip(1)[0] == cs[1]);
            assert(rest == writer::chunk_text(cs[1]) + writer::render(cs.skip(1).skip(1)));
            assert(forall|j: int| 0 <= j < tail.len() ==> rest[j] == tail[j]);
            assert(rest[tail.len() as int] == '<');
            assert(s[end] == '<');
        } else {
            assert(cs.skip(1) =~= Seq::<Chunk>::empty());
            assert(rest.len() == 0);
        }
        assert forall|j: int| from <= j < end implies s[j] != '<' by {
            if j >= from + c.text.len() {
                assert(s[j] == rest[j - from - c.text.len()]);
            }
        }
        lemma_index_is(s, '<', from, end);
        assert(s.subrange(from, end) =~= c.text + tail);
        lemma_trim_add(c.text, tail);
        assert(scan::element(c.inner, c.text + tail) == scan::element(c.inner, c.text));
        assert(from == writer::chunk_text(c).len() - c.text.len());
        lemma_after_text(s, from, writer::chunk_text(c).len() as int);
    }
}

/// Text without tags has no elements.
proof fn lemma_after_text(s: Seq<char>, from: int, to: int)
    requires
        0 <= from <= to <= s.len(),
        forall|j: int| from <= j < to ==> s[j] != '<' && s[j] != '>',
    ensures
        scan::elements(s, from) == scan::elements(s, to),
    decreases to - from,
{
    if from < to {
        lemma_after_text(s, from + 1, to);
        assert(text::index_from(s, '<', from) == text::index_from(s, '<', from + 1));
        assert(text::index_from(s, '>', from) == text::index_from(s, '>', from + 1));
        text::lemma_index_from(s, '>', from + 1);
        text::lemma_index_from(s, '<', from + 1);
    }
}

// ---- elements taken in ------------------------------------------------------

spec fn all_true(n: nat) -> Seq<bool> {
    Seq::new(n, |i: int| true)
}

/// What taking in the elements of tags comes to, all their positions being
/// positions.
#[verifier::opaque]
spec fn go(st: Reading, cs: Seq<Chunk>) -> Reading {
    gpx::all_taken(st, elems(cs), all_true(elems(cs).len()))
}

proof fn lemma_taken_concat(st: Reading, a: Seq<Elem>, va: Seq<bool>, b: Seq<Elem>, vb: Seq<bool>)
    requires
        a.len() == va.len(),
        b.len() == vb.len(),
    ensures
        gpx::all_taken(st, a + b, va + vb) == gpx::all_taken(gpx::all_taken(st, a, va), b, vb),
    decreases b.len(),
{
    if b.len() == 0 {
        assert(a + b =~= a);
        assert(va + vb =~= va);
    } else {
        assert((a + b).drop_last() =~= a + b.drop_last());
        assert((va + vb).drop_last() =~= va + vb.drop_last());
        lemma_taken_concat(st, a, va, b.drop_last(), vb.drop_last());
    }
}

proof fn lemma_elems_concat(a: Seq<Chunk>, b: Seq<Chunk>)
    ensures
        elems(a + b) == elems(a) + elems(b),
    decreases a.len(),
{
    if a.len() == 0 {
        assert(a + b =~= b);
        assert(elems(a) + elems(b) =~= elems(b));
    } else {
        assert((a + b).skip(1) =~= a.skip(1) + b);
        lemma_elems_concat(a.skip(1), b);
        assert(elems(a + b) =~= elems(a) + elems(b));
    }
}

proof fn lemma_go_concat(st: Reading, a: Seq<Chunk>, b: Seq<Chunk>)
    ensures
        go(st, a + b) == go(go(st, a), b),
{
    reveal(go);
    lemma_elems_concat(a, b);
    let x = elems(a);
    let y = elems(b);
    assert(all_true((x + y).len()) =~= all_true(x.len()) + all_true(y.len()));
    lemma_taken_concat(st, x, all_true(x.len()), y, all_true(y.len()));
}

proof fn lemma_go_none(st: Reading)
    ensures
        go(st, Seq::<Chunk>::empty()) == st,
{
    reveal(go);
}

proof fn lemma_go_one(st: Reading, c: Chunk)
    ensures
        go(st, seq![c]) == if scan::is_markup(c.inner) {
            st
        } else {
            gpx::taken(st, scan::element(c.inner, c.text), true)
        },
{
    reveal(go);
    reveal_with_fuel(elems, 2);
    assert(seq![c].skip(1) =~= Seq::<Chunk>::empty());
    if scan::is_markup(c.inner) {
        assert(elems(seq![c]) =~= Seq::<Elem>::empty());
    } else {
        let e = scan::element(c.inner, c.text);
        assert(elems(seq![c]) =~= seq![e]);
        assert(seq![e].drop_last() =~= Seq::<Elem>::empty());
        assert(gpx::all_taken(st, seq![e].drop_last(), all_true(1).drop_last()) == st);
    }
}

/// The names of the vocabulary, and that they are different.
proof fn lemma_names()
    ensures
        "gpx"@ == seq!['g', 'p', 'x'],
        "trk"@ == seq!['t', 'r', 'k'],
        "rte"@ == seq!['r', 't', 'e'],
        "wpt"@ == seq!['w', 'p', 't'],
        "trkpt"@ == seq!['t', 'r', 'k', 'p', 't'],
        "rtept"@ == seq!['r', 't', 'e', 'p', 't'],
        "name"@ == seq!['n', 'a', 'm', 'e'],
        "desc"@ == seq!['d', 'e', 's', 'c'],
        "cmt"@ == seq!['c', 'm', 't'],
        "ele"@ == seq!['e', 'l', 'e'],
        "time"@ == seq!['t', 'i', 'm', 'e'],
        "trkseg"@ == seq!['t', 'r', 'k', 's', 'e', 'g'],
        "metadata"@ == seq!['m', 'e', 't', 'a', 'd', 'a', 't', 'a'],
        "lat"@ == seq!['l', 'a', 't'],
        "lon"@ == seq!['l', 'o', 'n'],
        "/gpx"@ == seq!['/'] + "gpx"@,
        "/trk"@ == seq!['/'] + "trk"@,
        "/rte"@ == seq!['/'] + "rte"@,
        "/wpt"@ == seq!['/'] + "wpt"@,
        "/trkseg"@ == seq!['/'] + "trkseg"@,
        "/metadata"@ == seq!['/'] + "metadata"@,
{
    reveal_strlit("gpx");
    reveal_strlit("trk");
    reveal_strlit("rte");
    reveal_strlit("wpt");
    reveal_strlit("trkpt");
    reveal_strlit("rtept");
    reveal_strlit("name");
    reveal_strlit("desc");
    reveal_strlit("cmt");
    reveal_strlit("ele");
    reveal_strlit("time");
    reveal_strlit("trkseg");
    reveal_strlit("metadata");
    reveal_strlit("lat");
    reveal_strlit("lon");
    reveal_strlit("/gpx");
    reveal_strlit("/trk");
    reveal_strlit("/rte");
    reveal_strlit("/wpt");
    reveal_strlit("/trkseg");
    reveal_strlit("/metadata");
    assert("gpx"@ =~= seq!['g', 'p', 'x']);
    assert("trk"@ =~= seq!['t', 'r', 'k']);
    assert("rte"@ =~= seq!['r', 't', 'e']);
    assert("wpt"@ =~= seq!['w', 'p', 't']);
    assert("trkpt"@ =~= seq!['t', 'r', 'k', 'p', 't']);
    assert("rtept"@ =~= seq!['r', 't', 'e', 'p', 't']);
    assert("name"@ =~= seq!['n', 'a', 'm', 'e']);
    assert("desc"@ =~= seq!['d', 'e', 's', 'c']);
    assert("cmt"@ =~= seq!['c', 'm', 't']);
    assert("ele"@ =~= seq!['e', 'l', 'e']);
    assert("time"@ =~= seq!['t', 'i', 'm', 'e']);
    assert("trkseg"@ =~= seq!['t', 'r', 'k', 's', 'e', 'g']);
    assert("metadata"@ =~= seq!['m', 'e', 't', 'a', 'd', 'a', 't', 'a']);
    assert("lat"@ =~= seq!['l', 'a', 't']);
    assert("lon"@ =~= seq!['l', 'o', 'n']);
    assert("/gpx"@ =~= seq!['/'] + "gpx"@);
    assert("/trk"@ =~= seq!['/'] + "trk"@);
    assert("/rte"@ =~= seq!['/'] + "rte"@);
    assert("/wpt"@ =~= seq!['/'] + "wpt"@);
    assert("/trkseg"@ =~= seq!['/'] + "trkseg"@);
    assert("/metadata"@ =~= seq!['/'] + "metadata"@);
}

spec fn one_word(n: Seq<char>) -> bool {
    &&& n.len() > 0
    &&& forall|i: int| 0 <= i < n.len() ==> #[trigger] n[i] != '/' && !scan::is_ascii_space(n[i])
    &&& n[0] != '?' && n[0] != '!'
}

proof fn lemma_no_space(s: Seq<char>, from: int, i: int)
    requires
        0 <= from <= i <= s.len(),
        forall|j: int| from <= j < i ==> !scan::is_ascii_space(#[trigger] s[j]),
        i < s.len() ==> scan::is_ascii_space(s[i]),
    ensures
        scan::space_from(s, from) == i,
    decreases i - from,
{
    if from < i {
        lemma_no_space(s, from + 1, i);
    }
}

/// The element of a tag of one word.
proof fn lemma_word_element(n: Seq<char>, t: Seq<char>)
    requires
        one_word(n),
    ensures
        !scan::is_markup(n),
        ({
            let e = scan::element(n, t);
            e.name == n && !e.closing && !e.self_closing && e.text == text::trimmed(t)
        }),
{
    assert(scan::strip_start(n) == n);
    assert(n.last() == n[n.len() - 1]);
    assert(scan::strip_end(n) == n);
    lemma_no_space(n, 0, n.len() as int);
    assert(n.take(n.len() as int) =~= n);
}

/// The element of a closing tag of one word.
proof fn lemma_closing_element(n: Seq<char>, t: Seq<char>)
    requires
        one_word(n),
    ensures
        !scan::is_markup(seq!['/'] + n),
        ({
            let e = scan::element(seq!['/'] + n, t);
            e.name == n && e.closing
        }),
{
    let s = seq!['/'] + n;
    assert(s.skip(1) =~= n);
    assert(scan::strip_start(n) == n);
    assert(scan::strip_start(s) == n);
    assert(n.last() == n[n.len() - 1]);
    assert(scan::strip_end(n) == n);
    lemma_no_space(n, 0, n.len() as int);
    assert(n.take(n.len() as int) =~= n);
}

/// The words that the writer uses are words.
proof fn lemma_words()
    ensures
        one_word("gpx"@),
        one_word("trk"@),
        one_word("rte"@),
        one_word("wpt"@),
        one_word("trkpt"@),
        one_word("rtept"@),
        one_word("name"@),
        one_word("desc"@),
        one_word("ele"@),
        one_word("time"@),
        one_word("trkseg"@),
        one_word("metadata"@),
{
    lemma_names();
}

// ---- positions --------------------------------------------------------------

/// A number as it is written.
pub open spec fn is_number(t: Seq<char>) -> bool {
    forall|i: int|
        0 <= i < t.len() ==> ('0' <= #[trigger] t[i] && t[i] <= '9') || t[i] == '-' || t[i] == '.'
}

proof fn lemma_find_is(s: Seq<char>, key: Seq<char>, from: int, i: int)
    requires
        0 <= from <= i,
        scan::stands_at(s, key, i),
        forall|j: int| from <= j < i ==> !scan::stands_at(s, key, j),
    ensures
        scan::find_from(s, key, from) == Some(i),
    decreases i - from,
{
    if from < i {
        lemma_find_is(s, key, from + 1, i);
    }
}

/// Text without an ampersand has no references to turn back.
proof fn lemma_nothing_to_unescape(t: Seq<char>, first: bool)
    requires
        forall|i: int| 0 <= i < t.len() ==> t[i] != '&',
    ensures
        scan::unescaped_rest(t, first) == t,
    decreases t.len(),
{
    if t.len() > 0 {
        assert forall|w: Seq<char>| w.len() > 0 && w[0] == '&' implies !#[trigger] scan::stands_at(
            t,
            w,
            0,
        ) by {
            if scan::stands_at(t, w, 0) {
                assert(t.subrange(0, w.len() as int)[0] == t[0]);
            }
        }
        assert(scan::reference(t, first) is None);
        lemma_nothing_to_unescape(t.skip(1), false);
        assert(seq![t[0]] + t.skip(1) =~= t);
    }
}

spec fn attributes(lat: Seq<char>, lon: Seq<char>) -> Seq<char> {
    " lat=\""@ + lat + "\" lon=\""@ + lon + "\""@
}

proof fn lemma_attribute_text()
    ensures
        " lat=\""@ == seq![' ', 'l', 'a', 't', '=', '"'],
        "\" lon=\""@ == seq!['"', ' ', 'l', 'o', 'n', '=', '"'],
        "\""@ == seq!['"'],
{
    reveal_strlit(" lat=\"");
    reveal_strlit("\" lon=\"");
    reveal_strlit("\"");
    assert(" lat=\""@ =~= seq![' ', 'l', 'a', 't', '=', '"']);
    assert("\" lon=\""@ =~= seq!['"', ' ', 'l', 'o', 'n', '=', '"']);
    assert("\""@ =~= seq!['"']);
}

/// An attribute whose key stands at `i` and whose quoted value is `v`.
proof fn lemma_attr_is(s: Seq<char>, key: Seq<char>, i: int, v: Seq<char>)
    requires
        key.len() > 0,
        0 <= i,
        i + key.len() + 2 + v.len() < s.len(),
        scan::stands_at(s, key, i),
        forall|j: int| 0 <= j < i ==> !scan::stands_at(s, key, j),
        i == 0 || scan::is_ascii_space(s[i - 1]),
        s[i + key.len()] == '=',
        s[i + key.len() + 1] == '"',
        s.subrange(i + key.len() + 2, i + key.len() + 2 + v.len()) == v,
        s[i + key.len() + 2 + v.len()] == '"',
        is_number(v),
    ensures
        scan::attr_of(s, key) == Some(v),
{
    lemma_find_is(s, key, 0, i);
    let after = s.skip(i + key.len());
    assert(after[0] == '=');
    assert(text::trim_start(after) == after);
    let q = after.skip(1);
    assert(q[0] == '"');
    assert(text::trim_start(q) == q);
    assert forall|j: int| 1 <= j < 1 + v.len() implies q[j] != '"' by {
        assert(q[j] == s.subrange(i + key.len() + 2, i + key.len() + 2 + v.len())[j - 1]);
    }
    lemma_index_is(q, '"', 1, v.len() + 1int);
    assert(q.subrange(1, v.len() + 1int) =~= v);
    lemma_nothing_to_unescape(v, true);
}

proof fn lemma_position_attrs(lat: Seq<char>, lon: Seq<char>)
    requires
        is_number(lat),
        is_number(lon),
    ensures
        scan::attr_of(attributes(lat, lon), "lat"@) == Some(lat),
        scan::attr_of(attributes(lat, lon), "lon"@) == Some(lon),
{
    lemma_attribute_text();
    lemma_names();
    let s = attributes(lat, lon);
    let n = lat.len() as int;
    let k = n + 8;
    assert(s[0] == ' ' && s[1] == 'l' && s[2] == 'a' && s[3] == 't' && s[4] == '=' && s[5] == '"');
    assert(forall|j: int| 0 <= j < n ==> s[6 + j] == lat[j]);
    assert(s[6 + n] == '"' && s[7 + n] == ' ' && s[8 + n] == 'l' && s[9 + n] == 'o' && s[10 + n]
        == 'n' && s[11 + n] == '=' && s[12 + n] == '"');
    assert(forall|j: int| 0 <= j < lon.len() ==> s[13 + n + j] == lon[j]);
    assert(s[13 + n + lon.len()] == '"');
    assert(s.subrange(1, 4) =~= "lat"@);
    assert(s.subrange(6, 6 + n) =~= lat);
    assert forall|j: int| 0 <= j < 1 implies !scan::stands_at(s, "lat"@, j) by {
        assert(s.subrange(0, 3)[0] == ' ');
    }
    lemma_attr_is(s, "lat"@, 1, lat);
    assert(s.subrange(k, k + 3) =~= "lon"@);
    assert(s.subrange(k + 5, k + 5 + lon.len()) =~= lon);
    assert forall|j: int| 0 <= j < k implies !scan::stands_at(s, "lon"@, j) by {
        if scan::stands_at(s, "lon"@, j) {
            assert(s.subrange(j, j + 3)[0] == 'l');
            assert(s.subrange(j, j + 3)[1] == 'o');
            assert(s[j] == 'l');
            assert(s[j + 1] == 'o');
            if 6 <= j < 6 + n {
                assert(s[6 + (j - 6)] == lat[j - 6]);
            }
        }
    }
    lemma_attr_is(s, "lon"@, k, lon);
}

/// The element of a point's tag, whether or not it closes itself.
proof fn lemma_position_element(name: Seq<char>, lat: Seq<char>, lon: Seq<char>, t: Seq<char>)
    requires
        one_word(name),
        scan::is_point(name),
        is_number(lat),
        is_number(lon),
    ensures
        !scan::is_markup(writer::position(name, lat, lon)),
        !scan::is_markup(writer::position(name, lat, lon) + seq!['/']),
        ({
            let e = scan::element(writer::position(name, lat, lon), t);
            e.name == name && !e.closing && !e.self_closing && e.lat == Some(lat) && e.lon == Some(
                lon,
            )
        }),
        ({
            let e = scan::element(writer::position(name, lat, lon) + seq!['/'], t);
            e.name == name && !e.closing && e.self_closing && e.lat == Some(lat) && e.lon == Some(
                lon,
            )
        }),
{
    lemma_attribute_text();
    let p = writer::position(name, lat, lon);
    let a = attributes(lat, lon);
    assert(p =~= name + a);
    let n = name.len() as int;
    assert(p[0] == name[0]);
    assert(p.last() == '"');
    assert(scan::strip_start(p) == p);
    assert(scan::strip_end(p) == p);
    assert forall|j: int| 0 <= j < n implies !scan::is_ascii_space(#[trigger] p[j]) by {
        assert(p[j] == name[j]);
    }
    assert(p[n] == ' ');
    lemma_no_space(p, 0, n);
    assert(p.take(n) =~= name);
    assert(p.skip(n) =~= a);
    lemma_position_attrs(lat, lon);
    let q = p + seq!['/'];
    assert(q[0] == name[0]);
    assert(q.last() == '/');
    assert(q.drop_last() =~= p);
    assert(scan::strip_start(q) == q);
    assert(scan::strip_end(q) == p);
}

// ---- groups of tags ---------------------------------------------------------

/// Text with no white space at its ends.
pub open spec fn is_tidy(t: Seq<char>) -> bool {
    t.len() > 0 ==> !text::is_space(t[0]) && !text::is_space(t.last())
}

/// Text that stands in a tag as it is.
spec fn is_plain(t: Seq<char>) -> bool {
    t.len() > 0 && is_tidy(t) && no_brackets(t)
}

/// An elevation that can be written: a number.
#[verifier::opaque]
pub open spec fn good_ele(t: Option<Seq<char>>) -> bool {
    t matches Some(s) ==> text::is_float(s)
}

/// A time that can be written: a timestamp, as it stands between tags.
#[verifier::opaque]
pub open spec fn good_time(t: Option<Seq<char>>) -> bool {
    t matches Some(s) ==> {
        &&& gpx::stamp_of(s) is Some
        &&& is_tidy(s)
        &&& forall|i: int| 0 <= i < s.len() ==> #[trigger] s[i] != '<' && s[i] != '>'
    }
}

/// What is not there can be written.
proof fn lemma_nothing_is_good()
    ensures
        good_ele(None),
        good_time(None),
{
    reveal(good_ele);
    reveal(good_time);
}

proof fn lemma_plain(ele: Option<Seq<char>>, time: Option<Seq<char>>)
    requires
        good_ele(ele),
        good_time(time),
    ensures
        ele matches Some(t) ==> is_plain(t),
        time matches Some(t) ==> is_plain(t),
{
    reveal(good_ele);
    reveal(good_time);
    if let Some(t) = ele {
        text::lemma_float_plain(t);
        assert(!text::is_space(t[0]) && !text::is_space(t[t.len() - 1]));
    }
}

proof fn lemma_escaped_ends_from(t: Seq<char>, i: int)
    requires
        0 <= i < t.len(),
    ensures
        scan::escaped_from(t, i).len() > 0,
        i == 0 ==> !text::is_space(scan::escaped_from(t, i)[0]),
        !text::is_space(scan::escaped_from(t, i).last()),
        no_brackets(scan::escaped_from(t, i)),
    decreases t.len() - i,
{
    scan::lemma_entities();
    let e = scan::written(t, i);
    let r = scan::escaped_from(t, i + 1);
    if (i == 0 || i == t.len() - 1) && text::is_space(t[i]) {
        let d = text::dec(t[i] as nat);
        text::lemma_dec_reads(t[i] as nat);
        assert forall|j: int| 0 <= j < e.len() implies #[trigger] e[j] != '<' && e[j] != '>' by {
            if 2 <= j < 2 + d.len() {
                assert(e[j] == d[j - 2]);
                assert(text::is_digit(d[j - 2]));
            }
        }
    }
    assert(no_brackets(e));
    if i + 1 == t.len() {
        assert(r.len() == 0);
        assert(e + r =~= e);
    } else {
        lemma_escaped_ends_from(t, i + 1);
        assert((e + r).last() == r.last());
    }
}

/// However a text begins and ends, what it is written as begins and ends with
/// no white space.
proof fn lemma_escaped_ends(t: Seq<char>)
    requires
        t.len() > 0,
    ensures
        scan::escaped(t).len() > 0,
        is_tidy(scan::escaped(t)),
        no_brackets(scan::escaped(t)),
{
    lemma_escaped_ends_from(t, 0);
}

/// An element of text and its closing tag: the text goes where its name says.
proof fn lemma_go_text(st: Reading, indent: nat, name: Seq<char>, t: Seq<char>)
    requires
        one_word(name),
        name != "trk"@ && name != "rte"@ && name != "trkpt"@ && name != "rtept"@ && name != "wpt"@,
        is_tidy(t),
    ensures
        go(st, writer::text_chunks(indent, name, t)) == gpx::taken(
            st,
            Elem { name, closing: false, self_closing: false, lat: None, lon: None, text: t },
            true,
        ),
{
    let cs = writer::text_chunks(indent, name, t);
    assert(cs =~= seq![cs[0]] + seq![cs[1]]);
    lemma_go_concat(st, seq![cs[0]], seq![cs[1]]);
    lemma_go_one(st, cs[0]);
    lemma_word_element(name, t);
    lemma_tidy(t);
    let mid = go(st, seq![cs[0]]);
    lemma_go_one(mid, cs[1]);
    lemma_closing_element(name, seq!['\n']);
}

/// A name or a description that is written is read back.
proof fn lemma_go_tag(st: Reading, indent: nat, name: Seq<char>, t: Seq<char>)
    requires
        name == "name"@ || name == "desc"@,
    ensures
        go(st, writer::tag_chunks(indent, name, t)) == (if t.len() == 0 {
            st
        } else if name == "name"@ {
            gpx::named(st, t)
        } else {
            gpx::described(st, t)
        }),
{
    lemma_names();
    lemma_words();
    if t.len() == 0 {
        lemma_go_none(st);
    } else {
        lemma_escaped_ends(t);
        lemma_go_text(st, indent, name, scan::escaped(t));
        law_unescape_escape(t);
    }
}

/// An elevation that is written is read back.
proof fn lemma_go_ele(st: Reading, indent: nat, ele: Option<Seq<char>>)
    requires
        good_ele(ele),
        st.pt is Some || st.wpt is Some,
    ensures
        go(st, writer::opt_chunks(indent, "ele"@, ele)) == (match ele {
            None => st,
            Some(_) => if st.pt is Some {
                Reading { pt: Some(Pt { ele, ..st.pt->0 }), ..st }
            } else {
                Reading { wpt: Some(Wp { ele, ..st.wpt->0 }), ..st }
            },
        }),
{
    lemma_names();
    lemma_words();
    match ele {
        None => lemma_go_none(st),
        Some(t) => {
            lemma_nothing_is_good();
            lemma_plain(ele, None);
            reveal(good_ele);
            lemma_go_text(st, indent, "ele"@, t);
        },
    }
}

/// A time that is written is read back.
proof fn lemma_go_time(st: Reading, indent: nat, time: Option<Seq<char>>)
    requires
        good_time(time),
        st.pt is Some,
    ensures
        go(st, writer::opt_chunks(indent, "time"@, time)) == (match time {
            None => st,
            Some(_) => Reading { pt: Some(Pt { time, ..st.pt->0 }), ..st },
        }),
{
    lemma_names();
    lemma_words();
    match time {
        None => lemma_go_none(st),
        Some(t) => {
            lemma_nothing_is_good();
            lemma_plain(None, time);
            reveal(good_time);
            lemma_go_text(st, indent, "time"@, t);
        },
    }
}

proof fn lemma_go_line(st: Reading, indent: nat, word: Seq<char>)
    requires
        one_word(word),
    ensures
        go(st, seq![writer::line_chunk(indent, word)]) == gpx::taken(
            st,
            scan::element(word, seq!['\n']),
            true,
        ),
        scan::element(word, seq!['\n']).name == word,
        !scan::element(word, seq!['\n']).closing,
        !scan::element(word, seq!['\n']).self_closing,
        scan::element(word, seq!['\n']).text.len() == 0,
{
    lemma_go_one(st, writer::line_chunk(indent, word));
    lemma_word_element(word, seq!['\n']);
    assert(all_space(seq!['\n']));
    lemma_trim_start_space(seq!['\n']);
}

proof fn lemma_go_end(st: Reading, indent: nat, word: Seq<char>)
    requires
        one_word(word),
    ensures
        go(st, seq![writer::line_chunk(indent, seq!['/'] + word)]) == gpx::closed(st, word),
{
    lemma_go_one(st, writer::line_chunk(indent, seq!['/'] + word));
    lemma_closing_element(word, seq!['\n']);
}

/// Whether a point can be written and read back as it is.
pub open spec fn good_point(p: Pt) -> bool {
    is_number(p.lat) && is_number(p.lon) && good_ele(p.ele) && good_time(p.time)
}

/// A point that has nothing but its position.
spec fn bare_point(lat: Seq<char>, lon: Seq<char>) -> Pt {
    Pt { lat, lon, ele: None, time: None, name: Seq::empty(), desc: Seq::empty() }
}

/// The opening tag of a point, and the tag of one that has nothing else.
proof fn lemma_go_position(st: Reading, name: Seq<char>, lat: Seq<char>, lon: Seq<char>)
    requires
        name == "trkpt"@ || name == "rtept"@,
        is_number(lat),
        is_number(lon),
        st.pt is None,
        st.wpt is None,
        st.line is Some,
    ensures
        ({
            let n = writer::point_indent(name);
            let p = bare_point(lat, lon);
            &&& go(st, seq![writer::line_chunk(n, writer::position(name, lat, lon))]) == (
            Reading { pt: Some(p), ..st })
            &&& go(st, seq![writer::line_chunk(n, writer::position(name, lat, lon) + seq!['/'])])
                == (Reading {
                line: Some(Ln { points: (st.line->0).points.push(p), ..st.line->0 }),
                ..st
            })
        }),
{
    lemma_names();
    let n = writer::point_indent(name);
    lemma_position_element(name, lat, lon, seq!['\n']);
    lemma_go_one(st, writer::line_chunk(n, writer::position(name, lat, lon)));
    lemma_go_one(st, writer::line_chunk(n, writer::position(name, lat, lon) + seq!['/']));
}

/// A point that is written is read back into the open line.
#[verifier::rlimit(60)]
proof fn lemma_go_point(st: Reading, name: Seq<char>, p: Pt)
    requires
        name == "trkpt"@ || name == "rtept"@,
        good_point(p),
        st.pt is None,
        st.wpt is None,
        st.line is Some,
    ensures
        go(st, writer::point_chunks(name, p)) == (Reading {
            line: Some(Ln { points: (st.line->0).points.push(p), ..st.line->0 }),
            ..st
        }),
{
    lemma_names();
    lemma_words();
    let n = writer::point_indent(name);
    lemma_go_position(st, name, p.lat, p.lon);
    let bare = bare_point(p.lat, p.lon);
    if writer::has_more(p) {
        let a = seq![writer::line_chunk(n, writer::position(name, p.lat, p.lon))];
        let b = writer::tag_chunks(n + 2, "name"@, p.name);
        let c = writer::tag_chunks(n + 2, "desc"@, p.desc);
        let d = writer::opt_chunks(n + 2, "ele"@, p.ele);
        let e = writer::opt_chunks(n + 2, "time"@, p.time);
        let f = seq![writer::line_chunk(n, seq!['/'] + name)];
        lemma_go_concat(st, a + b + c + d + e, f);
        lemma_go_concat(st, a + b + c + d, e);
        lemma_go_concat(st, a + b + c, d);
        lemma_go_concat(st, a + b, c);
        lemma_go_concat(st, a, b);
        let s1 = go(st, a);
        assert(s1 == Reading { pt: Some(bare), ..st });
        lemma_go_tag(s1, n + 2, "name"@, p.name);
        let s2 = go(s1, b);
        assert(s2.pt->0 =~= Pt { name: p.name, ..bare });
        assert(s2 == Reading { pt: Some(Pt { name: p.name, ..bare }), ..st });
        lemma_go_tag(s2, n + 2, "desc"@, p.desc);
        let s3 = go(s2, c);
        assert(s3.pt->0 =~= Pt { name: p.name, desc: p.desc, ..bare });
        lemma_go_ele(s3, n + 2, p.ele);
        let s4 = go(s3, d);
        assert(s4.pt->0 =~= Pt { name: p.name, desc: p.desc, ele: p.ele, ..bare });
        lemma_go_time(s4, n + 2, p.time);
        let s5 = go(s4, e);
        assert(s5.pt->0 =~= p);
        assert(s5 == Reading { pt: Some(p), ..st });
        lemma_go_end(s5, n, name);
    } else {
        assert(p =~= bare);
    }
}

pub open spec fn good_points(ps: Seq<Pt>) -> bool {
    forall|i: int| 0 <= i < ps.len() ==> good_point(#[trigger] ps[i])
}

proof fn lemma_go_points(st: Reading, name: Seq<char>, ps: Seq<Pt>)
    requires
        name == "trkpt"@ || name == "rtept"@,
        good_points(ps),
        st.pt is None,
        st.wpt is None,
        st.line is Some,
    ensures
        go(st, writer::points_chunks(name, ps)) == (Reading {
            line: Some(Ln { points: (st.line->0).points + ps, ..st.line->0 }),
            ..st
        }),
    decreases ps.len(),
{
    if ps.len() == 0 {
        lemma_go_none(st);
        assert((st.line->0).points + ps =~= (st.line->0).points);
    } else {
        let front = ps.drop_last();
        assert(good_points(front)) by {
            assert forall|i: int| 0 <= i < front.len() implies good_point(#[trigger] front[i]) by {
                assert(good_point(ps[i]));
            }
        }
        assert(good_point(ps[ps.len() - 1]));
        lemma_go_points(st, name, front);
        lemma_go_concat(
            st,
            writer::points_chunks(name, front),
            writer::point_chunks(name, ps.last()),
        );
        lemma_go_point(go(st, writer::points_chunks(name, front)), name, ps.last());
        assert(((st.line->0).points + front).push(ps.last()) =~= (st.line->0).points + ps);
    }
}

/// Whether a line can be written and read back as it is.
pub open spec fn good_line(l: Ln) -> bool {
    good_points(l.points)
}

/// Whether a waypoint can be written and read back as it is.
pub open spec fn good_waypoint(w: Wp) -> bool {
    is_number(w.lat) && is_number(w.lon) && good_ele(w.ele)
}

/// Between two things that are written nothing is open.
spec fn at_rest(st: Reading) -> bool {
    st.pt is None && st.wpt is None && st.line is None && !st.in_track && !st.in_route
        && st.saw_gpx
}

proof fn lemma_go_waypoint(st: Reading, w: Wp)
    requires
        good_waypoint(w),
        at_rest(st),
    ensures
        go(st, writer::waypoint_chunks(w)) == (Reading {
            doc: Doc { waypoints: st.doc.waypoints.push(w), ..st.doc },
            ..st
        }),
{
    lemma_names();
    lemma_words();
    lemma_position_element("wpt"@, w.lat, w.lon, seq!['\n']);
    let bare = Wp { name: Seq::empty(), desc: Seq::empty(), lat: w.lat, lon: w.lon, ele: None };
    let a = seq![writer::line_chunk(2, writer::position("wpt"@, w.lat, w.lon))];
    let b = writer::tag_chunks(4, "name"@, w.name);
    let c = writer::tag_chunks(4, "desc"@, w.desc);
    let d = writer::opt_chunks(4, "ele"@, w.ele);
    let e = seq![writer::line_chunk(2, "/wpt"@)];
    lemma_go_concat(st, a + b + c + d, e);
    lemma_go_concat(st, a + b + c, d);
    lemma_go_concat(st, a + b, c);
    lemma_go_concat(st, a, b);
    lemma_go_one(st, a[0]);
    let s1 = go(st, a);
    assert(s1 == Reading { wpt: Some(bare), ..st });
    lemma_go_tag(s1, 4, "name"@, w.name);
    let s2 = go(s1, b);
    assert(s2.wpt->0 =~= Wp { name: w.name, ..bare });
    lemma_go_tag(s2, 4, "desc"@, w.desc);
    let s3 = go(s2, c);
    assert(s3.wpt->0 =~= Wp { name: w.name, desc: w.desc, ..bare });
    lemma_go_ele(s3, 4, w.ele);
    let s4 = go(s3, d);
    assert(s4.wpt->0 =~= w);
    assert(s4 == Reading { wpt: Some(w), ..st });
    lemma_go_end(s4, 2, "wpt"@);
}

proof fn lemma_go_route(st: Reading, r: Ln)
    requires
        good_line(r),
        at_rest(st),
    ensures
        go(st, writer::route_chunks(r)) == (Reading {
            doc: Doc { routes: st.doc.routes.push(r), ..st.doc },
            ..st
        }),
{
    lemma_names();
    lemma_words();
    let a = seq![writer::line_chunk(2, "rte"@)];
    let b = writer::tag_chunks(4, "name"@, r.name);
    let c = writer::points_chunks("rtept"@, r.points);
    let d = seq![writer::line_chunk(2, "/rte"@)];
    lemma_go_concat(st, a + b + c, d);
    lemma_go_concat(st, a + b, c);
    lemma_go_concat(st, a, b);
    lemma_go_line(st, 2, "rte"@);
    let s1 = go(st, a);
    lemma_go_tag(s1, 4, "name"@, r.name);
    let s2 = go(s1, b);
    assert(s2.line->0 =~= Ln { name: r.name, points: Seq::empty() });
    lemma_go_points(s2, "rtept"@, r.points);
    let s3 = go(s2, c);
    assert(s3.line->0 =~= r);
    lemma_go_end(s3, 2, "rte"@);
}

proof fn lemma_go_track(st: Reading, t: Ln)
    requires
        good_line(t),
        at_rest(st),
    ensures
        go(st, writer::track_chunks(t)) == (Reading {
            doc: Doc { tracks: st.doc.tracks.push(t), ..st.doc },
            ..st
        }),
{
    lemma_names();
    lemma_words();
    let a = seq![writer::line_chunk(2, "trk"@)];
    let b = writer::tag_chunks(4, "name"@, t.name);
    let c = seq![writer::line_chunk(4, "trkseg"@)];
    let d = writer::points_chunks("trkpt"@, t.points);
    let e = seq![writer::line_chunk(4, "/trkseg"@)];
    let f = seq![writer::line_chunk(2, "/trk"@)];
    lemma_go_concat(st, a + b + c + d + e, f);
    lemma_go_concat(st, a + b + c + d, e);
    lemma_go_concat(st, a + b + c, d);
    lemma_go_concat(st, a + b, c);
    lemma_go_concat(st, a, b);
    lemma_go_line(st, 2, "trk"@);
    let s1 = go(st, a);
    lemma_go_tag(s1, 4, "name"@, t.name);
    let s2 = go(s1, b);
    assert(s2.line->0 =~= Ln { name: t.name, points: Seq::empty() });
    lemma_go_line(s2, 4, "trkseg"@);
    let s3 = go(s2, c);
    assert(s3 == s2);
    lemma_go_points(s3, "trkpt"@, t.points);
    let s4 = go(s3, d);
    assert(s4.line->0 =~= t);
    lemma_go_end(s4, 4, "trkseg"@);
    lemma_go_end(s4, 2, "trk"@);
}

pub open spec fn good_lines(ls: Seq<Ln>) -> bool {
    forall|i: int| 0 <= i < ls.len() ==> good_line(#[trigger] ls[i])
}

pub open spec fn good_waypoints(ws: Seq<Wp>) -> bool {
    forall|i: int| 0 <= i < ws.len() ==> good_waypoint(#[trigger] ws[i])
}

/// Whether a file can be written and read back as it is: its positions and its
/// elevations are numbers, and its times are timestamps.
pub open spec fn good_doc(d: Doc) -> bool {
    good_waypoints(d.waypoints) && good_lines(d.routes)
        && good_lines(d.tracks)
}

proof fn lemma_go_waypoints(st: Reading, ws: Seq<Wp>)
    requires
        good_waypoints(ws),
        at_rest(st),
    ensures
        go(st, writer::waypoints_chunks(ws)) == (Reading {
            doc: Doc { waypoints: st.doc.waypoints + ws, ..st.doc },
            ..st
        }),
    decreases ws.len(),
{
    if ws.len() == 0 {
        lemma_go_none(st);
        assert(st.doc.waypoints + ws =~= st.doc.waypoints);
    } else {
        let front = ws.drop_last();
        assert(good_waypoints(front)) by {
            assert forall|i: int| 0 <= i < front.len() implies good_waypoint(
                #[trigger] front[i],
            ) by {
                assert(good_waypoint(ws[i]));
            }
        }
        assert(good_waypoint(ws[ws.len() - 1]));
        lemma_go_waypoints(st, front);
        lemma_go_concat(st, writer::waypoints_chunks(front), writer::waypoint_chunks(ws.last()));
        lemma_go_waypoint(go(st, writer::waypoints_chunks(front)), ws.last());
        assert((st.doc.waypoints + front).push(ws.last()) =~= st.doc.waypoints + ws);
    }
}

proof fn lemma_go_routes(st: Reading, rs: Seq<Ln>)
    requires
        good_lines(rs),
        at_rest(st),
    ensures
        go(st, writer::routes_chunks(rs)) == (Reading {
            doc: Doc { routes: st.doc.routes + rs, ..st.doc },
            ..st
        }),
    decreases rs.len(),
{
    if rs.len() == 0 {
        lemma_go_none(st);
        assert(st.doc.routes + rs =~= st.doc.routes);
    } else {
        let front = rs.drop_last();
        lemma_front_good(rs);
        lemma_go_routes(st, front);
        lemma_go_concat(st, writer::routes_chunks(front), writer::route_chunks(rs.last()));
        lemma_go_route(go(st, writer::routes_chunks(front)), rs.last());
        assert((st.doc.routes + front).push(rs.last()) =~= st.doc.routes + rs);
    }
}

proof fn lemma_front_good(ls: Seq<Ln>)
    requires
        good_lines(ls),
        ls.len() > 0,
    ensures
        good_lines(ls.drop_last()),
        good_line(ls.last()),
{
    let front = ls.drop_last();
    assert forall|i: int| 0 <= i < front.len() implies good_line(#[trigger] front[i]) by {
        assert(good_line(ls[i]));
    }
    assert(good_line(ls[ls.len() - 1]));
}

proof fn lemma_go_tracks(st: Reading, ts: Seq<Ln>)
    requires
        good_lines(ts),
        at_rest(st),
    ensures
        go(st, writer::tracks_chunks(ts)) == (Reading {
            doc: Doc { tracks: st.doc.tracks + ts, ..st.doc },
            ..st
        }),
    decreases ts.len(),
{
    if ts.len() == 0 {
        lemma_go_none(st);
        assert(st.doc.tracks + ts =~= st.doc.tracks);
    } else {
        let front = ts.drop_last();
        lemma_front_good(ts);
        lemma_go_tracks(st, front);
        lemma_go_concat(st, writer::tracks_chunks(front), writer::track_chunks(ts.last()));
        lemma_go_track(go(st, writer::tracks_chunks(front)), ts.last());
        assert((st.doc.tracks + front).push(ts.last()) =~= st.doc.tracks + ts);
    }
}

proof fn lemma_go_metadata(st: Reading, name: Seq<char>, desc: Seq<char>)
    requires
        at_rest(st),
        st.doc == gpx::empty_doc(),
    ensures
        go(st, writer::metadata_chunks(name, desc)) == (Reading {
            doc: Doc { name, desc, ..st.doc },
            ..st
        }),
{
    lemma_names();
    lemma_words();
    if name.len() == 0 && desc.len() == 0 {
        lemma_go_none(st);
        assert(name =~= st.doc.name);
        assert(desc =~= st.doc.desc);
    } else {
        let a = seq![writer::line_chunk(2, "metadata"@)];
        let b = writer::tag_chunks(4, "name"@, name);
        let c = writer::tag_chunks(4, "desc"@, desc);
        let d = seq![writer::line_chunk(2, "/metadata"@)];
        lemma_go_concat(st, a + b + c, d);
        lemma_go_concat(st, a + b, c);
        lemma_go_concat(st, a, b);
        lemma_go_line(st, 2, "metadata"@);
        lemma_go_tag(st, 4, "name"@, name);
        let s2 = go(st, b);
        assert(s2.doc =~= Doc { name, ..st.doc });
        lemma_go_tag(s2, 4, "desc"@, desc);
        let s3 = go(s2, c);
        assert(s3.doc =~= Doc { name, desc, ..st.doc });
        lemma_go_end(s3, 2, "metadata"@);
    }
}

// ---- tags are clean ---------------------------------------------------------

proof fn lemma_clean_concat(a: Seq<Chunk>, b: Seq<Chunk>)
    requires
        all_clean(a),
        all_clean(b),
    ensures
        all_clean(a + b),
{
    assert forall|i: int| 0 <= i < (a + b).len() implies clean(#[trigger] (a + b)[i]) by {
        if i < a.len() {
            assert(clean(a[i]));
        } else {
            assert(clean(b[i - a.len()]));
        }
    }
}

proof fn lemma_clean_line(indent: nat, inner: Seq<char>)
    requires
        no_brackets(inner),
    ensures
        all_clean(seq![writer::line_chunk(indent, inner)]),
{
    assert(clean(writer::line_chunk(indent, inner)));
}

proof fn lemma_clean_text(indent: nat, name: Seq<char>, t: Seq<char>)
    requires
        no_brackets(name),
        no_brackets(t),
    ensures
        all_clean(writer::text_chunks(indent, name, t)),
{
    let cs = writer::text_chunks(indent, name, t);
    assert(clean(cs[0]));
    assert(clean(cs[1]));
}

proof fn lemma_clean_tag(indent: nat, name: Seq<char>, t: Seq<char>)
    requires
        no_brackets(name),
    ensures
        all_clean(writer::tag_chunks(indent, name, t)),
{
    if t.len() > 0 {
        lemma_escaped_ends(t);
        lemma_clean_text(indent, name, scan::escaped(t));
    }
}

proof fn lemma_clean_opt(indent: nat, name: Seq<char>, t: Option<Seq<char>>)
    requires
        no_brackets(name),
        t matches Some(s) ==> is_plain(s),
    ensures
        all_clean(writer::opt_chunks(indent, name, t)),
{
    match t {
        None => {},
        Some(s) => lemma_clean_text(indent, name, s),
    }
}

proof fn lemma_clean_position(name: Seq<char>, lat: Seq<char>, lon: Seq<char>)
    requires
        no_brackets(name),
        is_number(lat),
        is_number(lon),
    ensures
        no_brackets(writer::position(name, lat, lon)),
        no_brackets(writer::position(name, lat, lon) + seq!['/']),
{
    lemma_attribute_text();
    assert(no_brackets(lat));
    assert(no_brackets(lon));
    assert(no_brackets(name + " lat=\""@));
    assert(no_brackets(name + " lat=\""@ + lat));
    assert(no_brackets(name + " lat=\""@ + lat + "\" lon=\""@));
    assert(no_brackets(name + " lat=\""@ + lat + "\" lon=\""@ + lon));
}

proof fn lemma_clean_point(name: Seq<char>, p: Pt)
    requires
        name == "trkpt"@ || name == "rtept"@,
        good_point(p),
    ensures
        all_clean(writer::point_chunks(name, p)),
{
    lemma_plain(p.ele, p.time);
    lemma_names();
    let n = writer::point_indent(name);
    assert(no_brackets(name));
    lemma_clean_position(name, p.lat, p.lon);
    if writer::has_more(p) {
        let a = seq![writer::line_chunk(n, writer::position(name, p.lat, p.lon))];
        let b = writer::tag_chunks(n + 2, "name"@, p.name);
        let c = writer::tag_chunks(n + 2, "desc"@, p.desc);
        let d = writer::opt_chunks(n + 2, "ele"@, p.ele);
        let e = writer::opt_chunks(n + 2, "time"@, p.time);
        let f = seq![writer::line_chunk(n, seq!['/'] + name)];
        lemma_clean_line(n, writer::position(name, p.lat, p.lon));
        lemma_clean_tag(n + 2, "name"@, p.name);
        lemma_clean_tag(n + 2, "desc"@, p.desc);
        lemma_clean_opt(n + 2, "ele"@, p.ele);
        lemma_clean_opt(n + 2, "time"@, p.time);
        lemma_clean_line(n, seq!['/'] + name);
        lemma_clean_concat(a, b);
        lemma_clean_concat(a + b, c);
        lemma_clean_concat(a + b + c, d);
        lemma_clean_concat(a + b + c + d, e);
        lemma_clean_concat(a + b + c + d + e, f);
    } else {
        lemma_clean_line(n, writer::position(name, p.lat, p.lon) + seq!['/']);
    }
}

proof fn lemma_clean_points(name: Seq<char>, ps: Seq<Pt>)
    requires
        name == "trkpt"@ || name == "rtept"@,
        good_points(ps),
    ensures
        all_clean(writer::points_chunks(name, ps)),
    decreases ps.len(),
{
    if ps.len() > 0 {
        let front = ps.drop_last();
        assert forall|i: int| 0 <= i < front.len() implies good_point(#[trigger] front[i]) by {
            assert(good_point(ps[i]));
        }
        assert(good_point(ps[ps.len() - 1]));
        lemma_clean_points(name, front);
        lemma_clean_point(name, ps.last());
        lemma_clean_concat(
            writer::points_chunks(name, front),
            writer::point_chunks(name, ps.last()),
        );
    }
}

proof fn lemma_clean_waypoints(ws: Seq<Wp>)
    requires
        good_waypoints(ws),
    ensures
        all_clean(writer::waypoints_chunks(ws)),
    decreases ws.len(),
{
    if ws.len() > 0 {
        lemma_names();
        let front = ws.drop_last();
        assert forall|i: int| 0 <= i < front.len() implies good_waypoint(#[trigger] front[i]) by {
            assert(good_waypoint(ws[i]));
        }
        lemma_clean_waypoints(front);
        let w = ws.last();
        assert(good_waypoint(ws[ws.len() - 1]));
        lemma_clean_position("wpt"@, w.lat, w.lon);
        let a = seq![writer::line_chunk(2, writer::position("wpt"@, w.lat, w.lon))];
        let b = writer::tag_chunks(4, "name"@, w.name);
        let c = writer::tag_chunks(4, "desc"@, w.desc);
        let d = writer::opt_chunks(4, "ele"@, w.ele);
        let e = seq![writer::line_chunk(2, "/wpt"@)];
        lemma_clean_line(2, writer::position("wpt"@, w.lat, w.lon));
        lemma_clean_tag(4, "name"@, w.name);
        lemma_clean_tag(4, "desc"@, w.desc);
        lemma_nothing_is_good();
        lemma_plain(ws.last().ele, None);
        lemma_clean_opt(4, "ele"@, w.ele);
        lemma_clean_line(2, "/wpt"@);
        lemma_clean_concat(a, b);
        lemma_clean_concat(a + b, c);
        lemma_clean_concat(a + b + c, d);
        lemma_clean_concat(a + b + c + d, e);
        lemma_clean_concat(writer::waypoints_chunks(front), writer::waypoint_chunks(w));
    }
}

proof fn lemma_clean_routes(rs: Seq<Ln>)
    requires
        good_lines(rs),
    ensures
        all_clean(writer::routes_chunks(rs)),
    decreases rs.len(),
{
    if rs.len() > 0 {
        lemma_names();
        lemma_front_good(rs);
        lemma_clean_routes(rs.drop_last());
        let r = rs.last();
        let a = seq![writer::line_chunk(2, "rte"@)];
        let b = writer::tag_chunks(4, "name"@, r.name);
        let c = writer::points_chunks("rtept"@, r.points);
        let d = seq![writer::line_chunk(2, "/rte"@)];
        lemma_clean_line(2, "rte"@);
        lemma_clean_tag(4, "name"@, r.name);
        lemma_clean_points("rtept"@, r.points);
        lemma_clean_line(2, "/rte"@);
        lemma_clean_concat(a, b);
        lemma_clean_concat(a + b, c);
        lemma_clean_concat(a + b + c, d);
        lemma_clean_concat(writer::routes_chunks(rs.drop_last()), writer::route_chunks(r));
    }
}

proof fn lemma_clean_tracks(ts: Seq<Ln>)
    requires
        good_lines(ts),
    ensures
        all_clean(writer::tracks_chunks(ts)),
    decreases ts.len(),
{
    if ts.len() > 0 {
        lemma_names();
        lemma_front_good(ts);
        lemma_clean_tracks(ts.drop_last());
        let t = ts.last();
        let a = seq![writer::line_chunk(2, "trk"@)];
        let b = writer::tag_chunks(4, "name"@, t.name);
        let c = seq![writer::line_chunk(4, "trkseg"@)];
        let d = writer::points_chunks("trkpt"@, t.points);
        let e = seq![writer::line_chunk(4, "/trkseg"@)];
        let f = seq![writer::line_chunk(2, "/trk"@)];
        lemma_clean_line(2, "trk"@);
        lemma_clean_tag(4, "name"@, t.name);
        lemma_clean_line(4, "trkseg"@);
        lemma_clean_points("trkpt"@, t.points);
        lemma_clean_line(4, "/trkseg"@);
        lemma_clean_line(2, "/trk"@);
        lemma_clean_concat(a, b);
        lemma_clean_concat(a + b, c);
        lemma_clean_concat(a + b + c, d);
        lemma_clean_concat(a + b + c + d, e);
        lemma_clean_concat(a + b + c + d + e, f);
        lemma_clean_concat(writer::tracks_chunks(ts.drop_last()), writer::track_chunks(t));
    }
}

proof fn lemma_clean_metadata(name: Seq<char>, desc: Seq<char>)
    ensures
        all_clean(writer::metadata_chunks(name, desc)),
{
    lemma_names();
    let a = seq![writer::line_chunk(2, "metadata"@)];
    let b = writer::tag_chunks(4, "name"@, name);
    let c = writer::tag_chunks(4, "desc"@, desc);
    let d = seq![writer::line_chunk(2, "/metadata"@)];
    lemma_clean_line(2, "metadata"@);
    lemma_clean_tag(4, "name"@, name);
    lemma_clean_tag(4, "desc"@, desc);
    lemma_clean_line(2, "/metadata"@);
    lemma_clean_concat(a, b);
    lemma_clean_concat(a + b, c);
    lemma_clean_concat(a + b + c, d);
}

/// The texts of the two opening tags.
proof fn lemma_opening_texts()
    ensures
        no_brackets("?xml version=\"1.0\" encoding=\"UTF-8\"?"@),
        "?xml version=\"1.0\" encoding=\"UTF-8\"?"@.len() > 0,
        "?xml version=\"1.0\" encoding=\"UTF-8\"?"@[0] == '?',
        no_brackets(writer::gpx_tag()),
        scan::element(writer::gpx_tag(), seq!['\n']).name == "gpx"@,
        !scan::element(writer::gpx_tag(), seq!['\n']).closing,
        !scan::is_markup(writer::gpx_tag()),
{
    reveal_strlit("?xml version=\"1.0\" encoding=\"UTF-8\"?");
    let x = "?xml version=\"1.0\" encoding=\"UTF-8\"?"@;
    assert(x =~= seq![
        '?', 'x', 'm', 'l', ' ', 'v', 'e', 'r', 's', 'i', 'o', 'n', '=', '"', '1', '.', '0', '"',
        ' ', 'e', 'n', 'c', 'o', 'd', 'i', 'n', 'g', '=', '"', 'U', 'T', 'F', '-', '8', '"', '?',
    ]);
    reveal_strlit("gpx version=\"1.1\" creator=\"swath ");
    reveal_strlit("\" xmlns=\"http://www.topografix.com/GPX/1/1\"");
    reveal_strlit("0.1.0");
    let a = "gpx version=\"1.1\" creator=\"swath "@;
    let v = crate::VERSION@;
    let b = "\" xmlns=\"http://www.topografix.com/GPX/1/1\""@;
    assert(a =~= seq![
        'g', 'p', 'x', ' ', 'v', 'e', 'r', 's', 'i', 'o', 'n', '=', '"', '1', '.', '1', '"', ' ',
        'c', 'r', 'e', 'a', 't', 'o', 'r', '=', '"', 's', 'w', 'a', 't', 'h', ' ',
    ]);
    assert(b =~= seq![
        '"', ' ', 'x', 'm', 'l', 'n', 's', '=', '"', 'h', 't', 't', 'p', ':', '/', '/', 'w', 'w',
        'w', '.', 't', 'o', 'p', 'o', 'g', 'r', 'a', 'f', 'i', 'x', '.', 'c', 'o', 'm', '/', 'G',
        'P', 'X', '/', '1', '/', '1', '"',
    ]);
    assert(v =~= seq!['0', '.', '1', '.', '0']);
    assert(no_brackets(a));
    assert(no_brackets(a + v));
    let g = writer::gpx_tag();
    assert(g =~= a + v + b);
    lemma_names();
    assert(g[0] == 'g' && g[1] == 'p' && g[2] == 'x' && g[3] == ' ');
    assert(g.last() == '"');
    assert(scan::strip_start(g) == g);
    assert(scan::strip_end(g) == g);
    lemma_no_space(g, 0, 3);
    assert(g.take(3) =~= "gpx"@);
}

/// Whether an element is the opening tag of a point.
pub open spec fn opens_point(e: Elem) -> bool {
    scan::is_point(e.name) && !e.closing
}

/// Whether a position is one is asked of opening points alone.
proof fn lemma_taken_alike(st: Reading, es: Seq<Elem>, v: Seq<bool>, w: Seq<bool>)
    requires
        v.len() == es.len(),
        w.len() == es.len(),
        forall|i: int|
            0 <= i < es.len() && opens_point(#[trigger] es[i]) ==> v[i] == w[i],
    ensures
        gpx::all_taken(st, es, v) == gpx::all_taken(st, es, w),
    decreases es.len(),
{
    if es.len() > 0 {
        assert forall|i: int|
            0 <= i < es.drop_last().len() && opens_point(
                #[trigger] es.drop_last()[i],
            ) implies v.drop_last()[i] == w.drop_last()[i] by {
            assert(opens_point(es[i]));
        }
        lemma_taken_alike(st, es.drop_last(), v.drop_last(), w.drop_last());
    }
}

/// Reading back what was written gives the file that was written, where every
/// point's position is found to be one.
pub proof fn law_gpx_round_trip(d: Doc, valid: Seq<bool>)
    requires
        good_doc(d),
        valid.len() == scan::elements(writer::render(writer::doc_chunks(d)), 0).len(),
        forall|i: int|
            0 <= i < valid.len() && opens_point(
                #[trigger] scan::elements(writer::render(writer::doc_chunks(d)), 0)[i],
            ) ==> valid[i],
    ensures
        gpx::reading_end(
            gpx::all_taken(
                gpx::reading_start(),
                scan::elements(writer::render(writer::doc_chunks(d)), 0),
                valid,
            ),
        ) == Some(d),
{
    reveal(go);
    lemma_names();
    lemma_words();
    lemma_opening_texts();
    let x = writer::line_chunk(0, "?xml version=\"1.0\" encoding=\"UTF-8\"?"@);
    let y = writer::line_chunk(0, writer::gpx_tag());
    let a = seq![x, y];
    let b = writer::metadata_chunks(d.name, d.desc);
    let c = writer::waypoints_chunks(d.waypoints);
    let e = writer::routes_chunks(d.routes);
    let f = writer::tracks_chunks(d.tracks);
    let g = seq![writer::line_chunk(0, "/gpx"@)];
    let all = writer::doc_chunks(d);
    assert(all == a + b + c + e + f + g);
    // every tag can be told apart
    lemma_clean_line(0, x.inner);
    lemma_clean_line(0, y.inner);
    assert(a =~= seq![x] + seq![y]);
    lemma_clean_concat(seq![x], seq![y]);
    lemma_clean_metadata(d.name, d.desc);
    lemma_clean_waypoints(d.waypoints);
    lemma_clean_routes(d.routes);
    lemma_clean_tracks(d.tracks);
    lemma_clean_line(0, "/gpx"@);
    lemma_clean_concat(a, b);
    lemma_clean_concat(a + b, c);
    lemma_clean_concat(a + b + c, e);
    lemma_clean_concat(a + b + c + e, f);
    lemma_clean_concat(a + b + c + e + f, g);
    lemma_scan_chunks(all);
    lemma_taken_alike(gpx::reading_start(), elems(all), valid, all_true(elems(all).len()));
    // and is taken in for what it is
    let st = gpx::reading_start();
    lemma_go_concat(st, a + b + c + e + f, g);
    lemma_go_concat(st, a + b + c + e, f);
    lemma_go_concat(st, a + b + c, e);
    lemma_go_concat(st, a + b, c);
    lemma_go_concat(st, a, b);
    lemma_go_concat(st, seq![x], seq![y]);
    lemma_go_one(st, x);
    lemma_go_one(st, y);
    let s1 = go(st, a);
    assert(s1 == Reading { saw_gpx: true, ..st });
    lemma_go_metadata(s1, d.name, d.desc);
    let s2 = go(s1, b);
    lemma_go_waypoints(s2, d.waypoints);
    let s3 = go(s2, c);
    assert(s3.doc.waypoints =~= d.waypoints);
    lemma_go_routes(s3, d.routes);
    let s4 = go(s3, e);
    assert(s4.doc.routes =~= d.routes);
    lemma_go_tracks(s4, d.tracks);
    let s5 = go(s4, f);
    assert(s5.doc.tracks =~= d.tracks);
    lemma_go_end(s5, 0, "gpx"@);
    assert(s5.doc =~= d);
}

} // verus!
