//! What a browser asks for: the path, and the settings behind the `?`.

use vstd::prelude::*;

use crate::text;
use crate::text::{chars_of, find_char, from_utf8_lossy, part, same, split, text_of};

verus! {

/// Whether a byte is a hexadecimal digit.
pub open spec fn is_hex(b: u8) -> bool {
    48 <= b <= 57 || 65 <= b <= 70 || 97 <= b <= 102
}

/// The value of a hexadecimal digit.
pub open spec fn hex_value(b: u8) -> int {
    if b <= 57 {
        b - 48
    } else if b <= 70 {
        b - 55
    } else {
        b - 87
    }
}

/// The byte that an escape at the start of some bytes stands for: `%` and two
/// hexadecimal digits, the first of which may be a plus sign instead.
pub open spec fn escape(b: Seq<u8>) -> Option<int> {
    if b.len() > 2 && b[0] == 37 && is_hex(b[2]) && is_hex(b[1]) {
        Some(16 * hex_value(b[1]) + hex_value(b[2]))
    } else if b.len() > 2 && b[0] == 37 && is_hex(b[2]) && b[1] == 43 {
        Some(hex_value(b[2]))
    } else {
        None
    }
}

/// Bytes with their escapes resolved and every `+` made a space.
pub open spec fn unescaped(b: Seq<u8>) -> Seq<u8>
    decreases b.len(),
{
    if b.len() == 0 {
        b
    } else if escape(b) is Some {
        seq![escape(b)->0 as u8] + unescaped(b.skip(3))
    } else if b[0] == 43 {
        seq![32u8] + unescaped(b.skip(1))
    } else {
        seq![b[0]] + unescaped(b.skip(1))
    }
}

/// Bytes as text, with what is not UTF-8 replaced.
pub open spec fn readable(b: Seq<u8>) -> Seq<char> {
    if vstd::utf8::valid_utf8(b) {
        vstd::utf8::decode_utf8(b)
    } else {
        text::lossy_text(b)
    }
}

/// A text with its escapes resolved.
pub open spec fn decoded(s: Seq<char>) -> Seq<char> {
    readable(unescaped(vstd::utf8::encode_utf8(s)))
}

fn hex_of(b: u8) -> (r: Option<u8>)
    ensures
        r is Some == is_hex(b),
        r is Some ==> r->0 == hex_value(b) && r->0 < 16,
{
    if 48 <= b && b <= 57 {
        Some(b - 48)
    } else if 65 <= b && b <= 70 {
        Some(b - 55)
    } else if 97 <= b && b <= 102 {
        Some(b - 87)
    } else {
        None
    }
}

fn escape_at(b: &[u8], i: usize) -> (r: Option<u8>)
    requires
        i < b@.len(),
        b@[i as int] == 37,
    ensures
        match escape(b@.skip(i as int)) {
            Some(v) => r matches Some(x) && x == v,
            None => r is None,
        },
{
    if b.len() - i <= 2 {
        return None;
    }
    let lo = match hex_of(b[i + 2]) {
        Some(v) => v,
        None => return None,
    };
    match hex_of(b[i + 1]) {
        Some(hi) => Some(16 * hi + lo),
        None => if b[i + 1] == 43 {
            Some(lo)
        } else {
            None
        },
    }
}

/// Resolve the escapes of a text that came in an address.
///
/// `%` and two hexadecimal digits are one byte, `+` is a space, and everything
/// else stands for itself, a `%` with no digits behind it too.
pub fn urldecode(s: &str) -> (r: String)
    ensures
        r@ == decoded(s@),
{
    let b = s.as_bytes();
    let mut out: Vec<u8> = Vec::new();
    let mut i: usize = 0;
    proof {
        assert(b@.skip(0) =~= b@);
        assert(out@ + unescaped(b@) =~= unescaped(b@));
    }
    while i < b.len()
        invariant
            i <= b@.len(),
            out@ + unescaped(b@.skip(i as int)) == unescaped(b@),
        decreases b.len() - i,
    {
        let ghost rest = b@.skip(i as int);
        let ghost before = out@;
        let c = b[i];
        let esc = if c == 37 {
            escape_at(b, i)
        } else {
            None
        };
        match esc {
            Some(v) => {
                out.push(v);
                i += 3;
                proof {
                    assert(rest.skip(3) =~= b@.skip(i as int));
                    assert(before + (seq![v] + unescaped(rest.skip(3))) =~= out@ + unescaped(
                        rest.skip(3),
                    ));
                }
            },
            None => {
                let v: u8 = if c == 43 {
                    32
                } else {
                    c
                };
                out.push(v);
                i += 1;
                proof {
                    assert(rest.skip(1) =~= b@.skip(i as int));
                    assert(before + (seq![v] + unescaped(rest.skip(1))) =~= out@ + unescaped(
                        rest.skip(1),
                    ));
                }
            },
        }
    }
    proof {
        assert(b@.skip(i as int) =~= Seq::empty());
        assert(out@ + Seq::empty() =~= out@);
    }
    from_utf8_lossy(&out)
}

proof fn lemma_no_escapes(b: Seq<u8>)
    requires
        forall|i: int| 0 <= i < b.len() ==> b[i] != 37 && b[i] != 43,
    ensures
        unescaped(b) == b,
    decreases b.len(),
{
    if b.len() > 0 {
        lemma_no_escapes(b.skip(1));
        assert(seq![b[0]] + b.skip(1) =~= b);
    }
}

/// A text in which nothing is escaped comes through as it is.
pub proof fn law_plain_text_stays(s: Seq<char>)
    requires
        forall|i: int|
            0 <= i < vstd::utf8::encode_utf8(s).len() ==> vstd::utf8::encode_utf8(s)[i] != 37
                && vstd::utf8::encode_utf8(s)[i] != 43,
    ensures
        decoded(s) == s,
{
    let b = vstd::utf8::encode_utf8(s);
    lemma_no_escapes(b);
    vstd::utf8::encode_utf8_valid_utf8(s);
    vstd::utf8::encode_utf8_decode_utf8(s);
}

/// A text up to the first occurrence of a character, and behind it.
pub open spec fn cut(s: Seq<char>, c: char) -> (Seq<char>, Seq<char>) {
    let i = text::index_from(s, c, 0);
    if i < s.len() {
        (s.take(i), s.skip(i + 1))
    } else {
        (s, Seq::empty())
    }
}

/// Cut a text at the first occurrence of a character.
pub fn cut_at(v: &[char], c: char) -> (r: (Vec<char>, Vec<char>))
    ensures
        (r.0@, r.1@) == cut(v@, c),
{
    let i = find_char(v, c, 0);
    if i < v.len() {
        let a = part(v, 0, i);
        let b = part(v, i + 1, v.len());
        proof {
            assert(a@ =~= v@.take(i as int));
            assert(b@ =~= v@.skip(i + 1));
        }
        (a, b)
    } else {
        let a = part(v, 0, v.len());
        let b: Vec<char> = Vec::new();
        proof {
            assert(a@ =~= v@);
            assert(b@ =~= Seq::empty());
        }
        (a, b)
    }
}

/// One setting as it is written: the name, and the value behind the `=`.
pub open spec fn setting(s: Seq<char>) -> (Seq<char>, Seq<char>) {
    let (k, v) = cut(s, '=');
    (decoded(k), decoded(v))
}

/// The settings in the parts of a query; an empty part is none.
pub open spec fn settings_in(parts: Seq<Seq<char>>) -> Seq<(Seq<char>, Seq<char>)>
    decreases parts.len(),
{
    if parts.len() == 0 {
        Seq::empty()
    } else {
        let before = settings_in(parts.drop_last());
        if parts.last().len() == 0 {
            before
        } else {
            before.push(setting(parts.last()))
        }
    }
}

/// What a setting is: the last value given to it.
pub open spec fn lookup(q: Seq<(Seq<char>, Seq<char>)>, k: Seq<char>) -> Option<Seq<char>>
    decreases q.len(),
{
    if q.len() == 0 {
        None
    } else if q.last().0 == k {
        Some(q.last().1)
    } else {
        lookup(q.drop_last(), k)
    }
}

/// The settings of a request, or the header fields of one, in the order in
/// which they came.
pub struct Query {
    pub pairs: Vec<(String, String)>,
}

impl View for Query {
    type V = Seq<(Seq<char>, Seq<char>)>;

    open spec fn view(&self) -> Seq<(Seq<char>, Seq<char>)> {
        self.pairs@.map_values(|p: (String, String)| (p.0@, p.1@))
    }
}

impl Query {
    /// A request with no settings.
    pub fn new() -> (q: Query)
        ensures
            q@ == Seq::<(Seq<char>, Seq<char>)>::empty(),
    {
        let q = Query { pairs: Vec::new() };
        proof {
            assert(q@ =~= Seq::empty());
        }
        q
    }

    /// Set a value; one set earlier under the same name is not seen again.
    pub fn set(&mut self, key: String, value: String)
        ensures
            final(self)@ == old(self)@.push((key@, value@)),
    {
        self.pairs.push((key, value));
        proof {
            assert(self@ =~= old(self)@.push((key@, value@)));
        }
    }

    /// The value of a setting.
    pub fn get(&self, key: &str) -> (r: Option<&String>)
        ensures
            match lookup(self@, key@) {
                Some(v) => r matches Some(x) && x@ == v,
                None => r is None,
            },
    {
        let mut i: usize = self.pairs.len();
        proof {
            assert(self@.take(i as int) =~= self@);
        }
        while i > 0
            invariant
                i <= self.pairs@.len(),
                lookup(self@, key@) == lookup(self@.take(i as int), key@),
            decreases i,
        {
            proof {
                assert(self@.take(i as int).last() == self@[i - 1]);
                assert(self@.take(i as int).drop_last() =~= self@.take(i - 1));
            }
            if same(self.pairs[i - 1].0.as_str(), key) {
                return Some(&self.pairs[i - 1].1);
            }
            i -= 1;
        }
        proof {
            assert(self@.take(0) =~= Seq::empty());
        }
        None
    }
}

/// What is set last is what is found.
pub proof fn law_last_setting_wins(q: Seq<(Seq<char>, Seq<char>)>, k: Seq<char>, v: Seq<char>)
    ensures
        lookup(q.push((k, v)), k) == Some(v),
        forall|other: Seq<char>| other != k ==> #[trigger] lookup(q.push((k, v)), other) == lookup(q, other),
{
    assert(q.push((k, v)).drop_last() =~= q);
}

/// The path and the settings of what a browser asks for.
pub open spec fn target_parts(s: Seq<char>) -> (Seq<char>, Seq<(Seq<char>, Seq<char>)>) {
    let (path, rest) = cut(s, '?');
    (decoded(path), settings_in(text::split_on(rest, '&')))
}

/// Take what a browser asks for apart: the path, and the settings behind the
/// first `?`, which are separated by `&`.
pub fn split_query(target: &str) -> (r: (String, Query))
    ensures
        (r.0@, r.1@) == target_parts(target@),
{
    let chars = chars_of(target);
    let (path, rest) = cut_at(&chars, '?');
    let parts = split(&rest, '&');
    let ghost all = text::split_on(rest@, '&');
    let mut q = Query::new();
    let mut i: usize = 0;
    proof {
        assert(all.take(0) =~= Seq::empty());
    }
    while i < parts.len()
        invariant
            i <= parts@.len(),
            text::chars_views(parts@) == all,
            q@ == settings_in(all.take(i as int)),
        decreases parts.len() - i,
    {
        proof {
            assert(all.take(i + 1).drop_last() =~= all.take(i as int));
            assert(all[i as int] == parts@[i as int]@);
            assert(all.take(i + 1).last() == all[i as int]);
        }
        if parts[i].len() > 0 {
            let (k, v) = cut_at(&parts[i], '=');
            let key = urldecode(text_of(&k).as_str());
            let value = urldecode(text_of(&v).as_str());
            q.set(key, value);
        }
        i += 1;
    }
    proof {
        assert(all.take(all.len() as int) =~= all);
    }
    (urldecode(text_of(&path).as_str()), q)
}

/// A path without the slashes at either end.
pub open spec fn inner(s: Seq<char>) -> Seq<char>
    decreases s.len(),
{
    if s.len() > 0 && s[0] == '/' {
        inner(s.skip(1))
    } else if s.len() > 0 && s.last() == '/' {
        inner(s.drop_last())
    } else {
        s
    }
}

/// The names of a path, between its slashes.
pub open spec fn names_of(path: Seq<char>) -> Seq<Seq<char>> {
    text::split_on(inner(path), '/')
}

/// Take a path apart into its names.
pub fn segments(path: &str) -> (r: Vec<Vec<char>>)
    ensures
        text::chars_views(r@) == names_of(path@),
        r@.len() >= 1,
{
    let v = chars_of(path);
    let mut from: usize = 0;
    let mut to: usize = v.len();
    proof {
        assert(v@.subrange(0, to as int) =~= v@);
    }
    while from < to && v[from] == '/'
        invariant
            from <= to == v@.len(),
            inner(v@) == inner(v@.subrange(from as int, to as int)),
        decreases to - from,
    {
        proof {
            assert(v@.subrange(from as int, to as int).skip(1) =~= v@.subrange(
                from + 1,
                to as int,
            ));
        }
        from += 1;
    }
    while from < to && v[to - 1] == '/'
        invariant
            from <= to <= v@.len(),
            from < to ==> v@[from as int] != '/',
            inner(v@) == inner(v@.subrange(from as int, to as int)),
        decreases to - from,
    {
        proof {
            let s = v@.subrange(from as int, to as int);
            assert(s.last() == v@[to - 1]);
            assert(s[0] == v@[from as int]);
            assert(s.drop_last() =~= v@.subrange(from as int, to - 1));
        }
        to -= 1;
    }
    let p = part(&v, from, to);
    proof {
        if from < to {
            assert(p@[0] == v@[from as int]);
            assert(p@.last() == v@[to - 1]);
        }
    }
    split(&p, '/')
}

/// A digit of a number in sixteens, in letters of either size.
pub open spec fn sixteenth(d: int, large: bool) -> u8 {
    (if d < 10 {
        '0' as int + d
    } else if large {
        'A' as int + d - 10
    } else {
        'a' as int + d - 10
    }) as u8
}

/// A byte that is written with a percent sign is read again, and so is what is
/// behind it.
pub proof fn law_written_byte_is_read(x: u8, large: bool, rest: Seq<u8>)
    ensures
        unescaped(
            seq![
                '%' as u8,
                sixteenth(x as int / 16, large),
                sixteenth(x as int % 16, large),
            ] + rest,
        ) == seq![x] + unescaped(rest),
{
    let b = seq![
        '%' as u8,
        sixteenth(x as int / 16, large),
        sixteenth(x as int % 16, large),
    ] + rest;
    assert(b.skip(3) =~= rest);
    assert(b[0] == 37);
    assert(hex_value(b[1]) == x as int / 16 && is_hex(b[1]));
    assert(hex_value(b[2]) == x as int % 16 && is_hex(b[2]));
}

/// A plus sign is a blank, and a sign that is neither a plus nor a percent is itself.
pub proof fn law_other_bytes(x: u8, rest: Seq<u8>)
    requires
        x != '%' as u8,
    ensures
        unescaped(seq![x] + rest) == seq![
            if x == '+' as u8 {
                ' ' as u8
            } else {
                x
            },
        ] + unescaped(rest),
{
    assert((seq![x] + rest).skip(1) =~= rest);
}

/// What is cut at a sign is the two sides of the first one.
pub proof fn law_cut(a: Seq<char>, c: char, b: Seq<char>)
    requires
        forall|i: int| 0 <= i < a.len() ==> #[trigger] a[i] != c,
    ensures
        cut(a + seq![c] + b, c) == (a, b),
        cut(a, c) == (a, Seq::<char>::empty()),
{
    let s = a + seq![c] + b;
    text::lemma_index_from(s, c, 0);
    text::lemma_index_from(a, c, 0);
    let i = text::index_from(s, c, 0);
    assert(s[a.len() as int] == c);
    if i < a.len() {
        assert(s[i] == a[i]);
    }
    assert(s.take(i) =~= a);
    assert(s.skip(i + 1) =~= b);
}

/// Settings are read in the order that they are written in, and empty ones are
/// passed over.
pub proof fn law_settings_in_order(a: Seq<Seq<char>>, b: Seq<Seq<char>>)
    ensures
        settings_in(a + b) == settings_in(a) + settings_in(b),
        forall|s: Seq<char>|
            settings_in(#[trigger] seq![s]) == (if s.len() == 0 {
                Seq::empty()
            } else {
                seq![setting(s)]
            }),
    decreases b.len(),
{
    assert forall|s: Seq<char>|
        settings_in(#[trigger] seq![s]) == (if s.len() == 0 {
            Seq::empty()
        } else {
            seq![setting(s)]
        }) by {
        assert(seq![s].drop_last() =~= Seq::empty());
        assert(settings_in(Seq::<Seq<char>>::empty()) =~= Seq::empty());
        assert(Seq::empty().push(setting(s)) =~= seq![setting(s)]);
    }
    if b.len() == 0 {
        assert(a + b =~= a);
        assert(settings_in(a) + settings_in(b) =~= settings_in(a));
    } else {
        law_settings_in_order(a, b.drop_last());
        assert((a + b).drop_last() =~= a + b.drop_last());
        assert((a + b).last() == b.last());
        if b.last().len() != 0 {
            assert(settings_in(a) + settings_in(b) =~= (settings_in(a) + settings_in(
                b.drop_last(),
            )).push(setting(b.last())));
        }
    }
}

/// A path loses the slashes at its two ends and nothing else.
pub proof fn law_slashes_at_the_ends(s: Seq<char>) -> (r: (int, int))
    ensures
        0 <= r.0 <= r.1 <= s.len(),
        inner(s) == s.subrange(r.0, r.1),
        forall|i: int| 0 <= i < r.0 || r.1 <= i < s.len() ==> #[trigger] s[i] == '/',
        r.0 < r.1 ==> s[r.0] != '/' && s[r.1 - 1] != '/',
    decreases s.len(),
{
    if s.len() > 0 && s[0] == '/' {
        let t = s.skip(1);
        let r = law_slashes_at_the_ends(t);
        assert(t.subrange(r.0, r.1) =~= s.subrange(r.0 + 1, r.1 + 1));
        assert forall|i: int| 0 <= i < r.0 + 1 || r.1 + 1 <= i < s.len() implies #[trigger] s[i]
            == '/' by {
            if i > 0 {
                assert(t[i - 1] == s[i]);
            }
        }
        (r.0 + 1, r.1 + 1)
    } else if s.len() > 0 && s.last() == '/' {
        let t = s.drop_last();
        let r = law_slashes_at_the_ends(t);
        assert(t.subrange(r.0, r.1) =~= s.subrange(r.0, r.1));
        assert forall|i: int| 0 <= i < r.0 || r.1 <= i < s.len() implies #[trigger] s[i] == '/' by {
            if i < s.len() - 1 {
                assert(t[i] == s[i]);
            }
        }
        r
    } else {
        assert(s.subrange(0, s.len() as int) =~= s);
        (0, s.len() as int)
    }
}

} // verus!
