//! A scanner for the GPX vocabulary.
//!
//! GPX is a shallow schema with no mixed content, no entities worth speaking of
//! and no namespaces that change the meaning, so walking the tags directly is
//! honest. What it will not do is accept arbitrary XML.

use vstd::prelude::*;

use crate::text;
use crate::text::{
    chars_of, find_char, parse_unsigned, part, push_dec, same, space, text_of, trim,
};

verus! {

// ---- finding things in text -------------------------------------------------

/// The white space that separates a tag's name from its attributes.
pub open spec fn is_ascii_space(c: char) -> bool {
    c == ' ' || c == '\t' || c == '\n' || c == '\r' || c as int == 12
}

/// Where white space comes next, or the length of the text.
pub open spec fn space_from(s: Seq<char>, from: int) -> int
    decreases s.len() - from,
{
    if from < 0 || from >= s.len() {
        s.len() as int
    } else if is_ascii_space(s[from]) {
        from
    } else {
        space_from(s, from + 1)
    }
}

/// Whether `key` stands at `i`.
pub open spec fn stands_at(s: Seq<char>, key: Seq<char>, i: int) -> bool {
    0 <= i && i + key.len() <= s.len() && s.subrange(i, i + key.len()) == key
}

/// Where `key` comes next, if it does.
pub open spec fn find_from(s: Seq<char>, key: Seq<char>, from: int) -> Option<int>
    decreases s.len() - from + 1,
{
    if from < 0 || from + key.len() > s.len() {
        None
    } else if stands_at(s, key, from) {
        Some(from)
    } else {
        find_from(s, key, from + 1)
    }
}

/// A search that finds something finds it in the text.
pub proof fn lemma_find_from(s: Seq<char>, key: Seq<char>, from: int)
    requires
        0 <= from,
    ensures
        find_from(s, key, from) matches Some(i) ==> from <= i && stands_at(s, key, i),
    decreases s.len() - from + 1,
{
    if from + key.len() <= s.len() && !stands_at(s, key, from) {
        lemma_find_from(s, key, from + 1);
    }
}

fn ascii_space(c: char) -> (r: bool)
    ensures
        r == is_ascii_space(c),
{
    c == ' ' || c == '\t' || c == '\n' || c == '\r' || c as u32 == 12
}

fn find_space(v: &[char]) -> (i: usize)
    ensures
        i == space_from(v@, 0),
        i <= v@.len(),
{
    let mut i: usize = 0;
    while i < v.len() && !ascii_space(v[i])
        invariant
            i <= v@.len(),
            space_from(v@, 0) == space_from(v@, i as int),
        decreases v.len() - i,
    {
        i += 1;
    }
    i
}

fn matches_at(v: &[char], key: &[char], at: usize) -> (r: bool)
    requires
        at <= v@.len(),
    ensures
        r == stands_at(v@, key@, at as int),
{
    if key.len() > v.len() - at {
        return false;
    }
    let mut k: usize = 0;
    while k < key.len()
        invariant
            k <= key@.len(),
            at + key@.len() <= v.len(),
            forall|j: int| 0 <= j < k ==> v@[at + j] == key@[j],
        decreases key.len() - k,
    {
        if v[at + k] != key[k] {
            proof {
                assert(v@.subrange(at as int, at + key@.len())[k as int] != key@[k as int]);
            }
            return false;
        }
        k += 1;
    }
    proof {
        assert(v@.subrange(at as int, at + key@.len()) =~= key@);
    }
    true
}

fn find_key(v: &[char], key: &[char], from: usize) -> (r: Option<usize>)
    requires
        from <= v@.len(),
    ensures
        match find_from(v@, key@, from as int) {
            None => r is None,
            Some(i) => r matches Some(x) && x == i && from <= x && stands_at(v@, key@, i),
        },
{
    let mut i: usize = from;
    while i <= v.len() && key.len() <= v.len() - i
        invariant
            from <= i <= v@.len() + 1,
            find_from(v@, key@, from as int) == find_from(v@, key@, i as int),
        decreases v.len() + 1 - i,
    {
        if matches_at(v, key, i) {
            return Some(i);
        }
        if i == v.len() {
            proof {
                assert(find_from(v@, key@, i as int + 1) is None);
            }
            return None;
        }
        i += 1;
    }
    None
}

// ---- entities ---------------------------------------------------------------

/// Whether a number is that of a white space character.
pub open spec fn is_space_number(n: nat) -> bool {
    n <= 0x3000 && text::is_space(n as char)
}

/// The reference that what is left of a text starts with, and how long it is:
/// one of the five predefined XML entities, or, at the text's very start or its
/// very end, a white space character by its decimal number. `first` says whether
/// nothing of the text has been read yet.
pub open spec fn reference(s: Seq<char>, first: bool) -> Option<(char, int)> {
    if stands_at(s, seq!['&', 'l', 't', ';'], 0) {
        Some(('<', 4))
    } else if stands_at(s, seq!['&', 'g', 't', ';'], 0) {
        Some(('>', 4))
    } else if stands_at(s, seq!['&', 'q', 'u', 'o', 't', ';'], 0) {
        Some(('"', 6))
    } else if stands_at(s, seq!['&', 'a', 'p', 'o', 's', ';'], 0) {
        Some(('\'', 6))
    } else if stands_at(s, seq!['&', 'a', 'm', 'p', ';'], 0) {
        Some(('&', 5))
    } else if s.len() > 2 && s[0] == '&' && s[1] == '#' {
        let end = text::index_from(s, ';', 2);
        let d = s.subrange(2, end);
        if 2 < end < s.len() && (first || end + 1 == s.len()) && text::all_digits(d)
            && is_space_number(text::number_of(d)) {
            Some((text::number_of(d) as char, end + 1))
        } else {
            None
        }
    } else {
        None
    }
}

/// What is left of a text, with its references turned into the characters they
/// stand for.
pub open spec fn unescaped_rest(s: Seq<char>, first: bool) -> Seq<char>
    decreases s.len(),
{
    if s.len() == 0 {
        s
    } else {
        match reference(s, first) {
            Some((c, n)) => seq![c] + unescaped_rest(s.skip(n), false),
            None => seq![s[0]] + unescaped_rest(s.skip(1), false),
        }
    }
}

/// Text with its references turned into the characters they stand for: the
/// entities wherever they are, and numbered white space at its two ends.
pub open spec fn unescaped(s: Seq<char>) -> Seq<char> {
    unescaped_rest(s, true)
}

/// What a character is written as.
pub open spec fn entity(c: char) -> Seq<char> {
    if c == '&' {
        "&amp;"@
    } else if c == '<' {
        "&lt;"@
    } else if c == '>' {
        "&gt;"@
    } else if c == '"' {
        "&quot;"@
    } else if c == '\'' {
        "&apos;"@
    } else {
        seq![c]
    }
}

/// What a character of a text is written as: white space at either end of the
/// text by its number, so that it is not taken for layout.
pub open spec fn written(s: Seq<char>, i: int) -> Seq<char> {
    if (i == 0 || i == s.len() - 1) && text::is_space(s[i]) {
        "&#"@ + text::dec(s[i] as nat) + ";"@
    } else {
        entity(s[i])
    }
}

/// What a text is written as from `i` on.
pub open spec fn escaped_from(s: Seq<char>, i: int) -> Seq<char>
    decreases s.len() - i,
{
    if i < 0 || i >= s.len() {
        Seq::empty()
    } else {
        written(s, i) + escaped_from(s, i + 1)
    }
}

/// Text with the five predefined XML entities put in, and white space at its
/// ends written by its number.
pub open spec fn escaped(s: Seq<char>) -> Seq<char> {
    escaped_from(s, 0)
}

fn space_char(n: u64) -> (r: Option<char>)
    ensures
        match r {
            Some(c) => is_space_number(n as nat) && c == (n as nat) as char,
            None => !is_space_number(n as nat),
        },
{
    if 9 <= n && n <= 13 || n == 32 || n == 0x85 || n == 0xa0 {
        Some((n as u8) as char)
    } else if n == 0x1680 {
        Some('\u{1680}')
    } else if n == 0x2000 {
        Some('\u{2000}')
    } else if n == 0x2001 {
        Some('\u{2001}')
    } else if n == 0x2002 {
        Some('\u{2002}')
    } else if n == 0x2003 {
        Some('\u{2003}')
    } else if n == 0x2004 {
        Some('\u{2004}')
    } else if n == 0x2005 {
        Some('\u{2005}')
    } else if n == 0x2006 {
        Some('\u{2006}')
    } else if n == 0x2007 {
        Some('\u{2007}')
    } else if n == 0x2008 {
        Some('\u{2008}')
    } else if n == 0x2009 {
        Some('\u{2009}')
    } else if n == 0x200a {
        Some('\u{200a}')
    } else if n == 0x2028 {
        Some('\u{2028}')
    } else if n == 0x2029 {
        Some('\u{2029}')
    } else if n == 0x202f {
        Some('\u{202f}')
    } else if n == 0x205f {
        Some('\u{205f}')
    } else if n == 0x3000 {
        Some('\u{3000}')
    } else {
        None
    }
}

fn starts_with(v: &Vec<char>, at: usize, word: &str) -> (r: bool)
    requires
        at <= v@.len(),
    ensures
        r == stands_at(v@.skip(at as int), word@, 0),
{
    let w = chars_of(word);
    let r = matches_at(v.as_slice(), w.as_slice(), at);
    proof {
        let rest = v@.skip(at as int);
        if at + word@.len() <= v@.len() {
            assert(rest.subrange(0, word@.len() as int) =~= v@.subrange(
                at as int,
                at + word@.len(),
            ));
        }
    }
    r
}

/// The entities, character by character.
pub proof fn lemma_entities()
    ensures
        "&lt;"@ == seq!['&', 'l', 't', ';'],
        "&gt;"@ == seq!['&', 'g', 't', ';'],
        "&quot;"@ == seq!['&', 'q', 'u', 'o', 't', ';'],
        "&apos;"@ == seq!['&', 'a', 'p', 'o', 's', ';'],
        "&amp;"@ == seq!['&', 'a', 'm', 'p', ';'],
        "&#"@ == seq!['&', '#'],
        ";"@ == seq![';'],
{
    reveal_strlit("&lt;");
    reveal_strlit("&gt;");
    reveal_strlit("&quot;");
    reveal_strlit("&apos;");
    reveal_strlit("&amp;");
    reveal_strlit("&#");
    reveal_strlit(";");
    assert("&lt;"@ =~= seq!['&', 'l', 't', ';']);
    assert("&gt;"@ =~= seq!['&', 'g', 't', ';']);
    assert("&quot;"@ =~= seq!['&', 'q', 'u', 'o', 't', ';']);
    assert("&apos;"@ =~= seq!['&', 'a', 'p', 'o', 's', ';']);
    assert("&amp;"@ =~= seq!['&', 'a', 'm', 'p', ';']);
    assert("&#"@ =~= seq!['&', '#']);
    assert(";"@ =~= seq![';']);
}

fn read_reference(v: &Vec<char>, at: usize) -> (r: Option<(char, usize)>)
    requires
        at < v@.len(),
    ensures
        match reference(v@.skip(at as int), at == 0) {
            Some((c, n)) => r matches Some(x) && x.0 == c && x.1 == n && 0 < n && at + n
                <= v@.len(),
            None => r is None,
        },
{
    let ghost rest = v@.skip(at as int);
    proof {
        lemma_entities();
    }
    if v[at] != '&' {
        proof {
            assert(rest[0] != '&');
            assert forall|w: Seq<char>| w.len() > 0 && w[0] == '&' implies !#[trigger] stands_at(
                rest,
                w,
                0,
            ) by {
                if stands_at(rest, w, 0) {
                    assert(rest.subrange(0, w.len() as int)[0] == rest[0]);
                }
            }
        }
        return None;
    }
    if starts_with(v, at, "&lt;") {
        return Some(('<', 4));
    }
    if starts_with(v, at, "&gt;") {
        return Some(('>', 4));
    }
    if starts_with(v, at, "&quot;") {
        return Some(('"', 6));
    }
    if starts_with(v, at, "&apos;") {
        return Some(('\'', 6));
    }
    if starts_with(v, at, "&amp;") {
        return Some(('&', 5));
    }
    if v.len() - at <= 2 || v[at + 1] != '#' {
        return None;
    }
    let end = find_char(v.as_slice(), ';', at + 2);
    proof {
        text::lemma_index_in_rest(v@, ';', at as int, 2);
    }
    if end >= v.len() || end == at + 2 || (at > 0 && end + 1 < v.len()) {
        return None;
    }
    let d = part(v.as_slice(), at + 2, end);
    let ghost digits = rest.subrange(2, end - at);
    proof {
        assert(d@ =~= digits);
    }
    if d[0] == '+' {
        proof {
            assert(!text::is_digit(digits[0]));
        }
        return None;
    }
    match parse_unsigned(d.as_slice(), 0x3000) {
        Some(n) => match space_char(n) {
            Some(c) => Some((c, end - at + 1)),
            None => None,
        },
        None => None,
    }
}

fn unescape_chars(v: &Vec<char>) -> (r: Vec<char>)
    ensures
        r@ == unescaped(v@),
{
    let mut r: Vec<char> = Vec::new();
    let mut i: usize = 0;
    proof {
        assert(v@.skip(0) =~= v@);
        assert(r@ + unescaped(v@) =~= unescaped(v@));
    }
    while i < v.len()
        invariant
            i <= v@.len(),
            r@ + unescaped_rest(v@.skip(i as int), i == 0) == unescaped(v@),
        decreases v.len() - i,
    {
        let ghost before = r@;
        let ghost rest = v@.skip(i as int);
        let ghost first = i == 0;
        match read_reference(v, i) {
            Some((c, n)) => {
                r.push(c);
                i += n;
                proof {
                    assert(rest.skip(n as int) =~= v@.skip(i as int));
                    assert(r@ + unescaped_rest(v@.skip(i as int), false) =~= before + unescaped_rest(
                        rest,
                        first,
                    ));
                }
            },
            None => {
                r.push(v[i]);
                i += 1;
                proof {
                    assert(rest.skip(1) =~= v@.skip(i as int));
                    assert(r@ + unescaped_rest(v@.skip(i as int), false) =~= before + unescaped_rest(
                        rest,
                        first,
                    ));
                }
            },
        }
    }
    proof {
        assert(v@.skip(i as int) =~= Seq::<char>::empty());
        assert(r@ + Seq::<char>::empty() =~= r@);
    }
    r
}

/// Turn references into the characters they stand for.
pub fn unescape(s: &str) -> (r: String)
    ensures
        r@ == unescaped(s@),
{
    text_of(unescape_chars(&chars_of(s)).as_slice())
}

fn push_text(out: &mut String, s: &str)
    ensures
        final(out)@ == old(out)@ + s@,
{
    out.append(s);
}

/// Put in the five predefined XML entities, and write white space at the ends
/// by its number. `unescape` is the inverse.
pub fn escape(s: &str) -> (r: String)
    ensures
        r@ == escaped(s@),
{
    let v = chars_of(s);
    let mut r = String::new();
    let mut i: usize = 0;
    proof {
        assert(r@ + escaped(v@) =~= escaped(v@));
    }
    while i < v.len()
        invariant
            i <= v@.len(),
            r@ + escaped_from(v@, i as int) == escaped(v@),
        decreases v.len() - i,
    {
        let ghost before = r@;
        let c = v[i];
        if (i == 0 || i == v.len() - 1) && space(c) {
            push_text(&mut r, "&#");
            push_dec(&mut r, c as u64);
            push_text(&mut r, ";");
        } else if c == '&' {
            push_text(&mut r, "&amp;");
        } else if c == '<' {
            push_text(&mut r, "&lt;");
        } else if c == '>' {
            push_text(&mut r, "&gt;");
        } else if c == '"' {
            push_text(&mut r, "&quot;");
        } else if c == '\'' {
            push_text(&mut r, "&apos;");
        } else {
            r.push(c);
        }
        proof {
            assert(r@ =~= before + written(v@, i as int));
            assert(r@ + escaped_from(v@, i + 1) =~= before + escaped_from(v@, i as int));
        }
        i += 1;
    }
    proof {
        assert(r@ + Seq::<char>::empty() =~= r@);
    }
    r
}

// ---- attributes -------------------------------------------------------------

/// The value of an attribute: the first place where the key stands alone and an
/// equals sign and a quoted text follow. An unfinished value ends the search.
pub open spec fn attr_of(s: Seq<char>, key: Seq<char>) -> Option<Seq<char>>
    decreases s.len(),
{
    match find_from(s, key, 0) {
        None => None,
        Some(i) => {
            if key.len() == 0 || i < 0 || i + key.len() > s.len() {
                None
            } else {
                let after = s.skip(i + key.len());
                let alone = i == 0 || is_ascii_space(s[i - 1]);
                let a = text::trim_start(after);
                let v = text::trim_start(a.skip(1));
                if alone && a.len() > 0 && a[0] == '=' && v.len() == 0 {
                    None
                } else if alone && a.len() > 0 && a[0] == '=' && (v[0] == '"' || v[0] == '\'') {
                    let end = text::index_from(v, v[0], 1);
                    if end >= v.len() {
                        None
                    } else {
                        Some(unescaped(v.subrange(1, end)))
                    }
                } else {
                    attr_of(after, key)
                }
            }
        },
    }
}

fn skip_space(v: &[char], from: usize) -> (i: usize)
    requires
        from <= v@.len(),
    ensures
        from <= i <= v@.len(),
        v@.skip(i as int) == text::trim_start(v@.skip(from as int)),
{
    let mut i: usize = from;
    while i < v.len() && space(v[i])
        invariant
            from <= i <= v@.len(),
            text::trim_start(v@.skip(i as int)) == text::trim_start(v@.skip(from as int)),
        decreases v.len() - i,
    {
        proof {
            assert(v@.skip(i as int).skip(1) =~= v@.skip(i + 1));
        }
        i += 1;
    }
    i
}

/// Where a key comes next in the rest of a text.
proof fn lemma_find_in_rest(s: Seq<char>, key: Seq<char>, at: int, from: int)
    requires
        0 <= at <= s.len(),
        0 <= from,
    ensures
        find_from(s.skip(at), key, from) == (match find_from(s, key, at + from) {
            None => None::<int>,
            Some(i) => Some(i - at),
        }),
    decreases s.len() - from + 1,
{
    let rest = s.skip(at);
    if from + key.len() <= rest.len() {
        assert(rest.subrange(from, from + key.len()) =~= s.subrange(
            at + from,
            at + from + key.len(),
        ));
        if !stands_at(rest, key, from) {
            lemma_find_in_rest(s, key, at, from + 1);
        }
    }
}

/// Pull one attribute out of an attribute string.
pub fn attr(attrs: &[char], key: &str) -> (r: Option<String>)
    requires
        key@.len() > 0,
    ensures
        match attr_of(attrs@, key@) {
            None => r is None,
            Some(s) => r matches Some(v) && v@ == s,
        },
{
    let k = chars_of(key);
    let n: usize = k.len();
    let mut at: usize = 0;
    proof {
        assert(attrs@.skip(0) =~= attrs@);
    }
    loop
        invariant
            at <= attrs@.len(),
            k@ == key@,
            n == key@.len(),
            n > 0,
            attr_of(attrs@.skip(at as int), key@) == attr_of(attrs@, key@),
        decreases attrs.len() - at,
    {
        let ghost rest = attrs@.skip(at as int);
        proof {
            lemma_find_in_rest(attrs@, key@, at as int, 0);
        }
        let i: usize = match find_key(attrs, k.as_slice(), at) {
            None => {
                return None;
            },
            Some(i) => i,
        };
        let alone = i == at || ascii_space(attrs[i - 1]);
        let next: usize = i + n;
        let a = skip_space(attrs, next);
        let ghost after = rest.skip(i - at + n);
        proof {
            assert(after =~= attrs@.skip(next as int));
            assert(rest.len() > after.len());
        }
        if alone && a < attrs.len() && attrs[a] == '=' {
            proof {
                assert(attrs@.skip(a as int).skip(1) =~= attrs@.skip(a + 1));
            }
            let v = skip_space(attrs, a + 1);
            let ghost val = attrs@.skip(v as int);
            if v >= attrs.len() {
                return None;
            }
            let q = attrs[v];
            if q == '"' || q == '\'' {
                let end = find_char(attrs, q, v + 1);
                proof {
                    text::lemma_index_in_rest(attrs@, q, v as int, 1);
                }
                if end >= attrs.len() {
                    return None;
                }
                proof {
                    assert(val.subrange(1, end - v) =~= attrs@.subrange(v + 1, end as int));
                }
                let inner = part(attrs, v + 1, end);
                return Some(text_of(unescape_chars(&inner).as_slice()));
            }
        }
        at = next;
    }
}

// ---- elements ---------------------------------------------------------------

/// One element as the scanner sees it.
#[verifier::ext_equal]
pub struct Elem {
    pub name: Seq<char>,
    pub closing: bool,
    /// `<foo/>`, which has no closing tag and therefore no text.
    pub self_closing: bool,
    /// The position attributes, looked for on points alone.
    pub lat: Option<Seq<char>>,
    pub lon: Option<Seq<char>>,
    /// The text up to the next tag, without white space around it.
    pub text: Seq<char>,
}

pub open spec fn strip_start(s: Seq<char>) -> Seq<char>
    decreases s.len(),
{
    if s.len() > 0 && s[0] == '/' {
        strip_start(s.skip(1))
    } else {
        s
    }
}

pub open spec fn strip_end(s: Seq<char>) -> Seq<char>
    decreases s.len(),
{
    if s.len() > 0 && s.last() == '/' {
        strip_end(s.drop_last())
    } else {
        s
    }
}

/// What stands between the angle brackets, without slashes at either end.
pub open spec fn stripped(inner: Seq<char>) -> Seq<char> {
    strip_end(strip_start(inner))
}

/// Whether an element is one of the three kinds of point.
pub open spec fn is_point(name: Seq<char>) -> bool {
    name == "trkpt"@ || name == "rtept"@ || name == "wpt"@
}

/// The element whose tag reads `inner` and is followed by `text`.
pub open spec fn element(inner: Seq<char>, text: Seq<char>) -> Elem {
    let body = stripped(inner);
    let i = space_from(body, 0);
    let name = body.take(i);
    let attrs = body.skip(i);
    Elem {
        name,
        closing: inner.len() > 0 && inner[0] == '/',
        self_closing: inner.len() > 0 && inner.last() == '/',
        lat: if is_point(name) {
            attr_of(attrs, "lat"@)
        } else {
            None
        },
        lon: if is_point(name) {
            attr_of(attrs, "lon"@)
        } else {
            None
        },
        text: text::trimmed(text),
    }
}

/// Whether a tag is a declaration, a comment or a processing instruction.
pub open spec fn is_markup(inner: Seq<char>) -> bool {
    inner.len() > 0 && (inner[0] == '?' || inner[0] == '!')
}

/// The elements of a text from `at` on, in document order.
pub open spec fn elements(s: Seq<char>, at: int) -> Seq<Elem>
    decreases s.len() - at,
{
    let open = text::index_from(s, '<', at);
    let close = text::index_from(s, '>', at);
    if at < 0 || at >= s.len() || open >= s.len() || close >= s.len() || close < at {
        Seq::empty()
    } else if close < open {
        elements(s, close + 1)
    } else {
        let inner = s.subrange(open + 1, close);
        let rest = elements(s, close + 1);
        if is_markup(inner) {
            rest
        } else {
            let text = s.subrange(close + 1, text::index_from(s, '<', close + 1));
            seq![element(inner, text)] + rest
        }
    }
}

/// One element as the scanner sees it.
#[derive(Debug)]
pub struct Element {
    pub name: String,
    pub closing: bool,
    pub self_closing: bool,
    pub lat: Option<String>,
    pub lon: Option<String>,
    pub text: String,
}

pub open spec fn opt_view(s: Option<String>) -> Option<Seq<char>> {
    match s {
        None => None,
        Some(v) => Some(v@),
    }
}

impl View for Element {
    type V = Elem;

    open spec fn view(&self) -> Elem {
        Elem {
            name: self.name@,
            closing: self.closing,
            self_closing: self.self_closing,
            lat: opt_view(self.lat),
            lon: opt_view(self.lon),
            text: self.text@,
        }
    }
}

fn strip(v: &Vec<char>) -> (r: Vec<char>)
    ensures
        r@ == stripped(v@),
{
    let mut from: usize = 0;
    proof {
        assert(v@.skip(0) =~= v@);
    }
    while from < v.len() && v[from] == '/'
        invariant
            from <= v@.len(),
            strip_start(v@.skip(from as int)) == strip_start(v@),
        decreases v.len() - from,
    {
        proof {
            assert(v@.skip(from as int).skip(1) =~= v@.skip(from + 1));
        }
        from += 1;
    }
    let ghost start = v@.skip(from as int);
    let mut to: usize = v.len();
    proof {
        assert(v@.subrange(from as int, to as int) =~= start);
    }
    while to > from && v[to - 1] == '/'
        invariant
            from <= to <= v@.len(),
            strip_end(v@.subrange(from as int, to as int)) == strip_end(start),
        decreases to,
    {
        proof {
            assert(v@.subrange(from as int, to as int).drop_last() =~= v@.subrange(
                from as int,
                to - 1,
            ));
        }
        to -= 1;
    }
    part(v.as_slice(), from, to)
}

fn read_element(inner: &Vec<char>, text: &Vec<char>) -> (e: Element)
    ensures
        e@ == element(inner@, text@),
{
    let body = strip(inner);
    let i = find_space(body.as_slice());
    let name_chars = part(body.as_slice(), 0, i);
    let attrs = part(body.as_slice(), i, body.len());
    proof {
        assert(name_chars@ =~= body@.take(i as int));
        assert(attrs@ =~= body@.skip(i as int));
        reveal_strlit("lat");
        reveal_strlit("lon");
    }
    let name = text_of(name_chars.as_slice());
    let point = same(name.as_str(), "trkpt") || same(name.as_str(), "rtept") || same(
        name.as_str(),
        "wpt",
    );
    let lat = if point {
        attr(attrs.as_slice(), "lat")
    } else {
        None
    };
    let lon = if point {
        attr(attrs.as_slice(), "lon")
    } else {
        None
    };
    let n: usize = inner.len();
    let closing = n > 0 && inner[0] == '/';
    let self_closing = n > 0 && inner[n - 1] == '/';
    let text = text_of(trim(text.as_slice()).as_slice());
    Element { name, closing, self_closing, lat, lon, text }
}

pub open spec fn elem_views(v: Seq<Element>) -> Seq<Elem> {
    v.map_values(|e: Element| e@)
}

/// The elements of a text, in document order. Text between tags is handed back
/// with the tag that comes before it.
pub fn scan(src: &str) -> (r: Vec<Element>)
    ensures
        elem_views(r@) == elements(src@, 0),
{
    let v = chars_of(src);
    let s = v.as_slice();
    let mut out: Vec<Element> = Vec::new();
    let mut at: usize = 0;
    proof {
        assert(elem_views(out@) =~= Seq::<Elem>::empty());
        assert(elem_views(out@) + elements(src@, 0) =~= elements(src@, 0));
    }
    while at < s.len()
        invariant
            s@ == src@,
            at <= s@.len(),
            elem_views(out@) + elements(src@, at as int) == elements(src@, 0),
        decreases s.len() - at,
    {
        let open = find_char(s, '<', at);
        let close = find_char(s, '>', at);
        if open >= s.len() || close >= s.len() {
            proof {
                assert(elem_views(out@) + Seq::<Elem>::empty() =~= elem_views(out@));
            }
            return out;
        }
        if close < open {
            at = close + 1;
            continue ;
        }
        let inner = part(s, open + 1, close);
        let ghost rest = elements(src@, close + 1);
        if inner.len() > 0 && (inner[0] == '?' || inner[0] == '!') {
            at = close + 1;
            continue ;
        }
        let end = find_char(s, '<', close + 1);
        let text = part(s, close + 1, end);
        let e = read_element(&inner, &text);
        let ghost before = out@;
        out.push(e);
        proof {
            assert(elem_views(out@) =~= elem_views(before).push(e@));
            assert(elem_views(before) + (seq![e@] + rest) =~= elem_views(out@) + rest);
        }
        at = close + 1;
    }
    proof {
        assert(elem_views(out@) + Seq::<Elem>::empty() =~= elem_views(out@));
    }
    out
}

} // verus!
