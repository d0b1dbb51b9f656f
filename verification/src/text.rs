//! Text as a sequence of characters: reading it, building it, and writing
//! numbers into it.

use vstd::prelude::*;

verus! {

/// `String::push` appends one character to the end of the string and leaves
/// what was there before it alone.
pub assume_specification[ String::push ](s: &mut String, ch: char)
    ensures
        final(s)@ == old(s)@.push(ch),
;

/// The characters of a string, in order.
pub fn chars_of(s: &str) -> (v: Vec<char>)
    ensures
        v@ == s@,
{
    let mut v: Vec<char> = Vec::new();
    for c in it: s.chars()
        invariant
            v@ == s@.take(it.index()),
            it.seq() == s@,
    {
        proof {
            assert(s@.take(it.index() + 1) =~= s@.take(it.index()).push(s@[it.index()]));
        }
        v.push(c);
    }
    proof {
        assert(s@.take(s@.len() as int) =~= s@);
    }
    v
}

/// Whether two texts hold the same characters in the same order.
pub(crate) fn same(a: &str, b: &str) -> (r: bool)
    ensures
        r == (a@ == b@),
{
    let x = chars_of(a);
    let y = chars_of(b);
    if x.len() != y.len() {
        return false;
    }
    let mut i: usize = 0;
    while i < x.len()
        invariant
            i <= x@.len(),
            x@ == a@,
            y@ == b@,
            x@.len() == y@.len(),
            forall|j: int| 0 <= j < i ==> x@[j] == y@[j],
        decreases x.len() - i,
    {
        if x[i] != y[i] {
            return false;
        }
        i += 1;
    }
    proof {
        assert(a@ =~= b@);
    }
    true
}

/// Append a run of characters to a string.
pub fn push_chars(out: &mut String, v: &[char])
    ensures
        final(out)@ == old(out)@ + v@,
{
    let mut i: usize = 0;
    while i < v.len()
        invariant
            i <= v.len(),
            out@ == old(out)@ + v@.take(i as int),
        decreases v.len() - i,
    {
        proof {
            assert(v@.take(i + 1) =~= v@.take(i as int).push(v@[i as int]));
        }
        out.push(v[i]);
        i += 1;
    }
    proof {
        assert(v@.take(v@.len() as int) =~= v@);
    }
}

/// A run of characters as a string.
pub fn text_of(v: &[char]) -> (s: String)
    ensures
        s@ == v@,
{
    let mut s = String::new();
    push_chars(&mut s, v);
    proof {
        assert(Seq::<char>::empty() + v@ =~= v@);
    }
    s
}

/// The character of a decimal digit.
pub open spec fn digit(d: int) -> char {
    (48 + d) as char
}

/// The decimal digits of a number, most significant first.
pub open spec fn dec(n: nat) -> Seq<char>
    decreases n,
{
    if n < 10 {
        seq![digit(n as int)]
    } else {
        dec(n / 10).push(digit((n % 10) as int))
    }
}

/// A number in decimal, filled with zeros on the left to at least `width`.
pub open spec fn padded(n: nat, width: nat) -> Seq<char> {
    let d = dec(n);
    if d.len() >= width {
        d
    } else {
        Seq::new((width - d.len()) as nat, |i: int| '0') + d
    }
}

fn digit_char(d: u8) -> (c: char)
    requires
        d < 10,
    ensures
        c == digit(d as int),
{
    (48u8 + d) as char
}

/// Append a number in decimal.
pub fn push_dec(out: &mut String, n: u64)
    ensures
        final(out)@ == old(out)@ + dec(n as nat),
    decreases n,
{
    if n >= 10 {
        push_dec(out, n / 10);
    }
    let ghost before = out@;
    out.push(digit_char((n % 10) as u8));
    proof {
        if n >= 10 {
            assert(out@ =~= old(out)@ + dec((n / 10) as nat).push(digit((n % 10) as int)));
        } else {
            assert(out@ =~= old(out)@ + seq![digit(n as int)]);
        }
    }
}

/// Every number has at least one digit.
pub proof fn lemma_dec_len(n: nat)
    ensures
        dec(n).len() >= 1,
    decreases n,
{
    if n >= 10 {
        lemma_dec_len(n / 10);
    }
}

/// How many decimal digits a number has.
fn digits(n: u64) -> (k: usize)
    ensures
        k == dec(n as nat).len(),
        k <= 20,
{
    let mut k: usize = 1;
    let mut rest: u64 = n;
    while rest >= 10
        invariant
            1 <= k <= 20,
            dec(n as nat).len() == dec(rest as nat).len() + k - 1,
            k == 1 ==> rest <= 18446744073709551615,
            k == 2 ==> rest <= 1844674407370955161,
            k == 3 ==> rest <= 184467440737095516,
            k == 4 ==> rest <= 18446744073709551,
            k == 5 ==> rest <= 1844674407370955,
            k == 6 ==> rest <= 184467440737095,
            k == 7 ==> rest <= 18446744073709,
            k == 8 ==> rest <= 1844674407370,
            k == 9 ==> rest <= 184467440737,
            k == 10 ==> rest <= 18446744073,
            k == 11 ==> rest <= 1844674407,
            k == 12 ==> rest <= 184467440,
            k == 13 ==> rest <= 18446744,
            k == 14 ==> rest <= 1844674,
            k == 15 ==> rest <= 184467,
            k == 16 ==> rest <= 18446,
            k == 17 ==> rest <= 1844,
            k == 18 ==> rest <= 184,
            k == 19 ==> rest <= 18,
            k == 20 ==> rest <= 1,
        decreases rest,
    {
        rest = rest / 10;
        k += 1;
    }
    k
}

/// Append a number in decimal, filled with zeros to at least `width`.
pub fn push_padded(out: &mut String, n: u64, width: usize)
    ensures
        final(out)@ == old(out)@ + padded(n as nat, width as nat),
{
    let have = digits(n);
    let mut i: usize = have;
    while i < width
        invariant
            have <= i,
            have >= width ==> i == have,
            have < width ==> i <= width,
            out@ == old(out)@ + Seq::new((i - have) as nat, |j: int| '0'),
        decreases width - i,
    {
        out.push('0');
        i += 1;
        proof {
            assert(Seq::new((i - have) as nat, |j: int| '0')
                =~= Seq::new((i - 1 - have) as nat, |j: int| '0').push('0'));
        }
    }
    push_dec(out, n);
    proof {
        assert(out@ =~= old(out)@ + padded(n as nat, width as nat));
    }
}

/// A signed number in decimal, filled with zeros between the sign and the
/// digits so that sign and digits together reach at least `width`.
pub open spec fn padded_signed(n: int, width: nat) -> Seq<char> {
    if n >= 0 {
        padded(n as nat, width)
    } else {
        seq!['-'] + padded((-n) as nat, if width > 0 { (width - 1) as nat } else { 0 })
    }
}

/// Append a signed number in decimal, filled with zeros to at least `width`.
pub fn push_padded_signed(out: &mut String, n: i64, width: usize)
    ensures
        final(out)@ == old(out)@ + padded_signed(n as int, width as nat),
{
    if n >= 0 {
        push_padded(out, n as u64, width);
    } else {
        out.push('-');
        let rest: usize = if width > 0 { width - 1 } else { 0 };
        let magnitude: u64 = (-(n + 1)) as u64 + 1;
        push_padded(out, magnitude, rest);
        proof {
            assert(out@ =~= old(out)@ + padded_signed(n as int, width as nat));
        }
    }
}

/// Append a string.
pub fn push_str(out: &mut String, s: &str)
    ensures
        final(out)@ == old(out)@ + s@,
{
    out.append(s);
}

/// A copy of a string.
pub fn copy(s: &str) -> (r: String)
    ensures
        r@ == s@,
{
    let mut r = String::new();
    push_str(&mut r, s);
    proof {
        assert(r@ =~= s@);
    }
    r
}

/// Whether a character is white space, by Unicode's `White_Space` property.
pub open spec fn is_space(c: char) -> bool {
    let n = c as int;
    ||| 9 <= n <= 13
    ||| n == 32
    ||| n == 0x85
    ||| n == 0xa0
    ||| n == 0x1680
    ||| 0x2000 <= n <= 0x200a
    ||| n == 0x2028
    ||| n == 0x2029
    ||| n == 0x202f
    ||| n == 0x205f
    ||| n == 0x3000
}

/// Whether a character is white space.
pub fn space(c: char) -> (r: bool)
    ensures
        r == is_space(c),
{
    let n: u32 = c as u32;
    (9 <= n && n <= 13) || n == 32 || n == 0x85 || n == 0xa0 || n == 0x1680 || (0x2000 <= n && n
        <= 0x200a) || n == 0x2028 || n == 0x2029 || n == 0x202f || n == 0x205f || n == 0x3000
}

/// Text without the white space at its start.
pub open spec fn trim_start(s: Seq<char>) -> Seq<char>
    decreases s.len(),
{
    if s.len() > 0 && is_space(s[0]) {
        trim_start(s.skip(1))
    } else {
        s
    }
}

/// Text without the white space at its end.
pub open spec fn trim_end(s: Seq<char>) -> Seq<char>
    decreases s.len(),
{
    if s.len() > 0 && is_space(s.last()) {
        trim_end(s.drop_last())
    } else {
        s
    }
}

/// Text without the white space at either end.
pub open spec fn trimmed(s: Seq<char>) -> Seq<char> {
    trim_end(trim_start(s))
}

/// A part of a run of characters as a vector.
pub fn part(v: &[char], from: usize, to: usize) -> (r: Vec<char>)
    requires
        from <= to <= v@.len(),
    ensures
        r@ == v@.subrange(from as int, to as int),
{
    let mut r: Vec<char> = Vec::new();
    let mut i: usize = from;
    while i < to
        invariant
            from <= i <= to <= v@.len(),
            r@ == v@.subrange(from as int, i as int),
        decreases to - i,
    {
        r.push(v[i]);
        i += 1;
        proof {
            assert(v@.subrange(from as int, i as int) =~= v@.subrange(from as int, i - 1).push(
                v@[i - 1],
            ));
        }
    }
    r
}

/// Text without the white space at either end.
pub fn trim(v: &[char]) -> (r: Vec<char>)
    ensures
        r@ == trimmed(v@),
{
    let mut from: usize = 0;
    proof {
        assert(v@.skip(0) =~= v@);
    }
    while from < v.len() && space(v[from])
        invariant
            from <= v@.len(),
            trim_start(v@.skip(from as int)) == trim_start(v@),
        decreases v.len() - from,
    {
        proof {
            assert(v@.skip(from as int).skip(1) =~= v@.skip(from + 1));
        }
        from += 1;
    }
    let ghost start = v@.skip(from as int);
    let mut to: usize = v.len();
    proof {
        assert(v@.subrange(from as int, to as int) =~= start);
    }
    while to > from && space(v[to - 1])
        invariant
            from <= to <= v@.len(),
            trim_end(v@.subrange(from as int, to as int)) == trim_end(start),
        decreases to,
    {
        proof {
            assert(v@.subrange(from as int, to as int).drop_last() =~= v@.subrange(
                from as int,
                to - 1,
            ));
        }
        to -= 1;
    }
    part(v, from, to)
}

/// Take the white space off the end of a text.
pub fn trim_tail(v: &[char]) -> (r: Vec<char>)
    ensures
        r@ == trim_end(v@),
{
    let mut to: usize = v.len();
    proof {
        assert(v@.take(to as int) =~= v@);
    }
    while to > 0 && space(v[to - 1])
        invariant
            to <= v@.len(),
            trim_end(v@) == trim_end(v@.take(to as int)),
        decreases to,
    {
        proof {
            assert(v@.take(to as int).drop_last() =~= v@.take(to - 1));
            assert(v@.take(to as int).last() == v@[to - 1]);
        }
        to -= 1;
    }
    proof {
        if to > 0 {
            assert(v@.take(to as int).last() == v@[to - 1]);
        }
    }
    let r = part(v, 0, to);
    proof {
        assert(r@ =~= v@.take(to as int));
    }
    r
}

/// What `String::from_utf8_lossy` makes of bytes that need not be UTF-8.
pub uninterp spec fn lossy_text(b: Seq<u8>) -> Seq<char>;

/// `String::from_utf8_lossy`: bytes that are UTF-8 are decoded, and in others
/// each faulty stretch is replaced by the replacement character.
#[verifier::external_body]
pub(crate) fn from_utf8_lossy(b: &[u8]) -> (s: String)
    ensures
        s@ == lossy_text(b@),
        vstd::utf8::valid_utf8(b@) ==> s@ == vstd::utf8::decode_utf8(b@),
{
    String::from_utf8_lossy(b).into_owned()
}

/// Where a character comes next, or the length of the text where it does not.
pub open spec fn index_from(s: Seq<char>, c: char, from: int) -> int
    decreases s.len() - from,
{
    if from < 0 || from >= s.len() {
        s.len() as int
    } else if s[from] == c {
        from
    } else {
        index_from(s, c, from + 1)
    }
}

/// A search stays in the text.
pub proof fn lemma_index_from(s: Seq<char>, c: char, from: int)
    requires
        0 <= from <= s.len(),
    ensures
        from <= index_from(s, c, from) <= s.len(),
        index_from(s, c, from) < s.len() ==> s[index_from(s, c, from)] == c,
        forall|i: int| from <= i < index_from(s, c, from) ==> s[i] != c,
    decreases s.len() - from,
{
    if from < s.len() && s[from] != c {
        lemma_index_from(s, c, from + 1);
    }
}

/// Where a character comes next in the rest of a text.
pub proof fn lemma_index_in_rest(s: Seq<char>, c: char, at: int, from: int)
    requires
        0 <= at <= s.len(),
        0 <= from,
        at + from <= s.len(),
    ensures
        index_from(s.skip(at), c, from) == index_from(s, c, at + from) - at,
    decreases s.len() - at - from,
{
    if at + from < s.len() && s[at + from] != c {
        lemma_index_in_rest(s, c, at, from + 1);
    }
}

/// Where a character comes next, or the length of the text.
pub fn find_char(v: &[char], c: char, from: usize) -> (i: usize)
    requires
        from <= v@.len(),
    ensures
        i == index_from(v@, c, from as int),
        from <= i <= v@.len(),
        i < v@.len() ==> v@[i as int] == c,
{
    let mut i: usize = from;
    while i < v.len() && v[i] != c
        invariant
            from <= i <= v@.len(),
            index_from(v@, c, from as int) == index_from(v@, c, i as int),
        decreases v.len() - i,
    {
        i += 1;
    }
    i
}

/// The parts of a text between the occurrences of a character.
pub open spec fn split_on(s: Seq<char>, c: char) -> Seq<Seq<char>>
    decreases s.len(),
{
    let i = index_from(s, c, 0);
    if i < 0 || i >= s.len() {
        seq![s]
    } else {
        seq![s.take(i)] + split_on(s.skip(i + 1), c)
    }
}

/// Runs of characters as sequences.
pub open spec fn chars_views(v: Seq<Vec<char>>) -> Seq<Seq<char>> {
    v.map_values(|x: Vec<char>| x@)
}

/// The parts of a text between the occurrences of a character.
pub fn split(v: &[char], c: char) -> (r: Vec<Vec<char>>)
    ensures
        chars_views(r@) == split_on(v@, c),
        r@.len() >= 1,
{
    let mut out: Vec<Vec<char>> = Vec::new();
    let mut at: usize = 0;
    proof {
        assert(v@.skip(0) =~= v@);
        assert(chars_views(out@) + split_on(v@, c) =~= split_on(v@, c));
    }
    loop
        invariant
            at <= v@.len(),
            chars_views(out@) + split_on(v@.skip(at as int), c) == split_on(v@, c),
        decreases v.len() - at,
    {
        let end = find_char(v, c, at);
        let ghost rest = v@.skip(at as int);
        let ghost before = out@;
        proof {
            lemma_index_in_rest(v@, c, at as int, 0);
            assert(v@.subrange(at as int, end as int) =~= rest.take(end - at));
        }
        let piece = part(v, at, end);
        out.push(piece);
        proof {
            assert(chars_views(out@) =~= chars_views(before).push(piece@));
        }
        if end >= v.len() {
            proof {
                assert(piece@ =~= rest);
                assert(chars_views(out@) =~= chars_views(before) + seq![rest]);
            }
            return out;
        }
        at = end + 1;
        proof {
            let i = index_from(rest, c, 0);
            assert(rest.skip(i + 1) =~= v@.skip(at as int));
            assert(chars_views(before) + (seq![piece@] + split_on(v@.skip(at as int), c))
                =~= chars_views(out@) + split_on(v@.skip(at as int), c));
        }
    }
}

/// Whether a character is a decimal digit.
pub open spec fn is_digit(c: char) -> bool {
    '0' <= c && c <= '9'
}

pub open spec fn all_digits(s: Seq<char>) -> bool {
    forall|i: int| 0 <= i < s.len() ==> is_digit(#[trigger] s[i])
}

/// The number that decimal digits stand for.
pub open spec fn number_of(s: Seq<char>) -> nat
    decreases s.len(),
{
    if s.len() == 0 {
        0
    } else {
        10 * number_of(s.drop_last()) + (s.last() as int - 48) as nat
    }
}

/// The number that a text stands for: digits, perhaps after a plus sign.
pub open spec fn unsigned_of(s: Seq<char>) -> Option<nat> {
    let t = if s.len() > 0 && s[0] == '+' {
        s.skip(1)
    } else {
        s
    };
    if t.len() > 0 && all_digits(t) {
        Some(number_of(t))
    } else {
        None
    }
}

/// A number in decimal is made of digits, and they stand for the number.
pub proof fn lemma_dec_reads(n: nat)
    ensures
        all_digits(dec(n)),
        number_of(dec(n)) == n,
        dec(n).len() >= 1,
    decreases n,
{
    if n >= 10 {
        lemma_dec_reads(n / 10);
        let d = dec(n);
        assert(d.drop_last() =~= dec(n / 10));
        assert forall|i: int| 0 <= i < d.len() implies is_digit(#[trigger] d[i]) by {
            if i < d.len() - 1 {
                assert(is_digit(dec(n / 10)[i]));
            }
        }
    } else {
        let d = dec(n);
        assert(d.drop_last() =~= Seq::<char>::empty());
        reveal_with_fuel(number_of, 2);
    }
}

proof fn lemma_zeros_read(k: nat, d: Seq<char>)
    ensures
        number_of(Seq::new(k, |i: int| '0') + d) == number_of(d),
    decreases k + d.len(),
{
    let s = Seq::new(k, |i: int| '0') + d;
    if d.len() > 0 {
        assert(s.drop_last() =~= Seq::new(k, |i: int| '0') + d.drop_last());
        lemma_zeros_read(k, d.drop_last());
    } else if k > 0 {
        assert(s.drop_last() =~= Seq::new((k - 1) as nat, |i: int| '0') + d);
        lemma_zeros_read((k - 1) as nat, d);
    }
}

/// A number in decimal, filled with zeros, reads as itself.
pub proof fn lemma_padded_reads(n: nat, width: nat)
    ensures
        unsigned_of(padded(n, width)) == Some(n),
{
    lemma_dec_reads(n);
    let d = dec(n);
    let p = padded(n, width);
    if d.len() < width {
        lemma_zeros_read((width - d.len()) as nat, d);
    }
    assert forall|i: int| 0 <= i < p.len() implies is_digit(#[trigger] p[i]) by {
        let k = p.len() - d.len();
        if i >= k {
            assert(p[i] == d[i - k]);
        }
    }
    assert(is_digit(p[0]));
}

/// More digits make no smaller number.
proof fn lemma_number_grows(s: Seq<char>, n: int)
    requires
        all_digits(s),
        0 <= n <= s.len(),
    ensures
        number_of(s.take(n)) <= number_of(s),
    decreases s.len() - n,
{
    if n == s.len() {
        assert(s.take(n) =~= s);
    } else {
        let t = s.take(n + 1);
        assert(t.drop_last() =~= s.take(n));
        assert(is_digit(s[n]));
        lemma_number_grows(s, n + 1);
    }
}

/// The number that a text stands for, where it is no more than `max`.
pub fn parse_unsigned(v: &[char], max: u64) -> (r: Option<u64>)
    ensures
        r == (match unsigned_of(v@) {
            Some(n) => if n <= max {
                Some(n as u64)
            } else {
                None
            },
            None => None,
        }),
{
    let from: usize = if v.len() > 0 && v[0] == '+' { 1 } else { 0 };
    let ghost t = if v@.len() > 0 && v@[0] == '+' {
        v@.skip(1)
    } else {
        v@
    };
    if from >= v.len() {
        return None;
    }
    let mut n: u64 = 0;
    let mut i: usize = from;
    while i < v.len()
        invariant
            from <= i <= v@.len(),
            t.len() == v@.len() - from,
            t.len() > 0,
            forall|j: int| 0 <= j < t.len() ==> t[j] == v@[j + from],
            forall|j: int| 0 <= j < i - from ==> is_digit(#[trigger] t[j]),
            n == number_of(t.take(i - from)),
            n <= max,
            unsigned_of(v@) == (if all_digits(t) {
                Some(number_of(t))
            } else {
                None
            }),
        decreases v.len() - i,
    {
        let c = v[i];
        proof {
            assert(t[i - from] == c);
        }
        if !('0' <= c && c <= '9') {
            proof {
                assert(!is_digit(t[i - from]));
            }
            return None;
        }
        let d: u64 = (c as u32 - 48) as u64;
        proof {
            assert(t.take(i - from + 1).drop_last() =~= t.take(i - from));
            assert(number_of(t.take(i - from + 1)) == 10 * n + d);
            if all_digits(t) {
                lemma_number_grows(t, i - from + 1);
            }
        }
        if n > (max - if d <= max { d } else { max }) / 10 || d > max {
            return None;
        }
        n = 10 * n + d;
        i += 1;
    }
    proof {
        assert(t.take(t.len() as int) =~= t);
    }
    Some(n)
}

/// The whole number that a text stands for: digits, perhaps after a sign.
pub open spec fn signed_of(s: Seq<char>) -> Option<int> {
    if s.len() > 0 && s[0] == '-' {
        if s.len() > 1 && all_digits(s.skip(1)) {
            Some(-number_of(s.skip(1)))
        } else {
            None
        }
    } else {
        match unsigned_of(s) {
            Some(n) => Some(n as int),
            None => None,
        }
    }
}

/// The whole number that a text stands for, where it fits 64 bits.
pub fn parse_signed(v: &[char]) -> (r: Option<i64>)
    ensures
        r == (match signed_of(v@) {
            Some(n) => if i64::MIN <= n <= i64::MAX {
                Some(n as i64)
            } else {
                None
            },
            None => None,
        }),
{
    if v.len() > 0 && v[0] == '-' {
        let d = part(v, 1, v.len());
        proof {
            assert(d@ =~= v@.skip(1));
        }
        if d.len() == 0 || d[0] == '+' {
            proof {
                if d@.len() > 0 {
                    assert(!is_digit(d@[0]));
                }
            }
            return None;
        }
        return match parse_unsigned(d.as_slice(), 9223372036854775808) {
            Some(n) => if n == 9223372036854775808 {
                Some(i64::MIN)
            } else {
                Some(-(n as i64))
            },
            None => None,
        };
    }
    match parse_unsigned(v, 9223372036854775807) {
        Some(n) => Some(n as i64),
        None => None,
    }
}

/// A text without copies of another at its end.
pub open spec fn without_end(s: Seq<char>, end: Seq<char>) -> Seq<char>
    decreases s.len(),
{
    if end.len() > 0 && s.len() >= end.len() && s.skip(s.len() - end.len()) == end {
        without_end(s.take(s.len() - end.len()), end)
    } else {
        s
    }
}

fn ends_at(v: &[char], to: usize, end: &[char]) -> (r: bool)
    requires
        to <= v@.len(),
    ensures
        r == (to >= end@.len() && v@.subrange(to - end@.len(), to as int) == end@),
{
    if to < end.len() {
        return false;
    }
    let from: usize = to - end.len();
    let mut i: usize = 0;
    while i < end.len()
        invariant
            i <= end@.len(),
            from + end@.len() == to,
            to <= v@.len(),
            forall|j: int| 0 <= j < i ==> v@[from + j] == end@[j],
        decreases end.len() - i,
    {
        if v[from + i] != end[i] {
            proof {
                assert(v@.subrange(from as int, to as int)[i as int] != end@[i as int]);
            }
            return false;
        }
        i += 1;
    }
    proof {
        assert(v@.subrange(from as int, to as int) =~= end@);
    }
    true
}

/// Take copies of a text off the end of another.
pub fn trim_end_matches(v: &[char], end: &[char]) -> (r: Vec<char>)
    requires
        end@.len() > 0,
    ensures
        r@ == without_end(v@, end@),
{
    let mut to: usize = v.len();
    proof {
        assert(v@.take(to as int) =~= v@);
    }
    while ends_at(v, to, end)
        invariant
            to <= v@.len(),
            end@.len() > 0,
            without_end(v@, end@) == without_end(v@.take(to as int), end@),
        decreases to,
    {
        proof {
            let t = v@.take(to as int);
            assert(t.skip(t.len() - end@.len()) =~= v@.subrange(to - end@.len(), to as int));
            assert(t.take(t.len() - end@.len()) =~= v@.take(to - end@.len()));
        }
        to -= end.len();
    }
    proof {
        let t = v@.take(to as int);
        if t.len() >= end@.len() {
            assert(t.skip(t.len() - end@.len()) =~= v@.subrange(to - end@.len(), to as int));
        }
    }
    let r = part(v, 0, to);
    proof {
        assert(r@ =~= v@.take(to as int));
    }
    r
}

/// Whether a text stands anywhere in another.
pub open spec fn occurs(s: Seq<char>, t: Seq<char>) -> bool {
    exists|i: int| 0 <= i <= s.len() - t.len() && #[trigger] s.subrange(i, i + t.len()) == t
}

/// Whether a text stands anywhere in another.
pub fn contains(v: &[char], t: &[char]) -> (r: bool)
    ensures
        r == occurs(v@, t@),
{
    if t.len() > v.len() {
        return false;
    }
    let mut to: usize = t.len();
    while to <= v.len()
        invariant
            t@.len() <= to <= v.len() + 1,
            forall|i: int|
                0 <= i < to - t@.len() ==> #[trigger] v@.subrange(i, i + t@.len()) != t@,
        decreases v.len() + 1 - to,
    {
        if ends_at(v, to, t) {
            proof {
                assert(v@.subrange(to - t@.len(), to - t@.len() + t@.len()) == t@);
            }
            return true;
        }
        if to == v.len() {
            return false;
        }
        to += 1;
    }
    false
}

// ---- hexadecimal ---------------------------------------------------------------

/// A hexadecimal digit.
pub open spec fn hex_digit(d: int) -> char {
    if d < 10 {
        (48 + d) as char
    } else {
        (87 + d) as char
    }
}

/// The last `n` hexadecimal digits of a number.
pub open spec fn hex(v: nat, n: nat) -> Seq<char>
    decreases n,
{
    if n == 0 {
        Seq::empty()
    } else {
        hex(v / 16, (n - 1) as nat).push(hex_digit((v % 16) as int))
    }
}

/// The hexadecimal digit for a number.
pub fn hex_char(d: u8) -> (c: char)
    requires
        d < 16,
    ensures
        c == hex_digit(d as int),
{
    if d < 10 {
        (48 + d) as char
    } else {
        (87 + d) as char
    }
}

/// Append the last `n` hexadecimal digits of a number.
pub fn push_hex(out: &mut String, v: u64, n: usize)
    ensures
        final(out)@ == old(out)@ + hex(v as nat, n as nat),
    decreases n,
{
    if n == 0 {
        proof {
            assert(out@ =~= old(out)@ + hex(v as nat, 0));
        }
        return;
    }
    push_hex(out, v / 16, n - 1);
    out.push(hex_char((v % 16) as u8));
    proof {
        assert(out@ =~= old(out)@ + hex(v as nat, n as nat));
    }
}

// ---- numbers with a point -------------------------------------------------------

/// A letter of the basic alphabet as a small one.
pub open spec fn small(c: char) -> char {
    if 'A' <= c && c <= 'Z' {
        (c as int + 32) as char
    } else {
        c
    }
}

/// Text in small letters.
pub open spec fn in_small(s: Seq<char>) -> Seq<char> {
    s.map_values(|c: char| small(c))
}

/// Text without a sign at its start.
pub open spec fn without_sign(s: Seq<char>) -> Seq<char> {
    if s.len() > 0 && (s[0] == '+' || s[0] == '-') {
        s.skip(1)
    } else {
        s
    }
}

/// Digits with perhaps a point before, among or behind them.
pub open spec fn is_mantissa(s: Seq<char>) -> bool {
    let d = index_from(s, '.', 0);
    &&& all_digits(s.take(d))
    &&& d < s.len() ==> all_digits(s.skip(d + 1))
    &&& d > 0 || d + 1 < s.len()
}

/// Where the exponent of a number begins, or the length of the text.
pub open spec fn exponent_at(s: Seq<char>) -> int {
    let i = index_from(s, 'e', 0);
    let j = index_from(s, 'E', 0);
    if i < j {
        i
    } else {
        j
    }
}

/// Whether a text reads as a floating-point number: a sign perhaps, and then
/// digits with perhaps a point and an exponent, or a word for infinity or for
/// what is no number.
pub open spec fn is_float(s: Seq<char>) -> bool {
    let t = without_sign(s);
    let w = in_small(t);
    let e = exponent_at(t);
    ||| w == "inf"@
    ||| w == "infinity"@
    ||| w == "nan"@
    ||| is_mantissa(t.take(e)) && (e < t.len() ==> {
        let x = without_sign(t.skip(e + 1));
        x.len() > 0 && all_digits(x)
    })
}

fn digits_only(v: &[char], from: usize, to: usize) -> (r: bool)
    requires
        from <= to <= v@.len(),
    ensures
        r == all_digits(v@.subrange(from as int, to as int)),
{
    let mut i: usize = from;
    while i < to
        invariant
            from <= i <= to <= v@.len(),
            forall|j: int| from <= j < i ==> is_digit(#[trigger] v@[j]),
        decreases to - i,
    {
        let c = v[i];
        if !('0' <= c && c <= '9') {
            proof {
                assert(!is_digit(v@.subrange(from as int, to as int)[i - from]));
            }
            return false;
        }
        i += 1;
    }
    proof {
        assert forall|j: int| 0 <= j < to - from implies is_digit(
            #[trigger] v@.subrange(from as int, to as int)[j],
        ) by {
            assert(is_digit(v@[j + from]));
        }
    }
    true
}

fn in_small_is(v: &[char], word: &str) -> (r: bool)
    ensures
        r == (in_small(v@) == word@),
{
    let w = chars_of(word);
    if w.len() != v.len() {
        return false;
    }
    let mut i: usize = 0;
    while i < v.len()
        invariant
            i <= v@.len(),
            w@ == word@,
            w@.len() == v@.len(),
            forall|j: int| 0 <= j < i ==> small(#[trigger] v@[j]) == w@[j],
        decreases v.len() - i,
    {
        let c = v[i];
        let l: char = if 'A' <= c && c <= 'Z' {
            (c as u8 + 32u8) as char
        } else {
            c
        };
        if l != w[i] {
            proof {
                assert(in_small(v@)[i as int] != word@[i as int]);
            }
            return false;
        }
        i += 1;
    }
    proof {
        assert(in_small(v@) =~= word@);
    }
    true
}

/// Whether a text reads as a floating-point number.
pub fn float_text(s: &[char]) -> (r: bool)
    ensures
        r == is_float(s@),
{
    let from: usize = if s.len() > 0 && (s[0] == '+' || s[0] == '-') { 1 } else { 0 };
    let t = part(s, from, s.len());
    proof {
        assert(t@ =~= without_sign(s@));
    }
    let v = t.as_slice();
    if in_small_is(v, "inf") || in_small_is(v, "infinity") || in_small_is(v, "nan") {
        return true;
    }
    let i = find_char(v, 'e', 0);
    let j = find_char(v, 'E', 0);
    let e: usize = if i < j { i } else { j };
    let m = part(v, 0, e);
    proof {
        assert(m@ =~= t@.take(e as int));
    }
    let d = find_char(m.as_slice(), '.', 0);
    let n: usize = m.len();
    proof {
        assert(m@.subrange(0, d as int) =~= m@.take(d as int));
        if d < n {
            assert(m@.subrange(d + 1, n as int) =~= m@.skip(d + 1));
        }
    }
    if !digits_only(m.as_slice(), 0, d) || (d < n && !digits_only(m.as_slice(), d + 1, n)) {
        return false;
    }
    if !(d > 0 || (d < n && 1 < n - d)) {
        return false;
    }
    if e >= v.len() {
        return true;
    }
    let k: usize = if e + 1 < v.len() && (v[e + 1] == '+' || v[e + 1] == '-') {
        e + 2
    } else {
        e + 1
    };
    proof {
        assert(t@.subrange(k as int, t@.len() as int) =~= without_sign(t@.skip(e + 1)));
    }
    k < v.len() && digits_only(v, k, v.len())
}

/// A number that is written has no angle bracket in it and no white space.
pub proof fn lemma_float_plain(s: Seq<char>)
    requires
        is_float(s),
    ensures
        s.len() > 0,
        forall|i: int|
            0 <= i < s.len() ==> !is_space(#[trigger] s[i]) && s[i] != '<' && s[i] != '>' && s[i]
                != '&',
{
    reveal_strlit("inf");
    reveal_strlit("infinity");
    reveal_strlit("nan");
    assert("inf"@ =~= seq!['i', 'n', 'f']);
    assert("infinity"@ =~= seq!['i', 'n', 'f', 'i', 'n', 'i', 't', 'y']);
    assert("nan"@ =~= seq!['n', 'a', 'n']);
    let t = without_sign(s);
    let w = in_small(t);
    let e = exponent_at(t);
    assert forall|i: int| 0 <= i < t.len() implies !is_space(#[trigger] t[i]) && t[i] != '<' && t[i]
        != '>' && t[i] != '&' by {
        if w == "inf"@ || w == "infinity"@ || w == "nan"@ {
            assert(w[i] == small(t[i]));
            assert('a' <= w[i] && w[i] <= 'z');
        } else {
            let m = t.take(e);
            let d = index_from(m, '.', 0);
            lemma_index_from(m, '.', 0);
            lemma_index_from(t, 'e', 0);
            lemma_index_from(t, 'E', 0);
            if i < e {
                assert(m[i] == t[i]);
                if i < d {
                    assert(is_digit(m.take(d)[i]));
                } else if i > d {
                    assert(is_digit(m.skip(d + 1)[i - d - 1]));
                }
            } else if i > e {
                let x = without_sign(t.skip(e + 1));
                let k = t.len() - x.len();
                if i >= k {
                    assert(x[i - k] == t[i]);
                    assert(is_digit(x[i - k]));
                }
            }
        }
    }
    assert(t.len() > 0) by {
        if t.len() == 0 {
            assert(w.len() == 0);
            assert(t.take(e).len() == 0);
        }
    }
    assert forall|i: int| 0 <= i < s.len() implies !is_space(#[trigger] s[i]) && s[i] != '<' && s[i]
        != '>' && s[i] != '&' by {
        let k = s.len() - t.len();
        if i >= k {
            assert(t[i - k] == s[i]);
        }
    }
}

// ---- what holds of text ------------------------------------------------------------

/// A number that is written down is read again, whatever zeros it is filled up with,
/// and is filled up as far as is asked for and no further.
pub proof fn law_written_number_is_read(n: nat, width: nat)
    ensures
        unsigned_of(dec(n)) == Some(n),
        unsigned_of(padded(n, width)) == Some(n),
        padded(n, width).len() >= width,
        padded(n, width).len() > width ==> padded(n, width) == dec(n),
        n > 0 ==> dec(n)[0] != '0',
        signed_of(seq!['-'] + dec(n)) == Some(-n),
        signed_of(dec(n)) == Some(n as int),
    decreases n,
{
    lemma_padded_reads(n, 0);
    lemma_padded_reads(n, width);
    lemma_dec_reads(n);
    assert((seq!['-'] + dec(n)).skip(1) =~= dec(n));
    assert(is_digit(dec(n)[0]));
    if n >= 10 {
        law_written_number_is_read(n / 10, width);
        lemma_dec_reads(n / 10);
    }
}

/// A number below some power of ten takes no more digits than the power.
pub proof fn law_number_of_digits(n: nat)
    ensures
        n < 10 ==> dec(n).len() == 1,
        10 <= n < 100 ==> dec(n).len() == 2,
        100 <= n < 1000 ==> dec(n).len() == 3,
        1000 <= n < 10000 ==> dec(n).len() == 4,
{
    reveal_with_fuel(dec, 4);
}

proof fn lemma_trimmed_start(s: Seq<char>) -> (n: int)
    ensures
        0 <= n <= s.len(),
        trim_start(s) == s.skip(n),
        forall|i: int| 0 <= i < n ==> is_space(#[trigger] s[i]),
        n < s.len() ==> !is_space(s[n]),
    decreases s.len(),
{
    if s.len() > 0 && is_space(s[0]) {
        let m = lemma_trimmed_start(s.skip(1));
        assert(s.skip(1).skip(m) =~= s.skip(m + 1));
        assert forall|i: int| 0 <= i < m + 1 implies is_space(#[trigger] s[i]) by {
            if i > 0 {
                assert(s.skip(1)[i - 1] == s[i]);
            }
        }
        m + 1
    } else {
        assert(s.skip(0) =~= s);
        0
    }
}

proof fn lemma_trimmed_end(s: Seq<char>) -> (n: int)
    ensures
        0 <= n <= s.len(),
        trim_end(s) == s.take(n),
        forall|i: int| n <= i < s.len() ==> is_space(#[trigger] s[i]),
        n > 0 ==> !is_space(s[n - 1]),
    decreases s.len(),
{
    if s.len() > 0 && is_space(s.last()) {
        let m = lemma_trimmed_end(s.drop_last());
        assert(s.drop_last().take(m) =~= s.take(m));
        assert forall|i: int| m <= i < s.len() implies is_space(#[trigger] s[i]) by {
            if i < s.len() - 1 {
                assert(s.drop_last()[i] == s[i]);
            }
        }
        m
    } else {
        assert(s.take(s.len() as int) =~= s);
        s.len() as int
    }
}

/// Text that is trimmed has lost only space, at its two ends, and has none left there.
pub proof fn law_trimmed(s: Seq<char>) -> (r: (int, int))
    ensures
        0 <= r.0 <= r.1 <= s.len(),
        trimmed(s) == s.subrange(r.0, r.1),
        forall|i: int| 0 <= i < r.0 || r.1 <= i < s.len() ==> is_space(#[trigger] s[i]),
        r.0 < r.1 ==> !is_space(s[r.0]) && !is_space(s[r.1 - 1]),
{
    let a = lemma_trimmed_start(s);
    let t = s.skip(a);
    let b = lemma_trimmed_end(t);
    assert(t.take(b) =~= s.subrange(a, a + b));
    assert forall|i: int| 0 <= i < a || a + b <= i < s.len() implies is_space(#[trigger] s[i]) by {
        if i >= a {
            assert(t[i - a] == s[i]);
        }
    }
    if b > 0 {
        assert(t[b - 1] == s[a + b - 1]);
    }
    (a, a + b)
}

/// What is space: a blank, a tab and the ends of lines are, and no sign of the
/// printable ones below 127 is besides.
pub proof fn law_spaces(c: char)
    requires
        c <= '~',
    ensures
        is_space(c) <==> c == ' ' || c == '\t' || c == '\n' || c == '\r' || c as int == 11 || c as int
            == 12,
{
}

/// The parts of some text with a sign between each two of them.
pub open spec fn joined(parts: Seq<Seq<char>>, c: char) -> Seq<char>
    decreases parts.len(),
{
    if parts.len() == 0 {
        Seq::empty()
    } else if parts.len() == 1 {
        parts[0]
    } else {
        parts[0] + seq![c] + joined(parts.skip(1), c)
    }
}

/// Text that is split is its parts put together again, and no part has the sign that
/// it was split at.
pub proof fn law_split_is_joined(s: Seq<char>, c: char)
    ensures
        split_on(s, c).len() >= 1,
        joined(split_on(s, c), c) == s,
        forall|k: int, i: int|
            0 <= k < split_on(s, c).len() && 0 <= i < split_on(s, c)[k].len()
                ==> #[trigger] split_on(s, c)[k][i] != c,
    decreases s.len(),
{
    lemma_index_from(s, c, 0);
    let i = index_from(s, c, 0);
    let all = split_on(s, c);
    if i < s.len() {
        let rest = s.skip(i + 1);
        law_split_is_joined(rest, c);
        assert(all.skip(1) =~= split_on(rest, c));
        assert(s =~= s.take(i) + seq![c] + rest);
        assert forall|k: int, j: int| 0 <= k < all.len() && 0 <= j < all[k].len() implies
            #[trigger] all[k][j] != c by {
            if k > 0 {
                assert(all[k] == split_on(rest, c)[k - 1]);
            } else {
                assert(all[0] == s.take(i));
            }
        }
    } else {
        assert(all == seq![s]);
    }
}

/// Words with a sign between them are split into the words.
pub proof fn law_first_part(a: Seq<char>, c: char, rest: Seq<char>)
    requires
        forall|i: int| 0 <= i < a.len() ==> #[trigger] a[i] != c,
    ensures
        split_on(a, c) == seq![a],
        split_on(a + seq![c] + rest, c) == seq![a] + split_on(rest, c),
{
    let s = a + seq![c] + rest;
    lemma_index_from(a, c, 0);
    lemma_index_from(s, c, 0);
    let i = index_from(s, c, 0);
    assert(s[a.len() as int] == c);
    if i < a.len() {
        assert(s[i] == a[i]);
    }
    assert(i == a.len());
    assert(s.take(i) =~= a);
    assert(s.skip(i + 1) =~= rest);
}

/// Text whose ends are cut off is what is left of it before the last that is not one
/// of them.
pub proof fn law_ends_are_cut_off(s: Seq<char>, end: Seq<char>)
    requires
        end.len() > 0,
    ensures
        without_end(s + end, end) == without_end(s, end),
        without_end(s, end).is_prefix_of(s),
        !end.is_suffix_of(s) ==> without_end(s, end) == s,
        !end.is_suffix_of(without_end(s, end)),
    decreases s.len(),
{
    let t = s + end;
    assert(t.skip(t.len() - end.len()) =~= end);
    assert(t.take(t.len() - end.len()) =~= s);
    if s.len() >= end.len() && s.skip(s.len() - end.len()) == end {
        let cut = s.take(s.len() - end.len());
        law_ends_are_cut_off(cut, end);
        assert(s =~= cut + end);
        assert(end.is_suffix_of(s)) by {
            assert(s.subrange(s.len() - end.len(), s.len() as int) =~= end);
        }
        assert(without_end(s, end).is_prefix_of(s)) by {
            let w = without_end(s, end);
            assert(w == cut.subrange(0, w.len() as int));
            assert(w =~= s.subrange(0, w.len() as int));
        }
    } else {
        assert(without_end(s, end) == s);
        assert(s.is_prefix_of(s)) by {
            assert(s.subrange(0, s.len() as int) =~= s);
        }
        if end.is_suffix_of(s) {
            assert(s.skip(s.len() - end.len()) =~= s.subrange(
                s.len() - end.len(),
                s.len() as int,
            ));
        }
    }
}

/// The value of a sign of a number in sixteens.
pub open spec fn sixteen(c: char) -> int {
    if is_digit(c) {
        c as int - '0' as int
    } else {
        c as int - 'a' as int + 10
    }
}

/// The number that signs stand for in sixteens.
pub open spec fn sixteens_of(s: Seq<char>) -> int
    decreases s.len(),
{
    if s.len() == 0 {
        0
    } else {
        16 * sixteens_of(s.drop_last()) + sixteen(s.last())
    }
}

/// A number in sixteens is as long as is asked for and stands for the number.
pub proof fn law_hex_reads_back(v: nat, n: nat)
    requires
        v < vstd::arithmetic::power::pow(16, n),
    ensures
        hex(v, n).len() == n,
        sixteens_of(hex(v, n)) == v,
        forall|i: int|
            0 <= i < n ==> '0' <= #[trigger] hex(v, n)[i] <= '9' || 'a' <= hex(v, n)[i] <= 'f',
    decreases n,
{
    reveal(vstd::arithmetic::power::pow);
    if n > 0 {
        let m = (n - 1) as nat;
        assert(v / 16 < vstd::arithmetic::power::pow(16, m));
        law_hex_reads_back(v / 16, m);
        assert(hex(v, n).drop_last() =~= hex(v / 16, m));
        let d = hex_digit((v % 16) as int);
        assert(sixteen(d) == v % 16);
        assert forall|i: int| 0 <= i < n implies '0' <= #[trigger] hex(v, n)[i] <= '9' || 'a'
            <= hex(v, n)[i] <= 'f' by {
            if i < m {
                assert(hex(v, n)[i] == hex(v / 16, m)[i]);
            }
        }
    }
}

/// A letter made small is the same letter, and nothing else changes.
pub proof fn law_small_letters(c: char)
    ensures
        'A' <= c <= 'Z' ==> 'a' <= small(c) <= 'z' && small(c) as int - 'a' as int == c as int - 'A'
            as int,
        !('A' <= c <= 'Z') ==> small(c) == c,
{
}

proof fn lemma_no_mark(s: Seq<char>, c: char)
    requires
        all_digits(s),
        !is_digit(c),
    ensures
        index_from(s, c, 0) == s.len(),
{
    lemma_index_from(s, c, 0);
    let i = index_from(s, c, 0);
    if i < s.len() {
        assert(is_digit(s[i]));
    }
}

/// Digits with a point among them, before them or behind them are a number, with a
/// sign or without; a point alone is none.
pub proof fn law_decimals_are_numbers(a: Seq<char>, b: Seq<char>)
    requires
        all_digits(a),
        all_digits(b),
        a.len() + b.len() > 0,
    ensures
        is_float(a + seq!['.'] + b),
        is_float(seq!['-'] + (a + seq!['.'] + b)),
        is_float(seq!['+'] + (a + seq!['.'] + b)),
        a.len() > 0 ==> is_float(a),
        !is_float(seq!['.']),
        !is_float(Seq::<char>::empty()),
{
    let t = a + seq!['.'] + b;
    lemma_index_from(t, '.', 0);
    lemma_index_from(t, 'e', 0);
    lemma_index_from(t, 'E', 0);
    assert forall|i: int| 0 <= i < t.len() implies #[trigger] t[i] != 'e' && t[i] != 'E' by {
        if i < a.len() {
            assert(t[i] == a[i]);
            assert(is_digit(a[i]));
        } else if i > a.len() {
            assert(t[i] == b[i - a.len() - 1]);
            assert(is_digit(b[i - a.len() - 1]));
        }
    }
    let d = index_from(t, '.', 0);
    assert(t[a.len() as int] == '.');
    if d < a.len() {
        assert(t[d] == a[d]);
        assert(is_digit(a[d]));
    }
    assert(d == a.len());
    assert(t.take(d) =~= a);
    assert(t.skip(d + 1) =~= b);
    assert(is_mantissa(t));
    assert(t.take(t.len() as int) =~= t);
    if a.len() > 0 {
        assert(is_digit(a[0]));
        assert(t[0] == a[0]);
        lemma_no_mark(a, '.');
        lemma_no_mark(a, 'e');
        lemma_no_mark(a, 'E');
        assert(a.take(a.len() as int) =~= a);
        assert(is_mantissa(a));
        assert(without_sign(a) == a);
    }
    assert(without_sign(t) == t);
    assert((seq!['-'] + t).skip(1) =~= t);
    assert((seq!['+'] + t).skip(1) =~= t);
    assert(without_sign(seq!['-'] + t) == t);
    assert(without_sign(seq!['+'] + t) == t);
    reveal_strlit("inf");
    reveal_strlit("infinity");
    reveal_strlit("nan");
    let p = seq!['.'];
    lemma_index_from(p, '.', 0);
    lemma_index_from(p, 'e', 0);
    lemma_index_from(p, 'E', 0);
    assert(p[0] == '.');
    assert(index_from(p, '.', 0) == 0);
    assert(exponent_at(p) == 1);
    assert(p.take(1) =~= p);
    assert(without_sign(p) == p);
    assert(!is_mantissa(p));
    assert(in_small(p).len() == 1);
    let z = Seq::<char>::empty();
    assert(index_from(z, '.', 0) == 0 && exponent_at(z) == 0);
    assert(z.take(0) =~= z);
    assert(!is_mantissa(z));
    assert(in_small(z).len() == 0);
}

/// A number with a sign is read again, however wide it is written.
pub proof fn law_written_signed_number_is_read(n: int, width: nat)
    ensures
        signed_of(padded_signed(n, width)) == Some(n),
        padded_signed(n, width).len() >= width,
{
    if n >= 0 {
        law_written_number_is_read(n as nat, width);
        let p = padded(n as nat, width);
        lemma_dec_reads(n as nat);
        assert(p.len() > 0);
        assert(p[0] != '-') by {
            assert(is_digit(dec(n as nat)[0]));
        }
    } else {
        let w = if width > 0 {
            (width - 1) as nat
        } else {
            0
        };
        let m = (-n) as nat;
        law_written_number_is_read(m, w);
        let p = padded(m, w);
        let s = seq!['-'] + p;
        assert(s.skip(1) =~= p);
        lemma_dec_reads(m);
        assert(p[0] != '+') by {
            assert(is_digit(dec(m)[0]));
        }
    }
}

} // verus!
