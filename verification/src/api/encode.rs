//! Bytes as text that can stand in a page.

use vstd::prelude::*;

verus! {

/// The letter of the standard alphabet for six bits.
pub open spec fn letter(v: int) -> char {
    (if v < 26 {
        65 + v
    } else if v < 52 {
        71 + v
    } else if v < 62 {
        v - 4
    } else if v == 62 {
        43
    } else {
        47
    }) as char
}

/// The six bits that a letter of the standard alphabet stands for.
pub open spec fn bits_of(c: char) -> int {
    let n = c as int;
    if 65 <= n <= 90 {
        n - 65
    } else if 97 <= n <= 122 {
        n - 71
    } else if 48 <= n <= 57 {
        n + 4
    } else if n == 43 {
        62
    } else {
        63
    }
}

/// Bytes in base 64: four letters for three bytes, and where fewer than three
/// are left at the end, `=` for what is missing.
pub open spec fn encoded(b: Seq<u8>) -> Seq<char>
    decreases b.len(),
{
    if b.len() == 0 {
        Seq::empty()
    } else if b.len() == 1 {
        seq![letter(b[0] as int / 4), letter(b[0] as int % 4 * 16), '=', '=']
    } else if b.len() == 2 {
        seq![
            letter(b[0] as int / 4),
            letter(b[0] as int % 4 * 16 + b[1] as int / 16),
            letter(b[1] as int % 16 * 4),
            '=',
        ]
    } else {
        seq![
            letter(b[0] as int / 4),
            letter(b[0] as int % 4 * 16 + b[1] as int / 16),
            letter(b[1] as int % 16 * 4 + b[2] as int / 64),
            letter(b[2] as int % 64),
        ] + encoded(b.skip(3))
    }
}

/// The bytes that a base 64 text stands for.
pub open spec fn decoded(s: Seq<char>) -> Seq<u8>
    decreases s.len(),
{
    if s.len() < 4 {
        Seq::empty()
    } else {
        let a = bits_of(s[0]);
        let b = bits_of(s[1]);
        let c = bits_of(s[2]);
        let d = bits_of(s[3]);
        if s[2] == '=' {
            seq![(a * 4 + b / 16) as u8]
        } else if s[3] == '=' {
            seq![(a * 4 + b / 16) as u8, (b % 16 * 16 + c / 4) as u8]
        } else {
            seq![
                (a * 4 + b / 16) as u8,
                (b % 16 * 16 + c / 4) as u8,
                (c % 4 * 64 + d) as u8,
            ] + decoded(s.skip(4))
        }
    }
}

fn letter_of(v: u8) -> (c: char)
    requires
        v < 64,
    ensures
        c == letter(v as int),
{
    if v < 26 {
        (65 + v) as char
    } else if v < 52 {
        (71 + v) as char
    } else if v < 62 {
        (v - 4) as char
    } else if v == 62 {
        '+'
    } else {
        '/'
    }
}

/// Base 64, standard alphabet with padding.
pub fn b64(data: &[u8]) -> (s: String)
    ensures
        s@ == encoded(data@),
{
    let mut out = String::new();
    let mut i: usize = 0;
    proof {
        assert(data@.skip(0) =~= data@);
        assert(out@ + encoded(data@) =~= encoded(data@));
    }
    while i < data.len()
        invariant
            i <= data@.len(),
            out@ + encoded(data@.skip(i as int)) == encoded(data@),
        decreases data.len() - i,
    {
        let ghost before = out@;
        let ghost rest = data@.skip(i as int);
        let left: usize = data.len() - i;
        let a = data[i];
        let b = if left > 1 { data[i + 1] } else { 0 };
        let c = if left > 2 { data[i + 2] } else { 0 };
        out.push(letter_of(a / 4));
        out.push(letter_of(a % 4 * 16 + b / 16));
        if left > 1 {
            out.push(letter_of(b % 16 * 4 + c / 64));
        } else {
            out.push('=');
        }
        if left > 2 {
            out.push(letter_of(c % 64));
            i += 3;
            proof {
                assert(rest.skip(3) =~= data@.skip(i as int));
                let four = seq![
                    letter(a as int / 4),
                    letter(a as int % 4 * 16 + b as int / 16),
                    letter(b as int % 16 * 4 + c as int / 64),
                    letter(c as int % 64),
                ];
                assert(out@ =~= before + four);
                assert(before + (four + encoded(rest.skip(3))) =~= out@ + encoded(rest.skip(3)));
            }
        } else {
            out.push('=');
            i += left;
            proof {
                assert(out@ =~= before + encoded(rest));
                assert(data@.skip(i as int) =~= Seq::empty());
                assert(out@ + Seq::empty() =~= out@);
            }
        }
    }
    proof {
        assert(data@.skip(i as int) =~= Seq::empty());
        assert(out@ + Seq::empty() =~= out@);
    }
    out
}

proof fn lemma_letter(v: int)
    requires
        0 <= v < 64,
    ensures
        bits_of(letter(v)) == v,
        letter(v) != '=',
{
}

/// What is encoded is decoded to what it was.
pub proof fn law_b64_round_trip(b: Seq<u8>)
    ensures
        decoded(encoded(b)) == b,
    decreases b.len(),
{
    let s = encoded(b);
    if b.len() == 1 {
        lemma_letter(b[0] as int / 4);
        lemma_letter(b[0] as int % 4 * 16);
        assert(decoded(s) =~= b);
    } else if b.len() == 2 {
        lemma_letter(b[0] as int / 4);
        lemma_letter(b[0] as int % 4 * 16 + b[1] as int / 16);
        lemma_letter(b[1] as int % 16 * 4);
        assert(decoded(s) =~= b);
    } else if b.len() >= 3 {
        lemma_letter(b[0] as int / 4);
        lemma_letter(b[0] as int % 4 * 16 + b[1] as int / 16);
        lemma_letter(b[1] as int % 16 * 4 + b[2] as int / 64);
        lemma_letter(b[2] as int % 64);
        law_b64_round_trip(b.skip(3));
        assert(s.skip(4) =~= encoded(b.skip(3)));
        assert(decoded(s) =~= seq![b[0], b[1], b[2]] + b.skip(3));
        assert(seq![b[0], b[1], b[2]] + b.skip(3) =~= b);
    }
}

/// The signs are the letters, large and then small, the digits, a plus and a slash.
pub proof fn law_signs(v: int)
    requires
        0 <= v < 64,
    ensures
        letter(v)
            == "ABCDEFGHIJKLMNOPQRSTUVWXYZabcdefghijklmnopqrstuvwxyz0123456789+/"@[v],
{
    reveal_strlit("ABCDEFGHIJKLMNOPQRSTUVWXYZabcdefghijklmnopqrstuvwxyz0123456789+/");
}

/// Each three bytes are four signs, and what is left over is filled up to four.
pub proof fn law_length(b: Seq<u8>)
    ensures
        encoded(b).len() == (b.len() + 2) / 3 * 4,
    decreases b.len(),
{
    if b.len() > 2 {
        law_length(b.skip(3));
    }
}

} // verus!
