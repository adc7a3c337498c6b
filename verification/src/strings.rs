//! Character-level string helpers: substring search, pattern removal,
//! ASCII lowercasing, newline stripping and decimal rendering, each proved
//! against a spec function over the string's character sequence.

use vstd::prelude::*;
use vstd::string::*;

verus! {

/// Whether `c` is an ASCII decimal digit.
pub open spec fn is_digit(c: char) -> bool {
    48 <= c as u32 <= 57
}

/// The numeric value of an ASCII digit character.
pub open spec fn digit_val(c: char) -> nat {
    (c as u32 - 48) as nat
}

/// The ASCII digit character for a value below ten.
pub open spec fn digit_char(d: nat) -> char {
    if d == 0 { '0' } else if d == 1 { '1' } else if d == 2 { '2' } else if d == 3 { '3' }
    else if d == 4 { '4' } else if d == 5 { '5' } else if d == 6 { '6' } else if d == 7 { '7' }
    else if d == 8 { '8' } else { '9' }
}

/// The usual decimal rendering of `n`, most significant digit first.
pub open spec fn dec_seq(n: nat) -> Seq<char>
    decreases n,
{
    if n < 10 {
        seq![digit_char(n)]
    } else {
        dec_seq(n / 10) + seq![digit_char(n % 10)]
    }
}

/// ASCII uppercase letters map to their lowercase form; all else is unchanged.
pub open spec fn lower_char(c: char) -> char {
    if 65 <= c as u32 <= 90 {
        ((c as u8) + 32) as char
    } else {
        c
    }
}

/// `s` with every ASCII uppercase letter lowercased.
pub open spec fn lower_seq(s: Seq<char>) -> Seq<char>
    decreases s.len(),
{
    if s.len() == 0 {
        s
    } else {
        seq![lower_char(s[0])] + lower_seq(s.skip(1))
    }
}

/// `s` with every newline and carriage return removed.
pub open spec fn strip_crlf_seq(s: Seq<char>) -> Seq<char>
    decreases s.len(),
{
    if s.len() == 0 {
        s
    } else if s[0] == '\n' || s[0] == '\r' {
        strip_crlf_seq(s.skip(1))
    } else {
        seq![s[0]] + strip_crlf_seq(s.skip(1))
    }
}

/// `s` with the non-overlapping occurrences of `p` removed, left to right.
pub open spec fn remove_pat(s: Seq<char>, p: Seq<char>) -> Seq<char>
    decreases s.len(),
{
    if p.len() == 0 || s.len() == 0 {
        s
    } else if p.len() <= s.len() && s.take(p.len() as int) == p {
        remove_pat(s.skip(p.len() as int), p)
    } else {
        seq![s[0]] + remove_pat(s.skip(1), p)
    }
}

/// Whether `needle` occurs in `hay` starting at position `i`.
pub open spec fn contains_at(hay: Seq<char>, needle: Seq<char>, i: int) -> bool {
    0 <= i && i + needle.len() <= hay.len() && hay.subrange(i, i + needle.len()) == needle
}

/// Whether `needle` occurs anywhere in `hay` (an empty needle always does).
pub open spec fn contains_seq(hay: Seq<char>, needle: Seq<char>) -> bool {
    exists|i: int| contains_at(hay, needle, i)
}

/// The least position where `needle` occurs in `hay`, or -1 when it does not.
pub open spec fn find_idx(hay: Seq<char>, needle: Seq<char>) -> int
    decreases hay.len(),
{
    if contains_at(hay, needle, 0) {
        0
    } else if hay.len() == 0 {
        -1
    } else {
        let r = find_idx(hay.skip(1), needle);
        if r == -1 { -1 } else { r + 1 }
    }
}

/// Occurrences shift by one when the first character of the haystack is dropped.
proof fn lemma_contains_at_shift(hay: Seq<char>, needle: Seq<char>, i: int)
    requires
        hay.len() > 0,
        i >= 1,
    ensures
        contains_at(hay, needle, i) == contains_at(hay.skip(1), needle, i - 1),
{
    if contains_at(hay, needle, i) {
        assert(hay.skip(1).subrange(i - 1, i - 1 + needle.len()) =~= needle);
    } else if contains_at(hay.skip(1), needle, i - 1) {
        assert(hay.subrange(i, i + needle.len()) =~= needle);
    }
}

/// `find_idx` returns the least occurrence of `needle`, or -1 when there is none.
pub proof fn lemma_find_idx(hay: Seq<char>, needle: Seq<char>)
    ensures
        find_idx(hay, needle) >= -1,
        find_idx(hay, needle) == -1 <==> !contains_seq(hay, needle),
        find_idx(hay, needle) >= 0 ==> contains_at(hay, needle, find_idx(hay, needle)),
        find_idx(hay, needle) >= 0 ==> forall|k: int|
            0 <= k < find_idx(hay, needle) ==> !contains_at(hay, needle, k),
    decreases hay.len(),
{
    if contains_at(hay, needle, 0) {
    } else if hay.len() == 0 {
        assert forall|i: int| !contains_at(hay, needle, i) by {
            if contains_at(hay, needle, i) {
                assert(i == 0);
            }
        }
    } else {
        lemma_find_idx(hay.skip(1), needle);
        let r = find_idx(hay.skip(1), needle);
        assert forall|i: int| i >= 1 implies contains_at(hay, needle, i) == contains_at(
            hay.skip(1),
            needle,
            i - 1,
        ) by {
            lemma_contains_at_shift(hay, needle, i);
        }
        if r == -1 {
            assert forall|i: int| !contains_at(hay, needle, i) by {
                if contains_at(hay, needle, i) {
                    assert(i >= 1);
                    assert(contains_at(hay.skip(1), needle, i - 1));
                }
            }
        } else {
            assert(contains_at(hay, needle, r + 1));
            assert forall|k: int| 0 <= k < r + 1 implies !contains_at(hay, needle, k) by {
                if k >= 1 && contains_at(hay, needle, k) {
                    assert(contains_at(hay.skip(1), needle, k - 1));
                }
            }
        }
    }
}

/// Compares two strings character by character.
pub fn str_eq_str(a: &str, b: &str) -> (r: bool)
    ensures
        r == (a@ == b@),
{
    let la = a.unicode_len();
    let lb = b.unicode_len();
    if la != lb {
        return false;
    }
    let mut i: usize = 0;
    while i < la
        invariant
            la == a@.len(),
            la == b@.len(),
            i <= la,
            forall|k: int| 0 <= k < i ==> a@[k] == b@[k],
        decreases la - i,
    {
        if a.get_char(i) != b.get_char(i) {
            return false;
        }
        i += 1;
    }
    proof {
        assert(a@ =~= b@);
    }
    true
}

/// Whether `needle` occurs in `hay` starting exactly at position `i`.
fn match_at(hay: &str, needle: &str, i: usize, hay_len: usize, needle_len: usize) -> (r: bool)
    requires
        hay_len == hay@.len(),
        needle_len == needle@.len(),
        i + needle_len <= hay_len,
    ensures
        r == contains_at(hay@, needle@, i as int),
{
    let mut j: usize = 0;
    while j < needle_len
        invariant
            hay_len == hay@.len(),
            needle_len == needle@.len(),
            i + needle_len <= hay_len,
            j <= needle_len,
            forall|k: int| 0 <= k < j ==> hay@[i + k] == needle@[k],
        decreases needle_len - j,
    {
        if hay.get_char(i + j) != needle.get_char(j) {
            assert(hay@.subrange(i as int, i + needle@.len())[j as int] != needle@[j as int]);
            return false;
        }
        j += 1;
    }
    proof {
        assert(hay@.subrange(i as int, i + needle@.len()) =~= needle@);
    }
    true
}

/// The least position where `needle` occurs in `hay`, if any.
pub fn str_find(hay: &str, needle: &str) -> (r: Option<usize>)
    ensures
        match r {
            Some(i) => find_idx(hay@, needle@) == i as int,
            None => find_idx(hay@, needle@) == -1,
        },
{
    proof {
        lemma_find_idx(hay@, needle@);
    }
    let hay_len = hay.unicode_len();
    let needle_len = needle.unicode_len();
    if needle_len == 0 {
        proof {
            assert(hay@.subrange(0, 0) =~= needle@);
            assert(contains_at(hay@, needle@, 0));
        }
        return Some(0);
    }
    if needle_len > hay_len {
        proof {
            if contains_seq(hay@, needle@) {
                let i = choose|i: int| contains_at(hay@, needle@, i);
                assert(i + needle@.len() <= hay@.len());
            }
        }
        return None;
    }
    let mut i: usize = 0;
    while i <= hay_len - needle_len
        invariant
            hay_len == hay@.len(),
            needle_len == needle@.len(),
            1 <= needle_len <= hay_len,
            i <= hay_len - needle_len + 1,
            forall|k: int| 0 <= k < i ==> !contains_at(hay@, needle@, k),
        decreases hay_len - needle_len - i + 1,
    {
        if match_at(hay, needle, i, hay_len, needle_len) {
            proof {
                lemma_find_idx(hay@, needle@);
                assert(contains_at(hay@, needle@, i as int));
                assert(contains_seq(hay@, needle@));
                let f = find_idx(hay@, needle@);
                assert(f >= 0);
                assert(!(f < i) && !(f > i));
            }
            return Some(i);
        }
        i += 1;
    }
    proof {
        if contains_seq(hay@, needle@) {
            let k = choose|k: int| contains_at(hay@, needle@, k);
            assert(k + needle@.len() <= hay@.len());
            assert(!contains_at(hay@, needle@, k));
        }
    }
    None
}

/// Whether `needle` occurs anywhere in `hay`.
pub fn str_contains(hay: &str, needle: &str) -> (r: bool)
    ensures
        r == contains_seq(hay@, needle@),
{
    proof {
        lemma_find_idx(hay@, needle@);
    }
    str_find(hay, needle).is_some()
}

/// `s` with the non-overlapping occurrences of `pat` removed, left to right.
pub fn remove_pattern(s: &str, pat: &str) -> (r: String)
    ensures
        r@ == remove_pat(s@, pat@),
{
    let s_len = s.unicode_len();
    let pat_len = pat.unicode_len();
    let mut out = String::new();
    if pat_len == 0 {
        proof {
            assert(remove_pat(s@, pat@) == s@);
        }
        out.append(s);
        return out;
    }
    let mut i: usize = 0;
    proof {
        assert(s@.skip(0) =~= s@);
    }
    while i < s_len
        invariant
            s_len == s@.len(),
            pat_len == pat@.len(),
            pat_len >= 1,
            i <= s_len,
            remove_pat(s@, pat@) == out@ + remove_pat(s@.skip(i as int), pat@),
        decreases s_len - i,
    {
        let ghost rest = s@.skip(i as int);
        if pat_len <= s_len - i && match_at(s, pat, i, s_len, pat_len) {
            proof {
                assert(rest.take(pat@.len() as int) =~= s@.subrange(i as int, i + pat@.len()));
                assert(rest.skip(pat@.len() as int) =~= s@.skip(i + pat@.len()));
            }
            i += pat_len;
        } else {
            proof {
                if i + pat@.len() <= s@.len() {
                    assert(s@.subrange(i as int, i + pat@.len()) =~= rest.take(pat@.len() as int));
                }
                assert(remove_pat(rest, pat@) == seq![rest[0]] + remove_pat(rest.skip(1), pat@));
                assert(rest.skip(1) =~= s@.skip(i + 1));
                assert(s@.subrange(i as int, i + 1) =~= seq![rest[0]]);
            }
            let piece = s.substring_char(i, i + 1);
            out.append(piece);
            i += 1;
        }
        proof {
            assert(out@ + remove_pat(s@.skip(i as int), pat@) == remove_pat(s@, pat@));
        }
    }
    proof {
        assert(s@.skip(i as int) =~= Seq::<char>::empty());
        assert(remove_pat(Seq::<char>::empty(), pat@) == Seq::<char>::empty());
        assert(out@ =~= remove_pat(s@, pat@));
    }
    out
}

/// `s` with every newline and carriage return removed.
pub fn strip_newlines(s: &str) -> (r: String)
    ensures
        r@ == strip_crlf_seq(s@),
{
    let s_len = s.unicode_len();
    let mut out = String::new();
    let mut i: usize = 0;
    proof {
        assert(s@.skip(0) =~= s@);
    }
    while i < s_len
        invariant
            s_len == s@.len(),
            i <= s_len,
            strip_crlf_seq(s@) == out@ + strip_crlf_seq(s@.skip(i as int)),
        decreases s_len - i,
    {
        let ghost rest = s@.skip(i as int);
        let c = s.get_char(i);
        proof {
            assert(rest[0] == s@[i as int]);
            assert(rest.skip(1) =~= s@.skip(i + 1));
        }
        if c != '\n' && c != '\r' {
            proof {
                assert(s@.subrange(i as int, i + 1) =~= seq![rest[0]]);
            }
            let piece = s.substring_char(i, i + 1);
            out.append(piece);
        }
        i += 1;
    }
    proof {
        assert(s@.skip(i as int) =~= Seq::<char>::empty());
        assert(out@ =~= strip_crlf_seq(s@));
    }
    out
}

/// The lowercase form of an ASCII uppercase letter, as a string slice.
fn lower_ascii_str(c: char) -> (r: &'static str)
    requires
        65 <= c as u32 <= 90,
    ensures
        r@ == seq![lower_char(c)],
{
    proof {
        reveal_strlit("a"); reveal_strlit("b"); reveal_strlit("c"); reveal_strlit("d");
        reveal_strlit("e"); reveal_strlit("f"); reveal_strlit("g"); reveal_strlit("h");
        reveal_strlit("i"); reveal_strlit("j"); reveal_strlit("k"); reveal_strlit("l");
        reveal_strlit("m"); reveal_strlit("n"); reveal_strlit("o"); reveal_strlit("p");
        reveal_strlit("q"); reveal_strlit("r"); reveal_strlit("s"); reveal_strlit("t");
        reveal_strlit("u"); reveal_strlit("v"); reveal_strlit("w"); reveal_strlit("x");
        reveal_strlit("y"); reveal_strlit("z");
    }
    match c {
        'A' => "a", 'B' => "b", 'C' => "c", 'D' => "d", 'E' => "e", 'F' => "f",
        'G' => "g", 'H' => "h", 'I' => "i", 'J' => "j", 'K' => "k", 'L' => "l",
        'M' => "m", 'N' => "n", 'O' => "o", 'P' => "p", 'Q' => "q", 'R' => "r",
        'S' => "s", 'T' => "t", 'U' => "u", 'V' => "v", 'W' => "w", 'X' => "x",
        'Y' => "y", _ => "z",
    }
}

/// `s` with every ASCII uppercase letter lowercased.
pub fn to_ascii_lower(s: &str) -> (r: String)
    ensures
        r@ == lower_seq(s@),
{
    let s_len = s.unicode_len();
    let mut out = String::new();
    let mut i: usize = 0;
    proof {
        assert(s@.skip(0) =~= s@);
    }
    while i < s_len
        invariant
            s_len == s@.len(),
            i <= s_len,
            lower_seq(s@) == out@ + lower_seq(s@.skip(i as int)),
        decreases s_len - i,
    {
        let ghost rest = s@.skip(i as int);
        let c = s.get_char(i);
        proof {
            assert(rest[0] == s@[i as int]);
            assert(rest.skip(1) =~= s@.skip(i + 1));
        }
        if 'A' <= c && c <= 'Z' {
            let piece = lower_ascii_str(c);
            out.append(piece);
        } else {
            proof {
                assert(s@.subrange(i as int, i + 1) =~= seq![rest[0]]);
                assert(lower_char(c) == c);
            }
            let piece = s.substring_char(i, i + 1);
            out.append(piece);
        }
        i += 1;
    }
    proof {
        assert(s@.skip(i as int) =~= Seq::<char>::empty());
        assert(out@ =~= lower_seq(s@));
    }
    out
}

/// The ASCII digit for a value below ten, as a string slice.
fn digit_str(d: u64) -> (r: &'static str)
    requires
        d < 10,
    ensures
        r@ == seq![digit_char(d as nat)],
{
    proof {
        reveal_strlit("0"); reveal_strlit("1"); reveal_strlit("2"); reveal_strlit("3");
        reveal_strlit("4"); reveal_strlit("5"); reveal_strlit("6"); reveal_strlit("7");
        reveal_strlit("8"); reveal_strlit("9");
    }
    match d {
        0 => "0", 1 => "1", 2 => "2", 3 => "3", 4 => "4",
        5 => "5", 6 => "6", 7 => "7", 8 => "8", _ => "9",
    }
}

/// Renders `n` in decimal.
pub fn u64_to_dec(n: u64) -> (r: String)
    ensures
        r@ == dec_seq(n as nat),
    decreases n,
{
    if n < 10 {
        let mut out = String::new();
        out.append(digit_str(n));
        return out;
    }
    let mut out = u64_to_dec(n / 10);
    out.append(digit_str(n % 10));
    out
}

} // verus!
