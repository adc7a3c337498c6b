//! Natural ("human") ordering of names: two character sequences are walked
//! in step, runs of ASCII digits are compared by their numeric value rather
//! than lexically, other characters by code point, and a full tie falls back
//! to comparing the remaining lengths.

use vstd::prelude::*;
use vstd::string::*;
use crate::strings::{dec_seq, digit_char, digit_val, is_digit};

verus! {

/// The length of the leading run of ASCII digits of `s`.
pub open spec fn digit_run_len(s: Seq<char>) -> nat
    decreases s.len(),
{
    if s.len() == 0 || !is_digit(s[0]) {
        0
    } else {
        (1 + digit_run_len(s.skip(1))) as nat
    }
}

/// The leading digit run is a run of digits, and it stops at a non-digit.
pub proof fn lemma_digit_run_len(s: Seq<char>)
    ensures
        digit_run_len(s) <= s.len(),
        forall|k: int| 0 <= k < digit_run_len(s) ==> is_digit(s[k]),
        digit_run_len(s) < s.len() ==> !is_digit(s[digit_run_len(s) as int]),
    decreases s.len(),
{
    if s.len() == 0 || !is_digit(s[0]) {
    } else {
        lemma_digit_run_len(s.skip(1));
        let r = digit_run_len(s);
        assert forall|k: int| 0 <= k < r implies is_digit(s[k]) by {
            if k >= 1 {
                assert(is_digit(s.skip(1)[k - 1]));
            }
        }
        if r < s.len() {
            assert(!is_digit(s.skip(1)[r - 1]));
        }
    }
}

/// Ten to the `n`.
pub open spec fn pow10(n: nat) -> nat
    decreases n,
{
    if n == 0 {
        1
    } else {
        10 * pow10((n - 1) as nat)
    }
}

proof fn lemma_pow10_pos(n: nat)
    ensures
        pow10(n) >= 1,
    decreases n,
{
    if n > 0 {
        lemma_pow10_pos((n - 1) as nat);
    }
}

proof fn lemma_pow10_mono(m: nat, n: nat)
    requires
        m <= n,
    ensures
        pow10(m) <= pow10(n),
    decreases n,
{
    if m < n {
        lemma_pow10_mono(m, (n - 1) as nat);
        lemma_pow10_pos((n - 1) as nat);
    }
}

/// The numeric value of a sequence of ASCII digits, most significant first.
pub open spec fn digits_val(s: Seq<char>) -> nat
    decreases s.len(),
{
    if s.len() == 0 {
        0
    } else {
        digit_val(s[0]) * pow10((s.len() - 1) as nat) + digits_val(s.skip(1))
    }
}

/// Whether every character of `s` is an ASCII digit.
pub open spec fn all_digits(s: Seq<char>) -> bool {
    forall|k: int| 0 <= k < s.len() ==> is_digit(s[k])
}

proof fn lemma_digits_val_bound(s: Seq<char>)
    requires
        all_digits(s),
    ensures
        digits_val(s) < pow10(s.len()),
    decreases s.len(),
{
    if s.len() > 0 {
        assert(all_digits(s.skip(1)));
        lemma_digits_val_bound(s.skip(1));
        let p = pow10((s.len() - 1) as nat);
        let d = digit_val(s[0]);
        assert(is_digit(s[0]));
        assert(d <= 9);
        assert(d * p <= 9 * p) by (nonlinear_arith)
            requires
                d <= 9,
                p >= 0,
        ;
        assert(digits_val(s) <= 9 * p + digits_val(s.skip(1)));
        assert(digits_val(s) < 10 * p);
    }
}

proof fn lemma_digits_val_low(s: Seq<char>)
    requires
        all_digits(s),
        s.len() >= 1,
    ensures
        digits_val(s) >= digit_val(s[0]) * pow10((s.len() - 1) as nat),
{
}

/// Leading zeros do not change the value of a digit sequence.
proof fn lemma_zeros_prefix(s: Seq<char>, z: nat)
    requires
        all_digits(s),
        z <= s.len(),
        forall|k: int| 0 <= k < z ==> s[k] as u32 == 48,
    ensures
        digits_val(s) == digits_val(s.skip(z as int)),
    decreases z,
{
    if z > 0 {
        assert(s[0] as u32 == 48);
        assert(digit_val(s[0]) == 0);
        assert(digits_val(s) == digits_val(s.skip(1)));
        assert(all_digits(s.skip(1)));
        lemma_zeros_prefix(s.skip(1), (z - 1) as nat);
        assert(s.skip(1).skip(z - 1) =~= s.skip(z as int));
    } else {
        assert(s.skip(0) =~= s);
    }
}

/// A digit sequence with no leading zero has a positive value when non-empty.
proof fn lemma_val_pos(s: Seq<char>)
    requires
        all_digits(s),
        s.len() >= 1,
        s[0] as u32 != 48,
    ensures
        digits_val(s) >= 1,
{
    assert(is_digit(s[0]));
    assert(digit_val(s[0]) >= 1);
    let p = pow10((s.len() - 1) as nat);
    lemma_pow10_pos((s.len() - 1) as nat);
    assert(digit_val(s[0]) * p >= 1) by (nonlinear_arith)
        requires
            digit_val(s[0]) >= 1,
            p >= 1,
    ;
}

/// A shorter digit sequence is smaller than a longer one without leading zero.
proof fn lemma_shorter_smaller(s: Seq<char>, t: Seq<char>)
    requires
        all_digits(s),
        all_digits(t),
        s.len() < t.len(),
        t[0] as u32 != 48,
    ensures
        digits_val(s) < digits_val(t),
{
    lemma_digits_val_bound(s);
    lemma_pow10_mono(s.len(), (t.len() - 1) as nat);
    let p = pow10((t.len() - 1) as nat);
    assert(is_digit(t[0]));
    assert(digit_val(t[0]) >= 1);
    assert(digit_val(t[0]) * p >= p) by (nonlinear_arith)
        requires
            digit_val(t[0]) >= 1,
            p >= 0,
    ;
    lemma_digits_val_low(t);
}

/// Equal-length digit sequences compare by their first differing digit.
proof fn lemma_lex_lt(s: Seq<char>, t: Seq<char>, k: int)
    requires
        all_digits(s),
        all_digits(t),
        s.len() == t.len(),
        0 <= k < s.len(),
        forall|j: int| 0 <= j < k ==> s[j] == t[j],
        (s[k] as u32) < (t[k] as u32),
    ensures
        digits_val(s) < digits_val(t),
    decreases k,
{
    let p = pow10((s.len() - 1) as nat);
    if k == 0 {
        assert(is_digit(s[0]) && is_digit(t[0]));
        assert(digit_val(s[0]) < digit_val(t[0]));
        assert(all_digits(s.skip(1)));
        lemma_digits_val_bound(s.skip(1));
        assert(digits_val(s) < digit_val(s[0]) * p + p);
        assert(digit_val(s[0]) * p + p == (digit_val(s[0]) + 1) * p) by (nonlinear_arith);
        assert((digit_val(s[0]) + 1) * p <= digit_val(t[0]) * p) by (nonlinear_arith)
            requires
                digit_val(s[0]) + 1 <= digit_val(t[0]),
                p >= 0,
        ;
        lemma_digits_val_low(t);
    } else {
        assert(s[0] == t[0]);
        assert(all_digits(s.skip(1)) && all_digits(t.skip(1)));
        lemma_lex_lt(s.skip(1), t.skip(1), k - 1);
    }
}

/// Three-way comparison of two natural numbers, as -1, 0 or 1.
pub open spec fn sign_cmp(a: nat, b: nat) -> int {
    if a < b {
        -1
    } else if a > b {
        1
    } else {
        0
    }
}

/// Natural comparison: digit runs by numeric value, other characters by code
/// point, exhaustion by remaining length.
pub open spec fn natural_cmp(a: Seq<char>, b: Seq<char>) -> int
    decreases a.len() + b.len(),
    via natural_cmp_decreases
{
    if a.len() == 0 && b.len() == 0 {
        0
    } else if a.len() == 0 {
        -1
    } else if b.len() == 0 {
        1
    } else if is_digit(a[0]) && is_digit(b[0]) {
        let ra = digit_run_len(a) as int;
        let rb = digit_run_len(b) as int;
        let va = digits_val(a.take(ra));
        let vb = digits_val(b.take(rb));
        if va != vb {
            sign_cmp(va, vb)
        } else {
            natural_cmp(a.skip(ra), b.skip(rb))
        }
    } else if a[0] as u32 != b[0] as u32 {
        if (a[0] as u32) < (b[0] as u32) {
            -1
        } else {
            1
        }
    } else {
        natural_cmp(a.skip(1), b.skip(1))
    }
}

#[via_fn]
proof fn natural_cmp_decreases(a: Seq<char>, b: Seq<char>) {
    lemma_digit_run_len(a);
    lemma_digit_run_len(b);
}

/// The end of the run of ASCII digits that starts at `start`.
pub fn digit_run_end(s: &str, start: usize, s_len: usize) -> (r: usize)
    requires
        s_len == s@.len(),
        start <= s_len,
    ensures
        start <= r <= s_len,
        r - start == digit_run_len(s@.skip(start as int)),
        forall|k: int| start <= k < r ==> is_digit(s@[k]),
{
    let mut i = start;
    while i < s_len
        invariant
            s_len == s@.len(),
            start <= i <= s_len,
            forall|k: int| start <= k < i ==> is_digit(s@[k]),
            digit_run_len(s@.skip(start as int)) == i - start + digit_run_len(s@.skip(i as int)),
        decreases s_len - i,
    {
        let c = s.get_char(i);
        if !('0' <= c && c <= '9') {
            proof {
                assert(s@.skip(i as int)[0] == s@[i as int]);
                assert(digit_run_len(s@.skip(i as int)) == 0);
            }
            return i;
        }
        proof {
            let rest = s@.skip(i as int);
            assert(rest[0] == s@[i as int]);
            assert(is_digit(rest[0]));
            assert(rest.skip(1) =~= s@.skip(i + 1));
        }
        i += 1;
    }
    proof {
        assert(s@.skip(i as int) =~= Seq::<char>::empty());
    }
    i
}

/// Compares two runs of ASCII digits by numeric value.
fn cmp_digit_runs(a: &str, sa: usize, ea: usize, b: &str, sb: usize, eb: usize) -> (r: i8)
    requires
        sa <= ea <= a@.len(),
        sb <= eb <= b@.len(),
        forall|k: int| sa <= k < ea ==> is_digit(a@[k]),
        forall|k: int| sb <= k < eb ==> is_digit(b@[k]),
    ensures
        r as int == sign_cmp(
            digits_val(a@.subrange(sa as int, ea as int)),
            digits_val(b@.subrange(sb as int, eb as int)),
        ),
{
    let ghost av = a@.subrange(sa as int, ea as int);
    let ghost bv = b@.subrange(sb as int, eb as int);
    proof {
        assert(all_digits(av));
        assert(all_digits(bv));
    }
    let mut za = sa;
    while za < ea && a.get_char(za) as u32 == 48
        invariant
            sa <= za <= ea <= a@.len(),
            forall|k: int| sa <= k < za ==> a@[k] as u32 == 48,
        decreases ea - za,
    {
        za += 1;
    }
    let mut zb = sb;
    while zb < eb && b.get_char(zb) as u32 == 48
        invariant
            sb <= zb <= eb <= b@.len(),
            forall|k: int| sb <= k < zb ==> b@[k] as u32 == 48,
        decreases eb - zb,
    {
        zb += 1;
    }
    let ghost avs = a@.subrange(za as int, ea as int);
    let ghost bvs = b@.subrange(zb as int, eb as int);
    proof {
        assert(av.skip(za - sa) =~= avs);
        assert(bv.skip(zb - sb) =~= bvs);
        assert(forall|k: int| 0 <= k < za - sa ==> av[k] as u32 == 48);
        assert(forall|k: int| 0 <= k < zb - sb ==> bv[k] as u32 == 48);
        lemma_zeros_prefix(av, (za - sa) as nat);
        lemma_zeros_prefix(bv, (zb - sb) as nat);
        assert(digits_val(av) == digits_val(avs));
        assert(digits_val(bv) == digits_val(bvs));
        assert(all_digits(avs));
        assert(all_digits(bvs));
    }
    let la = ea - za;
    let lb = eb - zb;
    if la == 0 && lb == 0 {
        return 0;
    }
    if la == 0 {
        proof {
            assert(bvs[0] == b@[zb as int]);
            lemma_val_pos(bvs);
        }
        return -1;
    }
    if lb == 0 {
        proof {
            assert(avs[0] == a@[za as int]);
            lemma_val_pos(avs);
        }
        return 1;
    }
    if la < lb {
        proof {
            assert(bvs[0] == b@[zb as int]);
            lemma_shorter_smaller(avs, bvs);
        }
        return -1;
    }
    if la > lb {
        proof {
            assert(avs[0] == a@[za as int]);
            lemma_shorter_smaller(bvs, avs);
        }
        return 1;
    }
    let mut k: usize = 0;
    while k < la
        invariant
            sa <= za <= ea <= a@.len(),
            sb <= zb <= eb <= b@.len(),
            la == ea - za,
            la == eb - zb,
            k <= la,
            avs == a@.subrange(za as int, ea as int),
            bvs == b@.subrange(zb as int, eb as int),
            all_digits(avs),
            all_digits(bvs),
            digits_val(a@.subrange(sa as int, ea as int)) == digits_val(avs),
            digits_val(b@.subrange(sb as int, eb as int)) == digits_val(bvs),
            forall|j: int| 0 <= j < k ==> avs[j] == bvs[j],
        decreases la - k,
    {
        let ca = a.get_char(za + k);
        let cb = b.get_char(zb + k);
        proof {
            assert(avs[k as int] == a@[za + k]);
            assert(bvs[k as int] == b@[zb + k]);
        }
        if ca != cb {
            if ca < cb {
                proof {
                    lemma_lex_lt(avs, bvs, k as int);
                }
                return -1;
            } else {
                proof {
                    lemma_lex_lt(bvs, avs, k as int);
                }
                return 1;
            }
        }
        k += 1;
    }
    proof {
        assert(avs =~= bvs);
    }
    0
}

/// Compares the suffixes of two strings by natural order.
fn natural_cmp_from(a: &str, ai: usize, b: &str, bi: usize) -> (r: i8)
    requires
        ai <= a@.len(),
        bi <= b@.len(),
    ensures
        r as int == natural_cmp(a@.skip(ai as int), b@.skip(bi as int)),
    decreases a@.len() - ai + b@.len() - bi,
{
    let ghost av = a@.skip(ai as int);
    let ghost bv = b@.skip(bi as int);
    let la = a.unicode_len();
    let lb = b.unicode_len();
    if ai == la && bi == lb {
        return 0;
    }
    if ai == la {
        return -1;
    }
    if bi == lb {
        return 1;
    }
    let ca = a.get_char(ai);
    let cb = b.get_char(bi);
    proof {
        assert(av[0] == a@[ai as int]);
        assert(bv[0] == b@[bi as int]);
    }
    if '0' <= ca && ca <= '9' && '0' <= cb && cb <= '9' {
        let ra = digit_run_end(a, ai, la);
        let rb = digit_run_end(b, bi, lb);
        proof {
            assert(is_digit(av[0]));
            lemma_digit_run_len(av);
            assert(av.take(ra - ai) =~= a@.subrange(ai as int, ra as int));
            assert(bv.take(rb - bi) =~= b@.subrange(bi as int, rb as int));
        }
        let run_cmp = cmp_digit_runs(a, ai, ra, b, bi, rb);
        if run_cmp != 0 {
            return run_cmp;
        }
        proof {
            assert(av.skip(ra - ai) =~= a@.skip(ra as int));
            assert(bv.skip(rb - bi) =~= b@.skip(rb as int));
            assert(ra - ai >= 1);
        }
        return natural_cmp_from(a, ra, b, rb);
    }
    let ca32 = ca as u32;
    let cb32 = cb as u32;
    if ca32 != cb32 {
        if ca32 < cb32 {
            return -1;
        } else {
            return 1;
        }
    }
    proof {
        assert(av.skip(1) =~= a@.skip(ai + 1));
        assert(bv.skip(1) =~= b@.skip(bi + 1));
    }
    natural_cmp_from(a, ai + 1, b, bi + 1)
}

/// Compares two strings by natural order.
pub fn natural_cmp_str(a: &str, b: &str) -> (r: i8)
    ensures
        r as int == natural_cmp(a@, b@),
{
    let r = natural_cmp_from(a, 0, b, 0);
    proof {
        assert(a@.skip(0) =~= a@);
        assert(b@.skip(0) =~= b@);
    }
    r
}


/// Natural comparison yields -1, 0 or 1.
pub proof fn lemma_natural_cmp_range(a: Seq<char>, b: Seq<char>)
    ensures
        -1 <= natural_cmp(a, b) <= 1,
    decreases a.len() + b.len(),
{
    if a.len() == 0 || b.len() == 0 {
    } else if is_digit(a[0]) && is_digit(b[0]) {
        lemma_digit_run_len(a);
        lemma_digit_run_len(b);
        let ra = digit_run_len(a) as int;
        let rb = digit_run_len(b) as int;
        if digits_val(a.take(ra)) == digits_val(b.take(rb)) {
            lemma_natural_cmp_range(a.skip(ra), b.skip(rb));
        }
    } else if a[0] as u32 != b[0] as u32 {
    } else {
        lemma_natural_cmp_range(a.skip(1), b.skip(1));
    }
}

/// Natural comparison is reflexive: a name ties with itself.
pub proof fn lemma_natural_cmp_refl(a: Seq<char>)
    ensures
        natural_cmp(a, a) == 0,
    decreases a.len(),
{
    if a.len() == 0 {
        assert(natural_cmp(a, a) == 0);
    } else if is_digit(a[0]) {
        lemma_digit_run_len(a);
        let ra = digit_run_len(a) as int;
        assert(ra >= 1);
        assert(digits_val(a.take(ra)) == digits_val(a.take(ra)));
        lemma_natural_cmp_refl(a.skip(ra));
        assert(natural_cmp(a, a) == natural_cmp(a.skip(ra), a.skip(ra)));
    } else {
        lemma_natural_cmp_refl(a.skip(1));
        assert(natural_cmp(a, a) == natural_cmp(a.skip(1), a.skip(1)));
    }
}

/// Natural comparison is antisymmetric: swapping the names flips the sign.
/// With `lemma_natural_cmp_range` this makes the order total: of any two
/// names, one sorts at or before the other.
pub proof fn lemma_natural_cmp_antisym(a: Seq<char>, b: Seq<char>)
    ensures
        natural_cmp(b, a) == -natural_cmp(a, b),
    decreases a.len() + b.len(),
{
    if a.len() == 0 && b.len() == 0 {
        assert(natural_cmp(a, b) == 0);
        assert(natural_cmp(b, a) == 0);
    } else if a.len() == 0 {
        assert(natural_cmp(a, b) == -1);
        assert(natural_cmp(b, a) == 1);
    } else if b.len() == 0 {
        assert(natural_cmp(a, b) == 1);
        assert(natural_cmp(b, a) == -1);
    } else if is_digit(a[0]) && is_digit(b[0]) {
        lemma_digit_run_len(a);
        lemma_digit_run_len(b);
        let ra = digit_run_len(a) as int;
        let rb = digit_run_len(b) as int;
        let va = digits_val(a.take(ra));
        let vb = digits_val(b.take(rb));
        if va == vb {
            lemma_natural_cmp_antisym(a.skip(ra), b.skip(rb));
            assert(natural_cmp(a, b) == natural_cmp(a.skip(ra), b.skip(rb)));
            assert(natural_cmp(b, a) == natural_cmp(b.skip(rb), a.skip(ra)));
        } else {
            assert(natural_cmp(a, b) == sign_cmp(va, vb));
            assert(natural_cmp(b, a) == sign_cmp(vb, va));
        }
    } else if a[0] as u32 != b[0] as u32 {
        assert(natural_cmp(a, b) == (if (a[0] as u32) < (b[0] as u32) {
            -1int
        } else {
            1int
        }));
        assert(natural_cmp(b, a) == (if (b[0] as u32) < (a[0] as u32) {
            -1int
        } else {
            1int
        }));
    } else {
        lemma_natural_cmp_antisym(a.skip(1), b.skip(1));
        assert(natural_cmp(a, b) == natural_cmp(a.skip(1), b.skip(1)));
        assert(natural_cmp(b, a) == natural_cmp(b.skip(1), a.skip(1)));
    }
}

/// Natural comparison is transitive over "sorts at or before".
pub proof fn lemma_natural_cmp_trans(a: Seq<char>, b: Seq<char>, c: Seq<char>)
    requires
        natural_cmp(a, b) <= 0,
        natural_cmp(b, c) <= 0,
    ensures
        natural_cmp(a, c) <= 0,
    decreases a.len() + b.len() + c.len(),
{
    lemma_natural_cmp_range(a, b);
    lemma_natural_cmp_range(b, c);
    lemma_natural_cmp_range(a, c);
    if a.len() == 0 {
    } else if b.len() == 0 {
        assert(natural_cmp(a, b) == 1);
    } else if c.len() == 0 {
        assert(natural_cmp(b, c) == 1);
    } else {
        let a0 = a[0];
        let b0 = b[0];
        let c0 = c[0];
        let a032 = a0 as u32;
        let b032 = b0 as u32;
        let c032 = c0 as u32;
        lemma_digit_run_len(a);
        lemma_digit_run_len(b);
        lemma_digit_run_len(c);
        let ra = digit_run_len(a) as int;
        let rb = digit_run_len(b) as int;
        let rc = digit_run_len(c) as int;
        if is_digit(a0) && is_digit(b0) && is_digit(c0) {
            let va = digits_val(a.take(ra));
            let vb = digits_val(b.take(rb));
            let vc = digits_val(c.take(rc));
            if va == vb && vb == vc {
                lemma_natural_cmp_trans(a.skip(ra), b.skip(rb), c.skip(rc));
            } else {
                assert(va <= vb && vb <= vc && va < vc);
            }
        } else if is_digit(a0) && is_digit(b0) {
            assert(!is_digit(c0));
            assert(b032 != c032);
            assert(b032 < c032);
            assert(c032 > 57);
            assert(a032 <= 57);
            assert(natural_cmp(a, c) == -1);
        } else if is_digit(a0) {
            assert(!is_digit(b0));
            assert(a032 != b032);
            assert(a032 < b032);
            assert(b032 > 57);
            if is_digit(c0) {
                assert(b032 != c032);
                assert(b032 < c032);
                assert(c032 <= 57);
                assert(false);
            } else if b032 == c032 {
                assert(a032 < c032);
                assert(natural_cmp(a, c) == -1);
            } else {
                assert(b032 < c032);
                assert(natural_cmp(a, c) == -1);
            }
        } else {
            assert(!is_digit(a0));
            if a032 == b032 {
                if b032 == c032 {
                    assert(natural_cmp(a.skip(1), b.skip(1)) <= 0);
                    assert(natural_cmp(b.skip(1), c.skip(1)) <= 0);
                    lemma_natural_cmp_trans(a.skip(1), b.skip(1), c.skip(1));
                    assert(a032 == c032);
                    assert(!(is_digit(a0) && is_digit(c0)));
                    assert(natural_cmp(a, c) == natural_cmp(a.skip(1), c.skip(1)));
                } else {
                    assert(b032 < c032);
                    assert(a032 != c032 && a032 < c032);
                    assert(natural_cmp(a, c) == -1);
                }
            } else {
                assert(a032 < b032);
                if is_digit(b0) {
                    assert(b032 <= 57);
                    assert(a032 < 48) by {
                        if a032 > 57 {
                            assert(a032 > b032);
                        }
                    }
                    if is_digit(c0) {
                        assert(a032 != c032 && a032 < c032);
                        assert(natural_cmp(a, c) == -1);
                    } else {
                        assert(b032 != c032);
                        assert(b032 < c032);
                        assert(c032 > 57);
                        assert(a032 != c032 && a032 < c032);
                        assert(natural_cmp(a, c) == -1);
                    }
                } else {
                    assert(!is_digit(b0));
                    if is_digit(c0) {
                        assert(b032 != c032);
                        assert(b032 < c032);
                        assert(c032 <= 57);
                        assert(b032 < 48);
                        assert(a032 < 48);
                        assert(a032 != c032 && a032 < c032);
                        assert(natural_cmp(a, c) == -1);
                    } else if b032 == c032 {
                        assert(a032 != c032 && a032 < c032);
                        assert(natural_cmp(a, c) == -1);
                    } else {
                        assert(b032 < c032);
                        assert(a032 != c032 && a032 < c032);
                        assert(natural_cmp(a, c) == -1);
                    }
                }
            }
        }
    }
}

/// Every character of a decimal rendering is a digit.
proof fn lemma_dec_seq_digits(n: nat)
    ensures
        dec_seq(n).len() >= 1,
        all_digits(dec_seq(n)),
    decreases n,
{
    if n < 10 {
        assert(dec_seq(n) =~= seq![digit_char(n)]);
        assert(is_digit(digit_char(n)));
    } else {
        lemma_dec_seq_digits(n / 10);
        let s = dec_seq(n / 10);
        let w = s + seq![digit_char(n % 10)];
        assert(is_digit(digit_char((n % 10) as nat)));
        assert forall|k: int| 0 <= k < w.len() implies is_digit(w[k]) by {
            if k < s.len() {
                assert(w[k] == s[k]);
            } else {
                assert(w[k] == digit_char((n % 10) as nat));
            }
        }
    }
}

/// A sequence of digits is one single digit run.
proof fn lemma_all_digits_run(s: Seq<char>)
    requires
        all_digits(s),
    ensures
        digit_run_len(s) == s.len(),
    decreases s.len(),
{
    if s.len() > 0 {
        assert(is_digit(s[0]));
        assert(all_digits(s.skip(1)));
        lemma_all_digits_run(s.skip(1));
    }
}

/// Appending a digit multiplies the value by ten and adds the digit.
proof fn lemma_digits_val_append(s: Seq<char>, d: char)
    requires
        all_digits(s),
        is_digit(d),
    ensures
        digits_val(s + seq![d]) == 10 * digits_val(s) + digit_val(d),
    decreases s.len(),
{
    let w = s + seq![d];
    if s.len() == 0 {
        assert(w =~= seq![d]);
        assert(w[0] == d);
        assert(w.len() == 1);
        assert(w.skip(1) =~= Seq::<char>::empty());
        assert(digits_val(Seq::<char>::empty()) == 0);
        assert(digits_val(w) == digit_val(d) * pow10(0) + 0);
        assert(pow10(0) == 1);
        assert(digit_val(d) * 1 == digit_val(d));
        assert(digits_val(s) == 0);
    } else {
        assert(all_digits(s.skip(1)));
        lemma_digits_val_append(s.skip(1), d);
        assert(w[0] == s[0]);
        assert(w.skip(1) =~= s.skip(1) + seq![d]);
        let p = pow10((s.len() - 1) as nat);
        assert(digits_val(w) == digit_val(s[0]) * pow10(s.len() as nat) + digits_val(
            s.skip(1) + seq![d],
        ));
        assert(pow10(s.len() as nat) == 10 * p);
        assert(digit_val(s[0]) * (10 * p) == 10 * (digit_val(s[0]) * p)) by (nonlinear_arith);
    }
}

/// The decimal rendering of `n` has value `n`.
proof fn lemma_dec_seq_val(n: nat)
    ensures
        digits_val(dec_seq(n)) == n,
    decreases n,
{
    if n < 10 {
        assert(dec_seq(n) =~= seq![digit_char(n)]);
        assert(seq![digit_char(n)][0] == digit_char(n));
        assert(seq![digit_char(n)].len() == 1);
        assert(seq![digit_char(n)].skip(1) =~= Seq::<char>::empty());
        assert(digits_val(Seq::<char>::empty()) == 0);
        assert(digits_val(seq![digit_char(n)]) == digit_val(digit_char(n)) * pow10(0) + 0);
        assert(pow10(0) == 1);
        assert(digit_val(digit_char(n)) * 1 == digit_val(digit_char(n)));
        assert(digit_val(digit_char(n)) == n);
    } else {
        lemma_dec_seq_val(n / 10);
        lemma_dec_seq_digits(n / 10);
        lemma_digits_val_append(dec_seq(n / 10), digit_char(n % 10));
        assert(digit_val(digit_char((n % 10) as nat)) == n % 10);
        assert(10 * (n / 10) + n % 10 == n) by (nonlinear_arith);
    }
}

/// Natural filename ordering compares numeric runs by value: two names that
/// share a digit-free prefix and end in decimal numbers sort by those
/// numbers, so "file2" sorts before "file10".
pub proof fn lemma_natural_cmp_numeric_suffix(p: Seq<char>, m: nat, n: nat)
    requires
        forall|k: int| 0 <= k < p.len() ==> !is_digit(#[trigger] p[k]),
        m < n,
    ensures
        natural_cmp(p + dec_seq(m), p + dec_seq(n)) == -1,
    decreases p.len(),
{
    let a = p + dec_seq(m);
    let b = p + dec_seq(n);
    lemma_dec_seq_digits(m);
    lemma_dec_seq_digits(n);
    if p.len() == 0 {
        assert(a =~= dec_seq(m));
        assert(b =~= dec_seq(n));
        lemma_all_digits_run(dec_seq(m));
        lemma_all_digits_run(dec_seq(n));
        lemma_dec_seq_val(m);
        lemma_dec_seq_val(n);
        assert(dec_seq(m).take(dec_seq(m).len() as int) =~= dec_seq(m));
        assert(dec_seq(n).take(dec_seq(n).len() as int) =~= dec_seq(n));
        assert(is_digit(dec_seq(m)[0]));
        assert(natural_cmp(a, b) == sign_cmp(m, n));
    } else {
        assert(a[0] == p[0]);
        assert(b[0] == p[0]);
        assert(!is_digit(p[0]));
        assert(a.skip(1) =~= p.skip(1) + dec_seq(m));
        assert(b.skip(1) =~= p.skip(1) + dec_seq(n));
        assert(forall|k: int| 0 <= k < p.skip(1).len() ==> !is_digit(#[trigger] p.skip(1)[k]));
        lemma_natural_cmp_numeric_suffix(p.skip(1), m, n);
    }
}

} // verus!

