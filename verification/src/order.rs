//! Ordering of file records: the optional sort by last-modified date or by
//! natural filename order, and the final stable promotion of primary files.
//!
//! Both sorts are stable insertion sorts, stated as a recursive spec function
//! so that the result of sorting is pinned down exactly.

use vstd::prelude::*;
use vstd::string::*;
use crate::File;
use crate::natural_order::natural_cmp;
use crate::natural_order::natural_cmp_str;
use crate::strings::{lower_seq, remove_pat};
use crate::strings::{to_ascii_lower, remove_pattern};

verus! {

/// Names the timestamp that `chrono` reads out of a `"%Y/%m/%d %H:%M"`
/// string; `None` where the string does not parse in that format.
pub uninterp spec fn date_key_of(s: Seq<char>) -> Option<i64>;

/// Relies on chrono's `NaiveDateTime::parse_from_str` (format
/// `"%Y/%m/%d %H:%M"`) and `DateTime::timestamp`: both results depend on the
/// string alone, so the parsed timestamp is a function of the input.
#[verifier::external_body]
pub fn parse_last_modified(s: &str) -> (r: Option<i64>)
    ensures
        r == date_key_of(s@),
{
    match chrono::NaiveDateTime::parse_from_str(s, "%Y/%m/%d %H:%M") {
        Ok(dt) => Some(dt.and_utc().timestamp()),
        Err(_) => None,
    }
}

/// The name under which a file is compared: ASCII-lowercased, with the
/// ".xlsx" and ".xls" extension markers removed.
pub open spec fn norm_name(name: Seq<char>) -> Seq<char> {
    remove_pat(remove_pat(lower_seq(name), ".xlsx"@), ".xls"@)
}

/// Whether `a` sorts at or before `b`: by parsed date when `by_date`, else by
/// natural filename order.
pub open spec fn file_le(a: File, b: File, by_date: bool) -> bool {
    if by_date {
        date_key_of(a.last_modified@)->0 <= date_key_of(b.last_modified@)->0
    } else {
        natural_cmp(norm_name(a.name@), norm_name(b.name@)) <= 0
    }
}

/// `x` inserted into `s` after every element that sorts at or before it, so
/// that insertion keeps equal elements in their arrival order.
pub open spec fn insert_file(s: Seq<File>, x: File, by_date: bool) -> Seq<File>
    decreases s.len(),
{
    if s.len() == 0 {
        seq![x]
    } else if file_le(s.last(), x, by_date) {
        s.push(x)
    } else {
        insert_file(s.drop_last(), x, by_date).push(s.last())
    }
}

/// Stable insertion sort of `s` under `file_le`.
pub open spec fn sort_spec(s: Seq<File>, by_date: bool) -> Seq<File>
    decreases s.len(),
{
    if s.len() == 0 {
        s
    } else {
        insert_file(sort_spec(s.drop_last(), by_date), s.last(), by_date)
    }
}

/// Whether every file's last-modified field parses as a date.
pub open spec fn all_dates_parse(s: Seq<File>) -> bool {
    forall|i: int| 0 <= i < s.len() ==> date_key_of(#[trigger] s[i].last_modified@) is Some
}

/// Compares two files under the requested sort directive.
fn file_le_exec(a: &File, b: &File, by_date: bool) -> (r: bool)
    requires
        by_date ==> date_key_of(a.last_modified@) is Some,
        by_date ==> date_key_of(b.last_modified@) is Some,
    ensures
        r == file_le(*a, *b, by_date),
{
    if by_date {
        let ka = parse_last_modified(a.last_modified.as_str());
        let kb = parse_last_modified(b.last_modified.as_str());
        match (ka, kb) {
            (Some(x), Some(y)) => x <= y,
            _ => false,
        }
    } else {
        let la = to_ascii_lower(a.name.as_str());
        let lb = to_ascii_lower(b.name.as_str());
        let na = remove_pattern(remove_pattern(la.as_str(), ".xlsx").as_str(), ".xls");
        let nb = remove_pattern(remove_pattern(lb.as_str(), ".xlsx").as_str(), ".xls");
        natural_cmp_str(na.as_str(), nb.as_str()) <= 0
    }
}

/// Inserts `x` into the sorted vector `files`, after equal elements.
fn insert_sorted_file(files: &mut Vec<File>, x: File, by_date: bool)
    requires
        by_date ==> all_dates_parse(old(files)@),
        by_date ==> date_key_of(x.last_modified@) is Some,
    ensures
        final(files)@ == insert_file(old(files)@, x, by_date),
        by_date ==> all_dates_parse(final(files)@),
    decreases old(files)@.len(),
{
    let ghost orig = files@;
    let n = files.len();
    if n == 0 {
        files.push(x);
        return;
    }
    let le = file_le_exec(&files[n - 1], &x, by_date);
    if le {
        files.push(x);
    } else {
        let last = files.pop().unwrap();
        proof {
            assert(files@ =~= orig.drop_last());
        }
        insert_sorted_file(files, x, by_date);
        files.push(last);
    }
    proof {
        if by_date {
            assert forall|i: int| 0 <= i < files@.len() implies date_key_of(
                #[trigger] files@[i].last_modified@,
            ) is Some by {
                let inserted = insert_file(orig, x, by_date);
                assert(files@[i] == inserted[i]);
            }
        }
    }
}

/// Sorts the files by date or by natural filename order; the sort is stable.
pub fn sort_files(files: &mut Vec<File>, by_date: bool)
    requires
        by_date ==> all_dates_parse(old(files)@),
    ensures
        final(files)@ == sort_spec(old(files)@, by_date),
        by_date ==> all_dates_parse(final(files)@),
    decreases old(files)@.len(),
{
    let ghost orig = files@;
    match files.pop() {
        None => {
            proof {
                assert(orig.len() == 0);
            }
        },
        Some(x) => {
            proof {
                assert(files@ =~= orig.drop_last());
                assert(x == orig.last());
                if by_date {
                    assert forall|i: int| 0 <= i < files@.len() implies date_key_of(
                        #[trigger] files@[i].last_modified@,
                    ) is Some by {
                        assert(files@[i] == orig[i]);
                    }
                    assert(date_key_of(orig[orig.len() - 1].last_modified@) is Some);
                }
            }
            sort_files(files, by_date);
            insert_sorted_file(files, x, by_date);
        },
    }
}

/// The primary files of `s`, in order, followed by the rest, in order.
pub open spec fn promote_mains(s: Seq<File>) -> Seq<File> {
    s.filter(|f: File| f.is_main) + s.filter(|f: File| !f.is_main)
}

/// Moves every primary file before the others, keeping the relative order
/// within each group.
pub fn promote_main_files(files: &mut Vec<File>)
    ensures
        final(files)@ == promote_mains(old(files)@),
{
    let ghost orig = files@;
    let mut mains: Vec<File> = Vec::new();
    let mut rest: Vec<File> = Vec::new();
    let ghost mut seen: Seq<File> = Seq::empty();
    while files.len() > 0
        invariant
            seen + files@ =~= orig,
            mains@ == seen.filter(|f: File| f.is_main),
            rest@ == seen.filter(|f: File| !f.is_main),
        decreases files@.len(),
    {
        let x = files.remove(0);
        proof {
            let prev = seen;
            seen = seen.push(x);
            assert(seen.drop_last() =~= prev);
            reveal(Seq::filter);
        }
        if x.is_main {
            mains.push(x);
        } else {
            rest.push(x);
        }
    }
    proof {
        assert(seen =~= orig);
    }
    let mut i: usize = 0;
    let n = rest.len();
    while i < n
        invariant
            n == old(files)@.filter(|f: File| !f.is_main).len(),
            i <= n,
            rest@ == old(files)@.filter(|f: File| !f.is_main).skip(i as int),
            mains@ == old(files)@.filter(|f: File| f.is_main) + old(files)@.filter(
                |f: File| !f.is_main,
            ).take(i as int),
        decreases n - i,
    {
        let ghost all_rest = old(files)@.filter(|f: File| !f.is_main);
        let x = rest.remove(0);
        proof {
            assert(x == all_rest[i as int]);
            assert(rest@ =~= all_rest.skip(i + 1));
            assert(all_rest.take(i + 1) =~= all_rest.take(i as int).push(x));
        }
        mains.push(x);
        i += 1;
    }
    proof {
        let all_rest = old(files)@.filter(|f: File| !f.is_main);
        assert(all_rest.take(n as int) =~= all_rest);
    }
    *files = mains;
}

/// Filtering keeps every element that satisfies the predicate and no other.
proof fn lemma_filter_all_true<A>(s: Seq<A>, pred: spec_fn(A) -> bool)
    requires
        forall|i: int| 0 <= i < s.len() ==> pred(#[trigger] s[i]),
    ensures
        s.filter(pred) == s,
    decreases s.len(),
{
    reveal(Seq::filter);
    if s.len() > 0 {
        lemma_filter_all_true(s.drop_last(), pred);
        assert(s.filter(pred) =~= s);
    }
}

proof fn lemma_filter_all_false<A>(s: Seq<A>, pred: spec_fn(A) -> bool)
    requires
        forall|i: int| 0 <= i < s.len() ==> !pred(#[trigger] s[i]),
    ensures
        s.filter(pred) == Seq::<A>::empty(),
    decreases s.len(),
{
    reveal(Seq::filter);
    if s.len() > 0 {
        lemma_filter_all_false(s.drop_last(), pred);
    }
}

/// Whether `p` holds of every file of `s`.
pub open spec fn all_files(s: Seq<File>, p: spec_fn(File) -> bool) -> bool {
    forall|i: int| 0 <= i < s.len() ==> p(#[trigger] s[i])
}

/// The sum of `m` over the files of `s`.
pub open spec fn seq_sum(s: Seq<File>, m: spec_fn(File) -> nat) -> nat
    decreases s.len(),
{
    if s.len() == 0 {
        0
    } else {
        m(s[0]) + seq_sum(s.skip(1), m)
    }
}

pub proof fn lemma_seq_sum_push(s: Seq<File>, x: File, m: spec_fn(File) -> nat)
    ensures
        seq_sum(s.push(x), m) == seq_sum(s, m) + m(x),
    decreases s.len(),
{
    if s.len() == 0 {
        assert(s.push(x).len() == 1);
        assert(s.push(x).skip(1) =~= Seq::<File>::empty());
        assert(s.push(x)[0] == x);
        assert(seq_sum(s.push(x), m) == m(x) + seq_sum(s.push(x).skip(1), m));
        assert(seq_sum(s.push(x).skip(1), m) == 0);
        assert(seq_sum(s, m) == 0);
    } else {
        assert(s.push(x).skip(1) =~= s.skip(1).push(x));
        assert(s.push(x)[0] == s[0]);
        lemma_seq_sum_push(s.skip(1), x, m);
    }
}

pub proof fn lemma_seq_sum_concat(a: Seq<File>, b: Seq<File>, m: spec_fn(File) -> nat)
    ensures
        seq_sum(a + b, m) == seq_sum(a, m) + seq_sum(b, m),
    decreases b.len(),
{
    if b.len() == 0 {
        assert(a + b =~= a);
    } else {
        assert((a + b).drop_last() =~= a + b.drop_last());
        lemma_seq_sum_concat(a, b.drop_last(), m);
        lemma_seq_sum_push(a + b.drop_last(), b.last(), m);
        lemma_seq_sum_push(b.drop_last(), b.last(), m);
        assert((a + b.drop_last()).push(b.last()) =~= a + b);
        assert(b.drop_last().push(b.last()) =~= b);
    }
}

proof fn lemma_seq_sum_insert(s: Seq<File>, x: File, by_date: bool, m: spec_fn(File) -> nat)
    ensures
        seq_sum(insert_file(s, x, by_date), m) == seq_sum(s, m) + m(x),
    decreases s.len(),
{
    if s.len() == 0 {
        assert(seq![x].len() == 1);
        assert(seq![x].skip(1) =~= Seq::<File>::empty());
        assert(seq![x][0] == x);
        assert(seq_sum(seq![x], m) == m(x) + seq_sum(seq![x].skip(1), m));
        assert(seq_sum(seq![x].skip(1), m) == 0);
    } else if file_le(s.last(), x, by_date) {
        lemma_seq_sum_push(s, x, m);
    } else {
        lemma_seq_sum_insert(s.drop_last(), x, by_date, m);
        lemma_seq_sum_push(insert_file(s.drop_last(), x, by_date), s.last(), m);
        lemma_seq_sum_push(s.drop_last(), s.last(), m);
        assert(s.drop_last().push(s.last()) =~= s);
    }
}

/// Sorting does not change the sum of any per-file measure.
pub proof fn lemma_seq_sum_sort(s: Seq<File>, by_date: bool, m: spec_fn(File) -> nat)
    ensures
        seq_sum(sort_spec(s, by_date), m) == seq_sum(s, m),
    decreases s.len(),
{
    if s.len() > 0 {
        lemma_seq_sum_sort(s.drop_last(), by_date, m);
        lemma_seq_sum_insert(sort_spec(s.drop_last(), by_date), s.last(), by_date, m);
        lemma_seq_sum_push(s.drop_last(), s.last(), m);
        assert(s.drop_last().push(s.last()) =~= s);
    }
}

proof fn lemma_seq_sum_filter_partition(
    s: Seq<File>,
    p: spec_fn(File) -> bool,
    q: spec_fn(File) -> bool,
    m: spec_fn(File) -> nat,
)
    requires
        forall|f: File| #[trigger] q(f) == !p(f),
    ensures
        seq_sum(s.filter(p), m) + seq_sum(s.filter(q), m) == seq_sum(s, m),
    decreases s.len(),
{
    reveal(Seq::filter);
    if s.len() > 0 {
        lemma_seq_sum_filter_partition(s.drop_last(), p, q, m);
        lemma_seq_sum_push(s.drop_last(), s.last(), m);
        assert(s.drop_last().push(s.last()) =~= s);
        if p(s.last()) {
            lemma_seq_sum_push(s.drop_last().filter(p), s.last(), m);
        } else {
            lemma_seq_sum_push(s.drop_last().filter(q), s.last(), m);
        }
    }
}

/// Promoting primary files does not change the sum of any per-file measure.
pub proof fn lemma_seq_sum_promote(s: Seq<File>, m: spec_fn(File) -> nat)
    ensures
        seq_sum(promote_mains(s), m) == seq_sum(s, m),
{
    lemma_seq_sum_concat(s.filter(|f: File| f.is_main), s.filter(|f: File| !f.is_main), m);
    lemma_seq_sum_filter_partition(s, |f: File| f.is_main, |f: File| !f.is_main, m);
}

/// Two measures that agree on the files of `s` have the same sum over `s`.
pub proof fn lemma_seq_sum_congruence(s: Seq<File>, m1: spec_fn(File) -> nat, m2: spec_fn(File) -> nat)
    requires
        forall|i: int| 0 <= i < s.len() ==> m1(#[trigger] s[i]) == m2(s[i]),
    ensures
        seq_sum(s, m1) == seq_sum(s, m2),
    decreases s.len(),
{
    if s.len() > 0 {
        assert forall|i: int| 0 <= i < s.skip(1).len() implies m1(#[trigger] s.skip(1)[i]) == m2(
            s.skip(1)[i],
        ) by {
            assert(s.skip(1)[i] == s[i + 1]);
            assert(m1(s[i + 1]) == m2(s[i + 1]));
        }
        lemma_seq_sum_congruence(s.skip(1), m1, m2);
        assert(m1(s[0]) == m2(s[0]));
    }
}

proof fn lemma_insert_all(s: Seq<File>, x: File, by_date: bool, p: spec_fn(File) -> bool)
    requires
        all_files(s, p),
        p(x),
    ensures
        all_files(insert_file(s, x, by_date), p),
    decreases s.len(),
{
    if s.len() == 0 {
    } else if file_le(s.last(), x, by_date) {
    } else {
        assert(all_files(s.drop_last(), p));
        lemma_insert_all(s.drop_last(), x, by_date, p);
        let t = insert_file(s.drop_last(), x, by_date).push(s.last());
        assert forall|i: int| 0 <= i < t.len() implies p(#[trigger] t[i]) by {
            if i < t.len() - 1 {
                assert(t[i] == insert_file(s.drop_last(), x, by_date)[i]);
            } else {
                assert(t[i] == s.last());
            }
        }
    }
}

/// Sorting keeps any property that holds of every file.
pub proof fn lemma_sort_all(s: Seq<File>, by_date: bool, p: spec_fn(File) -> bool)
    requires
        all_files(s, p),
    ensures
        all_files(sort_spec(s, by_date), p),
    decreases s.len(),
{
    if s.len() > 0 {
        assert(all_files(s.drop_last(), p));
        lemma_sort_all(s.drop_last(), by_date, p);
        lemma_insert_all(sort_spec(s.drop_last(), by_date), s.last(), by_date, p);
    }
}

proof fn lemma_filter_all(s: Seq<File>, q: spec_fn(File) -> bool, p: spec_fn(File) -> bool)
    requires
        all_files(s, p),
    ensures
        all_files(s.filter(q), p),
    decreases s.len(),
{
    reveal(Seq::filter);
    if s.len() > 0 {
        assert(all_files(s.drop_last(), p));
        lemma_filter_all(s.drop_last(), q, p);
        let out = s.filter(q);
        assert forall|i: int| 0 <= i < out.len() implies p(#[trigger] out[i]) by {
            if q(s.last()) && i == out.len() - 1 {
                assert(out[i] == s.last());
                assert(p(s[s.len() - 1]));
            } else {
                assert(out[i] == s.drop_last().filter(q)[i]);
            }
        }
    }
}

/// Promotion keeps any property that holds of every file.
pub proof fn lemma_promote_all(s: Seq<File>, p: spec_fn(File) -> bool)
    requires
        all_files(s, p),
    ensures
        all_files(promote_mains(s), p),
{
    let m = s.filter(|f: File| f.is_main);
    let r = s.filter(|f: File| !f.is_main);
    lemma_filter_all(s, |f: File| f.is_main, p);
    lemma_filter_all(s, |f: File| !f.is_main, p);
    assert forall|i: int| 0 <= i < promote_mains(s).len() implies p(
        #[trigger] promote_mains(s)[i],
    ) by {
        if i < m.len() {
            assert(promote_mains(s)[i] == m[i]);
            assert(p(m[i]));
        } else {
            assert(promote_mains(s)[i] == r[i - m.len()]);
            assert(p(r[i - m.len()]));
        }
    }
}

/// Promotion of primary files is idempotent: promoting an already promoted
/// sequence gives the same sequence again.
pub proof fn lemma_promote_idempotent(s: Seq<File>)
    ensures
        promote_mains(promote_mains(s)) == promote_mains(s),
{
    broadcast use vstd::seq_lib::group_filter_ensures;

    let is_main = |f: File| f.is_main;
    let not_main = |f: File| !f.is_main;
    let m = s.filter(is_main);
    let r = s.filter(not_main);
    Seq::filter_distributes_over_add(m, r, is_main);
    Seq::filter_distributes_over_add(m, r, not_main);
    lemma_filter_all_true(m, is_main);
    lemma_filter_all_false(r, is_main);
    lemma_filter_all_false(m, not_main);
    lemma_filter_all_true(r, not_main);
    assert(promote_mains(m + r) =~= (m + Seq::<File>::empty()) + (Seq::<File>::empty() + r));
    assert(promote_mains(promote_mains(s)) =~= promote_mains(s));
}


/// Files sort totally: of any two, one sorts at or before the other. For a
/// name sort this is the totality of natural filename ordering.
pub proof fn lemma_file_le_total(a: File, b: File, by_date: bool)
    ensures
        file_le(a, b, by_date) || file_le(b, a, by_date),
{
    if !by_date {
        crate::natural_order::lemma_natural_cmp_antisym(norm_name(a.name@), norm_name(b.name@));
        crate::natural_order::lemma_natural_cmp_range(norm_name(a.name@), norm_name(b.name@));
    }
}

/// "Sorts at or before" is transitive; for a name sort this is the
/// transitivity of natural filename ordering.
pub proof fn lemma_file_le_trans(a: File, b: File, c: File, by_date: bool)
    requires
        file_le(a, b, by_date),
        file_le(b, c, by_date),
    ensures
        file_le(a, c, by_date),
{
    if !by_date {
        crate::natural_order::lemma_natural_cmp_trans(
            norm_name(a.name@),
            norm_name(b.name@),
            norm_name(c.name@),
        );
    }
}

/// Whether the files stand in sorted order under `file_le`.
pub open spec fn sorted_le(s: Seq<File>, by_date: bool) -> bool {
    forall|i: int, j: int| 0 <= i < j < s.len() ==> file_le(#[trigger] s[i], #[trigger] s[j], by_date)
}

proof fn lemma_insert_keeps_sorted(s: Seq<File>, x: File, by_date: bool)
    requires
        sorted_le(s, by_date),
    ensures
        sorted_le(insert_file(s, x, by_date), by_date),
    decreases s.len(),
{
    if s.len() == 0 {
        assert(sorted_le(seq![x], by_date));
    } else if file_le(s.last(), x, by_date) {
        let t = s.push(x);
        assert forall|i: int, j: int| 0 <= i < j < t.len() implies file_le(
            #[trigger] t[i],
            #[trigger] t[j],
            by_date,
        ) by {
            if j < t.len() - 1 {
                assert(t[i] == s[i] && t[j] == s[j]);
            } else {
                assert(t[j] == x);
                assert(t[i] == s[i]);
                if i < s.len() - 1 {
                    assert(file_le(s[i], s[s.len() - 1], by_date));
                    lemma_file_le_trans(s[i], s[s.len() - 1], x, by_date);
                }
            }
        }
    } else {
        lemma_file_le_total(s.last(), x, by_date);
        assert(file_le(x, s.last(), by_date));
        assert(forall|i: int, j: int|
            0 <= i < j < s.drop_last().len() ==> file_le(
                #[trigger] s.drop_last()[i],
                #[trigger] s.drop_last()[j],
                by_date,
            ));
        lemma_insert_keeps_sorted(s.drop_last(), x, by_date);
        let ins = insert_file(s.drop_last(), x, by_date);
        let le_last = |f: File| file_le(f, s.last(), by_date);
        assert forall|i: int| 0 <= i < s.drop_last().len() implies le_last(
            #[trigger] s.drop_last()[i],
        ) by {
            assert(s.drop_last()[i] == s[i]);
            assert(file_le(s[i], s[s.len() - 1], by_date));
        }
        lemma_insert_all(s.drop_last(), x, by_date, le_last);
        let t = ins.push(s.last());
        assert forall|i: int, j: int| 0 <= i < j < t.len() implies file_le(
            #[trigger] t[i],
            #[trigger] t[j],
            by_date,
        ) by {
            if j < t.len() - 1 {
                assert(t[i] == ins[i] && t[j] == ins[j]);
            } else {
                assert(t[i] == ins[i]);
                assert(le_last(ins[i]));
            }
        }
    }
}

/// The sort really orders the files: in the sorted sequence every file
/// sorts at or before each later one — chronologically for a date sort, in
/// natural filename order for a name sort.
pub proof fn lemma_sort_spec_sorted(s: Seq<File>, by_date: bool)
    ensures
        sorted_le(sort_spec(s, by_date), by_date),
    decreases s.len(),
{
    if s.len() == 0 {
    } else {
        lemma_sort_spec_sorted(s.drop_last(), by_date);
        lemma_insert_keeps_sorted(sort_spec(s.drop_last(), by_date), s.last(), by_date);
    }
}

} // verus!
