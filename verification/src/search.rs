//! The search engine: every data row of every file is held against a list of
//! match conditions, matched rows are prefixed with provenance columns, a
//! unified header (the "title bar") is chosen by highest score, and every
//! matched row is re-projected onto that unified header.

use vstd::prelude::*;
use vstd::string::*;
use crate::Conditions;
use crate::File;
use crate::error::Error;
use crate::strings::{contains_seq, strip_crlf_seq};
use crate::strings::{dec_seq, str_contains, str_eq_str, strip_newlines, u64_to_dec};

verus! {

/// One search condition: a substring to find, an optional header label that
/// the match must sit under, and further conditions that must hold of the
/// same row.
#[derive(Debug)]
pub struct Search {
    pub data: String,
    pub title: Option<String>,
    pub intersections: Vec<Search>,
}

/// The least cell index whose value contains `d`, or -1 when none does.
pub open spec fn row_first_contain(row: Seq<Seq<char>>, d: Seq<char>) -> int
    decreases row.len(),
{
    if row.len() == 0 {
        -1
    } else if contains_seq(row[0], d) {
        0
    } else {
        let r = row_first_contain(row.skip(1), d);
        if r == -1 {
            -1
        } else {
            r + 1
        }
    }
}

/// The least cell index whose value equals `d`, or -1 when none does.
pub open spec fn row_first_eq(row: Seq<Seq<char>>, d: Seq<char>) -> int
    decreases row.len(),
{
    if row.len() == 0 {
        -1
    } else if row[0] == d {
        0
    } else {
        let r = row_first_eq(row.skip(1), d);
        if r == -1 {
            -1
        } else {
            r + 1
        }
    }
}

/// Whether the header label at `idx` satisfies the condition's title: no
/// title or an empty title accepts any label, a non-empty title must equal
/// the label exactly.
pub open spec fn title_ok(header: Seq<Seq<char>>, idx: int, title: Option<String>) -> bool {
    match title {
        None => true,
        Some(t) => t@.len() == 0 || (0 <= idx < header.len() && header[idx] == t@),
    }
}

/// Whether a sub-condition holds of the row: some cell equals its data
/// literally, and the label over the first such cell passes its title check.
pub open spec fn sub_ok(header: Seq<Seq<char>>, row: Seq<Seq<char>>, sub: Search) -> bool {
    let j = row_first_eq(row, sub.data@);
    j >= 0 && title_ok(header, j, sub.title)
}

/// Whether the condition matches the row: some cell contains the data, the
/// label over the first such cell passes the title check, and every
/// sub-condition holds.
pub open spec fn row_matched(header: Seq<Seq<char>>, row: Seq<Seq<char>>, cond: Search) -> bool {
    let i = row_first_contain(row, cond.data@);
    &&& i >= 0
    &&& title_ok(header, i, cond.title)
    &&& forall|k: int|
        0 <= k < cond.intersections@.len() ==> sub_ok(header, row, #[trigger] cond.intersections@[k])
}

/// How many cells of the row equal `d`.
pub open spec fn eq_count(row: Seq<Seq<char>>, d: Seq<char>) -> nat
    decreases row.len(),
{
    if row.len() == 0 {
        0
    } else {
        (if row[0] == d {
            1nat
        } else {
            0nat
        }) + eq_count(row.skip(1), d)
    }
}

/// How many cells of the row equal `d` under a header label equal to `t`.
pub open spec fn title_eq_count(
    header: Seq<Seq<char>>,
    row: Seq<Seq<char>>,
    d: Seq<char>,
    t: Seq<char>,
    k: int,
) -> nat
    decreases row.len() - k,
{
    if k < 0 || k >= row.len() {
        0
    } else {
        (if row[k] == d && 0 <= k < header.len() && header[k] == t {
            1nat
        } else {
            0nat
        }) + title_eq_count(header, row, d, t, k + 1)
    }
}

/// The points the row earns for the condition: nothing unless the data and
/// title checks pass; then, when the data value occurs more than once in the
/// row, one point for each occurrence under the condition's title (each
/// occurrence, when no title or an empty title is given); otherwise exactly
/// one point.
pub open spec fn row_points(header: Seq<Seq<char>>, row: Seq<Seq<char>>, cond: Search) -> nat {
    let i = row_first_contain(row, cond.data@);
    if i >= 0 && title_ok(header, i, cond.title) {
        if eq_count(row, cond.data@) >= 2 {
            if cond.title is Some && (cond.title->0)@.len() > 0 {
                title_eq_count(header, row, cond.data@, (cond.title->0)@, 0)
            } else {
                eq_count(row, cond.data@)
            }
        } else {
            1
        }
    } else {
        0
    }
}

pub proof fn lemma_row_first_contain_range(row: Seq<Seq<char>>, d: Seq<char>)
    ensures
        row_first_contain(row, d) >= -1,
    decreases row.len(),
{
    if row.len() > 0 {
        lemma_row_first_contain_range(row.skip(1), d);
    }
}

pub proof fn lemma_row_first_eq_range(row: Seq<Seq<char>>, d: Seq<char>)
    ensures
        row_first_eq(row, d) >= -1,
    decreases row.len(),
{
    if row.len() > 0 {
        lemma_row_first_eq_range(row.skip(1), d);
    }
}

/// Finds the least cell index whose value contains `d`.
fn first_contain_idx(row: &Vec<String>, d: &str) -> (r: Option<usize>)
    ensures
        match r {
            Some(i) => row_first_contain(row.deep_view(), d@) == i as int,
            None => row_first_contain(row.deep_view(), d@) == -1,
        },
{
    let ghost rv = row.deep_view();
    let n = row.len();
    let mut i: usize = 0;
    proof {
        assert(rv.skip(0) =~= rv);
    }
    while i < n
        invariant
            n == rv.len(),
            rv == row.deep_view(),
            i <= n,
            row_first_contain(rv, d@) == if row_first_contain(rv.skip(i as int), d@) == -1 {
                -1int
            } else {
                row_first_contain(rv.skip(i as int), d@) + i
            },
        decreases n - i,
    {
        let ghost rest = rv.skip(i as int);
        proof {
            assert(rest[0] == rv[i as int]);
            assert(rv[i as int] == row@[i as int]@);
            assert(rest.skip(1) =~= rv.skip(i + 1));
        }
        if str_contains(row[i].as_str(), d) {
            return Some(i);
        }
        proof {
            lemma_row_first_contain_range(rest.skip(1), d@);
            assert(!contains_seq(rest[0], d@));
            assert(row_first_contain(rest, d@) == (if row_first_contain(rest.skip(1), d@) == -1 {
                -1int
            } else {
                row_first_contain(rest.skip(1), d@) + 1
            }));
        }
        i += 1;
    }
    proof {
        assert(rv.skip(n as int) =~= Seq::<Seq<char>>::empty());
    }
    None
}

/// Finds the least cell index whose value equals `d`.
fn first_eq_idx(row: &Vec<String>, d: &str) -> (r: Option<usize>)
    ensures
        match r {
            Some(i) => row_first_eq(row.deep_view(), d@) == i as int,
            None => row_first_eq(row.deep_view(), d@) == -1,
        },
{
    let ghost rv = row.deep_view();
    let n = row.len();
    let mut i: usize = 0;
    proof {
        assert(rv.skip(0) =~= rv);
    }
    while i < n
        invariant
            n == rv.len(),
            rv == row.deep_view(),
            i <= n,
            row_first_eq(rv, d@) == if row_first_eq(rv.skip(i as int), d@) == -1 {
                -1int
            } else {
                row_first_eq(rv.skip(i as int), d@) + i
            },
        decreases n - i,
    {
        let ghost rest = rv.skip(i as int);
        proof {
            assert(rest[0] == rv[i as int]);
            assert(rv[i as int] == row@[i as int]@);
            assert(rest.skip(1) =~= rv.skip(i + 1));
        }
        if str_eq_str(row[i].as_str(), d) {
            return Some(i);
        }
        proof {
            lemma_row_first_eq_range(rest.skip(1), d@);
            assert(rest[0] != d@);
            assert(row_first_eq(rest, d@) == (if row_first_eq(rest.skip(1), d@) == -1 {
                -1int
            } else {
                row_first_eq(rest.skip(1), d@) + 1
            }));
        }
        i += 1;
    }
    proof {
        assert(rv.skip(n as int) =~= Seq::<Seq<char>>::empty());
    }
    None
}

/// Checks the title of a condition against the header label at `idx`.
fn title_ok_exec(header: &Vec<String>, idx: usize, title: &Option<String>) -> (r: bool)
    ensures
        r == title_ok(header.deep_view(), idx as int, *title),
{
    match title {
        None => true,
        Some(t) => {
            if t.as_str().unicode_len() == 0 {
                true
            } else if idx < header.len() {
                str_eq_str(header[idx].as_str(), t.as_str())
            } else {
                false
            }
        },
    }
}

/// Checks one sub-condition against the row.
fn sub_ok_exec(header: &Vec<String>, row: &Vec<String>, sub: &Search) -> (r: bool)
    ensures
        r == sub_ok(header.deep_view(), row.deep_view(), *sub),
{
    match first_eq_idx(row, sub.data.as_str()) {
        None => false,
        Some(j) => title_ok_exec(header, j, &sub.title),
    }
}

/// Decides whether the condition matches the row.
pub fn row_matched_exec(header: &Vec<String>, row: &Vec<String>, cond: &Search) -> (r: bool)
    ensures
        r == row_matched(header.deep_view(), row.deep_view(), *cond),
{
    let i = match first_contain_idx(row, cond.data.as_str()) {
        None => {
            return false;
        },
        Some(i) => i,
    };
    if !title_ok_exec(header, i, &cond.title) {
        return false;
    }
    let n = cond.intersections.len();
    let mut k: usize = 0;
    while k < n
        invariant
            n == cond.intersections@.len(),
            k <= n,
            forall|t: int|
                0 <= t < k ==> sub_ok(
                    header.deep_view(),
                    row.deep_view(),
                    #[trigger] cond.intersections@[t],
                ),
        decreases n - k,
    {
        if !sub_ok_exec(header, row, &cond.intersections[k]) {
            return false;
        }
        k += 1;
    }
    true
}

/// Counts the cells of the row that equal `d`.
fn eq_count_exec(row: &Vec<String>, d: &str) -> (r: usize)
    ensures
        r == eq_count(row.deep_view(), d@),
{
    let ghost rv = row.deep_view();
    let n = row.len();
    let mut count: usize = 0;
    let mut i: usize = 0;
    proof {
        assert(rv.skip(0) =~= rv);
        lemma_eq_count_le(rv, d@);
    }
    while i < n
        invariant
            n == rv.len(),
            rv == row.deep_view(),
            i <= n,
            count + eq_count(rv.skip(i as int), d@) == eq_count(rv, d@),
            eq_count(rv, d@) <= n,
        decreases n - i,
    {
        let ghost rest = rv.skip(i as int);
        proof {
            assert(rest[0] == rv[i as int]);
            assert(rv[i as int] == row@[i as int]@);
            assert(rest.skip(1) =~= rv.skip(i + 1));
        }
        if str_eq_str(row[i].as_str(), d) {
            count += 1;
        }
        i += 1;
    }
    proof {
        assert(rv.skip(n as int) =~= Seq::<Seq<char>>::empty());
    }
    count
}

/// The number of equal cells is at most the row width.
pub proof fn lemma_eq_count_le(row: Seq<Seq<char>>, d: Seq<char>)
    ensures
        eq_count(row, d) <= row.len(),
    decreases row.len(),
{
    if row.len() > 0 {
        lemma_eq_count_le(row.skip(1), d);
    }
}

proof fn lemma_title_eq_count_le(header: Seq<Seq<char>>, row: Seq<Seq<char>>, d: Seq<char>, t: Seq<char>, k: int)
    ensures
        title_eq_count(header, row, d, t, k) <= row.len(),
        0 <= k <= row.len() ==> title_eq_count(header, row, d, t, k) <= row.len() - k,
    decreases row.len() - k,
{
    if 0 <= k < row.len() {
        lemma_title_eq_count_le(header, row, d, t, k + 1);
    }
}

/// Counts the cells of the row that equal `d` under a label equal to `t`.
fn title_eq_count_exec(header: &Vec<String>, row: &Vec<String>, d: &str, t: &str) -> (r: usize)
    ensures
        r == title_eq_count(header.deep_view(), row.deep_view(), d@, t@, 0),
{
    let ghost hv = header.deep_view();
    let ghost rv = row.deep_view();
    let n = row.len();
    let mut count: usize = 0;
    let mut i: usize = 0;
    proof {
        lemma_title_eq_count_le(hv, rv, d@, t@, 0);
    }
    while i < n
        invariant
            n == rv.len(),
            rv == row.deep_view(),
            hv == header.deep_view(),
            i <= n,
            count + title_eq_count(hv, rv, d@, t@, i as int) == title_eq_count(hv, rv, d@, t@, 0),
            title_eq_count(hv, rv, d@, t@, 0) <= n,
        decreases n - i,
    {
        if str_eq_str(row[i].as_str(), d) && i < header.len() && str_eq_str(
            header[i].as_str(),
            t,
        ) {
            count += 1;
        } else {
        }
        i += 1;
    }
    count
}

/// Scores one row against one condition.
pub fn score_row(header: &Vec<String>, row: &Vec<String>, cond: &Search) -> (r: usize)
    ensures
        r == row_points(header.deep_view(), row.deep_view(), *cond),
{
    let i = match first_contain_idx(row, cond.data.as_str()) {
        None => {
            return 0;
        },
        Some(i) => i,
    };
    if !title_ok_exec(header, i, &cond.title) {
        return 0;
    }
    let dup = eq_count_exec(row, cond.data.as_str());
    if dup >= 2 {
        match &cond.title {
            Some(t) => {
                if t.as_str().unicode_len() > 0 {
                    title_eq_count_exec(header, row, cond.data.as_str(), t.as_str())
                } else {
                    dup
                }
            },
            None => dup,
        }
    } else {
        1
    }
}


/// The header row of a file: its first row.
pub open spec fn file_header(f: File) -> Seq<Seq<char>> {
    f.rows.deep_view()[0]
}

/// The indices of the rows from `j` on that the condition matches.
pub open spec fn matched_rows_from(
    header: Seq<Seq<char>>,
    rows: Seq<Seq<Seq<char>>>,
    cond: Search,
    j: int,
) -> Seq<int>
    decreases rows.len() - j,
{
    if j < 1 || j >= rows.len() {
        Seq::empty()
    } else {
        (if row_matched(header, rows[j], cond) {
            seq![j]
        } else {
            Seq::empty()
        }) + matched_rows_from(header, rows, cond, j + 1)
    }
}

/// The points the rows from `j` on earn for the condition.
pub open spec fn cond_points_from(
    header: Seq<Seq<char>>,
    rows: Seq<Seq<Seq<char>>>,
    cond: Search,
    j: int,
) -> nat
    decreases rows.len() - j,
{
    if j < 1 || j >= rows.len() {
        0
    } else {
        row_points(header, rows[j], cond) + cond_points_from(header, rows, cond, j + 1)
    }
}

/// The matched row indices of one file, condition by condition: a row
/// matched by several conditions appears once for each.
pub open spec fn file_matches(
    header: Seq<Seq<char>>,
    rows: Seq<Seq<Seq<char>>>,
    conds: Seq<Search>,
) -> Seq<int>
    decreases conds.len(),
{
    if conds.len() == 0 {
        Seq::empty()
    } else {
        matched_rows_from(header, rows, conds[0], 1) + file_matches(header, rows, conds.skip(1))
    }
}

/// The accumulated score of one file over all conditions and data rows.
pub open spec fn file_points(
    header: Seq<Seq<char>>,
    rows: Seq<Seq<Seq<char>>>,
    conds: Seq<Search>,
) -> nat
    decreases conds.len(),
{
    if conds.len() == 0 {
        0
    } else {
        cond_points_from(header, rows, conds[0], 1) + file_points(header, rows, conds.skip(1))
    }
}

/// Walks one file: collects the indices of the matched data rows in
/// condition order and the file's accumulated score.
fn scan_file(f: &File, conds: &Vec<Search>) -> (r: (Vec<usize>, usize))
    requires
        f.rows@.len() >= 1,
        file_points(file_header(*f), f.rows.deep_view(), conds@) <= usize::MAX,
    ensures
        r.0@.len() == file_matches(file_header(*f), f.rows.deep_view(), conds@).len(),
        forall|p: int|
            0 <= p < r.0@.len() ==> r.0@[p] as int == file_matches(
                file_header(*f),
                f.rows.deep_view(),
                conds@,
            )[p],
        forall|p: int| 0 <= p < r.0@.len() ==> 1 <= #[trigger] r.0@[p] < f.rows@.len(),
        r.1 == file_points(file_header(*f), f.rows.deep_view(), conds@),
{
    let ghost hv = file_header(*f);
    let ghost rv = f.rows.deep_view();
    let header = &f.rows[0];
    proof {
        assert(header.deep_view() == hv);
    }
    let mut matches: Vec<usize> = Vec::new();
    let ghost mut gm: Seq<int> = Seq::empty();
    let mut points: usize = 0;
    let nconds = conds.len();
    let nrows = f.rows.len();
    let mut k: usize = 0;
    proof {
        assert(conds@.skip(0) =~= conds@);
    }
    while k < nconds
        invariant
            nconds == conds@.len(),
            nrows == f.rows@.len(),
            nrows >= 1,
            hv == file_header(*f),
            rv == f.rows.deep_view(),
            rv.len() == nrows,
            header.deep_view() == hv,
            k <= nconds,
            gm + file_matches(hv, rv, conds@.skip(k as int)) == file_matches(hv, rv, conds@),
            gm.len() == matches@.len(),
            forall|p: int| 0 <= p < gm.len() ==> gm[p] == matches@[p] as int,
            forall|p: int| 0 <= p < matches@.len() ==> 1 <= #[trigger] matches@[p] < nrows,
            points + file_points(hv, rv, conds@.skip(k as int)) == file_points(hv, rv, conds@),
            file_points(hv, rv, conds@) <= usize::MAX,
        decreases nconds - k,
    {
        let ghost crest = conds@.skip(k as int);
        proof {
            assert(crest[0] == conds@[k as int]);
            assert(crest.skip(1) =~= conds@.skip(k + 1));
        }
        let cond = &conds[k];
        let mut j: usize = 1;
        let ghost points_at_start = points;
        let ghost gm_at_start = gm;
        while j < nrows
            invariant
                nconds == conds@.len(),
                nrows == f.rows@.len(),
                nrows >= 1,
                hv == file_header(*f),
                rv == f.rows.deep_view(),
                rv.len() == nrows,
                header.deep_view() == hv,
                k < nconds,
                *cond == conds@[k as int],
                1 <= j <= nrows,
                gm == gm_at_start + matched_rows_from(hv, rv, conds@[k as int], 1).take(
                    gm.len() - gm_at_start.len(),
                ),
                matched_rows_from(hv, rv, conds@[k as int], 1) == gm.subrange(
                    gm_at_start.len() as int,
                    gm.len() as int,
                ) + matched_rows_from(hv, rv, conds@[k as int], j as int),
                gm_at_start + file_matches(hv, rv, conds@.skip(k as int)) == file_matches(
                    hv,
                    rv,
                    conds@,
                ),
                gm.subrange(0, gm_at_start.len() as int) == gm_at_start,
                gm.len() == matches@.len(),
                forall|p: int| 0 <= p < gm.len() ==> gm[p] == matches@[p] as int,
                forall|p: int| 0 <= p < matches@.len() ==> 1 <= #[trigger] matches@[p] < nrows,
                points_at_start as int + cond_points_from(hv, rv, conds@[k as int], 1) == points
                    + cond_points_from(hv, rv, conds@[k as int], j as int),
                points_at_start + file_points(hv, rv, conds@.skip(k as int)) == file_points(
                    hv,
                    rv,
                    conds@,
                ),
                points <= points_at_start + cond_points_from(hv, rv, conds@[k as int], 1),
                file_points(hv, rv, conds@) <= usize::MAX,
            decreases nrows - j,
        {
            let row = &f.rows[j];
            proof {
                assert(row.deep_view() == rv[j as int]);
                assert(cond_points_from(hv, rv, conds@[k as int], j as int) == row_points(
                    hv,
                    rv[j as int],
                    conds@[k as int],
                ) + cond_points_from(hv, rv, conds@[k as int], j + 1));
                assert(conds@.skip(k as int)[0] == conds@[k as int]);
                assert(conds@.skip(k as int).skip(1) =~= conds@.skip(k + 1));
                assert(file_points(hv, rv, conds@.skip(k as int)) == cond_points_from(
                    hv,
                    rv,
                    conds@[k as int],
                    1,
                ) + file_points(hv, rv, conds@.skip(k + 1)));
            }
            let p = score_row(header, row, cond);
            points = points + p;
            if row_matched_exec(header, row, cond) {
                matches.push(j);
                proof {
                    let prev = gm;
                    gm = gm.push(j as int);
                    assert(gm.subrange(0, gm_at_start.len() as int) =~= gm_at_start);
                    assert(gm.subrange(gm_at_start.len() as int, gm.len() as int) =~=
                    prev.subrange(gm_at_start.len() as int, prev.len() as int).push(j as int));
                }
            }
            proof {
                assert(matched_rows_from(hv, rv, conds@[k as int], j as int) == (if row_matched(
                    hv,
                    rv[j as int],
                    conds@[k as int],
                ) {
                    seq![j as int]
                } else {
                    Seq::<int>::empty()
                }) + matched_rows_from(hv, rv, conds@[k as int], j + 1));
                assert(gm.subrange(gm_at_start.len() as int, gm.len() as int)
                    + matched_rows_from(hv, rv, conds@[k as int], j + 1) =~= matched_rows_from(
                    hv,
                    rv,
                    conds@[k as int],
                    1,
                ));
                assert(gm == gm_at_start + gm.subrange(gm_at_start.len() as int, gm.len() as int));
                assert(matched_rows_from(hv, rv, conds@[k as int], 1).take(
                    gm.len() - gm_at_start.len(),
                ) =~= gm.subrange(gm_at_start.len() as int, gm.len() as int));
            }
            j += 1;
        }
        proof {
            assert(matched_rows_from(hv, rv, conds@[k as int], nrows as int) == Seq::<
                int,
            >::empty());
            assert(cond_points_from(hv, rv, conds@[k as int], nrows as int) == 0);
            assert(file_matches(hv, rv, conds@.skip(k as int)) == matched_rows_from(
                hv,
                rv,
                conds@[k as int],
                1,
            ) + file_matches(hv, rv, conds@.skip(k + 1)));
            assert(file_points(hv, rv, conds@.skip(k as int)) == cond_points_from(
                hv,
                rv,
                conds@[k as int],
                1,
            ) + file_points(hv, rv, conds@.skip(k + 1)));
            assert(gm + file_matches(hv, rv, conds@.skip(k + 1)) =~= file_matches(hv, rv, conds@));
        }
        k += 1;
    }
    proof {
        assert(conds@.skip(nconds as int) =~= Seq::<Search>::empty());
        assert(gm =~= file_matches(hv, rv, conds@));
    }
    (matches, points)
}


/// The index of the last file holding the highest score.
pub open spec fn pos_max_last(points: Seq<nat>) -> int
    decreases points.len(),
{
    if points.len() <= 1 {
        0
    } else {
        let r = pos_max_last(points.drop_last());
        if points.last() >= points[r] {
            points.len() - 1
        } else {
            r
        }
    }
}

pub proof fn lemma_pos_max_last_range(points: Seq<nat>)
    requires
        points.len() >= 1,
    ensures
        0 <= pos_max_last(points) < points.len(),
    decreases points.len(),
{
    if points.len() > 1 {
        lemma_pos_max_last_range(points.drop_last());
    }
}

/// A header with its newline and carriage-return characters removed.
pub open spec fn strip_bar(bar: Seq<Seq<char>>) -> Seq<Seq<char>> {
    Seq::new(bar.len(), |k: int| strip_crlf_seq(bar[k]))
}

/// Keeps the first occurrence of every label, in order.
pub open spec fn dedup_first(s: Seq<Seq<char>>) -> Seq<Seq<char>>
    decreases s.len(),
{
    if s.len() == 0 {
        s
    } else {
        let p = dedup_first(s.drop_last());
        if s.drop_last().contains(s.last()) {
            p
        } else {
            p.push(s.last())
        }
    }
}

/// A label occurs in the deduplicated sequence exactly when it occurs at all.
pub proof fn lemma_dedup_first_contains(s: Seq<Seq<char>>, v: Seq<char>)
    ensures
        dedup_first(s).contains(v) <==> s.contains(v),
    decreases s.len(),
{
    if s.len() > 0 {
        lemma_dedup_first_contains(s.drop_last(), v);
        let p = dedup_first(s.drop_last());
        if s.drop_last().contains(s.last()) {
            if s.contains(v) {
                let w = choose|w: int| 0 <= w < s.len() && s[w] == v;
                if w == s.len() - 1 {
                    assert(s.drop_last().contains(v));
                } else {
                    assert(s.drop_last()[w] == v);
                    assert(s.drop_last().contains(v));
                }
            }
            if s.drop_last().contains(v) {
                let w = choose|w: int| 0 <= w < s.drop_last().len() && s.drop_last()[w] == v;
                assert(s[w] == v);
            }
        } else {
            if s.contains(v) {
                let w = choose|w: int| 0 <= w < s.len() && s[w] == v;
                if w == s.len() - 1 {
                    assert(p.push(s.last())[p.len() as int] == v);
                    assert(dedup_first(s).contains(v));
                } else {
                    assert(s.drop_last()[w] == v);
                    assert(p.contains(v));
                    let u = choose|u: int| 0 <= u < p.len() && p[u] == v;
                    assert(p.push(s.last())[u] == v);
                }
            }
            if dedup_first(s).contains(v) {
                let w = choose|w: int| 0 <= w < dedup_first(s).len() && dedup_first(s)[w] == v;
                if w == p.len() {
                    assert(s.last() == v);
                    assert(s[s.len() - 1] == v);
                } else {
                    assert(p[w] == v);
                    let u = choose|u: int| 0 <= u < s.drop_last().len() && s.drop_last()[u] == v;
                    assert(s[u] == v);
                }
            }
        }
    }
}

/// The stripped headers of the files other than `w`, flattened in order;
/// `i` bounds the walk.
pub open spec fn flat_except(bars: Seq<Seq<Seq<char>>>, w: int, i: int) -> Seq<Seq<char>>
    decreases i,
{
    if i <= 0 {
        Seq::empty()
    } else {
        flat_except(bars, w, i - 1) + (if i - 1 == w {
            Seq::empty()
        } else {
            bars[i - 1]
        })
    }
}

/// The points of a list of scored headers.
pub open spec fn bar_points_seq(tbs: Seq<(usize, Vec<String>)>) -> Seq<nat> {
    Seq::new(tbs.len(), |i: int| tbs[i].0 as nat)
}

/// The headers of a list of scored headers, at character level.
pub open spec fn bar_headers_seq(tbs: Seq<(usize, Vec<String>)>) -> Seq<Seq<Seq<char>>> {
    Seq::new(tbs.len(), |i: int| tbs[i].1.deep_view())
}

/// The stripped headers of all files but the winner, flattened.
pub open spec fn others_flat(points: Seq<nat>, bars: Seq<Seq<Seq<char>>>) -> Seq<Seq<char>> {
    let w = pos_max_last(points);
    flat_except(Seq::new(bars.len(), |i: int| strip_bar(bars[i])), w, bars.len() as int)
}

/// The unified header: the winning file's stripped header followed by every
/// label of the other files that it does not already hold, first seen first.
pub open spec fn main_bar_spec(points: Seq<nat>, bars: Seq<Seq<Seq<char>>>) -> Seq<Seq<char>> {
    let w = pos_max_last(points);
    dedup_first(strip_bar(bars[w]) + others_flat(points, bars))
}

/// The labels that the winning header shares with the other files' headers.
pub open spec fn inters_spec(points: Seq<nat>, bars: Seq<Seq<Seq<char>>>) -> Seq<Seq<char>> {
    let w = pos_max_last(points);
    dedup_first(strip_bar(bars[w])).filter(
        (|l: Seq<char>| others_flat(points, bars).contains(l)),
    )
}

/// Whether some cell of `v` equals `s`.
fn vec_contains_str(v: &Vec<String>, s: &str) -> (r: bool)
    ensures
        r == v.deep_view().contains(s@),
{
    let ghost dv = v.deep_view();
    let n = v.len();
    let mut i: usize = 0;
    while i < n
        invariant
            n == dv.len(),
            dv == v.deep_view(),
            i <= n,
            forall|t: int| 0 <= t < i ==> dv[t] != s@,
        decreases n - i,
    {
        proof {
            assert(dv[i as int] == v@[i as int]@);
        }
        if str_eq_str(v[i].as_str(), s) {
            assert(dv.contains(s@));
            return true;
        }
        i += 1;
    }
    proof {
        if dv.contains(s@) {
            let w = choose|w: int| 0 <= w < dv.len() && dv[w] == s@;
            assert(dv[w] != s@);
        }
    }
    false
}

/// Strips newlines and carriage returns from every cell of a header.
fn strip_bar_exec(bar: &Vec<String>) -> (r: Vec<String>)
    ensures
        r.deep_view() == strip_bar(bar.deep_view()),
{
    let ghost bv = bar.deep_view();
    let n = bar.len();
    let mut out: Vec<String> = Vec::new();
    let mut i: usize = 0;
    while i < n
        invariant
            n == bv.len(),
            bv == bar.deep_view(),
            i <= n,
            out.deep_view() == strip_bar(bv).take(i as int),
        decreases n - i,
    {
        proof {
            assert(bv[i as int] == bar@[i as int]@);
        }
        let cell = strip_newlines(bar[i].as_str());
        crate::merge::push_cell(&mut out, cell);
        proof {
            assert(out.deep_view() =~~= strip_bar(bv).take(i + 1));
        }
        i += 1;
    }
    proof {
        assert(strip_bar(bv).take(n as int) =~~= strip_bar(bv));
    }
    out
}

/// Appends to `out` every element of `src` that `out` does not yet hold,
/// extending a first-occurrence deduplication whose input so far is `seen`.
fn dedup_extend(out: &mut Vec<String>, src: &Vec<String>, Ghost(seen): Ghost<Seq<Seq<char>>>)
    requires
        old(out).deep_view() == dedup_first(seen),
    ensures
        final(out).deep_view() == dedup_first(seen + src.deep_view()),
    decreases src@.len(),
{
    let ghost sv = src.deep_view();
    let n = src.len();
    let mut i: usize = 0;
    proof {
        assert(seen + sv.take(0) =~~= seen);
    }
    while i < n
        invariant
            n == sv.len(),
            sv == src.deep_view(),
            i <= n,
            out.deep_view() == dedup_first(seen + sv.take(i as int)),
        decreases n - i,
    {
        proof {
            assert(sv[i as int] == src@[i as int]@);
            lemma_dedup_first_contains(seen + sv.take(i as int), sv[i as int]);
            assert((seen + sv.take(i + 1)).drop_last() =~~= seen + sv.take(i as int));
            assert((seen + sv.take(i + 1)).last() == sv[i as int]);
        }
        let present = vec_contains_str(out, src[i].as_str());
        if !present {
            crate::merge::push_cell(out, src[i].clone());
        }
        i += 1;
    }
    proof {
        assert(seen + sv.take(n as int) =~~= seen + sv);
    }
}

/// Computes the unified header and its shared labels from the scored
/// headers of all files: the winner is the last file with the highest score.
pub fn merge_title_bars(title_bars: &Vec<(usize, Vec<String>)>) -> (r: (Vec<String>, Vec<String>))
    requires
        title_bars@.len() >= 1,
    ensures
        r.0.deep_view() == main_bar_spec(
            bar_points_seq(title_bars@),
            bar_headers_seq(title_bars@),
        ),
        r.1.deep_view() == inters_spec(bar_points_seq(title_bars@), bar_headers_seq(title_bars@)),
{
    let ghost pts = bar_points_seq(title_bars@);
    let ghost bars = bar_headers_seq(title_bars@);
    let ghost sbars = Seq::new(bars.len(), |i: int| strip_bar(bars[i]));
    let n = title_bars.len();
    let mut w: usize = 0;
    let mut i: usize = 1;
    proof {
        assert(pts.take(1).len() == 1);
        assert(pos_max_last(pts.take(1)) == 0);
    }
    while i < n
        invariant
            n == title_bars@.len(),
            pts == bar_points_seq(title_bars@),
            1 <= i <= n,
            w < i,
            w as int == pos_max_last(pts.take(i as int)),
        decreases n - i,
    {
        proof {
            assert(pts.take(i + 1).drop_last() =~= pts.take(i as int));
            assert(pts.take(i + 1).last() == pts[i as int]);
            assert(pts.take(i + 1)[w as int] == pts[w as int]);
            assert(pts[i as int] == title_bars@[i as int].0 as nat);
            assert(pts[w as int] == title_bars@[w as int].0 as nat);
            lemma_pos_max_last_range(pts.take(i as int));
        }
        if title_bars[i].0 >= title_bars[w].0 {
            w = i;
        }
        i += 1;
    }
    proof {
        assert(pts.take(n as int) =~= pts);
        lemma_pos_max_last_range(pts);
    }
    let winner = strip_bar_exec(&title_bars[w].1);
    proof {
        assert(bars[w as int] == title_bars@[w as int].1.deep_view());
        assert(winner.deep_view() == strip_bar(bars[w as int]));
    }
    let mut flat: Vec<String> = Vec::new();
    let mut i: usize = 0;
    proof {
        assert(flat.deep_view() =~~= flat_except(sbars, w as int, 0));
    }
    while i < n
        invariant
            n == title_bars@.len(),
            bars == bar_headers_seq(title_bars@),
            sbars == Seq::new(bars.len(), |t: int| strip_bar(bars[t])),
            w < n,
            i <= n,
            flat.deep_view() == flat_except(sbars, w as int, i as int),
        decreases n - i,
    {
        if i != w {
            let stripped = strip_bar_exec(&title_bars[i].1);
            let ghost pre = flat.deep_view();
            let m = stripped.len();
            let mut t: usize = 0;
            proof {
                assert(pre + stripped.deep_view().take(0) =~~= pre);
            }
            while t < m
                invariant
                    m == stripped@.len(),
                    t <= m,
                    flat.deep_view() == pre + stripped.deep_view().take(t as int),
                    stripped.deep_view().len() == m,
                decreases m - t,
            {
                proof {
                    assert(stripped.deep_view()[t as int] == stripped@[t as int]@);
                }
                crate::merge::push_cell(&mut flat, stripped[t].clone());
                proof {
                    assert(flat.deep_view() =~~= pre + stripped.deep_view().take(t + 1));
                }
                t += 1;
            }
            proof {
                assert(stripped.deep_view().take(m as int) =~~= stripped.deep_view());
                assert(stripped.deep_view() == strip_bar(bars[i as int]));
                assert(sbars[i as int] == strip_bar(bars[i as int]));
                assert(flat.deep_view() =~~= flat_except(sbars, w as int, i + 1));
            }
        } else {
            proof {
                assert(flat_except(sbars, w as int, i + 1) =~~= flat_except(
                    sbars,
                    w as int,
                    i as int,
                ));
            }
        }
        i += 1;
    }
    proof {
        assert(flat.deep_view() == others_flat(pts, bars));
    }
    let mut main_bar: Vec<String> = Vec::new();
    proof {
        assert(main_bar.deep_view() =~~= dedup_first(Seq::<Seq<char>>::empty()));
    }
    dedup_extend(&mut main_bar, &winner, Ghost(Seq::empty()));
    proof {
        assert(Seq::<Seq<char>>::empty() + winner.deep_view() =~~= winner.deep_view());
    }
    dedup_extend(&mut main_bar, &flat, Ghost(winner.deep_view()));
    proof {
        assert(main_bar.deep_view() == main_bar_spec(pts, bars));
    }
    let mut winner_dedup: Vec<String> = Vec::new();
    proof {
        assert(winner_dedup.deep_view() =~~= dedup_first(Seq::<Seq<char>>::empty()));
    }
    dedup_extend(&mut winner_dedup, &winner, Ghost(Seq::empty()));
    proof {
        assert(Seq::<Seq<char>>::empty() + winner.deep_view() =~~= winner.deep_view());
        assert(winner_dedup.deep_view() == dedup_first(strip_bar(bars[w as int])));
    }
    let ghost wd = winner_dedup.deep_view();
    let ghost pred = (|l: Seq<char>| others_flat(pts, bars).contains(l));
    let mut inters: Vec<String> = Vec::new();
    let m = winner_dedup.len();
    let mut t: usize = 0;
    proof {
        reveal(Seq::filter);
        assert(wd.take(0).filter(pred) =~~= Seq::<Seq<char>>::empty());
    }
    while t < m
        invariant
            m == winner_dedup@.len(),
            wd == winner_dedup.deep_view(),
            flat.deep_view() == others_flat(pts, bars),
            pred == (|l: Seq<char>| others_flat(pts, bars).contains(l)),
            t <= m,
            inters.deep_view() == wd.take(t as int).filter(pred),
        decreases m - t,
    {
        proof {
            reveal(Seq::filter);
            assert(wd[t as int] == winner_dedup@[t as int]@);
            assert(wd.take(t + 1).drop_last() =~= wd.take(t as int));
            assert(wd.take(t + 1).last() == wd[t as int]);
        }
        if vec_contains_str(&flat, winner_dedup[t].as_str()) {
            crate::merge::push_cell(&mut inters, winner_dedup[t].clone());
        }
        t += 1;
    }
    proof {
        assert(wd.take(m as int) =~= wd);
        assert(inters.deep_view() == inters_spec(pts, bars));
    }
    (main_bar, inters)
}


/// The five provenance columns of one matched row: last-modified date,
/// matched-file ordinal, running matched-row counter, "file-row" series
/// label, and the file's name.
pub open spec fn search_prov(f: File, mfo: nat, w: nat, i: nat, j: nat) -> Seq<Seq<char>> {
    seq![
        f.last_modified@,
        dec_seq((mfo + 1) as nat),
        dec_seq((w + 1) as nat),
        dec_seq((i + 1) as nat) + "-"@ + dec_seq((j + 1) as nat),
        f.name@,
    ]
}

/// The value of the cell under the label `l`, looked up over the first
/// `n` positions of the header; the last occurrence of the label wins.
pub open spec fn lookup_from(
    h: Seq<Seq<char>>,
    cs: Seq<Seq<char>>,
    l: Seq<char>,
    n: int,
) -> Option<Seq<char>>
    decreases n,
{
    if n <= 0 {
        None
    } else if h[n - 1] == l {
        Some(cs[n - 1])
    } else {
        lookup_from(h, cs, l, n - 1)
    }
}

/// The positions at which both a header label and a row cell exist.
pub open spec fn min_len(h: Seq<Seq<char>>, cs: Seq<Seq<char>>) -> int {
    if h.len() <= cs.len() {
        h.len() as int
    } else {
        cs.len() as int
    }
}

/// A row rebuilt against the unified header: for each of its labels, the
/// row's own value under that label in the file's header, else empty.
pub open spec fn project_row(
    h: Seq<Seq<char>>,
    cells: Seq<Seq<char>>,
    bar: Seq<Seq<char>>,
) -> Seq<Seq<char>> {
    Seq::new(
        bar.len(),
        |t: int|
            match lookup_from(h, cells, bar[t], min_len(h, cells)) {
                Some(v) => v,
                None => Seq::empty(),
            },
    )
}

/// The output rows of one file: one provenance-prefixed, re-projected row
/// for each matched data row, in match order.
pub open spec fn file_emitted(
    f: File,
    conds: Seq<Search>,
    bar: Seq<Seq<char>>,
    i: nat,
    mfo: nat,
    w: nat,
) -> Seq<Seq<Seq<char>>> {
    let ms = file_matches(file_header(f), f.rows.deep_view(), conds);
    Seq::new(
        ms.len(),
        |p: int|
            search_prov(f, mfo, (w + p) as nat, i, ms[p] as nat) + project_row(
                file_header(f),
                f.rows.deep_view()[ms[p]],
                bar,
            ),
    )
}

/// The total number of matched rows over all files.
pub open spec fn total_matches(files: Seq<File>, conds: Seq<Search>) -> nat
    decreases files.len(),
{
    if files.len() == 0 {
        0
    } else {
        file_matches(file_header(files[0]), files[0].rows.deep_view(), conds).len()
            + total_matches(files.skip(1), conds)
    }
}

/// How many files scored at least one point.
pub open spec fn mfo_count(files: Seq<File>, conds: Seq<Search>) -> nat
    decreases files.len(),
{
    if files.len() == 0 {
        0
    } else {
        (if file_points(file_header(files[0]), files[0].rows.deep_view(), conds) > 0 {
            1nat
        } else {
            0nat
        }) + mfo_count(files.skip(1), conds)
    }
}

/// The output rows of all files, walking the counters forward.
pub open spec fn emitted_all(
    files: Seq<File>,
    conds: Seq<Search>,
    bar: Seq<Seq<char>>,
    i0: nat,
    mfo: nat,
    w: nat,
) -> Seq<Seq<Seq<char>>>
    decreases files.len(),
{
    if files.len() == 0 {
        Seq::empty()
    } else {
        let e0 = file_emitted(files[0], conds, bar, i0, mfo, w);
        e0 + emitted_all(
            files.skip(1),
            conds,
            bar,
            (i0 + 1) as nat,
            mfo + (if file_points(file_header(files[0]), files[0].rows.deep_view(), conds) > 0 {
                1nat
            } else {
                0nat
            }),
            (w + e0.len()) as nat,
        )
    }
}

/// The score of each file, in file order.
pub open spec fn files_points(files: Seq<File>, conds: Seq<Search>) -> Seq<nat> {
    Seq::new(
        files.len(),
        |i: int| file_points(file_header(files[i]), files[i].rows.deep_view(), conds),
    )
}

/// The raw header of each file, in file order.
pub open spec fn files_headers(files: Seq<File>) -> Seq<Seq<Seq<char>>> {
    Seq::new(files.len(), |i: int| file_header(files[i]))
}

/// Everything the search engine emits: the unified header row, then every
/// matched row, provenance-prefixed and re-projected.
pub open spec fn search_rows_spec(files: Seq<File>, conds: Seq<Search>) -> Seq<Seq<Seq<char>>> {
    let bar = main_bar_spec(files_points(files, conds), files_headers(files));
    seq![bar] + emitted_all(files, conds, bar, 0, 0, 0)
}

/// The shared labels that the search engine reports beside its rows.
pub open spec fn search_inters_spec(files: Seq<File>, conds: Seq<Search>) -> Seq<Seq<char>> {
    inters_spec(files_points(files, conds), files_headers(files))
}

proof fn lemma_emitted_all_push(
    files: Seq<File>,
    f: File,
    conds: Seq<Search>,
    bar: Seq<Seq<char>>,
    i0: nat,
    mfo: nat,
    w: nat,
)
    ensures
        emitted_all(files.push(f), conds, bar, i0, mfo, w) == emitted_all(
            files,
            conds,
            bar,
            i0,
            mfo,
            w,
        ) + file_emitted(
            f,
            conds,
            bar,
            (i0 + files.len()) as nat,
            mfo + mfo_count(files, conds),
            (w + total_matches(files, conds)) as nat,
        ),
        emitted_all(files, conds, bar, i0, mfo, w).len() == total_matches(files, conds),
    decreases files.len(),
{
    if files.len() == 0 {
        assert(files.push(f)[0] == f);
        assert(files.push(f).skip(1) =~= Seq::<File>::empty());
        let bump: nat = if file_points(file_header(f), f.rows.deep_view(), conds) > 0 {
            1nat
        } else {
            0nat
        };
        let e0 = file_emitted(f, conds, bar, i0, mfo, w);
        assert(emitted_all(
            Seq::<File>::empty(),
            conds,
            bar,
            (i0 + 1) as nat,
            mfo + bump,
            (w + e0.len()) as nat,
        ) =~~= Seq::<Seq<Seq<char>>>::empty());
        assert(total_matches(files, conds) == 0);
        assert(mfo_count(files, conds) == 0);
        assert(emitted_all(files, conds, bar, i0, mfo, w) =~~= Seq::<Seq<Seq<char>>>::empty());
        assert(emitted_all(files.push(f), conds, bar, i0, mfo, w) =~~= file_emitted(
            f,
            conds,
            bar,
            i0,
            mfo,
            w,
        ));
        assert(emitted_all(files, conds, bar, i0, mfo, w) + file_emitted(f, conds, bar, i0, mfo, w)
            =~~= file_emitted(f, conds, bar, i0, mfo, w));
    } else {
        assert(files.push(f)[0] == files[0]);
        assert(files.push(f).skip(1) =~= files.skip(1).push(f));
        let e0 = file_emitted(files[0], conds, bar, i0, mfo, w);
        lemma_emitted_all_push(
            files.skip(1),
            f,
            conds,
            bar,
            (i0 + 1) as nat,
            mfo + (if file_points(file_header(files[0]), files[0].rows.deep_view(), conds) > 0 {
                1nat
            } else {
                0nat
            }),
            (w + e0.len()) as nat,
        );
        assert(emitted_all(files.push(f), conds, bar, i0, mfo, w) =~~= emitted_all(
            files,
            conds,
            bar,
            i0,
            mfo,
            w,
        ) + file_emitted(
            f,
            conds,
            bar,
            (i0 + files.len()) as nat,
            mfo + mfo_count(files, conds),
            (w + total_matches(files, conds)) as nat,
        ));
    }
}

/// Copies the cells of a row.
pub fn clone_cells(v: &Vec<String>) -> (r: Vec<String>)
    ensures
        r.deep_view() == v.deep_view(),
{
    let ghost dv = v.deep_view();
    let n = v.len();
    let mut out: Vec<String> = Vec::new();
    let mut i: usize = 0;
    while i < n
        invariant
            n == dv.len(),
            dv == v.deep_view(),
            i <= n,
            out.deep_view() == dv.take(i as int),
        decreases n - i,
    {
        proof {
            assert(dv[i as int] == v@[i as int]@);
        }
        crate::merge::push_cell(&mut out, v[i].clone());
        proof {
            assert(out.deep_view() =~~= dv.take(i + 1));
        }
        i += 1;
    }
    proof {
        assert(dv.take(n as int) =~~= dv);
    }
    out
}

/// Looks a label up in the file's own header; the last occurrence wins.
fn lookup_exec(h: &Vec<String>, cells: &Vec<String>, l: &str) -> (r: Option<String>)
    ensures
        match r {
            Some(v) => lookup_from(h.deep_view(), cells.deep_view(), l@, min_len(h.deep_view(), cells.deep_view())) == Some(v@),
            None => lookup_from(h.deep_view(), cells.deep_view(), l@, min_len(h.deep_view(), cells.deep_view())) is None,
        },
{
    let ghost hv = h.deep_view();
    let ghost cv = cells.deep_view();
    let n = if h.len() <= cells.len() {
        h.len()
    } else {
        cells.len()
    };
    proof {
        assert(n as int == min_len(hv, cv));
    }
    let mut k = n;
    while k > 0
        invariant
            n as int == min_len(hv, cv),
            hv == h.deep_view(),
            cv == cells.deep_view(),
            k <= n,
            lookup_from(hv, cv, l@, n as int) == lookup_from(hv, cv, l@, k as int),
        decreases k,
    {
        proof {
            assert(hv[k - 1] == h@[k - 1]@);
        }
        if str_eq_str(h[k - 1].as_str(), l) {
            proof {
                assert(cv[k - 1] == cells@[k - 1]@);
            }
            return Some(cells[k - 1].clone());
        }
        k -= 1;
    }
    None
}

/// Rebuilds one row against the unified header.
fn build_projected(h: &Vec<String>, cells: &Vec<String>, bar: &Vec<String>) -> (r: Vec<String>)
    ensures
        r.deep_view() == project_row(h.deep_view(), cells.deep_view(), bar.deep_view()),
{
    let ghost hv = h.deep_view();
    let ghost cv = cells.deep_view();
    let ghost bv = bar.deep_view();
    let ghost target = project_row(hv, cv, bv);
    let n = bar.len();
    let mut out: Vec<String> = Vec::new();
    let mut t: usize = 0;
    while t < n
        invariant
            n == bv.len(),
            hv == h.deep_view(),
            cv == cells.deep_view(),
            bv == bar.deep_view(),
            target == project_row(hv, cv, bv),
            t <= n,
            out.deep_view() == target.take(t as int),
        decreases n - t,
    {
        proof {
            assert(bv[t as int] == bar@[t as int]@);
        }
        match lookup_exec(h, cells, bar[t].as_str()) {
            Some(v) => {
                crate::merge::push_cell(&mut out, v);
            },
            None => {
                crate::merge::push_cell(&mut out, String::new());
            },
        }
        proof {
            assert(out.deep_view() =~~= target.take(t + 1));
        }
        t += 1;
    }
    proof {
        assert(target.take(n as int) =~~= target);
    }
    out
}

/// Emits every matched row of one file: the provenance columns, then the
/// row re-projected onto the unified header. Returns the updated counter.
fn emit_search_rows(
    out: &mut Vec<Vec<String>>,
    f: &File,
    i: usize,
    matches: &Vec<usize>,
    bar: &Vec<String>,
    mfo: u64,
    w: u64,
    Ghost(conds): Ghost<Seq<Search>>,
) -> (new_w: u64)
    requires
        f.rows@.len() >= 1,
        matches@.len() == file_matches(file_header(*f), f.rows.deep_view(), conds).len(),
        forall|p: int|
            0 <= p < matches@.len() ==> matches@[p] as int == file_matches(
                file_header(*f),
                f.rows.deep_view(),
                conds,
            )[p],
        forall|p: int| 0 <= p < matches@.len() ==> 1 <= #[trigger] matches@[p] < f.rows@.len(),
        i < u64::MAX,
        mfo < u64::MAX,
        w + matches@.len() < u64::MAX,
    ensures
        final(out).deep_view() == old(out).deep_view() + file_emitted(
            *f,
            conds,
            bar.deep_view(),
            i as nat,
            mfo as nat,
            w as nat,
        ),
        new_w == w + matches@.len(),
{
    let ghost pre = out.deep_view();
    let ghost rows_of_f = file_emitted(*f, conds, bar.deep_view(), i as nat, mfo as nat, w as nat);
    let ghost ms = file_matches(file_header(*f), f.rows.deep_view(), conds);
    let header = &f.rows[0];
    proof {
        assert(header.deep_view() == file_header(*f));
        assert(pre + rows_of_f.take(0) =~~= pre);
    }
    let n = matches.len();
    let nrows = f.rows.len();
    let mut p: usize = 0;
    while p < n
        invariant
            n == matches@.len(),
            nrows == f.rows@.len(),
            f.rows@.len() >= 1,
            header.deep_view() == file_header(*f),
            ms == file_matches(file_header(*f), f.rows.deep_view(), conds),
            rows_of_f == file_emitted(
                *f,
                conds,
                bar.deep_view(),
                i as nat,
                mfo as nat,
                w as nat,
            ),
            n == ms.len(),
            forall|q: int| 0 <= q < n ==> matches@[q] as int == ms[q],
            forall|q: int| 0 <= q < n ==> 1 <= #[trigger] matches@[q] < f.rows@.len(),
            i < u64::MAX,
            mfo < u64::MAX,
            w + n < u64::MAX,
            p <= n,
            out.deep_view() == pre + rows_of_f.take(p as int),
        decreases n - p,
    {
        let j = matches[p];
        let cells = &f.rows[j];
        let mut row: Vec<String> = Vec::new();
        crate::merge::push_cell(&mut row, f.last_modified.clone());
        crate::merge::push_cell(&mut row, u64_to_dec(mfo + 1));
        crate::merge::push_cell(&mut row, u64_to_dec(w + p as u64 + 1));
        let mut label = u64_to_dec(i as u64 + 1);
        label.append("-");
        let jdec = u64_to_dec(j as u64 + 1);
        label.append(jdec.as_str());
        crate::merge::push_cell(&mut row, label);
        crate::merge::push_cell(&mut row, f.name.clone());
        proof {
            assert(row.deep_view() =~~= search_prov(
                *f,
                mfo as nat,
                (w + p) as nat,
                i as nat,
                j as nat,
            ));
        }
        let projected = build_projected(header, cells, bar);
        let m = projected.len();
        let ghost prow = projected.deep_view();
        let ghost base = row.deep_view();
        let mut t: usize = 0;
        while t < m
            invariant
                m == projected@.len(),
                prow == projected.deep_view(),
                t <= m,
                row.deep_view() == base + prow.take(t as int),
            decreases m - t,
        {
            proof {
                assert(prow[t as int] == projected@[t as int]@);
            }
            crate::merge::push_cell(&mut row, projected[t].clone());
            proof {
                assert(row.deep_view() =~~= base + prow.take(t + 1));
            }
            t += 1;
        }
        proof {
            assert(prow.take(m as int) =~~= prow);
            assert(cells.deep_view() == f.rows.deep_view()[j as int]);
            assert(ms[p as int] == j as int);
            assert(rows_of_f[p as int] == search_prov(
                *f,
                mfo as nat,
                (w + p) as nat,
                i as nat,
                j as nat,
            ) + project_row(file_header(*f), f.rows.deep_view()[j as int], bar.deep_view()));
            assert(row.deep_view() =~~= rows_of_f[p as int]);
        }
        crate::merge::push_row(out, row);
        proof {
            assert(rows_of_f.take(p + 1) =~~= rows_of_f.take(p as int).push(rows_of_f[p as int]));
            assert(out.deep_view() =~~= pre + rows_of_f.take(p + 1));
        }
        p += 1;
    }
    proof {
        assert(rows_of_f.take(n as int) =~~= rows_of_f);
    }
    w + n as u64
}


proof fn lemma_counts_push(files: Seq<File>, f: File, conds: Seq<Search>)
    ensures
        mfo_count(files.push(f), conds) == mfo_count(files, conds) + (if file_points(
            file_header(f),
            f.rows.deep_view(),
            conds,
        ) > 0 {
            1nat
        } else {
            0nat
        }),
        total_matches(files.push(f), conds) == total_matches(files, conds) + file_matches(
            file_header(f),
            f.rows.deep_view(),
            conds,
        ).len(),
    decreases files.len(),
{
    if files.len() == 0 {
        assert(files.push(f)[0] == f);
        assert(files.push(f).skip(1) =~= Seq::<File>::empty());
        assert(files =~= Seq::<File>::empty());
        assert(mfo_count(Seq::<File>::empty(), conds) == 0);
        assert(total_matches(Seq::<File>::empty(), conds) == 0);
        assert(mfo_count(files.push(f), conds) == (if file_points(
            file_header(f),
            f.rows.deep_view(),
            conds,
        ) > 0 {
            1nat
        } else {
            0nat
        }) + mfo_count(Seq::<File>::empty(), conds));
        assert(total_matches(files.push(f), conds) == file_matches(
            file_header(f),
            f.rows.deep_view(),
            conds,
        ).len() + total_matches(Seq::<File>::empty(), conds));
    } else {
        assert(files.push(f)[0] == files[0]);
        assert(files.push(f).skip(1) =~= files.skip(1).push(f));
        lemma_counts_push(files.skip(1), f, conds);
    }
}

/// Copies a grid of rows.
pub fn clone_grid(g: &Vec<Vec<String>>) -> (r: Vec<Vec<String>>)
    ensures
        r.deep_view() == g.deep_view(),
{
    let ghost dv = g.deep_view();
    let n = g.len();
    let mut out: Vec<Vec<String>> = Vec::new();
    let mut i: usize = 0;
    while i < n
        invariant
            n == dv.len(),
            dv == g.deep_view(),
            i <= n,
            out.deep_view() == dv.take(i as int),
        decreases n - i,
    {
        proof {
            assert(dv[i as int] == g@[i as int].deep_view());
        }
        let row = clone_cells(&g[i]);
        crate::merge::push_row(&mut out, row);
        proof {
            assert(out.deep_view() =~~= dv.take(i + 1));
        }
        i += 1;
    }
    proof {
        assert(dv.take(n as int) =~~= dv);
    }
    out
}

/// Runs the search over every file: scores each file, selects the unified
/// header by highest score, and emits every matched row, provenance-prefixed
/// and re-projected onto that header. The result is a function of the file
/// set and the conditions alone, so running the engine twice over the same
/// input yields the identical title bar and matched-row set.
pub fn search_from_files(files: &Vec<File>, conditions: &Conditions) -> (r: (
    Vec<Vec<String>>,
    Vec<String>,
))
    requires
        files@.len() >= 1,
        forall|i: int| 0 <= i < files@.len() ==> #[trigger] files@[i].rows@.len() >= 1,
        forall|i: int|
            0 <= i < files@.len() ==> file_points(
                file_header(#[trigger] files@[i]),
                files@[i].rows.deep_view(),
                conditions.conditions@,
            ) <= usize::MAX,
        total_matches(files@, conditions.conditions@) < u64::MAX,
    ensures
        r.0.deep_view() == search_rows_spec(files@, conditions.conditions@),
        r.1.deep_view() == search_inters_spec(files@, conditions.conditions@),
{
    let ghost fv = files@;
    let ghost conds = conditions.conditions@;
    let n = files.len();
    let mut bars: Vec<(usize, Vec<String>)> = Vec::new();
    let mut all_matches: Vec<Vec<usize>> = Vec::new();
    let mut i: usize = 0;
    while i < n
        invariant
            n == fv.len(),
            fv == files@,
            conds == conditions.conditions@,
            forall|t: int| 0 <= t < fv.len() ==> #[trigger] fv[t].rows@.len() >= 1,
            forall|t: int|
                0 <= t < fv.len() ==> file_points(
                    file_header(#[trigger] fv[t]),
                    fv[t].rows.deep_view(),
                    conds,
                ) <= usize::MAX,
            i <= n,
            bars@.len() == i,
            all_matches@.len() == i,
            forall|t: int|
                0 <= t < i ==> (#[trigger] bars@[t]).0 == file_points(
                    file_header(fv[t]),
                    fv[t].rows.deep_view(),
                    conds,
                ),
            forall|t: int|
                0 <= t < i ==> (#[trigger] bars@[t]).1.deep_view() == file_header(fv[t]),
            forall|t: int|
                0 <= t < i ==> (#[trigger] all_matches@[t])@.len() == file_matches(
                    file_header(fv[t]),
                    fv[t].rows.deep_view(),
                    conds,
                ).len(),
            forall|t: int, p: int|
                0 <= t < i && 0 <= p < all_matches@[t]@.len() ==> #[trigger] all_matches@[t]@[p]
                    as int == file_matches(
                    file_header(fv[t]),
                    fv[t].rows.deep_view(),
                    conds,
                )[p],
            forall|t: int, p: int|
                0 <= t < i && 0 <= p < all_matches@[t]@.len() ==> 1 <= #[trigger] all_matches@[t]@[p]
                    < fv[t].rows@.len(),
        decreases n - i,
    {
        let f = &files[i];
        let scanned = scan_file(f, &conditions.conditions);
        let header_copy = clone_cells(&f.rows[0]);
        proof {
            assert(header_copy.deep_view() == file_header(fv[i as int]));
        }
        let pts = scanned.1;
        bars.push((pts, header_copy));
        all_matches.push(scanned.0);
        i += 1;
    }
    proof {
        assert(bar_points_seq(bars@) =~= files_points(fv, conds));
        assert(bar_headers_seq(bars@) =~= files_headers(fv));
    }
    let titles = merge_title_bars(&bars);
    let main_bar = titles.0;
    let inters = titles.1;
    let ghost bar = main_bar.deep_view();
    proof {
        assert(bar == main_bar_spec(files_points(fv, conds), files_headers(fv)));
        assert(inters.deep_view() == search_inters_spec(fv, conds));
    }
    let mut out: Vec<Vec<String>> = Vec::new();
    let bar_row = clone_cells(&main_bar);
    crate::merge::push_row(&mut out, bar_row);
    proof {
        assert(fv.take(0) =~= Seq::<File>::empty());
        assert(emitted_all(Seq::<File>::empty(), conds, bar, 0, 0, 0) == Seq::<
            Seq<Seq<char>>,
        >::empty());
        assert(total_matches(Seq::<File>::empty(), conds) == 0);
        assert(mfo_count(Seq::<File>::empty(), conds) == 0);
        assert(fv.skip(0) =~= fv);
        assert(out.deep_view() =~~= seq![bar] + emitted_all(fv.take(0), conds, bar, 0, 0, 0));
    }
    let mut mfo: u64 = 0;
    let mut w: u64 = 0;
    let mut i: usize = 0;
    while i < n
        invariant
            n == fv.len(),
            fv == files@,
            conds == conditions.conditions@,
            forall|t: int| 0 <= t < fv.len() ==> #[trigger] fv[t].rows@.len() >= 1,
            bars@.len() == n,
            all_matches@.len() == n,
            forall|t: int|
                0 <= t < n ==> (#[trigger] bars@[t]).0 == file_points(
                    file_header(fv[t]),
                    fv[t].rows.deep_view(),
                    conds,
                ),
            forall|t: int|
                0 <= t < n ==> (#[trigger] all_matches@[t])@.len() == file_matches(
                    file_header(fv[t]),
                    fv[t].rows.deep_view(),
                    conds,
                ).len(),
            forall|t: int, p: int|
                0 <= t < n && 0 <= p < all_matches@[t]@.len() ==> #[trigger] all_matches@[t]@[p]
                    as int == file_matches(
                    file_header(fv[t]),
                    fv[t].rows.deep_view(),
                    conds,
                )[p],
            forall|t: int, p: int|
                0 <= t < n && 0 <= p < all_matches@[t]@.len() ==> 1 <= #[trigger] all_matches@[t]@[p]
                    < fv[t].rows@.len(),
            main_bar.deep_view() == bar,
            i <= n,
            mfo <= i,
            out.deep_view() == seq![bar] + emitted_all(fv.take(i as int), conds, bar, 0, 0, 0),
            mfo as nat == mfo_count(fv.take(i as int), conds),
            w as nat == total_matches(fv.take(i as int), conds),
            w + total_matches(fv.skip(i as int), conds) == total_matches(fv, conds),
            total_matches(fv, conds) < u64::MAX,
        decreases n - i,
    {
        proof {
            assert(fv.skip(i as int)[0] == fv[i as int]);
            assert(fv.skip(i as int).skip(1) =~= fv.skip(i + 1));
            assert(total_matches(fv.skip(i as int), conds) == file_matches(
                file_header(fv[i as int]),
                fv[i as int].rows.deep_view(),
                conds,
            ).len() + total_matches(fv.skip(i + 1), conds));
        }
        let f = &files[i];
        let matches_i = &all_matches[i];
        let new_w = emit_search_rows(&mut out, f, i, matches_i, &main_bar, mfo, w, Ghost(conds));
        let pts_i = bars[i].0;
        proof {
            lemma_emitted_all_push(fv.take(i as int), fv[i as int], conds, bar, 0, 0, 0);
            lemma_counts_push(fv.take(i as int), fv[i as int], conds);
            assert(fv.take(i + 1) =~= fv.take(i as int).push(fv[i as int]));
            assert(out.deep_view() =~~= seq![bar] + emitted_all(
                fv.take(i + 1),
                conds,
                bar,
                0,
                0,
                0,
            ));
        }
        w = new_w;
        if pts_i > 0 {
            mfo = mfo + 1;
        }
        i += 1;
    }
    proof {
        assert(fv.take(n as int) =~= fv);
        assert(out.deep_view() == search_rows_spec(fv, conds));
    }
    (out, inters)
}

/// What the search engine hands back: the output rows with the shared
/// labels, and the conditions that produced them.
#[derive(Debug)]
pub struct SearchFiles {
    pub rows: (Vec<Vec<String>>, Vec<String>),
    pub conditions: Vec<Search>,
}

impl SearchFiles {
    /// The matched rows, as a plain vector of rows of cells.
    pub fn write_to_vec(&self) -> (r: Vec<Vec<String>>)
        ensures
            r.deep_view() == self.rows.0.deep_view(),
    {
        clone_grid(&self.rows.0)
    }
}

impl crate::FilesMap {
    /// Runs the search engine over the set's files. Fails with `NoFilesFound`
    /// when the set holds no files at all.
    pub fn search(&self, conditions: Conditions) -> (r: Result<SearchFiles, Error>)
        requires
            forall|i: int| 0 <= i < self.files@.len() ==> #[trigger] self.files@[i].rows@.len() >= 1,
            forall|i: int|
                0 <= i < self.files@.len() ==> file_points(
                    file_header(#[trigger] self.files@[i]),
                    self.files@[i].rows.deep_view(),
                    conditions.conditions@,
                ) <= usize::MAX,
            total_matches(self.files@, conditions.conditions@) < u64::MAX,
        ensures
            match r {
                Ok(sf) => self.files@.len() > 0 && sf.rows.0.deep_view() == search_rows_spec(
                    self.files@,
                    conditions.conditions@,
                ) && sf.rows.1.deep_view() == search_inters_spec(
                    self.files@,
                    conditions.conditions@,
                ) && sf.conditions == conditions.conditions,
                Err(e) => e == Error::NoFilesFound && self.files@.len() == 0,
            },
    {
        if self.files.len() == 0 {
            return Err(Error::NoFilesFound);
        }
        let rows = search_from_files(&self.files, &conditions);
        Ok(SearchFiles { rows, conditions: conditions.conditions })
    }
}


/// How a cell splits around the first occurrence of a needle: the part
/// before, the matched middle, and the part after, with empty outer parts
/// left out; the whole cell alone when the needle does not occur.
pub open spec fn split_spec(h: Seq<char>, n: Seq<char>) -> Seq<Seq<char>> {
    let f = crate::strings::find_idx(h, n);
    if f == -1 {
        seq![h]
    } else {
        let l = h.take(f);
        let m = h.subrange(f, f + n.len());
        let rr = h.skip(f + n.len());
        if l.len() == 0 && rr.len() == 0 {
            seq![m]
        } else if l.len() == 0 {
            seq![m, rr]
        } else if rr.len() == 0 {
            seq![l, m]
        } else {
            seq![l, m, rr]
        }
    }
}

impl SearchFiles {
    /// Splits `haystack` around the first occurrence of `needle`.
    pub fn split_thing<'a>(haystack: &'a str, needle: &str) -> (r: Vec<&'a str>)
        ensures
            r.deep_view() == split_spec(haystack@, needle@),
    {
        let ghost target = split_spec(haystack@, needle@);
        let hay_len = haystack.unicode_len();
        let needle_len = needle.unicode_len();
        let mut out: Vec<&'a str> = Vec::new();
        match crate::strings::str_find(haystack, needle) {
            None => {
                out.push(haystack);
                proof {
                    assert(out.deep_view() =~~= target);
                }
            },
            Some(f) => {
                proof {
                    crate::strings::lemma_find_idx(haystack@, needle@);
                    assert(crate::strings::contains_at(haystack@, needle@, f as int));
                }
                let l = haystack.substring_char(0, f);
                let m = haystack.substring_char(f, f + needle_len);
                let rr = haystack.substring_char(f + needle_len, hay_len);
                proof {
                    assert(l@ =~= haystack@.take(f as int));
                    assert(rr@ =~= haystack@.skip(f + needle@.len()));
                }
                if l.unicode_len() == 0 && rr.unicode_len() == 0 {
                    out.push(m);
                } else if l.unicode_len() == 0 {
                    out.push(m);
                    out.push(rr);
                } else if rr.unicode_len() == 0 {
                    out.push(l);
                    out.push(m);
                } else {
                    out.push(l);
                    out.push(m);
                    out.push(rr);
                }
                proof {
                    assert(out.deep_view() =~~= target);
                }
            },
        }
        out
    }
}

/// The least condition index whose data occurs in the cell, or -1.
pub open spec fn first_matching_cond(conds: Seq<Search>, cell: Seq<char>) -> int
    decreases conds.len(),
{
    if conds.len() == 0 {
        -1
    } else if contains_seq(cell, conds[0].data@) {
        0
    } else {
        let r = first_matching_cond(conds.skip(1), cell);
        if r == -1 {
            -1
        } else {
            r + 1
        }
    }
}

proof fn lemma_first_matching_cond_range(conds: Seq<Search>, cell: Seq<char>)
    ensures
        first_matching_cond(conds, cell) >= -1,
    decreases conds.len(),
{
    if conds.len() > 0 {
        lemma_first_matching_cond_range(conds.skip(1), cell);
    }
}

/// The segments a matched cell is rendered in: the split of the cell around
/// the first matching condition's data, with empty segments dropped, and
/// each segment flagged when it is the matched text itself. `None` when no
/// condition's data occurs in the cell.
pub fn highlight_segments(cell: &str, conditions: &Vec<Search>) -> (r: Option<Vec<(bool, String)>>)
    ensures
        match r {
            None => first_matching_cond(conditions@, cell@) == -1,
            Some(v) => {
                let k = first_matching_cond(conditions@, cell@);
                let d = conditions@[k].data@;
                let segs = split_spec(cell@, d).filter((|s: Seq<char>| s.len() > 0));
                &&& k >= 0
                &&& v@.len() == segs.len()
                &&& forall|p: int|
                    0 <= p < v@.len() ==> (#[trigger] v@[p]).1@ == segs[p] && v@[p].0 == (segs[p]
                        == d)
            },
        },
{
    let ghost cv = conditions@;
    let n = conditions.len();
    let mut k: usize = 0;
    proof {
        assert(cv.skip(0) =~= cv);
    }
    while k < n
        invariant
            n == cv.len(),
            cv == conditions@,
            k <= n,
            first_matching_cond(cv, cell@) == if first_matching_cond(cv.skip(k as int), cell@)
                == -1 {
                -1int
            } else {
                first_matching_cond(cv.skip(k as int), cell@) + k
            },
        decreases n - k,
    {
        let ghost rest = cv.skip(k as int);
        proof {
            lemma_first_matching_cond_range(rest.skip(1), cell@);
            assert(rest[0] == cv[k as int]);
            assert(rest.skip(1) =~= cv.skip(k + 1));
        }
        if str_contains(cell, conditions[k].data.as_str()) {
            let ghost kk = k as int;
            proof {
                assert(first_matching_cond(cv, cell@) == kk);
            }
            let d = &conditions[k].data;
            let segs = SearchFiles::split_thing(cell, d.as_str());
            let ghost all = segs.deep_view();
            let ghost pred = (|s: Seq<char>| s.len() > 0);
            let m = segs.len();
            let mut out: Vec<(bool, String)> = Vec::new();
            let mut t: usize = 0;
            proof {
                reveal(Seq::filter);
                assert(all.take(0).filter(pred) =~~= Seq::<Seq<char>>::empty());
            }
            while t < m
                invariant
                    m == segs@.len(),
                    all == segs.deep_view(),
                    d@ == cv[kk].data@,
                    pred == (|s: Seq<char>| s.len() > 0),
                    t <= m,
                    out@.len() == all.take(t as int).filter(pred).len(),
                    forall|p: int|
                        0 <= p < out@.len() ==> (#[trigger] out@[p]).1@ == all.take(
                            t as int,
                        ).filter(pred)[p] && out@[p].0 == (all.take(t as int).filter(pred)[p]
                            == d@),
                decreases m - t,
            {
                proof {
                    reveal(Seq::filter);
                    assert(all[t as int] == segs@[t as int]@);
                    assert(all.take(t + 1).drop_last() =~= all.take(t as int));
                    assert(all.take(t + 1).last() == all[t as int]);
                }
                let seg = segs[t];
                if seg.unicode_len() > 0 {
                    let flag = str_eq_str(seg, d.as_str());
                    out.push((flag, seg.to_owned()));
                }
                t += 1;
            }
            proof {
                assert(all.take(m as int) =~= all);
            }
            return Some(out);
        }
        k += 1;
    }
    proof {
        assert(cv.skip(n as int) =~= Seq::<Search>::empty());
    }
    None
}

/// The cells a condition writes into a search template row: its data, its
/// non-empty title if any, then the same for each of its sub-conditions.
pub open spec fn title_part(t: Option<String>) -> Seq<Seq<char>> {
    match t {
        Some(t) => if t@.len() > 0 {
            seq![t@]
        } else {
            Seq::empty()
        },
        None => Seq::empty(),
    }
}

pub open spec fn inter_parts(subs: Seq<Search>) -> Seq<Seq<char>>
    decreases subs.len(),
{
    if subs.len() == 0 {
        Seq::empty()
    } else {
        seq![subs[0].data@] + title_part(subs[0].title) + inter_parts(subs.skip(1))
    }
}

pub open spec fn template_row_of(c: Search) -> Seq<Seq<char>> {
    seq![c.data@] + title_part(c.title) + inter_parts(c.intersections@)
}

/// The template's header: alternating "DATA" and "TITLE" labels, two for
/// each of `n + 7` columns.
pub open spec fn template_header(n: int) -> Seq<Seq<char>> {
    Seq::new(
        (2 * (n + 7)) as nat,
        |i: int|
            if i % 2 == 0 {
                "DATA"@
            } else {
                "TITLE"@
            },
    )
}

/// The length of the longest template row.
pub open spec fn max_template_row(conds: Seq<Search>) -> int
    decreases conds.len(),
{
    if conds.len() == 0 {
        0
    } else {
        let rest = max_template_row(conds.skip(1));
        if template_row_of(conds[0]).len() >= rest {
            template_row_of(conds[0]).len() as int
        } else {
            rest
        }
    }
}

/// Builds the rows of the downloadable search template: a header of
/// alternating "DATA"/"TITLE" labels, then one row per condition.
pub fn search_template_rows(conditions: &Conditions) -> (r: Vec<Vec<String>>)
    requires
        conditions.conditions@.len() >= 1,
        2 * (max_template_row(conditions.conditions@) + 7) <= usize::MAX,
    ensures
        r.deep_view() == seq![template_header(max_template_row(conditions.conditions@))]
            + Seq::new(
            conditions.conditions@.len(),
            |i: int| template_row_of(conditions.conditions@[i]),
        ),
{
    let ghost cv = conditions.conditions@;
    let n = conditions.conditions.len();
    let mut rows: Vec<Vec<String>> = Vec::new();
    let mut longest: usize = 0;
    let mut i: usize = 0;
    while i < n
        invariant
            n == cv.len(),
            cv == conditions.conditions@,
            i <= n,
            rows@.len() == i,
            forall|t: int|
                0 <= t < i ==> (#[trigger] rows@[t]).deep_view() == template_row_of(cv[t]),
            forall|t: int| 0 <= t < i ==> (#[trigger] rows@[t])@.len() <= longest,
            longest as int == max_of_prefix(cv, i as int),
        decreases n - i,
    {
        let ghost crest = cv.skip(i as int);
        let cond = &conditions.conditions[i];
        let mut row: Vec<String> = Vec::new();
        crate::merge::push_cell(&mut row, cond.data.clone());
        match &cond.title {
            Some(t) => {
                if t.as_str().unicode_len() > 0 {
                    crate::merge::push_cell(&mut row, t.clone());
                }
            },
            None => {},
        }
        proof {
            assert(row.deep_view() =~~= seq![cv[i as int].data@] + title_part(cv[i as int].title));
        }
        let m = cond.intersections.len();
        let mut t: usize = 0;
        while t < m
            invariant
                m == cond.intersections@.len(),
                *cond == cv[i as int],
                0 <= i < cv.len(),
                cv == conditions.conditions@,
                t <= m,
                row.deep_view() == seq![cv[i as int].data@] + title_part(cv[i as int].title)
                    + inter_parts_prefix(cond.intersections@, t as int),
            decreases m - t,
        {
            let sub = &cond.intersections[t];
            crate::merge::push_cell(&mut row, sub.data.clone());
            match &sub.title {
                Some(st) => {
                    if st.as_str().unicode_len() > 0 {
                        crate::merge::push_cell(&mut row, st.clone());
                    }
                },
                None => {},
            }
            proof {
                lemma_inter_parts_prefix(cond.intersections@, t as int);
                assert(row.deep_view() =~~= seq![cv[i as int].data@] + title_part(
                    cv[i as int].title,
                ) + inter_parts_prefix(cond.intersections@, t + 1));
            }
            t += 1;
        }
        proof {
            lemma_inter_parts_prefix_full(cond.intersections@);
            assert(row.deep_view() =~~= template_row_of(cv[i as int]));
        }
        let row_len = row.len();
        if row_len > longest {
            longest = row_len;
        }
        let ghost pre_deep = rows.deep_view();
        let ghost prev_rows = rows@;
        let ghost rv = row.deep_view();
        crate::merge::push_row(&mut rows, row);
        proof {
            lemma_max_of_prefix_step(cv, i as int);
            assert(rows.deep_view() == pre_deep.push(rv));
            assert(rows.deep_view().len() == rows@.len());
            assert(pre_deep.len() == prev_rows.len());
            assert(rows@.len() == i + 1);
            assert(rv.len() == row_len);
            assert forall|t2: int| 0 <= t2 < i + 1 implies (#[trigger] rows@[t2]).deep_view()
                == template_row_of(cv[t2]) by {
                assert(rows@[t2].deep_view() == rows.deep_view()[t2]);
                if t2 < i {
                    assert(rows.deep_view()[t2] == pre_deep[t2]);
                    assert(pre_deep[t2] == prev_rows[t2].deep_view());
                } else {
                    assert(rows.deep_view()[t2] == rv);
                }
            }
            assert forall|t2: int| 0 <= t2 < i + 1 implies (#[trigger] rows@[t2])@.len()
                <= longest by {
                assert(rows@[t2]@.len() == rows.deep_view()[t2].len());
                if t2 < i {
                    assert(rows.deep_view()[t2] == prev_rows[t2].deep_view());
                    assert(prev_rows[t2]@.len() <= longest);
                } else {
                    assert(rows.deep_view()[t2] == rv);
                }
            }
        }
        i += 1;
    }
    proof {
        lemma_max_of_prefix_full(cv);
        assert(longest as int == max_template_row(cv));
    }
    let mut header: Vec<String> = Vec::new();
    let bound = longest + 7;
    let mut t: usize = 0;
    proof {
        reveal_strlit("DATA");
        reveal_strlit("TITLE");
    }
    while t < bound
        invariant
            bound == longest + 7,
            2 * bound <= usize::MAX,
            t <= bound,
            header@.len() == 2 * t,
            forall|p: int|
                0 <= p < header@.len() ==> (#[trigger] header.deep_view()[p]) == (if p % 2 == 0 {
                    "DATA"@
                } else {
                    "TITLE"@
                }),
        decreases bound - t,
    {
        let ghost pre_h = header.deep_view();
        crate::merge::push_cell(&mut header, "DATA".to_owned());
        crate::merge::push_cell(&mut header, "TITLE".to_owned());
        proof {
            assert(header.deep_view().len() == pre_h.len() + 2);
            assert(header@.len() == header.deep_view().len());
            assert forall|p: int| 0 <= p < header@.len() implies (
            #[trigger] header.deep_view()[p]) == (if p % 2 == 0 {
                "DATA"@
            } else {
                "TITLE"@
            }) by {
                if p < pre_h.len() {
                    assert(header.deep_view()[p] == pre_h[p]);
                } else if p == pre_h.len() {
                    assert(header.deep_view()[p] == "DATA"@);
                } else {
                    assert(header.deep_view()[p] == "TITLE"@);
                }
            }
        }
        t += 1;
    }
    proof {
        assert(header.deep_view() =~~= template_header(longest as int));
    }
    let mut out: Vec<Vec<String>> = Vec::new();
    crate::merge::push_row(&mut out, header);
    let mut i: usize = 0;
    let nrows = rows.len();
    proof {
        assert(rows.deep_view().take(0) =~~= Seq::<Seq<Seq<char>>>::empty());
    }
    while i < nrows
        invariant
            nrows == rows@.len(),
            nrows == cv.len(),
            cv == conditions.conditions@,
            longest as int == max_template_row(cv),
            forall|t2: int|
                0 <= t2 < nrows ==> (#[trigger] rows@[t2]).deep_view() == template_row_of(cv[t2]),
            i <= nrows,
            out.deep_view() == seq![template_header(max_template_row(cv))] + rows.deep_view().take(
                i as int,
            ),
        decreases nrows - i,
    {
        proof {
            assert(rows.deep_view()[i as int] == rows@[i as int].deep_view());
        }
        let row = clone_grid_row(&rows, i);
        crate::merge::push_row(&mut out, row);
        proof {
            assert(out.deep_view() =~~= seq![template_header(max_template_row(cv))]
                + rows.deep_view().take(i + 1));
        }
        i += 1;
    }
    proof {
        assert(rows.deep_view().take(nrows as int) =~~= rows.deep_view());
        assert(seq![template_header(max_template_row(cv))] + rows.deep_view() =~~= seq![
            template_header(max_template_row(cv)),
        ] + Seq::new(cv.len(), |t2: int| template_row_of(cv[t2])));
    }
    out
}

/// Clones row `i` of a grid.
fn clone_grid_row(g: &Vec<Vec<String>>, i: usize) -> (r: Vec<String>)
    requires
        i < g@.len(),
    ensures
        r.deep_view() == g.deep_view()[i as int],
{
    proof {
        assert(g.deep_view()[i as int] == g@[i as int].deep_view());
    }
    clone_cells(&g[i])
}

/// The template cells of the first `t` sub-conditions.
pub open spec fn inter_parts_prefix(subs: Seq<Search>, t: int) -> Seq<Seq<char>>
    decreases t,
{
    if t <= 0 {
        Seq::empty()
    } else {
        inter_parts_prefix(subs, t - 1) + seq![subs[t - 1].data@] + title_part(subs[t - 1].title)
    }
}

proof fn lemma_inter_parts_prefix(subs: Seq<Search>, t: int)
    requires
        0 <= t,
    ensures
        inter_parts_prefix(subs, t + 1) == inter_parts_prefix(subs, t) + seq![subs[t].data@]
            + title_part(subs[t].title),
{
}

proof fn lemma_inter_parts_suffix(subs: Seq<Search>, t: int)
    requires
        0 <= t <= subs.len(),
    ensures
        inter_parts_prefix(subs, subs.len() as int) == inter_parts_prefix(subs, t) + inter_parts(
            subs.skip(t),
        ),
    decreases subs.len() - t,
{
    if t == subs.len() {
        assert(subs.skip(t) =~= Seq::<Search>::empty());
        assert(inter_parts(Seq::<Search>::empty()) == Seq::<Seq<char>>::empty());
        assert(inter_parts_prefix(subs, t) + Seq::<Seq<char>>::empty() =~~= inter_parts_prefix(
            subs,
            t,
        ));
    } else {
        lemma_inter_parts_suffix(subs, t + 1);
        assert(subs.skip(t)[0] == subs[t]);
        assert(subs.skip(t).skip(1) =~= subs.skip(t + 1));
        lemma_inter_parts_prefix(subs, t);
        assert(inter_parts_prefix(subs, t) + inter_parts(subs.skip(t)) =~~= inter_parts_prefix(
            subs,
            subs.len() as int,
        ));
    }
}

proof fn lemma_inter_parts_prefix_full(subs: Seq<Search>)
    ensures
        inter_parts_prefix(subs, subs.len() as int) == inter_parts(subs),
{
    lemma_inter_parts_suffix(subs, 0);
    assert(subs.skip(0) =~= subs);
    assert(inter_parts_prefix(subs, 0) + inter_parts(subs) =~~= inter_parts(subs));
}

/// The longest template row among the first `i` conditions.
pub open spec fn max_of_prefix(conds: Seq<Search>, i: int) -> int
    decreases i,
{
    if i <= 0 {
        0
    } else {
        let rest = max_of_prefix(conds, i - 1);
        if template_row_of(conds[i - 1]).len() > rest {
            template_row_of(conds[i - 1]).len() as int
        } else {
            rest
        }
    }
}

proof fn lemma_max_of_prefix_step(conds: Seq<Search>, i: int)
    requires
        0 <= i,
    ensures
        max_of_prefix(conds, i + 1) == if template_row_of(conds[i]).len() > max_of_prefix(
            conds,
            i,
        ) {
            template_row_of(conds[i]).len() as int
        } else {
            max_of_prefix(conds, i)
        },
{
}

proof fn lemma_max_suffix(conds: Seq<Search>, t: int)
    requires
        0 <= t <= conds.len(),
    ensures
        max_of_prefix(conds, conds.len() as int) == (if max_of_prefix(conds, t)
            >= max_template_row(conds.skip(t)) {
            max_of_prefix(conds, t)
        } else {
            max_template_row(conds.skip(t))
        }),
    decreases conds.len() - t,
{
    if t == conds.len() {
        assert(conds.skip(t) =~= Seq::<Search>::empty());
    } else {
        lemma_max_suffix(conds, t + 1);
        assert(conds.skip(t)[0] == conds[t]);
        assert(conds.skip(t).skip(1) =~= conds.skip(t + 1));
        lemma_max_of_prefix_step(conds, t);
    }
}

proof fn lemma_max_of_prefix_full(conds: Seq<Search>)
    requires
        conds.len() >= 1,
    ensures
        max_of_prefix(conds, conds.len() as int) == max_template_row(conds),
{
    lemma_max_suffix(conds, 0);
    assert(conds.skip(0) =~= conds);
}


proof fn lemma_strip_crlf_id(s: Seq<char>)
    requires
        forall|k: int| 0 <= k < s.len() ==> s[k] != '\n' && s[k] != '\r',
    ensures
        strip_crlf_seq(s) == s,
    decreases s.len(),
{
    if s.len() > 0 {
        assert(forall|k: int|
            0 <= k < s.skip(1).len() ==> s.skip(1)[k] == s[k + 1] && s.skip(1)[k] != '\n' && s.skip(
                1,
            )[k] != '\r');
        lemma_strip_crlf_id(s.skip(1));
        assert(strip_crlf_seq(s) =~= seq![s[0]] + s.skip(1));
        assert(seq![s[0]] + s.skip(1) =~= s);
    }
}

proof fn lemma_dedup_first_id(s: Seq<Seq<char>>)
    requires
        forall|i: int, j: int| 0 <= i < j < s.len() ==> s[i] != s[j],
    ensures
        dedup_first(s) == s,
    decreases s.len(),
{
    if s.len() > 0 {
        assert(forall|i: int, j: int|
            0 <= i < j < s.drop_last().len() ==> s.drop_last()[i] != s.drop_last()[j]);
        lemma_dedup_first_id(s.drop_last());
        if s.drop_last().contains(s.last()) {
            let w = choose|w: int| 0 <= w < s.drop_last().len() && s.drop_last()[w] == s.last();
            assert(s[w] == s[s.len() - 1]);
            assert(false);
        }
        assert(dedup_first(s) =~= s.drop_last().push(s.last()));
        assert(s.drop_last().push(s.last()) =~= s);
    }
}

proof fn lemma_contains_empty(s: Seq<char>)
    ensures
        contains_seq(s, Seq::empty()),
{
    assert(s.subrange(0, 0) =~= Seq::<char>::empty());
    assert(crate::strings::contains_at(s, Seq::empty(), 0));
}

proof fn lemma_matched_all(
    header: Seq<Seq<char>>,
    rows: Seq<Seq<Seq<char>>>,
    cond: Search,
    j: int,
)
    requires
        cond.data@.len() == 0,
        cond.title is None,
        cond.intersections@.len() == 0,
        1 <= j <= rows.len(),
        forall|t: int| 1 <= t < rows.len() ==> (#[trigger] rows[t]).len() >= 1,
    ensures
        matched_rows_from(header, rows, cond, j) =~= Seq::new(
            (rows.len() - j) as nat,
            |p: int| j + p,
        ),
    decreases rows.len() - j,
{
    if j >= rows.len() {
    } else {
        lemma_contains_empty(rows[j][0]);
        assert(cond.data@ =~= Seq::<char>::empty());
        assert(rows[j].len() >= 1);
        assert(contains_seq(rows[j][0], cond.data@));
        assert(row_first_contain(rows[j], cond.data@) == 0);
        assert(row_matched(header, rows[j], cond));
        lemma_matched_all(header, rows, cond, j + 1);
        assert(matched_rows_from(header, rows, cond, j) =~= seq![j] + matched_rows_from(
            header,
            rows,
            cond,
            j + 1,
        ));
    }
}

proof fn lemma_lookup_distinct(h: Seq<Seq<char>>, cs: Seq<Seq<char>>, t: int, n: int)
    requires
        forall|i: int, j: int| 0 <= i < j < h.len() ==> h[i] != h[j],
        0 <= t < h.len(),
        t < n <= h.len(),
        n <= cs.len(),
    ensures
        lookup_from(h, cs, h[t], n) == Some(cs[t]),
    decreases n,
{
    if n - 1 == t {
    } else {
        assert(h[n - 1] != h[t]);
        lemma_lookup_distinct(h, cs, t, n - 1);
    }
}

proof fn lemma_project_identity(h: Seq<Seq<char>>, cells: Seq<Seq<char>>)
    requires
        forall|i: int, j: int| 0 <= i < j < h.len() ==> h[i] != h[j],
        cells.len() == h.len(),
    ensures
        project_row(h, cells, h) == cells,
{
    assert forall|t: int| 0 <= t < h.len() implies project_row(h, cells, h)[t] == cells[t] by {
        lemma_lookup_distinct(h, cells, t, h.len() as int);
        assert(min_len(h, cells) == h.len());
    }
    assert(project_row(h, cells, h) =~= cells);
}

/// Round trip: feeding a consolidated output — a header row followed by data
/// rows as wide as the header, with distinct, newline-free labels — back
/// through the search engine as a single file, under a condition that
/// matches every row (an empty data string, no title, no sub-conditions),
/// reproduces the set: the unified header is the re-fed header itself, and
/// every data row reappears, in order, behind its five provenance columns.
pub proof fn lemma_merge_search_round_trip(files: Seq<File>, conds: Seq<Search>)
    requires
        files.len() == 1,
        conds.len() == 1,
        conds[0].data@.len() == 0,
        conds[0].title is None,
        conds[0].intersections@.len() == 0,
        files[0].rows@.len() >= 1,
        files[0].rows.deep_view()[0].len() >= 1,
        forall|i: int, j: int|
            0 <= i < j < files[0].rows.deep_view()[0].len() ==> files[0].rows.deep_view()[0][i]
                != files[0].rows.deep_view()[0][j],
        forall|i: int, k: int|
            0 <= i < files[0].rows.deep_view()[0].len() && 0 <= k
                < files[0].rows.deep_view()[0][i].len() ==> files[0].rows.deep_view()[0][i][k]
                != '\n' && files[0].rows.deep_view()[0][i][k] != '\r',
        forall|j: int|
            1 <= j < files[0].rows@.len() ==> (#[trigger] files[0].rows.deep_view()[j]).len()
                == files[0].rows.deep_view()[0].len(),
    ensures
        search_rows_spec(files, conds).len() == files[0].rows@.len(),
        search_rows_spec(files, conds)[0] == files[0].rows.deep_view()[0],
        forall|j: int|
            1 <= j < files[0].rows@.len() ==> #[trigger] search_rows_spec(files, conds)[j].skip(5)
                == files[0].rows.deep_view()[j],
{
    let f = files[0];
    let rows = f.rows.deep_view();
    let h = rows[0];
    let pts = files_points(files, conds);
    let hdrs = files_headers(files);
    assert(pts.len() == 1);
    assert(hdrs.len() == 1);
    assert(hdrs[0] == h);
    assert(pos_max_last(pts) == 0);
    assert forall|i: int| 0 <= i < h.len() implies #[trigger] strip_crlf_seq(h[i]) == h[i] by {
        lemma_strip_crlf_id(h[i]);
    }
    assert(strip_bar(h) =~= h);
    let sbars = Seq::new(hdrs.len(), |i: int| strip_bar(hdrs[i]));
    assert(others_flat(pts, hdrs) =~= flat_except(sbars, 0, 1));
    assert(flat_except(sbars, 0, 1) =~= flat_except(sbars, 0, 0) + Seq::<Seq<char>>::empty());
    assert(others_flat(pts, hdrs) =~= Seq::<Seq<char>>::empty());
    assert(strip_bar(hdrs[0]) + others_flat(pts, hdrs) =~= h);
    lemma_dedup_first_id(h);
    let bar = main_bar_spec(pts, hdrs);
    assert(bar == dedup_first(strip_bar(hdrs[0]) + others_flat(pts, hdrs)));
    assert(bar == h);
    let cond = conds[0];
    assert(forall|t: int| 1 <= t < rows.len() ==> (#[trigger] rows[t]).len() >= 1);
    lemma_matched_all(h, rows, cond, 1);
    let ms = file_matches(h, rows, conds);
    assert(conds.skip(1) =~= Seq::<Search>::empty());
    assert(file_matches(h, rows, Seq::<Search>::empty()) =~= Seq::<int>::empty());
    assert(ms =~= matched_rows_from(h, rows, cond, 1) + Seq::<int>::empty());
    assert(ms =~= Seq::new((rows.len() - 1) as nat, |p: int| 1 + p));
    assert(file_header(f) == h);
    let e0 = file_emitted(f, conds, bar, 0, 0, 0);
    assert(e0.len() == ms.len());
    let out = search_rows_spec(files, conds);
    assert(files.skip(1) =~= Seq::<File>::empty());
    assert(emitted_all(Seq::<File>::empty(), conds, bar, 1, mfo_count(files.skip(1), conds),
    0) =~= Seq::<Seq<Seq<char>>>::empty());
    assert(emitted_all(files, conds, bar, 0, 0, 0) =~= e0 + emitted_all(
        files.skip(1),
        conds,
        bar,
        1,
        (if file_points(file_header(files[0]), files[0].rows.deep_view(), conds) > 0 {
            1nat
        } else {
            0nat
        }),
        (0 + e0.len()) as nat,
    ));
    assert(emitted_all(files.skip(1), conds, bar, 1, (if file_points(
        file_header(files[0]),
        files[0].rows.deep_view(),
        conds,
    ) > 0 {
        1nat
    } else {
        0nat
    }), (0 + e0.len()) as nat) =~= Seq::<Seq<Seq<char>>>::empty());
    assert(emitted_all(files, conds, bar, 0, 0, 0) =~= e0);
    assert(out =~= seq![bar] + e0);
    assert(out.len() == 1 + (rows.len() - 1));
    assert(out[0] == h);
    assert forall|j: int| 1 <= j < rows.len() implies #[trigger] out[j].skip(5) == rows[j] by {
        assert(ms[j - 1] == j);
        assert(out[j] == e0[j - 1]);
        assert(e0[j - 1] == search_prov(f, 0, (j - 1) as nat, 0, j as nat) + project_row(
            h,
            rows[j],
            bar,
        ));
        lemma_project_identity(h, rows[j]);
        assert(search_prov(f, 0, (j - 1) as nat, 0, j as nat).len() == 5);
        assert((search_prov(f, 0, (j - 1) as nat, 0, j as nat) + rows[j]).skip(5) =~= rows[j]);
    }
}

} // verus!
