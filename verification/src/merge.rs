//! The merge engine: files are ordered by the requested directive, primary
//! files are promoted, leading rows are cut from non-primary files, and every
//! remaining data row is prefixed with the five provenance columns.
//!
//! Cutting convention: a cut count of `c > 0` removes the rows before index
//! `c - 1`, so `c - 1` leading rows are dropped; a count of zero cuts
//! nothing. Primary files are never cut.

use vstd::prelude::*;
use vstd::string::*;
use crate::File;
use crate::FilesMap;
use crate::error::Error;
use crate::order::{all_dates_parse, all_files, date_key_of, seq_sum, promote_mains, sort_spec};
use crate::order::{lemma_promote_all, lemma_seq_sum_promote, lemma_seq_sum_sort, lemma_sort_all};
use crate::order::{parse_last_modified, promote_main_files, sort_files};
use crate::strings::{dec_seq, remove_pat};
use crate::strings::{remove_pattern, u64_to_dec};

verus! {

/// The consolidated row set that the merge engine produces.
#[derive(Debug)]
pub struct MergeFiles {
    pub rows: Vec<Vec<String>>,
}

/// The number of leading rows that a cut count of `c` removes.
pub open spec fn eff_cut(c: nat) -> nat {
    if c == 0 {
        0
    } else {
        (c - 1) as nat
    }
}

/// The rows of `f` that survive the cut: all of them for a primary file.
pub open spec fn retained_rows(f: File, c: nat) -> Seq<Seq<Seq<char>>> {
    if f.is_main {
        f.rows.deep_view()
    } else {
        f.rows.deep_view().skip(eff_cut(c) as int)
    }
}

/// How many output rows `f` contributes: its retained rows less the header.
pub open spec fn out_count(f: File, c: nat) -> nat {
    if retained_rows(f, c).len() == 0 {
        0
    } else {
        (retained_rows(f, c).len() - 1) as nat
    }
}

/// `out_count` as a per-file measure.
pub open spec fn out_count_fn(c: nat) -> spec_fn(File) -> nat {
    |f: File| out_count(f, c)
}

/// The raw row count as a per-file measure.
pub open spec fn raw_rows_fn() -> spec_fn(File) -> nat {
    |f: File| f.rows@.len()
}

/// The total number of rows over all files.
pub open spec fn total_raw_rows(files: Seq<File>) -> nat {
    seq_sum(files, raw_rows_fn())
}

/// Whether the cut count stays within every non-primary file's row count.
pub open spec fn cut_ok(files: Seq<File>, c: nat) -> bool {
    forall|i: int|
        0 <= i < files.len() ==> (#[trigger] files[i].is_main || eff_cut(c)
            <= files[i].rows@.len())
}

/// The five provenance columns of one output row: last-modified date, file
/// ordinal, running row counter, "file-row" series label, and the file's
/// name with the "-MAIN" marker removed.
pub open spec fn merge_prov(f: File, i: nat, j: nat, w: nat) -> Seq<Seq<char>> {
    seq![
        f.last_modified@,
        dec_seq((i + 1) as nat),
        dec_seq((w + 1) as nat),
        dec_seq((i + 1) as nat) + "-"@ + dec_seq((j + 1) as nat),
        remove_pat(f.name@, "-MAIN"@),
    ]
}

/// The output rows of one file at position `i`, with `base` rows before it.
pub open spec fn file_out_rows(f: File, c: nat, i: nat, base: nat) -> Seq<Seq<Seq<char>>> {
    Seq::new(
        out_count(f, c),
        |j: int| merge_prov(f, i, j as nat, (base + j) as nat) + retained_rows(f, c)[j + 1],
    )
}

/// The output rows of all files, walking positions and counters forward.
pub open spec fn merge_data_rows(files: Seq<File>, c: nat, i0: nat, base: nat) -> Seq<
    Seq<Seq<char>>,
>
    decreases files.len(),
{
    if files.len() == 0 {
        Seq::empty()
    } else {
        file_out_rows(files[0], c, i0, base) + merge_data_rows(
            files.skip(1),
            c,
            (i0 + 1) as nat,
            (base + out_count(files[0], c)) as nat,
        )
    }
}

/// The labels of the five provenance columns.
pub open spec fn prov_labels() -> Seq<Seq<char>> {
    seq!["Date Modified"@, "Number of Files"@, "Series Number"@, "Count Number"@, "File Name"@]
}

/// The output header: the provenance labels followed by the header row of
/// the first file in final order.
pub open spec fn merge_header(files: Seq<File>, c: nat) -> Seq<Seq<char>> {
    if files.len() > 0 && retained_rows(files[0], c).len() > 0 {
        prov_labels() + retained_rows(files[0], c)[0]
    } else {
        prov_labels()
    }
}

/// Everything the merge engine emits: the header row, then the data rows.
pub open spec fn merge_output(files: Seq<File>, c: nat) -> Seq<Seq<Seq<char>>> {
    seq![merge_header(files, c)] + merge_data_rows(files, c, 0, 0)
}

/// The order in which files are merged: the requested sort, if any, then the
/// stable promotion of primary files.
pub open spec fn final_order(files: Seq<File>, sort_by_date: bool, sort_by_file: bool) -> Seq<
    File,
> {
    if sort_by_date {
        promote_mains(sort_spec(files, true))
    } else if sort_by_file {
        promote_mains(sort_spec(files, false))
    } else {
        promote_mains(files)
    }
}

pub proof fn lemma_merge_data_rows_len(files: Seq<File>, c: nat, i0: nat, base: nat)
    ensures
        merge_data_rows(files, c, i0, base).len() == seq_sum(files, out_count_fn(c)),
    decreases files.len(),
{
    if files.len() > 0 {
        lemma_merge_data_rows_len(
            files.skip(1),
            c,
            (i0 + 1) as nat,
            (base + out_count(files[0], c)) as nat,
        );
    }
}

proof fn lemma_merge_data_rows_push(files: Seq<File>, f: File, c: nat, i0: nat, base: nat)
    ensures
        merge_data_rows(files.push(f), c, i0, base) == merge_data_rows(files, c, i0, base)
            + file_out_rows(
            f,
            c,
            (i0 + files.len()) as nat,
            (base + seq_sum(files, out_count_fn(c))) as nat,
        ),
    decreases files.len(),
{
    if files.len() == 0 {
        assert(files.push(f)[0] == f);
        assert(files.push(f).skip(1) =~= Seq::<File>::empty());
        assert(merge_data_rows(
            Seq::<File>::empty(),
            c,
            (i0 + 1) as nat,
            (base + out_count(f, c)) as nat,
        ) =~~= Seq::empty());
        assert(seq_sum(files, out_count_fn(c)) == 0);
        assert(merge_data_rows(files, c, i0, base) =~~= Seq::empty());
        assert(merge_data_rows(files.push(f), c, i0, base) =~~= file_out_rows(f, c, i0, base));
        assert(merge_data_rows(files, c, i0, base) + file_out_rows(f, c, i0, base) =~~=
        file_out_rows(f, c, i0, base));
    } else {
        assert(files.push(f)[0] == files[0]);
        assert(files.push(f).skip(1) =~~= files.skip(1).push(f));
        lemma_merge_data_rows_push(
            files.skip(1),
            f,
            c,
            (i0 + 1) as nat,
            (base + out_count(files[0], c)) as nat,
        );
        assert(merge_data_rows(files.push(f), c, i0, base) =~~= merge_data_rows(files, c, i0, base)
            + file_out_rows(
            f,
            c,
            (i0 + files.len()) as nat,
            (base + seq_sum(files, out_count_fn(c))) as nat,
        ));
    }
}

/// Each file contributes at most its raw row count to the output.
proof fn lemma_out_le_raw(files: Seq<File>, c: nat)
    requires
        cut_ok(files, c),
    ensures
        seq_sum(files, out_count_fn(c)) <= seq_sum(files, raw_rows_fn()),
    decreases files.len(),
{
    if files.len() > 0 {
        assert forall|i: int| 0 <= i < files.skip(1).len() implies (
        #[trigger] files.skip(1)[i].is_main || eff_cut(c) <= files.skip(1)[i].rows@.len()) by {
            assert(files.skip(1)[i] == files[i + 1]);
            assert(files[i + 1].is_main || eff_cut(c) <= files[i + 1].rows@.len());
        }
        lemma_out_le_raw(files.skip(1), c);
        let f = files[0];
        assert(f.is_main || eff_cut(c) <= f.rows@.len());
        if !f.is_main {
            assert(retained_rows(f, c).len() == f.rows@.len() - eff_cut(c));
        }
    }
}

/// Pushes a cell, extending the row's character-level view by one element.
pub(crate) fn push_cell(row: &mut Vec<String>, s: String)
    ensures
        final(row).deep_view() == old(row).deep_view().push(s@),
{
    let ghost pre = row.deep_view();
    let ghost sv = s@;
    row.push(s);
    proof {
        assert(row.deep_view().len() == pre.len() + 1);
        assert forall|t: int| 0 <= t < row.deep_view().len() implies row.deep_view()[t]
            == pre.push(sv)[t] by {
            if t < pre.len() {
                assert(row@[t] == old(row)@[t]);
                assert(pre[t] == old(row)@[t].deep_view());
            }
        }
        assert(row.deep_view() =~~= pre.push(sv));
    }
}

/// Pushes a finished row, extending the grid's view by one element.
pub(crate) fn push_row(out: &mut Vec<Vec<String>>, row: Vec<String>)
    ensures
        final(out).deep_view() == old(out).deep_view().push(row.deep_view()),
{
    let ghost pre = out.deep_view();
    let ghost rv = row.deep_view();
    out.push(row);
    proof {
        assert(out.deep_view().len() == pre.len() + 1);
        assert forall|t: int| 0 <= t < out.deep_view().len() implies out.deep_view()[t]
            == pre.push(rv)[t] by {
            if t < pre.len() {
                assert(out@[t] == old(out)@[t]);
                assert(pre[t] == old(out)@[t].deep_view());
            }
        }
        assert(out.deep_view() =~~= pre.push(rv));
    }
}

/// Builds one output row: the provenance columns, then the data cells.
fn build_out_row(f: &File, i: u64, jj: u64, w: u64, cells: &Vec<String>) -> (r: Vec<String>)
    requires
        i < u64::MAX,
        jj < u64::MAX,
        w < u64::MAX,
    ensures
        r.deep_view() == merge_prov(*f, i as nat, jj as nat, w as nat) + cells.deep_view(),
{
    let mut row: Vec<String> = Vec::new();
    push_cell(&mut row, f.last_modified.clone());
    push_cell(&mut row, u64_to_dec(i + 1));
    push_cell(&mut row, u64_to_dec(w + 1));
    let mut label = u64_to_dec(i + 1);
    label.append("-");
    let jstr = u64_to_dec(jj + 1);
    label.append(jstr.as_str());
    push_cell(&mut row, label);
    push_cell(&mut row, remove_pattern(f.name.as_str(), "-MAIN"));
    proof {
        assert(row.deep_view() =~~= merge_prov(*f, i as nat, jj as nat, w as nat)
            + cells.deep_view().take(0));
    }
    let mut k: usize = 0;
    while k < cells.len()
        invariant
            k <= cells@.len(),
            i < u64::MAX,
            jj < u64::MAX,
            w < u64::MAX,
            row.deep_view() == merge_prov(*f, i as nat, jj as nat, w as nat)
                + cells.deep_view().take(k as int),
        decreases cells@.len() - k,
    {
        push_cell(&mut row, cells[k].clone());
        proof {
            assert(cells.deep_view().take(k + 1) =~~= cells.deep_view().take(k as int).push(
                cells@[k as int]@,
            ));
            assert(row.deep_view() =~~= merge_prov(*f, i as nat, jj as nat, w as nat)
                + cells.deep_view().take(k + 1));
        }
        k += 1;
    }
    proof {
        assert(cells.deep_view().take(cells@.len() as int) =~~= cells.deep_view());
    }
    row
}

/// Appends every retained data row of `f` to `out`, prefixed with its
/// provenance columns; returns the updated running row counter.
fn emit_file_rows(out: &mut Vec<Vec<String>>, f: &File, c: usize, i: u64, acc: u64) -> (new_acc:
    u64)
    requires
        f.is_main || eff_cut(c as nat) <= f.rows@.len(),
        i < u64::MAX,
        acc + out_count(*f, c as nat) < u64::MAX,
    ensures
        final(out).deep_view() == old(out).deep_view() + file_out_rows(
            *f,
            c as nat,
            i as nat,
            acc as nat,
        ),
        new_acc == acc + out_count(*f, c as nat),
{
    let ghost pre = out.deep_view();
    let ghost rows_of_f = file_out_rows(*f, c as nat, i as nat, acc as nat);
    let start: usize = if f.is_main {
        0
    } else if c == 0 {
        0
    } else {
        c - 1
    };
    proof {
        assert(start as nat == if f.is_main {
            0nat
        } else {
            eff_cut(c as nat)
        });
        assert(retained_rows(*f, c as nat).len() == f.rows@.len() - start);
    }
    if start >= f.rows.len() {
        proof {
            assert(out_count(*f, c as nat) == 0);
            assert(pre + rows_of_f =~~= pre);
        }
        return acc;
    }
    let n = f.rows.len();
    let mut j: usize = start + 1;
    let mut counter: u64 = acc;
    while j < n
        invariant
            n == f.rows@.len(),
            start < n,
            start as nat == if f.is_main {
                0nat
            } else {
                eff_cut(c as nat)
            },
            start + 1 <= j <= n,
            i < u64::MAX,
            acc + out_count(*f, c as nat) < u64::MAX,
            out_count(*f, c as nat) == n - start - 1,
            rows_of_f == file_out_rows(*f, c as nat, i as nat, acc as nat),
            counter == acc + (j - start - 1),
            out.deep_view() == pre + rows_of_f.take(j - start - 1),
        decreases n - j,
    {
        let ghost jj = j - start - 1;
        let cells = &f.rows[j];
        let row = build_out_row(f, i, (j - start - 1) as u64, counter, cells);
        push_row(out, row);
        proof {
            assert(retained_rows(*f, c as nat)[jj + 1] == f.rows.deep_view()[j as int]);
            assert(cells.deep_view() == f.rows.deep_view()[j as int]);
            assert(rows_of_f[jj] == merge_prov(*f, i as nat, jj as nat, (acc + jj) as nat)
                + retained_rows(*f, c as nat)[jj + 1]);
            assert(rows_of_f.take(jj + 1) =~~= rows_of_f.take(jj).push(rows_of_f[jj]));
            assert(out.deep_view() =~~= pre + rows_of_f.take(jj + 1));
        }
        counter = counter + 1;
        j += 1;
    }
    proof {
        assert(rows_of_f.take(n - start - 1) =~~= rows_of_f);
    }
    counter
}

/// Builds the output header row.
fn build_merge_header(files: &Vec<File>, c: usize) -> (r: Vec<String>)
    requires
        files@.len() > 0 ==> (files@[0].is_main || eff_cut(c as nat) <= files@[0].rows@.len()),
    ensures
        r.deep_view() == merge_header(files@, c as nat),
{
    let mut h: Vec<String> = Vec::new();
    push_cell(&mut h, "Date Modified".to_owned());
    push_cell(&mut h, "Number of Files".to_owned());
    push_cell(&mut h, "Series Number".to_owned());
    push_cell(&mut h, "Count Number".to_owned());
    push_cell(&mut h, "File Name".to_owned());
    proof {
        assert(h.deep_view() =~~= prov_labels());
    }
    if files.len() > 0 {
        let f = &files[0];
        let start: usize = if f.is_main {
            0
        } else if c == 0 {
            0
        } else {
            c - 1
        };
        proof {
            assert(start as nat == if f.is_main {
                0nat
            } else {
                eff_cut(c as nat)
            });
            assert(retained_rows(files@[0], c as nat).len() == f.rows@.len() - start);
        }
        if start < f.rows.len() {
            let cells = &f.rows[start];
            let ghost head_row = retained_rows(files@[0], c as nat)[0];
            proof {
                assert(head_row == f.rows.deep_view()[start as int]);
                assert(cells.deep_view() == head_row);
            }
            proof {
                assert(h.deep_view() =~~= prov_labels() + head_row.take(0));
            }
            let mut k: usize = 0;
            while k < cells.len()
                invariant
                    k <= cells@.len(),
                    cells.deep_view() == head_row,
                    h.deep_view() == prov_labels() + head_row.take(k as int),
                decreases cells@.len() - k,
            {
                push_cell(&mut h, cells[k].clone());
                proof {
                    assert(head_row.take(k + 1) =~~= head_row.take(k as int).push(
                        cells@[k as int]@,
                    ));
                    assert(h.deep_view() =~~= prov_labels() + head_row.take(k + 1));
                }
                k += 1;
            }
            proof {
                assert(head_row.take(head_row.len() as int) =~~= head_row);
            }
        }
    }
    h
}

/// The number of rows a file contributes under the cutting convention: its
/// row count, less the header row, less the rows cut from a non-primary file.
pub open spec fn formula_count_fn(c: nat) -> spec_fn(File) -> nat {
    |f: File|
        (f.rows@.len() - 1 - if f.is_main {
            0int
        } else {
            eff_cut(c) as int
        }) as nat
}

/// Merge row-count invariant: for any sort directive, the output holds one
/// header row plus, summed over the files of the set, that file's row count
/// less one less the rows cut from it. Holds for every file set in which each
/// file has at least one row and no non-primary file is cut past its end.
pub proof fn lemma_merge_row_count(
    files: Seq<File>,
    c: nat,
    sort_by_date: bool,
    sort_by_file: bool,
)
    requires
        forall|i: int| 0 <= i < files.len() ==> 1 <= #[trigger] files[i].rows@.len(),
        forall|i: int|
            0 <= i < files.len() ==> (#[trigger] files[i].is_main || c <= files[i].rows@.len()),
    ensures
        merge_output(final_order(files, sort_by_date, sort_by_file), c).len() == 1 + seq_sum(
            files,
            formula_count_fn(c),
        ),
{
    let fo = final_order(files, sort_by_date, sort_by_file);
    lemma_merge_data_rows_len(fo, c, 0, 0);
    if sort_by_date {
        lemma_seq_sum_sort(files, true, out_count_fn(c));
        lemma_seq_sum_promote(sort_spec(files, true), out_count_fn(c));
    } else if sort_by_file {
        lemma_seq_sum_sort(files, false, out_count_fn(c));
        lemma_seq_sum_promote(sort_spec(files, false), out_count_fn(c));
    } else {
        lemma_seq_sum_promote(files, out_count_fn(c));
    }
    assert forall|i: int| 0 <= i < files.len() implies out_count_fn(c)(#[trigger] files[i])
        == formula_count_fn(c)(files[i]) by {
        let f = files[i];
        assert(1 <= f.rows@.len());
        assert(f.is_main || c <= f.rows@.len());
        if !f.is_main {
            assert(eff_cut(c) <= f.rows@.len() - 1);
            assert(retained_rows(f, c).len() == f.rows@.len() - eff_cut(c));
        }
    }
    crate::order::lemma_seq_sum_congruence(files, out_count_fn(c), formula_count_fn(c));
    assert(merge_output(fo, c).len() == 1 + merge_data_rows(fo, c, 0, 0).len());
}

impl MergeFiles {
    /// The merged rows, as a plain vector of rows of cells.
    pub fn write_to_vec(&self) -> (r: Vec<Vec<String>>)
        ensures
            r.deep_view() == self.rows.deep_view(),
    {
        self.rows.clone()
    }
}

impl FilesMap {
    /// Runs the merge engine: orders the files, cuts leading rows from
    /// non-primary files, and emits the header and the provenance-prefixed
    /// data rows. Fails with `MalformedField` when a date sort is requested
    /// and some file's last-modified field does not parse.
    pub fn merge(self) -> (r: Result<MergeFiles, Error>)
        requires
            total_raw_rows(self.files@) < u64::MAX,
            cut_ok(self.files@, self.cutting_rows as nat),
        ensures
            match r {
                Ok(m) => (self.sort_by_date ==> all_dates_parse(self.files@))
                    && m.rows.deep_view() == merge_output(
                    final_order(self.files@, self.sort_by_date, self.sort_by_file),
                    self.cutting_rows as nat,
                ),
                Err(e) => e == Error::MalformedField && self.sort_by_date && !all_dates_parse(
                    self.files@,
                ),
            },
    {
        let ghost orig = self.files@;
        let c_nat: Ghost<nat> = Ghost(self.cutting_rows as nat);
        let FilesMap { files, sort_by_date, sort_by_file, cutting_rows } = self;
        let mut files = files;
        let ghost keeps_cut = |f: File| f.is_main || eff_cut(c_nat@) <= f.rows@.len();
        proof {
            assert(all_files(orig, keeps_cut));
        }
        if sort_by_date {
            let mut i: usize = 0;
            let n = files.len();
            while i < n
                invariant
                    n == files@.len(),
                    files@ == orig,
                    orig == self.files@,
                    sort_by_date == self.sort_by_date,
                    sort_by_date,
                    i <= n,
                    forall|k: int|
                        0 <= k < i ==> date_key_of(#[trigger] files@[k].last_modified@) is Some,
                decreases n - i,
            {
                if parse_last_modified(files[i].last_modified.as_str()).is_none() {
                    proof {
                        assert(date_key_of(orig[i as int].last_modified@) is None);
                        assert(!all_dates_parse(orig));
                    }
                    return Err(Error::MalformedField);
                }
                i += 1;
            }
            sort_files(&mut files, true);
            proof {
                lemma_sort_all(orig, true, keeps_cut);
            }
        } else if sort_by_file {
            sort_files(&mut files, false);
            proof {
                lemma_sort_all(orig, false, keeps_cut);
            }
        }
        promote_main_files(&mut files);
        proof {
            if sort_by_date {
                lemma_promote_all(sort_spec(orig, true), keeps_cut);
            } else if sort_by_file {
                lemma_promote_all(sort_spec(orig, false), keeps_cut);
            } else {
                lemma_promote_all(orig, keeps_cut);
            }
            assert(files@ == final_order(orig, sort_by_date, sort_by_file));
            if sort_by_date {
                lemma_seq_sum_sort(orig, true, raw_rows_fn());
                lemma_seq_sum_promote(sort_spec(orig, true), raw_rows_fn());
                lemma_seq_sum_sort(orig, true, out_count_fn(c_nat@));
                lemma_seq_sum_promote(sort_spec(orig, true), out_count_fn(c_nat@));
            } else if sort_by_file {
                lemma_seq_sum_sort(orig, false, raw_rows_fn());
                lemma_seq_sum_promote(sort_spec(orig, false), raw_rows_fn());
                lemma_seq_sum_sort(orig, false, out_count_fn(c_nat@));
                lemma_seq_sum_promote(sort_spec(orig, false), out_count_fn(c_nat@));
            } else {
                lemma_seq_sum_promote(orig, raw_rows_fn());
                lemma_seq_sum_promote(orig, out_count_fn(c_nat@));
            }
            lemma_out_le_raw(orig, c_nat@);
            assert(seq_sum(files@, out_count_fn(c_nat@)) < u64::MAX);
        }
        let ghost sorted = files@;
        let header = build_merge_header(&files, cutting_rows);
        let mut out: Vec<Vec<String>> = Vec::new();
        push_row(&mut out, header);
        proof {
            assert(sorted.take(0) =~= Seq::<File>::empty());
            assert(merge_data_rows(Seq::<File>::empty(), c_nat@, 0, 0) == Seq::<
                Seq<Seq<char>>,
            >::empty());
            assert(seq_sum(Seq::<File>::empty(), out_count_fn(c_nat@)) == 0);
            assert(sorted.skip(0) =~= sorted);
            assert(out.deep_view() =~~= seq![merge_header(sorted, c_nat@)] + merge_data_rows(
                sorted.take(0),
                c_nat@,
                0,
                0,
            ));
        }
        let mut acc: u64 = 0;
        let mut i: usize = 0;
        let n = files.len();
        while i < n
            invariant
                n == files@.len(),
                files@ == sorted,
                i <= n,
                cutting_rows as nat == c_nat@,
                cut_ok(sorted, c_nat@),
                out.deep_view() == seq![merge_header(sorted, c_nat@)] + merge_data_rows(
                    sorted.take(i as int),
                    c_nat@,
                    0,
                    0,
                ),
                acc == seq_sum(sorted.take(i as int), out_count_fn(c_nat@)),
                acc + seq_sum(sorted.skip(i as int), out_count_fn(c_nat@)) == seq_sum(
                    sorted,
                    out_count_fn(c_nat@),
                ),
                seq_sum(sorted, out_count_fn(c_nat@)) < u64::MAX,
            decreases n - i,
        {
            proof {
                assert(sorted.skip(i as int)[0] == sorted[i as int]);
                assert(sorted.skip(i as int).skip(1) =~~= sorted.skip(i + 1));
                assert(seq_sum(sorted.skip(i as int), out_count_fn(c_nat@)) == out_count(
                    sorted[i as int],
                    c_nat@,
                ) + seq_sum(sorted.skip(i + 1), out_count_fn(c_nat@)));
                assert(i < u64::MAX);
                assert(sorted[i as int].is_main || eff_cut(c_nat@) <= sorted[i as int].rows@.len());
                lemma_merge_data_rows_len(sorted.take(i as int), c_nat@, 0, 0);
            }
            let f = &files[i];
            let new_acc = emit_file_rows(&mut out, f, cutting_rows, i as u64, acc);
            proof {
                lemma_merge_data_rows_push(sorted.take(i as int), sorted[i as int], c_nat@, 0, 0);
                assert(sorted.take(i + 1) =~~= sorted.take(i as int).push(sorted[i as int]));
                crate::order::lemma_seq_sum_push(
                    sorted.take(i as int),
                    sorted[i as int],
                    out_count_fn(c_nat@),
                );
                assert(out.deep_view() =~~= seq![merge_header(sorted, c_nat@)] + merge_data_rows(
                    sorted.take(i + 1),
                    c_nat@,
                    0,
                    0,
                ));
            }
            acc = new_acc;
            i += 1;
        }
        proof {
            assert(sorted.take(n as int) =~~= sorted);
        }
        Ok(MergeFiles { rows: out })
    }
}

} // verus!
