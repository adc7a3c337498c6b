//! The reply engine: merged cell regions are re-targeted after leading rows
//! are cut from a file. Regions are walked top to bottom; a region is
//! classified by its axis, discarded when the cut swallows it, collapsed to
//! a single cell when only one row of it remains, and otherwise shifted and
//! recorded — with its value written into every constituent cell when the
//! file is in reply mode.
//!
//! Cutting convention: the reply engine drops exactly `cutting_rows` leading
//! rows from the grid.

use vstd::prelude::*;
use vstd::string::*;
use crate::search::{clone_cells, clone_grid};

verus! {

/// A rectangular span of merged cells, in zero-based row/column coordinates.
#[derive(Clone, Copy, Debug, PartialEq, Eq, Structural)]
pub struct Region {
    pub start_row: u32,
    pub start_col: u32,
    pub end_row: u32,
    pub end_col: u32,
}

/// The axis of a merged region: one row wide, or one column wide.
#[derive(Debug, Clone)]
pub enum MergeType {
    Row,
    Column,
}

/// A merged region as the writer needs it back: its coordinates after the
/// cut beside the original ones, the merged value, and its axis.
#[derive(Debug)]
pub struct MergedLocation {
    /// (cut, original)
    pub dimensions: (Region, Region),
    pub data: String,
    pub variant: MergeType,
}

/// One file in a cell-reply request.
#[derive(Debug)]
pub struct ReplyFile {
    pub name: String,
    pub last_modified: String,
    pub rows: Vec<Vec<String>>,
    pub ext: String,
    pub size: u32,
    pub cutting_rows: u32,
    pub merged_regions: Vec<Region>,
    pub location_sheet_rows: Vec<Vec<String>>,
    pub merged_locations: Vec<MergedLocation>,
    pub rename: bool,
    pub sheet_name: String,
    pub checked: bool,
    pub reply: bool,
}

/// The files of one cell-reply request.
pub struct ReplyFiles {
    pub data: Vec<ReplyFile>,
}

impl ReplyFiles {
    pub fn new(data: Vec<ReplyFile>) -> (r: ReplyFiles)
        ensures
            r.data == data,
    {
        ReplyFiles { data }
    }
}

impl ReplyFile {
    pub fn new(
        name: String,
        last_modified: String,
        rows: Vec<Vec<String>>,
        ext: String,
        size: u32,
        cutting_rows: u32,
        merged_regions: Vec<Region>,
        location_sheet_rows: Vec<Vec<String>>,
        merged_locations: Vec<MergedLocation>,
        rename: bool,
        sheet_name: String,
        checked: bool,
        reply: bool,
    ) -> (r: ReplyFile)
        ensures
            r.name == name,
            r.last_modified == last_modified,
            r.rows == rows,
            r.ext == ext,
            r.size == size,
            r.cutting_rows == cutting_rows,
            r.merged_regions == merged_regions,
            r.location_sheet_rows == location_sheet_rows,
            r.merged_locations == merged_locations,
            r.rename == rename,
            r.sheet_name == sheet_name,
            r.checked == checked,
            r.reply == reply,
    {
        ReplyFile {
            last_modified,
            name,
            rows,
            ext,
            size,
            cutting_rows,
            merged_regions,
            location_sheet_rows,
            merged_locations,
            rename,
            sheet_name,
            checked,
            reply,
        }
    }
}

/// How the cut re-targets one region.
pub enum RegionOutcome {
    /// The region is dropped: a column region wholly above the cut, a row
    /// region starting at or above the cut boundary, or a block region
    /// spanning both axes, which the engine does not support.
    Discarded,
    /// The region collapsed to the single cell at (row, column): its value
    /// is written straight into that cell and no region is recorded.
    Single(u32, u32),
    /// The region survives with shifted row coordinates, on the given axis.
    Kept(Region, MergeType),
}

/// Where a region ends up after cutting `cut` rows. A column region (one
/// column wide) is discarded when it lies entirely above the cut; its row
/// span is shifted down by `cut`, saturating at zero, and collapses to a
/// single cell when only one row remains. A row region (one row tall) is
/// discarded when it starts at or before the cut boundary, and shifted
/// otherwise. A region on neither axis is discarded.
pub open spec fn spec_adjust_region(r: Region, cut: u32) -> RegionOutcome {
    if r.start_col == r.end_col {
        if r.end_row < cut {
            RegionOutcome::Discarded
        } else {
            let s = if r.start_row >= cut {
                (r.start_row - cut) as u32
            } else {
                0u32
            };
            let e = (r.end_row - cut) as u32;
            if s == e {
                RegionOutcome::Single(s, r.start_col)
            } else {
                RegionOutcome::Kept(
                    Region { start_row: s, start_col: r.start_col, end_row: e, end_col: r.end_col },
                    MergeType::Column,
                )
            }
        }
    } else if r.start_row == r.end_row {
        if r.start_row <= cut {
            RegionOutcome::Discarded
        } else {
            RegionOutcome::Kept(
                Region {
                    start_row: (r.start_row - cut) as u32,
                    start_col: r.start_col,
                    end_row: (r.end_row - cut) as u32,
                    end_col: r.end_col,
                },
                MergeType::Row,
            )
        }
    } else {
        RegionOutcome::Discarded
    }
}

/// Re-targets one region for a cut of `cut` rows.
pub fn adjust_region(r: &Region, cut: u32) -> (o: RegionOutcome)
    ensures
        o == spec_adjust_region(*r, cut),
{
    if r.start_col == r.end_col {
        if r.end_row < cut {
            RegionOutcome::Discarded
        } else {
            let s = if r.start_row >= cut {
                r.start_row - cut
            } else {
                0
            };
            let e = r.end_row - cut;
            if s == e {
                RegionOutcome::Single(s, r.start_col)
            } else {
                RegionOutcome::Kept(
                    Region { start_row: s, start_col: r.start_col, end_row: e, end_col: r.end_col },
                    MergeType::Column,
                )
            }
        }
    } else if r.start_row == r.end_row {
        if r.start_row <= cut {
            RegionOutcome::Discarded
        } else {
            RegionOutcome::Kept(
                Region {
                    start_row: r.start_row - cut,
                    start_col: r.start_col,
                    end_row: r.end_row - cut,
                    end_col: r.end_col,
                },
                MergeType::Row,
            )
        }
    } else {
        RegionOutcome::Discarded
    }
}

/// The grid with the cell at (`row`, `col`) replaced by `v`.
pub open spec fn write_cell(g: Seq<Seq<Seq<char>>>, row: int, col: int, v: Seq<char>) -> Seq<
    Seq<Seq<char>>,
> {
    g.update(row, g[row].update(col, v))
}

/// The grid with `v` written into column `col` of rows `from..=to`.
pub open spec fn fill_column(g: Seq<Seq<Seq<char>>>, col: int, from: int, to: int, v: Seq<char>) -> Seq<
    Seq<Seq<char>>,
>
    decreases to - from + 1,
{
    if from > to {
        g
    } else {
        fill_column(write_cell(g, from, col, v), col, from + 1, to, v)
    }
}

/// The grid with `v` written into row `row` at columns `from..=to`.
pub open spec fn fill_row(g: Seq<Seq<Seq<char>>>, row: int, from: int, to: int, v: Seq<char>) -> Seq<
    Seq<Seq<char>>,
>
    decreases to - from + 1,
{
    if from > to {
        g
    } else {
        fill_row(write_cell(g, row, from, v), row, from + 1, to, v)
    }
}

/// The merged value of a region: the cell at its original top-left corner,
/// read from the grid as it stood before the cut.
pub open spec fn region_value(orig: Seq<Seq<Seq<char>>>, r: Region) -> Seq<char> {
    orig[r.start_row as int][r.start_col as int]
}

/// What one region does to the cut grid.
pub open spec fn apply_region_grid(
    g: Seq<Seq<Seq<char>>>,
    r: Region,
    cut: u32,
    reply: bool,
    v: Seq<char>,
) -> Seq<Seq<Seq<char>>> {
    match spec_adjust_region(r, cut) {
        RegionOutcome::Discarded => g,
        RegionOutcome::Single(row, col) => write_cell(g, row as int, col as int, v),
        RegionOutcome::Kept(nr, MergeType::Column) => if reply {
            fill_column(g, nr.start_col as int, nr.start_row as int, nr.end_row as int, v)
        } else {
            g
        },
        RegionOutcome::Kept(nr, MergeType::Row) => if reply {
            fill_row(g, nr.start_row as int, nr.start_col as int, nr.end_col as int, v)
        } else {
            g
        },
    }
}

/// The record a region leaves for the writer, if it survives the cut.
pub open spec fn region_record(orig: Seq<Seq<Seq<char>>>, r: Region, cut: u32) -> Option<
    (Region, Region, Seq<char>, MergeType),
> {
    match spec_adjust_region(r, cut) {
        RegionOutcome::Discarded => None,
        RegionOutcome::Single(row, col) => None,
        RegionOutcome::Kept(nr, ty) => Some((nr, r, region_value(orig, r), ty)),
    }
}

/// All regions applied to the cut grid, in order.
pub open spec fn apply_regions(
    g: Seq<Seq<Seq<char>>>,
    orig: Seq<Seq<Seq<char>>>,
    rs: Seq<Region>,
    cut: u32,
    reply: bool,
) -> Seq<Seq<Seq<char>>>
    decreases rs.len(),
{
    if rs.len() == 0 {
        g
    } else {
        apply_regions(
            apply_region_grid(g, rs[0], cut, reply, region_value(orig, rs[0])),
            orig,
            rs.skip(1),
            cut,
            reply,
        )
    }
}

/// The records that all regions leave, in order.
pub open spec fn records_of(orig: Seq<Seq<Seq<char>>>, rs: Seq<Region>, cut: u32) -> Seq<
    (Region, Region, Seq<char>, MergeType),
>
    decreases rs.len(),
{
    if rs.len() == 0 {
        Seq::empty()
    } else {
        (match region_record(orig, rs[0], cut) {
            Some(rec) => seq![rec],
            None => Seq::empty(),
        }) + records_of(orig, rs.skip(1), cut)
    }
}

/// Regions ordered by their starting row; insertion after equal elements
/// keeps the sort stable.
pub open spec fn insert_region(s: Seq<Region>, x: Region) -> Seq<Region>
    decreases s.len(),
{
    if s.len() == 0 {
        seq![x]
    } else if s.last().start_row <= x.start_row {
        s.push(x)
    } else {
        insert_region(s.drop_last(), x).push(s.last())
    }
}

/// Stable insertion sort of regions by starting row.
pub open spec fn sort_regions_spec(s: Seq<Region>) -> Seq<Region>
    decreases s.len(),
{
    if s.len() == 0 {
        s
    } else {
        insert_region(sort_regions_spec(s.drop_last()), s.last())
    }
}

fn insert_region_exec(rs: &mut Vec<Region>, x: Region)
    ensures
        final(rs)@ == insert_region(old(rs)@, x),
    decreases old(rs)@.len(),
{
    let ghost orig = rs@;
    let n = rs.len();
    if n == 0 {
        rs.push(x);
        return;
    }
    if rs[n - 1].start_row <= x.start_row {
        rs.push(x);
    } else {
        let last = rs.pop().unwrap();
        proof {
            assert(rs@ =~= orig.drop_last());
        }
        insert_region_exec(rs, x);
        rs.push(last);
    }
}

/// Sorts the regions by starting row, keeping the order of equal rows.
pub fn sort_regions(rs: &mut Vec<Region>)
    ensures
        final(rs)@ == sort_regions_spec(old(rs)@),
    decreases old(rs)@.len(),
{
    let ghost orig = rs@;
    match rs.pop() {
        None => {
            proof {
                assert(orig.len() == 0);
            }
        },
        Some(x) => {
            proof {
                assert(rs@ =~= orig.drop_last());
                assert(x == orig.last());
            }
            sort_regions(rs);
            insert_region_exec(rs, x);
        },
    }
}

/// Writes `v` into the cell at (`row`, `col`).
fn set_cell(g: &mut Vec<Vec<String>>, row: usize, col: usize, v: String)
    requires
        row < old(g)@.len(),
        col < old(g)@[row as int]@.len(),
    ensures
        final(g).deep_view() == write_cell(old(g).deep_view(), row as int, col as int, v@),
{
    let ghost pre = g.deep_view();
    let ghost vv = v@;
    let target_row = &mut g[row];
    target_row[col] = v;
    proof {
        assert forall|i: int| 0 <= i < g.deep_view().len() implies g.deep_view()[i] == write_cell(
            pre,
            row as int,
            col as int,
            vv,
        )[i] by {
            if i == row {
                assert forall|j: int| 0 <= j < g.deep_view()[i].len() implies g.deep_view()[i][j]
                    == write_cell(pre, row as int, col as int, vv)[i][j] by {
                    if j != col {
                        assert(g@[i]@[j] == old(g)@[i]@[j]);
                    }
                }
                assert(g.deep_view()[i] =~~= write_cell(pre, row as int, col as int, vv)[i]);
            } else {
                assert(g@[i] == old(g)@[i]);
            }
        }
        assert(g.deep_view() =~~= write_cell(pre, row as int, col as int, vv));
    }
}

/// Whether every row of the grid has the width of the first row.
pub open spec fn grid_wf(g: Seq<Seq<Seq<char>>>) -> bool {
    forall|i: int| 0 <= i < g.len() ==> #[trigger] g[i].len() == g[0].len()
}

/// Whether a region lies within a grid of the given dimensions.
pub open spec fn region_wf(r: Region, nrows: int, ncols: int) -> bool {
    r.start_row <= r.end_row && r.start_col <= r.end_col && r.end_row < nrows && r.end_col < ncols
}

/// Whether every recorded region of the file lies within its grid.
pub open spec fn reply_file_wf(f: ReplyFile) -> bool {
    &&& f.cutting_rows as int <= f.rows@.len()
    &&& grid_wf(f.rows.deep_view())
    &&& f.rows@.len() > 0 ==> forall|i: int|
        0 <= i < f.merged_regions@.len() ==> region_wf(
            #[trigger] f.merged_regions@[i],
            f.rows@.len() as int,
            f.rows.deep_view()[0].len() as int,
        )
    &&& f.rows@.len() == 0 ==> f.merged_regions@.len() == 0
}


proof fn lemma_apply_regions_push(
    g: Seq<Seq<Seq<char>>>,
    orig: Seq<Seq<Seq<char>>>,
    rs: Seq<Region>,
    r: Region,
    cut: u32,
    reply: bool,
)
    ensures
        apply_regions(g, orig, rs.push(r), cut, reply) == apply_region_grid(
            apply_regions(g, orig, rs, cut, reply),
            r,
            cut,
            reply,
            region_value(orig, r),
        ),
        records_of(orig, rs.push(r), cut) == records_of(orig, rs, cut) + (match region_record(
            orig,
            r,
            cut,
        ) {
            Some(rec) => seq![rec],
            None => Seq::empty(),
        }),
    decreases rs.len(),
{
    if rs.len() == 0 {
        assert(rs.push(r)[0] == r);
        assert(rs.push(r).skip(1) =~= Seq::<Region>::empty());
        assert(rs =~= Seq::<Region>::empty());
        let g2 = apply_region_grid(g, r, cut, reply, region_value(orig, r));
        assert(apply_regions(g2, orig, Seq::<Region>::empty(), cut, reply) == g2);
        assert(apply_regions(g, orig, rs, cut, reply) == g);
        assert(records_of(orig, Seq::<Region>::empty(), cut) == Seq::<
            (Region, Region, Seq<char>, MergeType),
        >::empty());
        assert(records_of(orig, rs.push(r), cut) =~= records_of(orig, rs, cut) + (
        match region_record(orig, r, cut) {
            Some(rec) => seq![rec],
            None => Seq::empty(),
        }));
    } else {
        assert(rs.push(r)[0] == rs[0]);
        assert(rs.push(r).skip(1) =~= rs.skip(1).push(r));
        lemma_apply_regions_push(
            apply_region_grid(g, rs[0], cut, reply, region_value(orig, rs[0])),
            orig,
            rs.skip(1),
            r,
            cut,
            reply,
        );
        assert(records_of(orig, rs.push(r), cut) =~= records_of(orig, rs, cut) + (
        match region_record(orig, r, cut) {
            Some(rec) => seq![rec],
            None => Seq::empty(),
        }));
    }
}

proof fn lemma_insert_region_all(s: Seq<Region>, x: Region, p: spec_fn(Region) -> bool)
    requires
        forall|i: int| 0 <= i < s.len() ==> p(#[trigger] s[i]),
        p(x),
    ensures
        forall|i: int|
            0 <= i < insert_region(s, x).len() ==> p(#[trigger] insert_region(s, x)[i]),
    decreases s.len(),
{
    if s.len() == 0 {
    } else if s.last().start_row <= x.start_row {
    } else {
        assert(forall|i: int| 0 <= i < s.drop_last().len() ==> p(#[trigger] s.drop_last()[i]));
        lemma_insert_region_all(s.drop_last(), x, p);
        let t = insert_region(s.drop_last(), x).push(s.last());
        assert forall|i: int| 0 <= i < t.len() implies p(#[trigger] t[i]) by {
            if i < t.len() - 1 {
                assert(t[i] == insert_region(s.drop_last(), x)[i]);
            } else {
                assert(t[i] == s[s.len() - 1]);
            }
        }
    }
}

/// Sorting regions keeps any property that holds of each of them.
pub proof fn lemma_sort_regions_all(s: Seq<Region>, p: spec_fn(Region) -> bool)
    requires
        forall|i: int| 0 <= i < s.len() ==> p(#[trigger] s[i]),
    ensures
        forall|i: int|
            0 <= i < sort_regions_spec(s).len() ==> p(#[trigger] sort_regions_spec(s)[i]),
    decreases s.len(),
{
    if s.len() > 0 {
        assert(forall|i: int| 0 <= i < s.drop_last().len() ==> p(#[trigger] s.drop_last()[i]));
        lemma_sort_regions_all(s.drop_last(), p);
        assert(p(s[s.len() - 1]));
        lemma_insert_region_all(sort_regions_spec(s.drop_last()), s.last(), p);
    }
}

proof fn lemma_sort_regions_len(s: Seq<Region>)
    ensures
        sort_regions_spec(s).len() == s.len(),
    decreases s.len(),
{
    if s.len() > 0 {
        lemma_sort_regions_len(s.drop_last());
        lemma_insert_region_len(sort_regions_spec(s.drop_last()), s.last());
    }
}

proof fn lemma_insert_region_len(s: Seq<Region>, x: Region)
    ensures
        insert_region(s, x).len() == s.len() + 1,
    decreases s.len(),
{
    if s.len() > 0 && !(s.last().start_row <= x.start_row) {
        lemma_insert_region_len(s.drop_last(), x);
    }
}

/// Relates a file before and after the reply engine ran over it: the grid
/// lost its leading `cutting_rows` rows and took the region writes; the
/// regions stand sorted by starting row; every surviving region was
/// recorded after the original locations; everything else is unchanged.
pub open spec fn reply_file_processed(old_f: ReplyFile, new_f: ReplyFile) -> bool {
    let cut = old_f.cutting_rows;
    let origg = old_f.rows.deep_view();
    let cutg = origg.skip(cut as int);
    let sorted = sort_regions_spec(old_f.merged_regions@);
    let recs = records_of(origg, sorted, cut);
    &&& new_f.rows.deep_view() == apply_regions(cutg, origg, sorted, cut, old_f.reply)
    &&& new_f.merged_regions@ == sorted
    &&& new_f.merged_locations@.len() == old_f.merged_locations@.len() + recs.len()
    &&& forall|p: int|
        0 <= p < old_f.merged_locations@.len() ==> #[trigger] new_f.merged_locations@[p]
            == old_f.merged_locations@[p]
    &&& forall|p: int|
        0 <= p < recs.len() ==> {
            let loc = #[trigger] new_f.merged_locations@[old_f.merged_locations@.len() + p];
            loc.dimensions.0 == recs[p].0 && loc.dimensions.1 == recs[p].1 && loc.data@
                == recs[p].2 && loc.variant == recs[p].3
        }
    &&& new_f.name == old_f.name
    &&& new_f.last_modified == old_f.last_modified
    &&& new_f.ext == old_f.ext
    &&& new_f.size == old_f.size
    &&& new_f.cutting_rows == old_f.cutting_rows
    &&& new_f.location_sheet_rows == old_f.location_sheet_rows
    &&& new_f.rename == old_f.rename
    &&& new_f.sheet_name == old_f.sheet_name
    &&& new_f.checked == old_f.checked
    &&& new_f.reply == old_f.reply
}

/// Cuts the file's leading rows and re-targets its merged regions.
pub fn process_reply_file(file: &mut ReplyFile)
    requires
        reply_file_wf(*old(file)),
    ensures
        reply_file_processed(*old(file), *final(file)),
{
    let ghost origg = file.rows.deep_view();
    let ghost nrows = origg.len() as int;
    let ghost ncols = if origg.len() > 0 { origg[0].len() as int } else { 0int };
    let cut32 = file.cutting_rows;
    let cut = file.cutting_rows as usize;
    let reply = file.reply;
    let original = clone_grid(&file.rows);
    let n = file.rows.len();
    let mut newrows: Vec<Vec<String>> = Vec::new();
    let mut j = cut;
    proof {
        assert(origg.subrange(cut as int, cut as int) =~~= Seq::<Seq<Seq<char>>>::empty());
    }
    while j < n
        invariant
            n == origg.len(),
            origg == original.deep_view(),
            cut <= j <= n,
            newrows.deep_view() == origg.subrange(cut as int, j as int),
        decreases n - j,
    {
        proof {
            assert(original.deep_view()[j as int] == original@[j as int].deep_view());
        }
        let row = clone_cells(&original[j]);
        crate::merge::push_row(&mut newrows, row);
        proof {
            assert(newrows.deep_view() =~~= origg.subrange(cut as int, j + 1));
        }
        j += 1;
    }
    proof {
        if cut <= n {
            assert(origg.subrange(cut as int, n as int) =~~= origg.skip(cut as int));
        }
    }
    file.rows = newrows;
    let ghost cutg = origg.skip(cut as int);
    let ghost region_ok = |r: Region| region_wf(r, nrows, ncols);
    proof {
        if origg.len() > 0 {
            assert(forall|i: int|
                0 <= i < file.merged_regions@.len() ==> region_ok(
                    #[trigger] file.merged_regions@[i],
                ));
            lemma_sort_regions_all(file.merged_regions@, region_ok);
        }
    }
    sort_regions(&mut file.merged_regions);
    let ghost sorted = file.merged_regions@;
    let nregs = file.merged_regions.len();
    proof {
        lemma_sort_regions_len(old(file).merged_regions@);
        assert(apply_regions(cutg, origg, sorted.take(0), cut32, reply) == cutg);
        assert(records_of(origg, sorted.take(0), cut32) =~= Seq::<
            (Region, Region, Seq<char>, MergeType),
        >::empty());
    }
    let ghost locs0 = file.merged_locations@;
    let mut i: usize = 0;
    while i < nregs
        invariant
            nregs == sorted.len(),
            file.merged_regions@ == sorted,
            origg == original.deep_view(),
            origg.len() == nrows,
            nrows > 0 ==> ncols == origg[0].len(),
            nregs > 0 ==> nrows > 0,
            forall|t: int| 0 <= t < nregs ==> region_wf(#[trigger] sorted[t], nrows, ncols),
            grid_wf(origg),
            cut <= nrows,
            cut32 as int == cut,
            reply == file.reply,
            cutg == origg.skip(cut as int),
            i <= nregs,
            file.rows.deep_view() == apply_regions(cutg, origg, sorted.take(i as int), cut32, reply),
            file.rows@.len() == nrows - cut,
            forall|t: int|
                0 <= t < file.rows@.len() ==> #[trigger] file.rows.deep_view()[t].len() == ncols,
            file.merged_locations@.len() == locs0.len() + records_of(
                origg,
                sorted.take(i as int),
                cut32,
            ).len(),
            forall|p: int|
                0 <= p < locs0.len() ==> #[trigger] file.merged_locations@[p] == locs0[p],
            forall|p: int|
                0 <= p < records_of(origg, sorted.take(i as int), cut32).len() ==> {
                    let loc = #[trigger] file.merged_locations@[locs0.len() + p];
                    let rec = records_of(origg, sorted.take(i as int), cut32)[p];
                    loc.dimensions.0 == rec.0 && loc.dimensions.1 == rec.1 && loc.data@ == rec.2
                        && loc.variant == rec.3
                },
            file.name == old(file).name,
            file.last_modified == old(file).last_modified,
            file.ext == old(file).ext,
            file.size == old(file).size,
            file.cutting_rows == old(file).cutting_rows,
            file.location_sheet_rows == old(file).location_sheet_rows,
            file.rename == old(file).rename,
            file.sheet_name == old(file).sheet_name,
            file.checked == old(file).checked,
            file.reply == old(file).reply,
        decreases nregs - i,
    {
        let ghost gpre = file.rows.deep_view();
        let ghost recs_pre = records_of(origg, sorted.take(i as int), cut32);
        let r = file.merged_regions[i];
        proof {
            assert(sorted[i as int] == r);
            assert(region_wf(r, nrows, ncols));
            assert(original.deep_view()[r.start_row as int] == original@[r.start_row as int].deep_view());
            assert(original.deep_view()[r.start_row as int].len() == ncols);
            assert(original@[r.start_row as int].deep_view()[r.start_col as int]
                == original@[r.start_row as int]@[r.start_col as int]@);
        }
        let value = original[r.start_row as usize][r.start_col as usize].clone();
        proof {
            assert(value@ == region_value(origg, r));
        }
        let outcome = adjust_region(&r, cut32);
        let ghost expected = apply_region_grid(gpre, r, cut32, reply, value@);
        match outcome {
            RegionOutcome::Discarded => {
                proof {
                    assert(expected == gpre);
                }
            },
            RegionOutcome::Single(srow, scol) => {
                proof {
                    assert(srow == r.end_row - cut32);
                    assert(srow < nrows - cut);
                    assert(scol == r.start_col);
                    assert(file.rows.deep_view()[srow as int].len() == ncols);
                    assert(file.rows@[srow as int]@.len() == ncols);
                }
                let ghost vv = value@;
                set_cell(&mut file.rows, srow as usize, scol as usize, value);
                proof {
                    assert(file.rows.deep_view() == write_cell(
                        gpre,
                        srow as int,
                        scol as int,
                        vv,
                    ));
                    assert(file.rows.deep_view().len() == gpre.len());
                    assert forall|t: int|
                        0 <= t < file.rows@.len() implies #[trigger] file.rows.deep_view()[t].len()
                        == ncols by {
                        if t != srow {
                            assert(file.rows.deep_view()[t] == gpre[t]);
                        }
                    }
                }
            },
            RegionOutcome::Kept(nr, ty) => {
                let is_column = r.start_col == r.end_col;
                let ghost locs_now = file.merged_locations@;
                if reply {
                    if is_column {
                        let limit = file.rows.len();
                        let mut idx = nr.start_row as usize;
                        proof {
                            assert(nr.end_row == r.end_row - cut32);
                            assert(nr.end_row < nrows - cut);
                            assert(nr.start_row <= nr.end_row);
                            assert(nr.start_col == r.start_col);
                            assert(expected == fill_column(
                                gpre,
                                nr.start_col as int,
                                nr.start_row as int,
                                nr.end_row as int,
                                value@,
                            ));
                        }
                        while idx <= nr.end_row as usize
                            invariant
                                nr.start_row as int <= idx as int <= nr.end_row + 1,
                                nr.end_row < limit,
                                limit <= usize::MAX,
                                nr.end_row < file.rows@.len(),
                                nr.start_col < ncols,
                                forall|t: int|
                                    0 <= t < file.rows@.len() ==> #[trigger] file.rows.deep_view()[t].len()
                                        == ncols,
                                file.rows@.len() == gpre.len(),
                                value@ == region_value(origg, r),
                                expected == fill_column(
                                    file.rows.deep_view(),
                                    nr.start_col as int,
                                    idx as int,
                                    nr.end_row as int,
                                    value@,
                                ),
                                file.merged_regions@ == sorted,
                                file.merged_locations@ == locs_now,
                                file.name == old(file).name,
                                file.last_modified == old(file).last_modified,
                                file.ext == old(file).ext,
                                file.size == old(file).size,
                                file.cutting_rows == old(file).cutting_rows,
                                file.location_sheet_rows == old(file).location_sheet_rows,
                                file.rename == old(file).rename,
                                file.sheet_name == old(file).sheet_name,
                                file.checked == old(file).checked,
                                file.reply == old(file).reply,
                                reply == file.reply,
                            decreases nr.end_row + 1 - idx,
                        {
                            let ghost gnow = file.rows.deep_view();
                            proof {
                                assert(gnow[idx as int].len() == ncols);
                                assert(file.rows@[idx as int]@.len() == ncols);
                            }
                            set_cell(&mut file.rows, idx, nr.start_col as usize, value.clone());
                            proof {
                                assert(file.rows.deep_view() == write_cell(
                                    gnow,
                                    idx as int,
                                    nr.start_col as int,
                                    value@,
                                ));
                                assert(file.rows.deep_view().len() == gnow.len());
                                assert(fill_column(
                                    gnow,
                                    nr.start_col as int,
                                    idx as int,
                                    nr.end_row as int,
                                    value@,
                                ) == fill_column(
                                    file.rows.deep_view(),
                                    nr.start_col as int,
                                    idx + 1,
                                    nr.end_row as int,
                                    value@,
                                ));
                                assert forall|t: int|
                                    0 <= t < file.rows@.len() implies #[trigger] file.rows.deep_view()[t].len()
                                    == ncols by {
                                    if t != idx {
                                        assert(file.rows.deep_view()[t] == gnow[t]);
                                    }
                                }
                            }
                            idx += 1;
                        }
                        proof {
                            assert(fill_column(
                                file.rows.deep_view(),
                                nr.start_col as int,
                                nr.end_row + 1,
                                nr.end_row as int,
                                value@,
                            ) == file.rows.deep_view());
                        }
                    } else {
                        proof {
                            assert(file.rows.deep_view()[nr.start_row as int].len() == ncols);
                        }
                        let limit = file.rows[nr.start_row as usize].len();
                        let mut idx = nr.start_col as usize;
                        proof {
                            assert(nr.start_row == r.start_row - cut32);
                            assert(nr.start_row < nrows - cut);
                            assert(nr.start_col <= nr.end_col);
                            assert(nr.end_col < ncols);
                            assert(expected == fill_row(
                                gpre,
                                nr.start_row as int,
                                nr.start_col as int,
                                nr.end_col as int,
                                value@,
                            ));
                        }
                        while idx <= nr.end_col as usize
                            invariant
                                nr.start_col as int <= idx as int <= nr.end_col + 1,
                                nr.end_col < limit,
                                limit <= usize::MAX,
                                nr.end_col < ncols,
                                nr.start_row < file.rows@.len(),
                                forall|t: int|
                                    0 <= t < file.rows@.len() ==> #[trigger] file.rows.deep_view()[t].len()
                                        == ncols,
                                file.rows@.len() == gpre.len(),
                                value@ == region_value(origg, r),
                                expected == fill_row(
                                    file.rows.deep_view(),
                                    nr.start_row as int,
                                    idx as int,
                                    nr.end_col as int,
                                    value@,
                                ),
                                file.merged_regions@ == sorted,
                                file.merged_locations@ == locs_now,
                                file.name == old(file).name,
                                file.last_modified == old(file).last_modified,
                                file.ext == old(file).ext,
                                file.size == old(file).size,
                                file.cutting_rows == old(file).cutting_rows,
                                file.location_sheet_rows == old(file).location_sheet_rows,
                                file.rename == old(file).rename,
                                file.sheet_name == old(file).sheet_name,
                                file.checked == old(file).checked,
                                file.reply == old(file).reply,
                                reply == file.reply,
                            decreases nr.end_col + 1 - idx,
                        {
                            let ghost gnow = file.rows.deep_view();
                            proof {
                                assert(gnow[nr.start_row as int].len() == ncols);
                                assert(file.rows@[nr.start_row as int]@.len() == ncols);
                            }
                            set_cell(&mut file.rows, nr.start_row as usize, idx, value.clone());
                            proof {
                                assert(file.rows.deep_view() == write_cell(
                                    gnow,
                                    nr.start_row as int,
                                    idx as int,
                                    value@,
                                ));
                                assert(file.rows.deep_view().len() == gnow.len());
                                assert(fill_row(
                                    gnow,
                                    nr.start_row as int,
                                    idx as int,
                                    nr.end_col as int,
                                    value@,
                                ) == fill_row(
                                    file.rows.deep_view(),
                                    nr.start_row as int,
                                    idx + 1,
                                    nr.end_col as int,
                                    value@,
                                ));
                                assert forall|t: int|
                                    0 <= t < file.rows@.len() implies #[trigger] file.rows.deep_view()[t].len()
                                    == ncols by {
                                    if t != nr.start_row {
                                        assert(file.rows.deep_view()[t] == gnow[t]);
                                    }
                                }
                            }
                            idx += 1;
                        }
                        proof {
                            assert(fill_row(
                                file.rows.deep_view(),
                                nr.start_row as int,
                                nr.end_col + 1,
                                nr.end_col as int,
                                value@,
                            ) == file.rows.deep_view());
                        }
                    }
                }
                let loc = MergedLocation { dimensions: (nr, r), data: value, variant: ty };
                file.merged_locations.push(loc);
            },
        }
        proof {
            lemma_apply_regions_push(cutg, origg, sorted.take(i as int), r, cut32, reply);
            assert(sorted.take(i + 1) =~= sorted.take(i as int).push(r));
            assert(file.rows.deep_view() == apply_regions(
                cutg,
                origg,
                sorted.take(i + 1),
                cut32,
                reply,
            ));
            let recs_now = records_of(origg, sorted.take(i + 1), cut32);
            assert forall|p: int|
                0 <= p < recs_now.len() implies {
                let loc = #[trigger] file.merged_locations@[locs0.len() + p];
                let rec = recs_now[p];
                loc.dimensions.0 == rec.0 && loc.dimensions.1 == rec.1 && loc.data@ == rec.2
                    && loc.variant == rec.3
            } by {
                if p < recs_pre.len() {
                    assert(recs_now[p] == recs_pre[p]);
                } else {
                }
            }
        }
        i += 1;
    }
    proof {
        assert(sorted.take(nregs as int) =~= sorted);
    }
}

/// Whether every checked file of the set satisfies the grid and region
/// well-formedness that processing needs.
pub open spec fn reply_files_wf(fs: ReplyFiles) -> bool {
    forall|i: int|
        0 <= i < fs.data@.len() ==> ((#[trigger] fs.data@[i]).checked ==> reply_file_wf(
            fs.data@[i],
        ))
}

impl ReplyFiles {
    /// Runs the reply engine: drops the files that are not checked, then
    /// cuts each remaining file and re-targets its merged regions.
    pub fn process(&mut self)
        requires
            reply_files_wf(*old(self)),
        ensures
            final(self).data@.len() == old(self).data@.filter(
                |f: ReplyFile| f.checked,
            ).len(),
            forall|i: int|
                0 <= i < final(self).data@.len() ==> reply_file_processed(
                    old(self).data@.filter(|f: ReplyFile| f.checked)[i],
                    #[trigger] final(self).data@[i],
                ),
    {
        let ghost orig = self.data@;
        let mut kept: Vec<ReplyFile> = Vec::new();
        let ghost mut seen: Seq<ReplyFile> = Seq::empty();
        while self.data.len() > 0
            invariant
                seen + self.data@ =~= orig,
                reply_files_wf((ReplyFiles { data: self.data })),
                kept@ == seen.filter(|f: ReplyFile| f.checked),
                forall|t: int| 0 <= t < kept@.len() ==> reply_file_wf(#[trigger] kept@[t]),
            decreases self.data@.len(),
        {
            let x = self.data.remove(0);
            proof {
                let prev = seen;
                seen = seen.push(x);
                assert(seen.drop_last() =~= prev);
                reveal(Seq::filter);
            }
            if x.checked {
                kept.push(x);
            }
        }
        proof {
            assert(seen =~= orig);
        }
        let ghost retained = orig.filter(|f: ReplyFile| f.checked);
        let n = kept.len();
        let mut i: usize = 0;
        while i < n
            invariant
                n == kept@.len(),
                n == retained.len(),
                i <= n,
                forall|t: int| i <= t < n ==> #[trigger] kept@[t] == retained[t],
                forall|t: int| i <= t < n ==> reply_file_wf(#[trigger] kept@[t]),
                forall|t: int|
                    0 <= t < i ==> reply_file_processed(retained[t], #[trigger] kept@[t]),
            decreases n - i,
        {
            proof {
                assert(kept@[i as int] == retained[i as int]);
            }
            process_reply_file(&mut kept[i]);
            i += 1;
        }
        self.data = kept;
    }
}


/// Names the human-readable label that the `size` crate renders for a byte
/// count, in its default base-2 style.
pub uninterp spec fn size_label_of(n: u32) -> Seq<char>;

/// Relies on `size::Size::from_bytes` and its default formatting: the label
/// depends on the byte count alone.
#[verifier::external_body]
fn format_size(n: u32) -> (r: String)
    ensures
        r@ == size_label_of(n),
{
    size::Size::from_bytes(n).format().to_string()
}

/// The template row describing one file at position `i`: its ordinal, name
/// without extension, extension, last-modified date, human-readable size,
/// cut count, and "Y" when it is checked.
pub open spec fn reply_template_row(f: ReplyFile, i: nat) -> Seq<Seq<char>> {
    seq![
        crate::strings::dec_seq(i),
        crate::stem_of(f.name@),
        f.ext@,
        f.last_modified@,
        size_label_of(f.size),
        crate::strings::dec_seq(f.cutting_rows as nat),
        if f.checked {
            "Y"@
        } else {
            Seq::empty()
        },
    ]
}

/// The header of the cell-reply template sheet.
pub open spec fn reply_template_header() -> Seq<Seq<char>> {
    seq![
        "Series No"@,
        "File Name"@,
        "File Extension"@,
        "Last Modified Date"@,
        "Size"@,
        "Cut row"@,
        "Cell Reply"@,
    ]
}

/// Builds the rows of the downloadable cell-reply template: a header row,
/// then one row describing each file.
pub fn reply_template_rows(files: &ReplyFiles) -> (r: Vec<Vec<String>>)
    requires
        files.data@.len() < u64::MAX,
    ensures
        r.deep_view() == seq![reply_template_header()] + Seq::new(
            files.data@.len(),
            |i: int| reply_template_row(files.data@[i], i as nat),
        ),
{
    let ghost fv = files.data@;
    let mut out: Vec<Vec<String>> = Vec::new();
    let mut header: Vec<String> = Vec::new();
    crate::merge::push_cell(&mut header, "Series No".to_owned());
    crate::merge::push_cell(&mut header, "File Name".to_owned());
    crate::merge::push_cell(&mut header, "File Extension".to_owned());
    crate::merge::push_cell(&mut header, "Last Modified Date".to_owned());
    crate::merge::push_cell(&mut header, "Size".to_owned());
    crate::merge::push_cell(&mut header, "Cut row".to_owned());
    crate::merge::push_cell(&mut header, "Cell Reply".to_owned());
    proof {
        assert(header.deep_view() =~~= reply_template_header());
    }
    crate::merge::push_row(&mut out, header);
    let ghost target = Seq::new(fv.len(), |i: int| reply_template_row(fv[i], i as nat));
    let n = files.data.len();
    let mut i: usize = 0;
    proof {
        assert(out.deep_view() =~~= seq![reply_template_header()] + target.take(0));
    }
    while i < n
        invariant
            n == fv.len(),
            fv == files.data@,
            n < u64::MAX,
            target == Seq::new(fv.len(), |t: int| reply_template_row(fv[t], t as nat)),
            i <= n,
            out.deep_view() == seq![reply_template_header()] + target.take(i as int),
        decreases n - i,
    {
        let f = &files.data[i];
        let mut row: Vec<String> = Vec::new();
        crate::merge::push_cell(&mut row, crate::strings::u64_to_dec(i as u64));
        crate::merge::push_cell(&mut row, crate::file_stem(f.name.as_str()));
        crate::merge::push_cell(&mut row, f.ext.clone());
        crate::merge::push_cell(&mut row, f.last_modified.clone());
        crate::merge::push_cell(&mut row, format_size(f.size));
        crate::merge::push_cell(&mut row, crate::strings::u64_to_dec(f.cutting_rows as u64));
        if f.checked {
            crate::merge::push_cell(&mut row, "Y".to_owned());
        } else {
            crate::merge::push_cell(&mut row, String::new());
        }
        proof {
            assert(row.deep_view() =~~= reply_template_row(fv[i as int], i as nat));
            assert(target[i as int] == reply_template_row(fv[i as int], i as nat));
        }
        crate::merge::push_row(&mut out, row);
        proof {
            assert(out.deep_view() =~~= seq![reply_template_header()] + target.take(i + 1));
        }
        i += 1;
    }
    proof {
        assert(target.take(n as int) =~~= target);
    }
    out
}

} // verus!
