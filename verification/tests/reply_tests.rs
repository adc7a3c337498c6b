use excel_merge::reply::adjust_region;
use excel_merge::reply::reply_template_rows;
use excel_merge::reply::MergeType;
use excel_merge::reply::Region;
use excel_merge::reply::RegionOutcome;
use excel_merge::reply::ReplyFile;
use excel_merge::reply::ReplyFiles;
use excel_merge::search::search_template_rows;
use excel_merge::search::Search;
use excel_merge::Conditions;

fn rrow(xs: &[&str]) -> Vec<String> {
    xs.iter().map(|x| x.to_string()).collect()
}

fn rgrid(xs: &[&[&str]]) -> Vec<Vec<String>> {
    xs.iter().map(|r| rrow(r)).collect()
}

fn reply_file(
    rows: Vec<Vec<String>>,
    cutting_rows: u32,
    regions: Vec<Region>,
    checked: bool,
    reply: bool,
) -> ReplyFile {
    ReplyFile::new(
        "doc.xlsx".to_string(),
        "d".to_string(),
        rows,
        "xlsx".to_string(),
        0,
        cutting_rows,
        regions,
        vec![],
        vec![],
        false,
        "Sheet1".to_string(),
        checked,
        reply,
    )
}

#[test]
fn single_row_column_region_collapses_to_cell_write() {
    // a column region spanning rows 3..=3, after a cut of 2, degenerates
    // into a direct single-cell write and is never recorded as a region
    let r = Region { start_row: 3, start_col: 0, end_row: 3, end_col: 0 };
    let o = adjust_region(&r, 2);
    assert!(matches!(o, RegionOutcome::Single(1, 0)));
}

#[test]
fn row_region_discard_boundary() {
    let at = Region { start_row: 2, start_col: 0, end_row: 2, end_col: 3 };
    assert!(matches!(adjust_region(&at, 2), RegionOutcome::Discarded));
    let before = Region { start_row: 1, start_col: 0, end_row: 1, end_col: 3 };
    assert!(matches!(adjust_region(&before, 2), RegionOutcome::Discarded));
    let after = Region { start_row: 3, start_col: 0, end_row: 3, end_col: 3 };
    match adjust_region(&after, 2) {
        RegionOutcome::Kept(nr, MergeType::Row) => {
            assert_eq!(nr, Region { start_row: 1, start_col: 0, end_row: 1, end_col: 3 });
        }
        _ => panic!("row region past the boundary must be kept"),
    }
}

#[test]
fn column_region_discarded_only_when_fully_cut() {
    let gone = Region { start_row: 0, start_col: 1, end_row: 1, end_col: 1 };
    assert!(matches!(adjust_region(&gone, 2), RegionOutcome::Discarded));
    let partial = Region { start_row: 1, start_col: 1, end_row: 3, end_col: 1 };
    match adjust_region(&partial, 2) {
        RegionOutcome::Kept(nr, MergeType::Column) => {
            assert_eq!(nr, Region { start_row: 0, start_col: 1, end_row: 1, end_col: 1 });
        }
        _ => panic!("partially cut column region must be kept, saturating at zero"),
    }
}

#[test]
fn process_cuts_writes_and_records() {
    let rows = rgrid(&[
        &["h1", "h2", "h3"],
        &["r1a", "r1b", "r1c"],
        &["r2a", "r2b", "r2c"],
        &["r3a", "r3b", "r3c"],
    ]);
    let regions = vec![
        Region { start_row: 2, start_col: 0, end_row: 2, end_col: 2 },
        Region { start_row: 1, start_col: 0, end_row: 3, end_col: 0 },
    ];
    let mut files = ReplyFiles::new(vec![reply_file(rows, 1, regions, true, true)]);
    files.process();
    assert_eq!(files.data.len(), 1);
    let f = &files.data[0];
    // regions are processed top to bottom: the column region first
    assert_eq!(
        f.rows,
        rgrid(&[
            &["r1a", "r1b", "r1c"],
            &["r2a", "r2a", "r2a"],
            &["r1a", "r3b", "r3c"],
        ])
    );
    assert_eq!(f.merged_locations.len(), 2);
    assert_eq!(
        f.merged_locations[0].dimensions.0,
        Region { start_row: 0, start_col: 0, end_row: 2, end_col: 0 }
    );
    assert_eq!(
        f.merged_locations[0].dimensions.1,
        Region { start_row: 1, start_col: 0, end_row: 3, end_col: 0 }
    );
    assert_eq!(f.merged_locations[0].data, "r1a".to_string());
    assert!(matches!(f.merged_locations[0].variant, MergeType::Column));
    assert_eq!(
        f.merged_locations[1].dimensions.0,
        Region { start_row: 1, start_col: 0, end_row: 1, end_col: 2 }
    );
    assert_eq!(f.merged_locations[1].data, "r2a".to_string());
    assert!(matches!(f.merged_locations[1].variant, MergeType::Row));
}

#[test]
fn process_preserves_regions_without_reply() {
    let rows = rgrid(&[&["h1", "h2"], &["r1a", "r1b"], &["r2a", "r2b"]]);
    let regions = vec![Region { start_row: 1, start_col: 1, end_row: 2, end_col: 1 }];
    let mut files = ReplyFiles::new(vec![reply_file(rows.clone(), 0, regions, true, false)]);
    files.process();
    let f = &files.data[0];
    // no cut, no reply: the grid is unchanged, the region is recorded
    assert_eq!(f.rows, rows);
    assert_eq!(f.merged_locations.len(), 1);
    assert_eq!(f.merged_locations[0].data, "r1b".to_string());
}

#[test]
fn process_drops_unchecked_files() {
    let rows = rgrid(&[&["h"], &["r"]]);
    let mut files = ReplyFiles::new(vec![
        reply_file(rows.clone(), 0, vec![], false, false),
        reply_file(rows, 0, vec![], true, false),
    ]);
    files.process();
    assert_eq!(files.data.len(), 1);
    assert!(files.data[0].checked);
}

#[test]
fn reply_template_lists_each_file() {
    let f = ReplyFile::new(
        "doc.xlsx".to_string(),
        "2024/01/01 10:00".to_string(),
        vec![],
        "xlsx".to_string(),
        2048,
        3,
        vec![],
        vec![],
        vec![],
        false,
        "Sheet1".to_string(),
        true,
        false,
    );
    let files = ReplyFiles::new(vec![f]);
    let rows = reply_template_rows(&files);
    assert_eq!(rows.len(), 2);
    assert_eq!(
        rows[0],
        rrow(&[
            "Series No",
            "File Name",
            "File Extension",
            "Last Modified Date",
            "Size",
            "Cut row",
            "Cell Reply"
        ])
    );
    assert_eq!(
        rows[1],
        rrow(&["0", "doc", "xlsx", "2024/01/01 10:00", "2.00 KiB", "3", "Y"])
    );
}

#[test]
fn search_template_flattens_conditions() {
    let conds = Conditions {
        conditions: vec![Search {
            data: "D1".to_string(),
            title: Some("T1".to_string()),
            intersections: vec![Search {
                data: "D2".to_string(),
                title: None,
                intersections: vec![],
            }],
        }],
    };
    let rows = search_template_rows(&conds);
    assert_eq!(rows.len(), 2);
    assert_eq!(rows[1], rrow(&["D1", "T1", "D2"]));
    // header: two labels for each of longest-row-plus-seven columns
    assert_eq!(rows[0].len(), 2 * (3 + 7));
    assert_eq!(rows[0][0], "DATA".to_string());
    assert_eq!(rows[0][1], "TITLE".to_string());
    assert_eq!(rows[0][18], "DATA".to_string());
}
