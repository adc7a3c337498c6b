use excel_merge::error::Error;
use excel_merge::find_dup_indices;
use excel_merge::file_stem;
use excel_merge::get_file_extension;
use excel_merge::natural_order::natural_cmp_str;
use excel_merge::search::highlight_segments;
use excel_merge::search::merge_title_bars;
use excel_merge::search::score_row;
use excel_merge::search::Search;
use excel_merge::search::SearchFiles;

fn cells(xs: &[&str]) -> Vec<String> {
    xs.iter().map(|x| x.to_string()).collect()
}

#[test]
fn test_find_dup_indices() {
    assert_eq!(find_dup_indices("C", &["A", "B", "C", "C"]), vec![2, 3]);
}

#[test]
fn find_dup_indices_no_match() {
    assert_eq!(find_dup_indices("Z", &["A", "B"]), Vec::<usize>::new());
}

#[test]
fn natural_order_numeric_runs() {
    assert_eq!(natural_cmp_str("file2", "file10"), -1);
    assert_eq!(natural_cmp_str("file10", "file2"), 1);
    assert_eq!(natural_cmp_str("file2", "file2"), 0);
    assert_eq!(natural_cmp_str("file002", "file2"), 0);
    assert_eq!(natural_cmp_str("a9z", "a10a"), -1);
    assert_eq!(natural_cmp_str("abc", "abd"), -1);
    assert_eq!(natural_cmp_str("abc", "abcd"), -1);
}

#[test]
fn extension_and_stem() {
    assert_eq!(get_file_extension("report.xlsx"), Some("xlsx"));
    assert_eq!(get_file_extension("noext"), None);
    assert_eq!(file_stem("report.xlsx"), "report".to_string());
    assert_eq!(file_stem("archive.tar.gz"), "archive.tar".to_string());
    assert_eq!(file_stem("noext"), "noext".to_string());
}

#[test]
fn duplicate_aware_scoring() {
    let header = cells(&["H1", "H2", "H1"]);
    let row = cells(&["A", "B", "A"]);
    let with_h1 = Search {
        data: "A".to_string(),
        title: Some("H1".to_string()),
        intersections: vec![],
    };
    let with_h2 = Search {
        data: "A".to_string(),
        title: Some("H2".to_string()),
        intersections: vec![],
    };
    assert_eq!(score_row(&header, &row, &with_h1), 2);
    assert_eq!(score_row(&header, &row, &with_h2), 0);
}

#[test]
fn single_match_scores_one_point_regardless_of_title() {
    let header = cells(&["H1", "H2"]);
    let row = cells(&["A", "B"]);
    let cond = Search {
        data: "A".to_string(),
        title: Some("H1".to_string()),
        intersections: vec![],
    };
    assert_eq!(score_row(&header, &row, &cond), 1);
}

#[test]
fn split_around_needle() {
    assert_eq!(SearchFiles::split_thing("abcd", "bc"), vec!["a", "bc", "d"]);
    assert_eq!(SearchFiles::split_thing("bcd", "bc"), vec!["bc", "d"]);
    assert_eq!(SearchFiles::split_thing("abc", "bc"), vec!["a", "bc"]);
    assert_eq!(SearchFiles::split_thing("bc", "bc"), vec!["bc"]);
    assert_eq!(SearchFiles::split_thing("xyz", "bc"), vec!["xyz"]);
}

#[test]
fn highlight_marks_matched_segment() {
    let conds = vec![Search {
        data: "AB".to_string(),
        title: None,
        intersections: vec![],
    }];
    let segs = highlight_segments("xABy", &conds).unwrap();
    assert_eq!(
        segs,
        vec![
            (false, "x".to_string()),
            (true, "AB".to_string()),
            (false, "y".to_string())
        ]
    );
    assert!(highlight_segments("zzz", &conds).is_none());
}

#[test]
fn title_bar_union_and_intersections() {
    let bars = vec![
        (1usize, cells(&["A", "B"])),
        (3usize, cells(&["B", "C"])),
    ];
    let (main_bar, inters) = merge_title_bars(&bars);
    assert_eq!(main_bar, cells(&["B", "C", "A"]));
    assert_eq!(inters, cells(&["B"]));
}

#[test]
fn title_bar_strips_newlines_and_breaks_ties_late() {
    let bars = vec![
        (2usize, cells(&["A\n", "B"])),
        (2usize, cells(&["C\r", "A"])),
    ];
    // equal scores: the later file wins
    let (main_bar, inters) = merge_title_bars(&bars);
    assert_eq!(main_bar, cells(&["C", "A", "B"]));
    assert_eq!(inters, cells(&["A"]));
}

#[test]
fn error_messages() {
    assert_eq!(
        Error::SheetLimitExceeded.message(),
        "Only one sheet per file is supported".to_string()
    );
    assert_eq!(Error::NoFilesFound.message(), "No files were found.".to_string());
    assert_eq!(
        Error::Other("boom".to_string()).message(),
        "boom".to_string()
    );
}
