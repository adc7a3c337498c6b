use excel_merge::error::Error;
use excel_merge::search::Search;
use excel_merge::search::search_from_files;
use excel_merge::Conditions;
use excel_merge::File;
use excel_merge::FilesMap;

fn row(xs: &[&str]) -> Vec<String> {
    xs.iter().map(|x| x.to_string()).collect()
}

fn grid(xs: &[&[&str]]) -> Vec<Vec<String>> {
    xs.iter().map(|r| row(r)).collect()
}

#[test]
fn merge_two_files_with_cut() {
    // one primary file with two data rows, one non-primary file with five
    // rows and a cut count of two, which removes one leading row
    let f1 = File::new(
        "report-MAIN.xlsx".to_string(),
        "d1".to_string(),
        grid(&[&["H1", "H2"], &["a1", "a2"], &["b1", "b2"]]),
        true,
        1,
    );
    let f2 = File::new(
        "other.xlsx".to_string(),
        "d2".to_string(),
        grid(&[
            &["X1", "X2"],
            &["c1", "c2"],
            &["d1", "d2"],
            &["e1", "e2"],
            &["f1", "f2"],
        ]),
        false,
        2,
    );
    let map = FilesMap {
        files: vec![f2, f1],
        sort_by_date: false,
        sort_by_file: false,
        cutting_rows: 2,
    };
    let merged = map.merge().unwrap().write_to_vec();
    assert_eq!(merged.len(), 6);
    assert_eq!(
        merged[0],
        row(&[
            "Date Modified",
            "Number of Files",
            "Series Number",
            "Count Number",
            "File Name",
            "H1",
            "H2"
        ])
    );
    assert_eq!(merged[1], row(&["d1", "1", "1", "1-1", "report.xlsx", "a1", "a2"]));
    assert_eq!(merged[2], row(&["d1", "1", "2", "1-2", "report.xlsx", "b1", "b2"]));
    assert_eq!(merged[3], row(&["d2", "2", "3", "2-1", "other.xlsx", "d1", "d2"]));
    assert_eq!(merged[4], row(&["d2", "2", "4", "2-2", "other.xlsx", "e1", "e2"]));
    assert_eq!(merged[5], row(&["d2", "2", "5", "2-3", "other.xlsx", "f1", "f2"]));
}

#[test]
fn merge_sorts_by_parsed_date() {
    // lexically "2024/10/1" sorts before "2024/2/1"; chronologically it is
    // the other way around, so this fails if the dates are not parsed
    let f1 = File::new(
        "a.xlsx".to_string(),
        "2024/10/1 00:00".to_string(),
        grid(&[&["H"], &["a-data"]]),
        false,
        1,
    );
    let f2 = File::new(
        "b.xlsx".to_string(),
        "2024/2/1 00:00".to_string(),
        grid(&[&["H"], &["b-data"]]),
        false,
        2,
    );
    let map = FilesMap {
        files: vec![f1, f2],
        sort_by_date: true,
        sort_by_file: false,
        cutting_rows: 0,
    };
    let merged = map.merge().unwrap().write_to_vec();
    assert_eq!(merged[1][4], "b.xlsx".to_string());
    assert_eq!(merged[1][5], "b-data".to_string());
    assert_eq!(merged[2][4], "a.xlsx".to_string());
}

#[test]
fn merge_rejects_unparseable_date() {
    let f1 = File::new(
        "a.xlsx".to_string(),
        "yesterday".to_string(),
        grid(&[&["H"], &["a"]]),
        false,
        1,
    );
    let map = FilesMap {
        files: vec![f1],
        sort_by_date: true,
        sort_by_file: false,
        cutting_rows: 0,
    };
    assert_eq!(map.merge().unwrap_err(), Error::MalformedField);
}

#[test]
fn merge_sorts_by_natural_filename() {
    let f1 = File::new(
        "FILE10.xlsx".to_string(),
        "d1".to_string(),
        grid(&[&["H"], &["ten"]]),
        false,
        1,
    );
    let f2 = File::new(
        "file2.XLSX".to_string(),
        "d2".to_string(),
        grid(&[&["H"], &["two"]]),
        false,
        2,
    );
    let map = FilesMap {
        files: vec![f1, f2],
        sort_by_date: false,
        sort_by_file: true,
        cutting_rows: 0,
    };
    let merged = map.merge().unwrap().write_to_vec();
    assert_eq!(merged[1][5], "two".to_string());
    assert_eq!(merged[2][5], "ten".to_string());
}

#[test]
fn merge_promotion_is_idempotent_end_to_end() {
    let make = || {
        vec![
            File::new("n1".to_string(), "d".to_string(), grid(&[&["H"], &["x"]]), false, 1),
            File::new("n2".to_string(), "d".to_string(), grid(&[&["H"], &["y"]]), true, 2),
            File::new("n3".to_string(), "d".to_string(), grid(&[&["H"], &["z"]]), false, 3),
        ]
    };
    let mut once = make();
    excel_merge::order::promote_main_files(&mut once);
    let order_once: Vec<String> = once.iter().map(|f| f.name.clone()).collect();
    excel_merge::order::promote_main_files(&mut once);
    let order_twice: Vec<String> = once.iter().map(|f| f.name.clone()).collect();
    assert_eq!(order_once, order_twice);
    assert_eq!(order_once, vec!["n2".to_string(), "n1".to_string(), "n3".to_string()]);
}

#[test]
fn search_matches_only_under_requested_title() {
    let cond = || Conditions {
        conditions: vec![Search {
            data: "X".to_string(),
            title: Some("Col1".to_string()),
            intersections: vec![],
        }],
    };
    let hit = File::new(
        "f.xlsx".to_string(),
        "d".to_string(),
        grid(&[&["Col1", "Col2"], &["X", "Y"]]),
        false,
        1,
    );
    let (rows, _) = search_from_files(&vec![hit], &cond());
    assert_eq!(rows.len(), 2);
    assert_eq!(rows[0], row(&["Col1", "Col2"]));
    assert_eq!(rows[1], row(&["d", "1", "1", "1-2", "f.xlsx", "X", "Y"]));

    let miss = File::new(
        "f.xlsx".to_string(),
        "d".to_string(),
        grid(&[&["Col1", "Col2"], &["Y", "X"]]),
        false,
        1,
    );
    let (rows, _) = search_from_files(&vec![miss], &cond());
    assert_eq!(rows.len(), 1);
}

#[test]
fn search_intersections_must_hold() {
    let cond = Conditions {
        conditions: vec![Search {
            data: "X".to_string(),
            title: None,
            intersections: vec![Search {
                data: "N059".to_string(),
                title: Some("Code".to_string()),
                intersections: vec![],
            }],
        }],
    };
    let ok = File::new(
        "f.xlsx".to_string(),
        "d".to_string(),
        grid(&[&["Col1", "Code"], &["X", "N059"]]),
        false,
        1,
    );
    let (rows, _) = search_from_files(&vec![ok], &cond);
    assert_eq!(rows.len(), 2);

    let bad = Conditions {
        conditions: vec![Search {
            data: "X".to_string(),
            title: None,
            intersections: vec![Search {
                data: "N059".to_string(),
                title: Some("Col1".to_string()),
                intersections: vec![],
            }],
        }],
    };
    let not_under_title = File::new(
        "f.xlsx".to_string(),
        "d".to_string(),
        grid(&[&["Col1", "Code"], &["X", "N059"]]),
        false,
        1,
    );
    let (rows, _) = search_from_files(&vec![not_under_title], &bad);
    assert_eq!(rows.len(), 1);
}

#[test]
fn search_is_deterministic() {
    let files = || {
        vec![File::new(
            "f.xlsx".to_string(),
            "d".to_string(),
            grid(&[&["A", "B"], &["X", "Y"], &["X", "Z"]]),
            false,
            1,
        )]
    };
    let cond = || Conditions {
        conditions: vec![Search {
            data: "X".to_string(),
            title: None,
            intersections: vec![],
        }],
    };
    let first = search_from_files(&files(), &cond());
    let second = search_from_files(&files(), &cond());
    assert_eq!(first.0, second.0);
    assert_eq!(first.1, second.1);
}

#[test]
fn search_on_empty_set_fails() {
    let map = FilesMap {
        files: vec![],
        sort_by_date: false,
        sort_by_file: false,
        cutting_rows: 0,
    };
    let r = map.search(Conditions { conditions: vec![] });
    assert_eq!(r.unwrap_err(), Error::NoFilesFound);
}

#[test]
fn merge_then_search_round_trip() {
    let f1 = File::new(
        "report-MAIN.xlsx".to_string(),
        "d1".to_string(),
        grid(&[&["H1", "H2"], &["a1", "a2"], &["b1", "b2"]]),
        true,
        1,
    );
    let map = FilesMap {
        files: vec![f1],
        sort_by_date: false,
        sort_by_file: false,
        cutting_rows: 0,
    };
    let merged = map.merge().unwrap().write_to_vec();
    let refed = File::new("merged.xlsx".to_string(), "d".to_string(), merged.clone(), false, 9);
    let cond = Conditions {
        conditions: vec![Search {
            data: "".to_string(),
            title: None,
            intersections: vec![],
        }],
    };
    let (rows, _) = search_from_files(&vec![refed], &cond);
    assert_eq!(rows.len(), merged.len());
    assert_eq!(rows[0], merged[0]);
    for j in 1..merged.len() {
        assert_eq!(rows[j][5..].to_vec(), merged[j]);
    }
}

#[test]
fn search_never_matches_the_header_row() {
    let f = File::new(
        "f.xlsx".to_string(),
        "d".to_string(),
        grid(&[&["Needle", "Col2"], &["a", "b"]]),
        false,
        1,
    );
    let cond = Conditions {
        conditions: vec![Search {
            data: "Needle".to_string(),
            title: None,
            intersections: vec![],
        }],
    };
    let (rows, _) = search_from_files(&vec![f], &cond);
    // only the title bar: the header row itself is not searched
    assert_eq!(rows.len(), 1);
}

#[test]
fn search_emits_one_row_per_matching_condition() {
    let f = File::new(
        "f.xlsx".to_string(),
        "d".to_string(),
        grid(&[&["A", "B"], &["xy", "z"]]),
        false,
        1,
    );
    let cond = Conditions {
        conditions: vec![
            Search { data: "x".to_string(), title: None, intersections: vec![] },
            Search { data: "y".to_string(), title: None, intersections: vec![] },
        ],
    };
    let (rows, _) = search_from_files(&vec![f], &cond);
    // the row matches both conditions and is emitted once for each
    assert_eq!(rows.len(), 3);
    assert_eq!(rows[1][5..], rows[2][5..]);
    // the running row counter still advances per emitted row
    assert_eq!(rows[1][2], "1".to_string());
    assert_eq!(rows[2][2], "2".to_string());
}
