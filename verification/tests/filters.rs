use luminatti::filters::{compile_filters, partition_filtered_files, FilterError};
use luminatti::git::FileItem;

fn ignored_scenario() {
    let filter = match compile_filters(&["generated/**".to_owned()]) {
        Ok(filter) => filter,
        Err(_) => panic!("valid glob"),
    };
    let files = vec![
        FileItem {
            path: "src/main.rs".into(),
            status: " M".into(),
        },
        FileItem {
            path: "generated/client.rs".into(),
            status: "??".into(),
        },
    ];
    let (ignored, visible) = partition_filtered_files(files, &filter);
    assert_eq!(ignored[0].path, "generated/client.rs");
    assert_eq!(visible[0].path, "src/main.rs");
}

#[test]
fn filters_ignored_tab_contains_files_excluded_by_filter_globs() {
    ignored_scenario();
}

#[test]
fn main_ignored_tab_contains_files_excluded_by_filter_globs() {
    ignored_scenario();
}

#[test]
fn invalid_globs_are_reported_by_pattern() {
    match compile_filters(&["ok/**".to_owned(), "bad[".to_owned()]) {
        Err(FilterError::InvalidPattern(pattern)) => assert_eq!(pattern, "bad["),
        _ => panic!("the bad pattern is reported"),
    }
}

#[test]
fn partitioning_keeps_every_file_exactly_once_in_order() {
    let filter = match compile_filters(&["*.lock".to_owned(), "docs/**".to_owned()]) {
        Ok(filter) => filter,
        Err(_) => panic!("valid globs"),
    };
    let files = ["Cargo.lock", "src/a.rs", "docs/x.md", "src/b.rs"]
        .iter()
        .map(|path| FileItem {
            path: (*path).to_owned(),
            status: " M".to_owned(),
        })
        .collect::<Vec<_>>();
    let (ignored, visible) = partition_filtered_files(files, &filter);
    let names = |v: &[FileItem]| v.iter().map(|f| f.path.clone()).collect::<Vec<_>>();
    assert_eq!(names(&ignored), vec!["Cargo.lock", "docs/x.md"]);
    assert_eq!(names(&visible), vec!["src/a.rs", "src/b.rs"]);
}

#[test]
fn no_filters_ignore_nothing() {
    let filter = match compile_filters(&[]) {
        Ok(filter) => filter,
        Err(_) => panic!("empty set builds"),
    };
    let files = vec![FileItem {
        path: "a.rs".into(),
        status: " M".into(),
    }];
    let (ignored, visible) = partition_filtered_files(files, &filter);
    assert!(ignored.is_empty());
    assert_eq!(visible.len(), 1);
}
