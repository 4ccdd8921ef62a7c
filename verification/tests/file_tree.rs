use luminatti::file_tree::{
    adjacent_file_index, file_tree_rows, flatten_tree, row_of_file, toggle_directory, without_ancestors, TreeRow,
};
use luminatti::git::FileItem;

fn items(paths: &[&str], status: &str) -> Vec<FileItem> {
    paths
        .iter()
        .map(|path| FileItem {
            path: (*path).to_owned(),
            status: status.to_owned(),
        })
        .collect()
}

fn navigation_scenario() {
    let files = items(&["src/b.rs", "src/a.rs", "src/c.rs"], " M");

    assert_eq!(adjacent_file_index(&files, Some(0), true), Some(2));
    assert_eq!(adjacent_file_index(&files, Some(0), false), Some(1));
    assert_eq!(adjacent_file_index(&files, Some(2), true), None);
    assert_eq!(adjacent_file_index(&files, Some(1), false), None);
}

#[test]
fn file_tree_changed_tree_hides_collapsed_descendants() {
    let files = items(&["src/main.rs", "src/lib.rs"], " M");
    let expanded = file_tree_rows(&files, &[]);
    assert_eq!(expanded.len(), 3);
    assert!(expanded[0].expanded);
    assert_eq!(expanded[1].path, "src/lib.rs");
    assert_eq!(expanded[1].file_index, Some(1));

    let collapsed = file_tree_rows(&files, &["src".to_owned()]);
    assert_eq!(collapsed.len(), 1);
    assert!(!collapsed[0].expanded);
}

#[test]
fn changed_tree_compacts_a_single_file_path_into_one_row() {
    let files = items(
        &["packages/business/src/services/finance/payroll-journal/examples/report.json"],
        "??",
    );

    let rows = file_tree_rows(&files, &[]);

    assert_eq!(rows.len(), 1);
    assert_eq!(rows[0].path, files[0].path);
    assert_eq!(rows[0].label, files[0].path);
    assert_eq!(rows[0].file_index, Some(0));
}

#[test]
fn changed_tree_compacts_single_child_paths_around_a_branch() {
    let files = items(
        &["packages/business/src/main.rs", "packages/business/tests/main.rs"],
        " M",
    );

    let rows = file_tree_rows(&files, &[]);
    let labels = rows
        .iter()
        .map(|row| (row.label.as_str(), row.depth, row.file_index))
        .collect::<Vec<_>>();

    assert_eq!(
        labels,
        vec![
            ("packages/business", 0, None),
            ("src/main.rs", 1, Some(0)),
            ("tests/main.rs", 1, Some(1)),
        ]
    );
}

#[test]
fn file_tree_file_navigation_follows_display_path_order() {
    navigation_scenario();
}

#[test]
fn main_file_navigation_follows_display_path_order() {
    navigation_scenario();
}

#[test]
fn navigation_from_no_file_starts_at_either_end() {
    let files = items(&["src/b.rs", "src/a.rs", "src/c.rs"], " M");
    assert_eq!(adjacent_file_index(&files, None, true), Some(1));
    assert_eq!(adjacent_file_index(&files, None, false), Some(2));
    assert_eq!(adjacent_file_index(&[], None, true), None);
}

#[test]
fn tree_rows_list_directories_before_their_files_in_path_order() {
    let files = items(&["b.rs", "a/x.rs", "a/y.rs"], " M");
    let rows = file_tree_rows(&files, &[]);
    let paths = rows.iter().map(|row| row.path.as_str()).collect::<Vec<_>>();
    assert_eq!(paths, vec!["a", "a/x.rs", "a/y.rs", "b.rs"]);
    assert_eq!(rows[0].file_index, None);
    assert_eq!(rows[1].depth, 1);
    assert_eq!(rows[3].file_index, Some(0));
}

#[test]
fn flattening_a_trie_honours_collapsed_directories() {
    let segments = |path: &str| -> Vec<Vec<char>> { path.split('/').map(|s| s.chars().collect()).collect() };
    let all = vec![segments("src/main.rs"), segments("src/lib.rs")];
    let mut expanded: Vec<TreeRow> = Vec::new();
    flatten_tree(&all, &Vec::new(), &Vec::new(), &Vec::new(), 0, &mut expanded);
    assert_eq!(expanded.len(), 3);
    assert!(expanded[0].expanded);

    let mut collapsed: Vec<TreeRow> = Vec::new();
    flatten_tree(&all, &vec!["src".chars().collect()], &Vec::new(), &Vec::new(), 0, &mut collapsed);
    assert_eq!(collapsed.len(), 1);
    assert!(!collapsed[0].expanded);
}

#[test]
fn selecting_a_file_opens_its_collapsed_ancestors_only() {
    let collapsed = vec!["src".to_owned(), "src/app".to_owned(), "docs".to_owned(), "sr".to_owned()];
    assert_eq!(without_ancestors(&collapsed, "src/app/main.rs"), vec!["docs".to_owned(), "sr".to_owned()]);
    assert_eq!(without_ancestors(&collapsed, "src"), collapsed);
}

#[test]
fn enter_on_a_directory_folds_and_unfolds_it() {
    let mut collapsed = vec!["docs".to_owned()];
    toggle_directory(&mut collapsed, "src".to_owned());
    assert_eq!(collapsed, vec!["docs".to_owned(), "src".to_owned()]);
    toggle_directory(&mut collapsed, "docs".to_owned());
    assert_eq!(collapsed, vec!["src".to_owned()]);
    toggle_directory(&mut collapsed, "src".to_owned());
    assert!(collapsed.is_empty());
}

#[test]
fn tree_rows_are_found_by_file_index() {
    let files = items(&["a/x.rs", "a/y.rs", "b.rs"], " M");
    let rows = file_tree_rows(&files, &[]);
    assert_eq!(row_of_file(&rows, 0), Some(1));
    assert_eq!(row_of_file(&rows, 2), Some(3));
    assert_eq!(row_of_file(&rows, 7), None);
}

#[test]
fn next_then_previous_file_returns_to_the_start() {
    let files = items(&["src/b.rs", "a.rs", "src/a.rs", "a.rs", "z.md"], " M");
    for i in 0..files.len() {
        if let Some(j) = adjacent_file_index(&files, Some(i), true) {
            assert_eq!(adjacent_file_index(&files, Some(j), false), Some(i));
        }
        if let Some(j) = adjacent_file_index(&files, Some(i), false) {
            assert_eq!(adjacent_file_index(&files, Some(j), true), Some(i));
        }
    }
    assert_eq!(adjacent_file_index(&files, Some(1), true), Some(3));
    assert_eq!(adjacent_file_index(&files, Some(3), false), Some(1));
}
