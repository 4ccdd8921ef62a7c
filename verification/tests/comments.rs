use luminatti::comments::{
    comment_for_selection, local_source, new_id, remove_local_comment, CommentError, CommentStore,
    ReviewComment,
};
use luminatti::storage::store_version;

fn comment(summary: &str) -> ReviewComment {
    ReviewComment {
        id: new_id(),
        file_path: "src/main.rs".into(),
        old_line: None,
        new_line: Some(1),
        hunk: None,
        summary: summary.into(),
        rationale: None,
        author: None,
        source: "user".into(),
    }
}

fn removal_scenario() {
    let mut store = CommentStore {
        version: store_version(),
        comments: vec![comment("first"), comment("second")],
    };

    let removed = remove_local_comment(&mut store, 0).unwrap();
    assert_eq!(removed.summary, "first");
    assert_eq!(store.comments.len(), 1);
    assert_eq!(store.comments[0].summary, "second");
    assert!(remove_local_comment(&mut store, 1).is_none());
}

#[test]
fn comments_selected_local_comment_can_be_removed_without_affecting_others() {
    removal_scenario();
}

#[test]
fn main_selected_local_comment_can_be_removed_without_affecting_others() {
    removal_scenario();
}

#[test]
fn comment_ids_carry_a_prefix_and_a_uuid() {
    let first = new_id();
    let second = new_id();
    assert!(first.starts_with("luminatti:"));
    assert_eq!(first.len(), 46);
    assert_ne!(first, second);
}

#[test]
fn new_comments_anchor_to_the_selected_lines() {
    let comment = comment_for_selection(Some("src/lib.rs"), Some((Some(3), Some(4))), false, "nit".into())
        .ok()
        .unwrap();
    assert_eq!(comment.file_path, "src/lib.rs");
    assert_eq!((comment.old_line, comment.new_line), (Some(3), Some(4)));
    assert_eq!(comment.summary, "nit");
    assert_eq!(comment.source, local_source());
    assert_eq!(local_source(), "user");

    let final_view = comment_for_selection(Some("src/lib.rs"), Some((Some(3), Some(4))), true, "nit".into())
        .ok()
        .unwrap();
    assert_eq!((final_view.old_line, final_view.new_line), (None, Some(4)));
}

#[test]
fn comments_need_a_file_and_a_line() {
    assert!(matches!(
        comment_for_selection(None, Some((Some(1), None)), false, "x".into()),
        Err(CommentError::NoFile)
    ));
    assert!(matches!(
        comment_for_selection(Some("a.rs"), None, false, "x".into()),
        Err(CommentError::NoLine)
    ));
    assert!(matches!(
        comment_for_selection(Some("a.rs"), Some((Some(2), None)), true, "x".into()),
        Err(CommentError::NoLine)
    ));
}

#[test]
fn default_store_is_empty_at_the_current_version() {
    let store = CommentStore::default();
    assert_eq!(store.version, store_version());
    assert!(store.comments.is_empty());
}

#[test]
fn ids_carry_a_version_4_uuid() {
    let id = new_id();
    let uuid: Vec<char> = id.chars().skip(10).collect();
    assert!(id.starts_with("luminatti:"));
    assert_eq!(uuid.len(), 36);
    for (i, c) in uuid.iter().enumerate() {
        if [8, 13, 18, 23].contains(&i) {
            assert_eq!(*c, '-');
        } else {
            assert!(c.is_ascii_hexdigit() && !c.is_ascii_uppercase());
        }
    }
    assert_eq!(uuid[14], '4');
    assert!(['8', '9', 'a', 'b'].contains(&uuid[19]));
}
