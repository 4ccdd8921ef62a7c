use luminatti::git::{
    changed_files, git_show_head_file, git_text, head_commit, is_luminatti_metadata, remote_status,
};

fn metadata_scenario() {
    assert!(is_luminatti_metadata(".luminatti/settings.json"));
    assert!(is_luminatti_metadata(".luminatti/comments.json"));
    assert!(!is_luminatti_metadata("src/.luminatti/settings.json"));
    assert!(!is_luminatti_metadata(".luminatti-example"));
}

#[test]
fn git_luminatti_metadata_is_not_shown_as_a_reviewable_change() {
    metadata_scenario();
}

#[test]
fn main_luminatti_metadata_is_not_shown_as_a_reviewable_change() {
    metadata_scenario();
}

#[test]
fn porcelain_records_become_changed_files_without_metadata() {
    let files = changed_files(b" M src/main.rs\0?? .luminatti/comments.json\0?? notes.md\0");
    let listed = files
        .iter()
        .map(|file| (file.status.as_str(), file.path.as_str()))
        .collect::<Vec<_>>();
    assert_eq!(listed, vec![(" M", "src/main.rs"), ("??", "notes.md")]);
}

#[test]
fn renames_list_the_new_path_and_skip_the_old_one() {
    let files = changed_files(b"R  new.rs\0old.rs\0 M lib.rs\0");
    let listed = files
        .iter()
        .map(|file| (file.status.as_str(), file.path.as_str()))
        .collect::<Vec<_>>();
    assert_eq!(listed, vec![("R ", "new.rs"), (" M", "lib.rs")]);
}

#[test]
fn metadata_directory_itself_is_metadata() {
    assert!(is_luminatti_metadata(".luminatti"));
    assert!(!is_luminatti_metadata(".luminatt"));
}

#[test]
fn remote_status_reads_branch_and_upstream_counts() {
    let status = remote_status(Some("main\n"), Some("2\t5\n"));
    assert_eq!(status.branch, "main");
    assert_eq!(status.behind, Some(2));
    assert_eq!(status.ahead, Some(5));

    let detached = remote_status(Some("\n"), None);
    assert_eq!(detached.branch, "detached");
    assert_eq!(detached.behind, None);
    assert_eq!(detached.ahead, None);
}

#[test]
fn head_commit_is_trimmed_or_empty() {
    assert_eq!(head_commit(Some("abc123\n")), "abc123");
    assert_eq!(head_commit(None), "");
}

#[test]
fn missing_head_file_reads_as_empty() {
    assert_eq!(git_show_head_file(true, b"fn main() {}\n"), "fn main() {}\n");
    assert_eq!(git_show_head_file(false, b"fatal"), "");
}

#[test]
fn failed_git_commands_report_their_arguments_and_stderr() {
    let args = vec!["status".to_owned(), "--porcelain".to_owned()];
    assert_eq!(git_text(&args, true, b"ok\n", b""), Ok("ok\n".to_owned()));
    let error = git_text(&args, false, b"", b"fatal: not a repository\n").unwrap_err();
    assert!(error.contains("git status --porcelain"));
    assert!(error.contains("fatal: not a repository"));
}
