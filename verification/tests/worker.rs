use luminatti::settings::ProjectSettings;
use luminatti::diff_view::DiffMode;
use luminatti::worker::Worker;

#[test]
fn slow_work_does_not_block_requests_and_intermediate_requests_are_skipped() {
    let mut worker: Worker<u32, u32> = Worker::new();
    worker.request(1);
    let (generation, started) = worker.start_next().unwrap();
    assert_eq!(started, 1);
    worker.request(2);
    worker.request(3);
    worker.complete(generation, started);
    assert_eq!(worker.start_next().map(|(_, input)| input), Some(3));
    assert_eq!(worker.start_next(), None);
}

#[test]
fn intermediate_requests_are_skipped_and_results_carry_their_generation() {
    let mut worker: Worker<&str, usize> = Worker::new();
    assert_eq!(worker.request("first"), 1);
    let (generation, input) = worker.start_next().unwrap();
    assert_eq!((generation, input), (1, "first"));
    assert!(!worker.has_work());

    assert_eq!(worker.request("second"), 2);
    assert_eq!(worker.request("third"), 3);
    assert!(worker.complete(generation, input.len()).is_none());
    assert_eq!(worker.start_next(), Some((3, "third")));
    assert!(!worker.has_work());

    assert_eq!(worker.take(), Some((1, 5)));
    assert_eq!(worker.take(), None);
}

#[test]
fn an_untaken_result_is_replaced_by_a_newer_one() {
    let mut worker: Worker<u8, u8> = Worker::new();
    worker.request(1);
    worker.start_next();
    assert_eq!(worker.complete(1, 10), None);
    assert_eq!(worker.complete(2, 20), Some((1, 10)));
    assert_eq!(worker.take(), Some((2, 20)));
}

#[test]
fn a_closed_worker_starts_and_accepts_nothing() {
    let mut worker: Worker<u8, u8> = Worker::new();
    worker.request(1);
    worker.close();
    assert!(worker.has_work());
    assert_eq!(worker.start_next(), None);
    assert_eq!(worker.complete(1, 10), Some((1, 10)));
    assert_eq!(worker.take(), None);
}

#[test]
fn settings_default_and_new_use_the_current_version() {
    let defaults = ProjectSettings::default();
    assert_eq!(defaults.version, 1);
    assert_eq!(defaults.diff_mode, DiffMode::SideBySide);
    assert!(!defaults.show_unchanged);
    assert_eq!(defaults.divider, 34);
    let chosen = ProjectSettings::new(DiffMode::Unified, true, 42);
    assert_eq!(chosen, ProjectSettings { version: 1, diff_mode: DiffMode::Unified, show_unchanged: true, divider: 42 });
}
