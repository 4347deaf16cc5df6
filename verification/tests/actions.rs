//! Tests for canonical-file selection, link planning and outcome
//! accounting.

use dedup::actions::apply_link_events;
use dedup::actions::plan_group_links;
use dedup::actions::same_identity;
use dedup::actions::select_original;
use dedup::actions::temp_link_path;
use dedup::actions::ActionResult;
use dedup::actions::LinkJob;
use dedup::actions::LinkOutcome;
use dedup::output::DuplicateGroup;

#[test]
fn test_select_original_shortest_path() {
    let files = vec![
        String::from("/a/b/c/file.txt"),
        String::from("/a/file.txt"),
        String::from("/a/b/file.txt"),
    ];

    let original = select_original(&files);
    assert_eq!(original, &String::from("/a/file.txt"));
}

#[test]
fn test_select_original_single_file() {
    let files = vec![String::from("/only/file.txt")];
    let original = select_original(&files);
    assert_eq!(original, &String::from("/only/file.txt"));
}

#[test]
fn test_select_original_tie_keeps_first() {
    let files = vec![
        String::from("/d/one.txt"),
        String::from("/d/two.txt"),
        String::from("/d/six.txt"),
    ];
    let original = select_original(&files);
    assert_eq!(original, &String::from("/d/one.txt"));
}

#[test]
fn test_plan_links_skips_canonical() {
    let group = DuplicateGroup {
        size: 7,
        files: vec![
            String::from("/a/b/c/file.txt"),
            String::from("/a/file.txt"),
            String::from("/a/b/file.txt"),
        ],
    };
    let jobs = plan_group_links(&group);

    assert_eq!(jobs.len(), 2);
    assert_eq!(jobs[0].path, "/a/b/c/file.txt");
    assert_eq!(jobs[0].original, "/a/file.txt");
    assert_eq!(jobs[0].size, 7);
    assert_eq!(jobs[1].path, "/a/b/file.txt");
    assert_eq!(jobs[1].original, "/a/file.txt");
}

#[test]
fn test_plan_links_small_group_is_noop() {
    let group = DuplicateGroup { size: 7, files: vec![String::from("/only.txt")] };
    let jobs = plan_group_links(&group);
    assert!(jobs.is_empty());

    let empty = DuplicateGroup { size: 7, files: vec![] };
    assert!(plan_group_links(&empty).is_empty());
}

fn job(path: &str, original: &str, size: u64) -> LinkJob {
    LinkJob { path: String::from(path), original: String::from(original), size }
}

#[test]
fn test_apply_counts_links_and_bytes() {
    let jobs = vec![job("/b.txt", "/a.txt", 18), job("/c.txt", "/a.txt", 18)];
    let outcomes = vec![LinkOutcome::Linked, LinkOutcome::Linked];
    let result = apply_link_events(&jobs, &outcomes);

    assert_eq!(result.files_linked, 2);
    assert_eq!(result.bytes_saved, 36);
    assert!(result.errors.is_empty());
}

#[test]
fn test_apply_records_failures_and_continues() {
    let jobs = vec![
        job("/b.txt", "/a.txt", 10),
        job("/c.txt", "/a.txt", 10),
        job("/d.txt", "/a.txt", 10),
    ];
    let outcomes = vec![
        LinkOutcome::Failed(String::from("permission denied")),
        LinkOutcome::Linked,
        LinkOutcome::Failed(String::from("cross-device link")),
    ];
    let result = apply_link_events(&jobs, &outcomes);

    assert_eq!(result.files_linked, 1);
    assert_eq!(result.bytes_saved, 10);
    assert_eq!(result.errors.len(), 2);
    assert_eq!(result.errors[0].0, "/b.txt");
    assert_eq!(result.errors[0].1, "permission denied");
    assert_eq!(result.errors[1].0, "/d.txt");
    assert_eq!(result.errors[1].1, "cross-device link");
}

#[test]
fn test_apply_second_run_all_already_linked() {
    // After a successful run every member shares its original's identity,
    // so the second run's identity check skips every job: nothing is
    // linked and nothing fails.
    let jobs = vec![job("/b.txt", "/a.txt", 18), job("/c.txt", "/a.txt", 18)];
    let outcomes = vec![LinkOutcome::AlreadyLinked, LinkOutcome::AlreadyLinked];
    let result = apply_link_events(&jobs, &outcomes);

    assert_eq!(result.files_linked, 0);
    assert_eq!(result.bytes_saved, 0);
    assert!(result.errors.is_empty());
}

#[test]
fn test_apply_bytes_saturate() {
    let jobs = vec![job("/b.txt", "/a.txt", u64::MAX), job("/c.txt", "/a.txt", 5)];
    let outcomes = vec![LinkOutcome::Linked, LinkOutcome::Linked];
    let result = apply_link_events(&jobs, &outcomes);

    assert_eq!(result.files_linked, 2);
    assert_eq!(result.bytes_saved, u64::MAX);
}

#[test]
fn test_same_identity_checks_device_and_inode() {
    assert!(same_identity(2049, 777, 2049, 777));
    assert!(!same_identity(2049, 777, 2049, 778));
    assert!(!same_identity(2049, 777, 2050, 777));
}

#[test]
fn test_temp_link_path_is_deterministic() {
    // The same target always maps to the same temporary name, inside the
    // same directory, so a leftover from an interrupted run is found
    // again and cleaned up before the next attempt.
    let p = String::from("/data/photos/img.jpg");
    let t1 = temp_link_path(&p);
    let t2 = temp_link_path(&p);

    assert_eq!(t1, t2);
    assert_eq!(t1, "/data/photos/img.jpg.dedup.tmp");
    assert!(!t1.contains("img.jpg/"));
}

#[test]
fn test_default_result_is_empty() {
    let r = ActionResult::default();
    assert_eq!(r.files_linked, 0);
    assert_eq!(r.bytes_saved, 0);
    assert!(r.errors.is_empty());
}
