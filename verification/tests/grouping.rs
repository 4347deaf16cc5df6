//! Tests for the size partitioner.

use dedup::grouping::group_by_size;
use dedup::grouping::group_by_size_with_stats;
use dedup::scanner::FileEntry;

/// Helper to create a FileEntry for testing
fn file_entry(path: &str, size: u64) -> FileEntry {
    FileEntry { path: String::from(path), size }
}

#[test]
fn test_empty_input() {
    let files: Vec<FileEntry> = vec![];
    let groups = group_by_size(files);

    assert!(groups.is_empty());
}

#[test]
fn test_single_file_filtered_out() {
    let files = vec![file_entry("/a.txt", 100)];
    let groups = group_by_size(files);

    // Single file has no duplicates, should be filtered out
    assert!(groups.is_empty());
}

#[test]
fn test_unique_sizes_filtered_out() {
    let files = vec![
        file_entry("/a.txt", 100),
        file_entry("/b.txt", 200),
        file_entry("/c.txt", 300),
    ];
    let groups = group_by_size(files);

    // All files have unique sizes, no potential duplicates
    assert!(groups.is_empty());
}

#[test]
fn test_same_size_grouped() {
    let files = vec![file_entry("/a.txt", 100), file_entry("/b.txt", 100)];
    let groups = group_by_size(files);

    assert_eq!(groups.len(), 1);
    assert_eq!(groups[0].size, 100);
    assert_eq!(groups[0].files.len(), 2);
}

#[test]
fn test_multiple_groups() {
    let files = vec![
        file_entry("/a.txt", 100),
        file_entry("/b.txt", 100),
        file_entry("/c.txt", 200),
        file_entry("/d.txt", 200),
        file_entry("/e.txt", 200),
    ];
    let groups = group_by_size(files);

    assert_eq!(groups.len(), 2);

    // Find each group by size
    let group_100 = groups.iter().find(|g| g.size == 100).unwrap();
    let group_200 = groups.iter().find(|g| g.size == 200).unwrap();

    assert_eq!(group_100.files.len(), 2);
    assert_eq!(group_200.files.len(), 3);
}

#[test]
fn test_mixed_unique_and_duplicates() {
    let files = vec![
        file_entry("/unique.txt", 50),
        file_entry("/a.txt", 100),
        file_entry("/b.txt", 100),
        file_entry("/solo.txt", 999),
    ];
    let groups = group_by_size(files);

    assert_eq!(groups.len(), 1);
    assert_eq!(groups[0].size, 100);
    assert_eq!(groups[0].files.len(), 2);
}

#[test]
fn test_zero_size_files() {
    let files = vec![file_entry("/empty1.txt", 0), file_entry("/empty2.txt", 0)];
    let groups = group_by_size(files);

    assert_eq!(groups.len(), 1);
    assert_eq!(groups[0].size, 0);
    assert_eq!(groups[0].files.len(), 2);
}

#[test]
fn test_stats_calculation() {
    let files = vec![
        file_entry("/unique.txt", 50),
        file_entry("/a.txt", 100),
        file_entry("/b.txt", 100),
        file_entry("/c.txt", 200),
        file_entry("/d.txt", 200),
        file_entry("/solo.txt", 999),
    ];
    let (groups, stats) = group_by_size_with_stats(files);

    assert_eq!(stats.total_files, 6);
    assert_eq!(stats.n_candidate_groups, 2); // 100 and 200
    assert_eq!(stats.n_candidate_files, 4); // 2 + 2 files
    assert_eq!(groups.len(), 2);
}

#[test]
fn test_paths_preserved() {
    let files = vec![
        file_entry("/path/to/file1.txt", 100),
        file_entry("/another/path/file2.txt", 100),
    ];
    let groups = group_by_size(files);

    assert_eq!(groups.len(), 1);
    let paths: Vec<&str> = groups[0].files.iter().map(|p| p.as_str()).collect();

    assert!(paths.contains(&"/path/to/file1.txt"));
    assert!(paths.contains(&"/another/path/file2.txt"));
}

#[test]
fn test_min_size_filter_keeps_larger_files() {
    let files = vec![
        file_entry("/tiny.txt", 2),
        file_entry("/small.txt", 5),
        file_entry("/large.txt", 12),
    ];
    let kept = dedup::scanner::filter_min_size(files, Some(5));

    assert_eq!(kept.len(), 2);
    assert!(!kept.iter().any(|f| f.path == "/tiny.txt"));
    assert!(kept.iter().any(|f| f.path == "/small.txt"));
    assert!(kept.iter().any(|f| f.path == "/large.txt"));
}

#[test]
fn test_min_size_filter_absent_keeps_all() {
    let files = vec![file_entry("/a.txt", 0), file_entry("/b.txt", 1)];
    let kept = dedup::scanner::filter_min_size(files, None);

    assert_eq!(kept.len(), 2);
}
