//! Tests for report construction.

use dedup::output::DuplicateGroup;
use dedup::output::DuplicateReport;

#[test]
fn test_empty_report() {
    let report = DuplicateReport::from_groups(vec![], 100);

    assert_eq!(report.stats.total_files, 100);
    assert_eq!(report.stats.duplicate_files, 0);
    assert_eq!(report.stats.wasted_bytes, 0);
    assert!(report.groups.is_empty());
}

#[test]
fn test_report_stats_formula() {
    // wasted = size * (members - 1) per group; every member is a duplicate
    let groups = vec![
        DuplicateGroup {
            size: 100,
            files: vec![
                String::from("/a.txt"),
                String::from("/b.txt"),
                String::from("/c.txt"),
            ],
        },
        DuplicateGroup {
            size: 200,
            files: vec![String::from("/d.txt"), String::from("/e.txt")],
        },
    ];
    let report = DuplicateReport::from_groups(groups, 9);

    assert_eq!(report.stats.total_files, 9);
    assert_eq!(report.stats.duplicate_files, 5);
    assert_eq!(report.stats.wasted_bytes, 100 * 2 + 200);
    assert_eq!(report.groups.len(), 2);
    assert_eq!(report.groups[0].size, 100);
    assert_eq!(report.groups[1].files.len(), 2);
}

#[test]
fn test_report_wasted_bytes_saturate() {
    let groups = vec![DuplicateGroup {
        size: u64::MAX,
        files: vec![
            String::from("/a.bin"),
            String::from("/b.bin"),
            String::from("/c.bin"),
        ],
    }];
    let report = DuplicateReport::from_groups(groups, 3);

    assert_eq!(report.stats.duplicate_files, 3);
    assert_eq!(report.stats.wasted_bytes, u64::MAX);
}
