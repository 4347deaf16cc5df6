//! End-to-end tests of the duplicate-detection pipeline on in-memory
//! contents: size partitioning, partial-prefix fingerprints, full-content
//! fingerprints, and the resulting groups, statistics and link outcomes.

use dedup::actions::apply_link_events;
use dedup::actions::plan_group_links;
use dedup::actions::LinkOutcome;
use dedup::digest::content_digest;
use dedup::digest::digests_equal;
use dedup::digest::partial_digest;
use dedup::digest::Digest;
use dedup::digest::PARTIAL_HASH_SIZE;
use dedup::grouping::group_by_size_with_stats;
use dedup::hasher::duplicate_groups_for_size;
use dedup::hasher::group_by_digest;
use dedup::hasher::HashedFile;
use dedup::output::DuplicateReport;
use dedup::scanner::FileEntry;

fn hashed(path: &str, digest: Digest) -> HashedFile {
    HashedFile { path: String::from(path), digest }
}

#[test]
fn test_digest_is_fixed_width() {
    // 32 bytes whatever the input length: the fingerprint is not the input
    let d = content_digest(b"hi");
    assert_eq!(d.bytes.len(), 32);
    let e = content_digest(&[0u8; 100_000]);
    assert_eq!(e.bytes.len(), 32);
}

#[test]
fn test_digest_separates_contents() {
    let a = content_digest(b"hello");
    let b = content_digest(b"world");
    let a2 = content_digest(b"hello");

    assert!(digests_equal(&a, &a2));
    assert!(!digests_equal(&a, &b));
}

#[test]
fn test_partial_digest_of_short_content_is_full() {
    // Shorter than the prefix window: the whole content is fingerprinted
    let d = partial_digest(b"hello world");
    let e = content_digest(b"hello world");
    assert!(digests_equal(&d, &e));
}

#[test]
fn test_partial_digest_of_empty_content() {
    let d = partial_digest(b"");
    assert_eq!(d.bytes.len(), 32);
}

#[test]
fn test_partial_digest_reads_only_window() {
    // Same first window, different endings: the partial fingerprints
    // collide, the full ones do not.
    let mut content1 = vec![b'A'; PARTIAL_HASH_SIZE];
    content1.extend_from_slice(b"DIFFERENT_ENDING_1");

    let mut content2 = vec![b'A'; PARTIAL_HASH_SIZE];
    content2.extend_from_slice(b"DIFFERENT_ENDING_2");

    let prefix_a = partial_digest(&content1);
    let prefix_b = partial_digest(&content2);
    assert!(digests_equal(&prefix_a, &prefix_b));

    let f1 = content_digest(&content1);
    let f2 = content_digest(&content2);
    assert!(!digests_equal(&f1, &f2));
}

#[test]
fn test_group_by_digest_finds_duplicates() {
    let d = content_digest(b"duplicate content");
    let groups = group_by_digest(vec![
        hashed("/dup1.txt", content_digest(b"duplicate content")),
        hashed("/dup2.txt", content_digest(b"duplicate content")),
        hashed("/unique.txt", content_digest(b"different")),
    ]);

    assert_eq!(groups.len(), 1);
    assert_eq!(groups[0].len(), 2);
    assert!(groups[0].contains(&String::from("/dup1.txt")));
    assert!(groups[0].contains(&String::from("/dup2.txt")));
    assert_eq!(d.bytes.len(), 32);
}

#[test]
fn test_group_by_digest_filters_unique() {
    let groups = group_by_digest(vec![
        hashed("/a.txt", content_digest(b"content a")),
        hashed("/b.txt", content_digest(b"content b")),
        hashed("/c.txt", content_digest(b"content c")),
    ]);

    assert!(groups.is_empty());
}

#[test]
fn test_two_identical_files_one_group() {
    // Two files both holding the same 18 bytes: one duplicate group of two
    // members, and linking the one duplicate reclaims 18 bytes.
    let content: &[u8] = b"identical content\n";
    assert_eq!(content.len(), 18);

    let entries = vec![
        FileEntry { path: String::from("/t/a.txt"), size: 18 },
        FileEntry { path: String::from("/t/b.txt"), size: 18 },
    ];
    let (size_groups, stats) = group_by_size_with_stats(entries);
    assert_eq!(stats.total_files, 2);
    assert_eq!(size_groups.len(), 1);
    let sg = &size_groups[0];

    // partial phase
    let partial_entries: Vec<HashedFile> = sg
        .files
        .iter()
        .map(|p| hashed(p, partial_digest(content)))
        .collect();
    let buckets = group_by_digest(partial_entries);
    assert_eq!(buckets.len(), 1);

    // full phase on the surviving bucket
    let full_entries: Vec<HashedFile> = buckets[0]
        .iter()
        .map(|p| hashed(p, content_digest(content)))
        .collect();
    let dup_groups = duplicate_groups_for_size(sg.size, full_entries);
    assert_eq!(dup_groups.len(), 1);
    assert_eq!(dup_groups[0].size, 18);
    assert_eq!(dup_groups[0].files.len(), 2);

    // report
    let report = DuplicateReport::from_groups(dup_groups, 2);
    assert_eq!(report.stats.duplicate_files, 2);
    assert_eq!(report.stats.wasted_bytes, 18);

    // linking the duplicate reclaims the 18 bytes
    let jobs = plan_group_links(&report.groups[0]);
    assert_eq!(jobs.len(), 1);
    let outcomes = vec![LinkOutcome::Linked];
    let result = apply_link_events(&jobs, &outcomes);
    assert_eq!(result.files_linked, 1);
    assert_eq!(result.bytes_saved, 18);
    assert!(result.errors.is_empty());
}

#[test]
fn test_equal_size_distinct_content_no_groups() {
    // Three files of equal size with pairwise distinct content: no
    // duplicate groups survive the pipeline.
    let c1: &[u8] = b"content one bytes";
    let c2: &[u8] = b"content two bytes";
    let c3: &[u8] = b"content six bytes";
    assert_eq!(c1.len(), c2.len());
    assert_eq!(c2.len(), c3.len());

    let entries = vec![
        FileEntry { path: String::from("/t/a.txt"), size: c1.len() as u64 },
        FileEntry { path: String::from("/t/b.txt"), size: c2.len() as u64 },
        FileEntry { path: String::from("/t/c.txt"), size: c3.len() as u64 },
    ];
    let (size_groups, _) = group_by_size_with_stats(entries);
    assert_eq!(size_groups.len(), 1);

    let partial_entries = vec![
        hashed("/t/a.txt", partial_digest(c1)),
        hashed("/t/b.txt", partial_digest(c2)),
        hashed("/t/c.txt", partial_digest(c3)),
    ];
    let buckets = group_by_digest(partial_entries);
    assert!(buckets.is_empty());
}

#[test]
fn test_partial_collision_rejected_by_full_phase() {
    // Files of twice the prefix window, identical in the first window and
    // differing after: the partial phase wrongly buckets them together,
    // the full phase rejects them, so no duplicate group comes out.
    let mut c1 = vec![b'X'; 2 * PARTIAL_HASH_SIZE];
    let mut c2 = vec![b'X'; 2 * PARTIAL_HASH_SIZE];
    c1[PARTIAL_HASH_SIZE + 500] = b'A';
    c2[PARTIAL_HASH_SIZE + 500] = b'B';

    let partial_entries = vec![
        hashed("/t/a.bin", partial_digest(&c1)),
        hashed("/t/b.bin", partial_digest(&c2)),
    ];
    let buckets = group_by_digest(partial_entries);
    assert_eq!(buckets.len(), 1); // a partial-only pipeline would group them

    let full_entries = vec![
        hashed("/t/a.bin", content_digest(&c1)),
        hashed("/t/b.bin", content_digest(&c2)),
    ];
    let dup_groups = duplicate_groups_for_size(2 * PARTIAL_HASH_SIZE as u64, full_entries);
    assert!(dup_groups.is_empty());
}
