//! File records as the directory walk hands them to the pipeline, and the
//! size filter applied to them.

use vstd::prelude::*;

verus! {

/// A regular file found by the directory walk: its path and its size in
/// bytes.
#[derive(Debug, Clone)]
pub struct FileEntry {
    pub path: String,
    pub size: u64,
}

/// The effective minimum size: an absent bound means no bound.
pub open spec fn min_threshold(min_size: Option<u64>) -> u64 {
    match min_size {
        Option::Some(m) => m,
        Option::None => 0,
    }
}

/// The entries of `s` whose size is at least `min`, in order.
pub open spec fn entries_at_least(s: Seq<FileEntry>, min: u64) -> Seq<FileEntry>
    decreases s.len(),
{
    if s.len() == 0 {
        Seq::empty()
    } else {
        let rest = entries_at_least(s.drop_last(), min);
        if s.last().size >= min {
            rest.push(s.last())
        } else {
            rest
        }
    }
}

/// Keeps the entries whose size meets the minimum bound; entries below it
/// are dropped before any grouping happens.
pub fn filter_min_size(entries: Vec<FileEntry>, min_size: Option<u64>) -> (kept: Vec<FileEntry>)
    ensures
        kept@ == entries_at_least(entries@, min_threshold(min_size)),
{
    let min: u64 = match min_size {
        Option::Some(m) => m,
        Option::None => 0,
    };
    let mut kept: Vec<FileEntry> = Vec::new();
    let n = entries.len();
    for i in 0..n
        invariant
            n == entries@.len(),
            kept@ == entries_at_least(entries@.take(i as int), min),
            min == min_threshold(min_size),
    {
        let e = &entries[i];
        proof {
            assert(entries@.take(i + 1).drop_last() =~= entries@.take(i as int));
            assert(entries@.take(i + 1).last() == entries@[i as int]);
        }
        if e.size >= min {
            kept.push(FileEntry { path: e.path.clone(), size: e.size });
            proof {
                assert(kept@.last() == entries@[i as int]);
                assert(kept@ =~= entries_at_least(entries@.take(i + 1), min));
            }
        }
    }
    proof {
        assert(entries@.take(n as int) =~= entries@);
    }
    kept
}

} // verus!
