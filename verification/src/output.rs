//! The terminal artifact of the pipeline — confirmed duplicate groups — and
//! the statistics a report derives from them.

use vstd::prelude::*;

verus! {

/// Statistics about the duplicate files found.
#[derive(Debug, Clone)]
pub struct DuplicateStats {
    /// Total number of files scanned.
    pub total_files: usize,
    /// Total number of files that are duplicates (members of any group).
    pub duplicate_files: usize,
    /// Total wasted space in bytes: what collapsing every group to one copy
    /// would reclaim.
    pub wasted_bytes: u64,
}

/// A group of confirmed duplicates: files of this size whose complete
/// contents carry the same fingerprint.
#[derive(Debug, Clone)]
pub struct DuplicateGroup {
    /// Size of each file in this group.
    pub size: u64,
    /// Paths to all duplicate files.
    pub files: Vec<String>,
}

/// Complete report of duplicate findings.
#[derive(Debug, Clone)]
pub struct DuplicateReport {
    pub stats: DuplicateStats,
    pub groups: Vec<DuplicateGroup>,
}

/// The total number of group members across `gs`.
pub open spec fn member_total(gs: Seq<DuplicateGroup>) -> int
    decreases gs.len(),
{
    if gs.len() == 0 {
        0
    } else {
        member_total(gs.drop_last()) + gs.last().files@.len()
    }
}

/// The space a single group wastes: one copy is kept, the rest could be
/// reclaimed.
pub open spec fn wasted_of(g: DuplicateGroup) -> int {
    if g.files@.len() >= 1 {
        g.size * (g.files@.len() - 1)
    } else {
        0
    }
}

/// The total wasted space across `gs`.
pub open spec fn wasted_total(gs: Seq<DuplicateGroup>) -> int
    decreases gs.len(),
{
    if gs.len() == 0 {
        0
    } else {
        wasted_total(gs.drop_last()) + wasted_of(gs.last())
    }
}

impl DuplicateReport {
    /// Build a report from the confirmed duplicate groups: per group the
    /// wasted space is `size * (members - 1)`, since one copy is kept, and
    /// every member counts as a duplicate file. Sums that exceed what the
    /// result type can hold saturate at its maximum.
    pub fn from_groups(groups: Vec<DuplicateGroup>, total_files: usize) -> (r: DuplicateReport)
        ensures
            r.stats.total_files == total_files,
            r.stats.duplicate_files == crate::cap_usize(member_total(groups@)),
            r.stats.wasted_bytes == crate::cap_u64(wasted_total(groups@)),
            r.groups@ == groups@,
    {
        let mut wasted_bytes: u64 = 0;
        let mut duplicate_files: usize = 0;

        let n = groups.len();
        for i in 0..n
            invariant
                n == groups@.len(),
                duplicate_files == crate::cap_usize(member_total(groups@.take(i as int))),
                wasted_bytes == crate::cap_u64(wasted_total(groups@.take(i as int))),
        {
            proof {
                assert(groups@.take(i + 1).drop_last() =~= groups@.take(i as int));
                assert(groups@.take(i + 1).last() == groups@[i as int]);
            }
            let g = &groups[i];
            let file_count = g.files.len();

            if duplicate_files > usize::MAX - file_count {
                duplicate_files = usize::MAX;
            } else {
                duplicate_files = duplicate_files + file_count;
            }

            if file_count > 1 {
                let extra_copies = (file_count - 1) as u64;
                proof {
                    assert((g.size as u128) * (extra_copies as u128) < u128::MAX)
                        by (nonlinear_arith)
                        requires
                            g.size <= u64::MAX,
                            extra_copies <= u64::MAX;
                }
                let prod: u128 = (g.size as u128) * (extra_copies as u128);
                let waste: u64 = if prod > u64::MAX as u128 {
                    u64::MAX
                } else {
                    prod as u64
                };
                proof {
                    assert(waste == crate::cap_u64(wasted_of(groups@[i as int])));
                }
                if wasted_bytes > u64::MAX - waste {
                    wasted_bytes = u64::MAX;
                } else {
                    wasted_bytes = wasted_bytes + waste;
                }
            } else {
                proof {
                    let g0 = groups@[i as int];
                    if g0.files@.len() >= 1 {
                        assert(g0.files@.len() == 1);
                        assert(g0.size * (g0.files@.len() - 1) == 0) by (nonlinear_arith)
                            requires
                                g0.files@.len() == 1,
                        ;
                    }
                    assert(wasted_of(g0) == 0);
                }
            }
            proof {
                assert(wasted_total(groups@.take(i + 1)) == wasted_total(groups@.take(i as int))
                    + wasted_of(groups@[i as int]));
                assert(member_total(groups@.take(i + 1)) == member_total(groups@.take(i as int))
                    + groups@[i as int].files@.len());
            }
        }
        proof {
            assert(groups@.take(n as int) =~= groups@);
        }

        let stats = DuplicateStats { total_files, duplicate_files, wasted_bytes };
        DuplicateReport { stats, groups }
    }
}

} // verus!
