//! Size partitioning: the first stage of duplicate detection. Files can
//! only be duplicates of one another if they have the same size, so entries
//! are grouped by exact size and groups with fewer than two members are
//! dropped.

use vstd::prelude::*;

use crate::scanner::FileEntry;

verus! {

/// A group of files that share the same size.
#[derive(Debug, Clone)]
pub struct SizeGroup {
    pub size: u64,
    pub files: Vec<String>,
}

/// The paths of the entries of `s` whose size is exactly `sz`, in input
/// order.
pub open spec fn paths_with_size(s: Seq<FileEntry>, sz: u64) -> Seq<Seq<char>>
    decreases s.len(),
{
    if s.len() == 0 {
        Seq::empty()
    } else {
        let rest = paths_with_size(s.drop_last(), sz);
        if s.last().size == sz {
            rest.push(s.last().path@)
        } else {
            rest
        }
    }
}

/// How many entries of `s` have size `sz`.
pub open spec fn size_count(s: Seq<FileEntry>, sz: u64) -> nat {
    paths_with_size(s, sz).len()
}

/// The distinct sizes occurring in `s`, in order of first occurrence.
pub open spec fn sizes_in_order(s: Seq<FileEntry>) -> Seq<u64>
    decreases s.len(),
{
    if s.len() == 0 {
        Seq::empty()
    } else {
        let rest = sizes_in_order(s.drop_last());
        if rest.contains(s.last().size) {
            rest
        } else {
            rest.push(s.last().size)
        }
    }
}

/// The subsequence of `sizes` whose members occur at least twice in `s`.
pub open spec fn keep_repeated_sizes(sizes: Seq<u64>, s: Seq<FileEntry>) -> Seq<u64>
    decreases sizes.len(),
{
    if sizes.len() == 0 {
        Seq::empty()
    } else {
        let rest = keep_repeated_sizes(sizes.drop_last(), s);
        if size_count(s, sizes.last()) >= 2 {
            rest.push(sizes.last())
        } else {
            rest
        }
    }
}

/// The sizes that at least two entries of `s` share, in order of first
/// occurrence: one per group that the size partitioner returns.
pub open spec fn dup_sizes(s: Seq<FileEntry>) -> Seq<u64> {
    keep_repeated_sizes(sizes_in_order(s), s)
}

/// A size occurs in `sizes_in_order(s)` exactly when some entry carries it.
proof fn lemma_sizes_in_order_contains(s: Seq<FileEntry>, sz: u64)
    ensures
        sizes_in_order(s).contains(sz) <==> exists|i: int| 0 <= i < s.len() && s[i].size == sz,
    decreases s.len(),
{
    if s.len() == 0 {
    } else {
        lemma_sizes_in_order_contains(s.drop_last(), sz);
        let rest = sizes_in_order(s.drop_last());
        assert(s.last() == s[s.len() - 1]);
        if sizes_in_order(s).contains(sz) {
            if rest.contains(sz) {
                let i = choose|i: int| 0 <= i < s.drop_last().len() && s.drop_last()[i].size == sz;
                assert(s[i].size == sz);
            } else {
                assert(sz == s.last().size);
            }
        }
        if exists|i: int| 0 <= i < s.len() && s[i].size == sz {
            let i = choose|i: int| 0 <= i < s.len() && s[i].size == sz;
            if i < s.len() - 1 {
                assert(s.drop_last()[i].size == sz);
                assert(rest.contains(sz));
                if rest.contains(s.last().size) {
                    assert(sizes_in_order(s).contains(sz));
                } else {
                    let j = choose|j: int| 0 <= j < rest.len() && rest[j] == sz;
                    assert(sizes_in_order(s)[j] == sz);
                }
            } else {
                if rest.contains(s.last().size) {
                    assert(sizes_in_order(s).contains(sz));
                } else {
                    assert(sizes_in_order(s).last() == sz);
                    assert(sizes_in_order(s).contains(sz));
                }
            }
        }
    }
}

/// The sizes listed by `sizes_in_order` are pairwise distinct.
proof fn lemma_sizes_in_order_distinct(s: Seq<FileEntry>)
    ensures
        forall|i: int, j: int|
            #![trigger sizes_in_order(s)[i], sizes_in_order(s)[j]]
            0 <= i < j < sizes_in_order(s).len() ==> sizes_in_order(s)[i] != sizes_in_order(s)[j],
    decreases s.len(),
{
    if s.len() == 0 {
    } else {
        lemma_sizes_in_order_distinct(s.drop_last());
        let rest = sizes_in_order(s.drop_last());
        if !rest.contains(s.last().size) {
            assert(forall|i: int| 0 <= i < rest.len() ==> rest[i] != s.last().size);
        }
    }
}

/// If no entry of `s` has size `sz`, then no path is collected for `sz`.
proof fn lemma_paths_empty_when_absent(s: Seq<FileEntry>, sz: u64)
    requires
        forall|i: int| 0 <= i < s.len() ==> s[i].size != sz,
    ensures
        paths_with_size(s, sz).len() == 0,
    decreases s.len(),
{
    if s.len() == 0 {
    } else {
        assert(s.last() == s[s.len() - 1]);
        lemma_paths_empty_when_absent(s.drop_last(), sz);
    }
}

/// Every size kept by `keep_repeated_sizes` is carried by at least two
/// entries of `s`.
proof fn lemma_keep_repeated_counts(sizes: Seq<u64>, s: Seq<FileEntry>)
    ensures
        forall|i: int|
            #![trigger keep_repeated_sizes(sizes, s)[i]]
            0 <= i < keep_repeated_sizes(sizes, s).len() ==> size_count(
                s,
                keep_repeated_sizes(sizes, s)[i],
            ) >= 2,
    decreases sizes.len(),
{
    if sizes.len() == 0 {
    } else {
        lemma_keep_repeated_counts(sizes.drop_last(), s);
        let kept = keep_repeated_sizes(sizes, s);
        let rest = keep_repeated_sizes(sizes.drop_last(), s);
        assert forall|i: int| 0 <= i < kept.len() implies size_count(s, kept[i]) >= 2 by {
            if i < rest.len() {
                assert(kept[i] == rest[i]);
            } else {
                assert(kept[i] == sizes.last());
            }
        }
    }
}

/// Find the group of `all` that holds files of size `sz`, if one exists.
fn find_size_slot(all: &Vec<SizeGroup>, sz: u64) -> (r: usize)
    ensures
        r <= all@.len(),
        r < all@.len() ==> all@[r as int].size == sz,
        r == all@.len() ==> forall|k: int| #![trigger all@[k]] 0 <= k < all@.len() ==> all@[k].size != sz,
{
    let n = all.len();
    let mut j: usize = 0;
    while j < n && all[j].size != sz
        invariant
            n == all@.len(),
            j <= n,
            forall|k: int| #![trigger all@[k]] 0 <= k < j ==> all@[k].size != sz,
        decreases n - j,
    {
        j += 1;
    }
    j
}

/// Copy a vector of paths; the copy holds the same sequence of strings.
pub(crate) fn copy_paths(v: &Vec<String>) -> (r: Vec<String>)
    ensures
        r@ == v@,
{
    let mut r: Vec<String> = Vec::new();
    let n = v.len();
    for i in 0..n
        invariant
            n == v@.len(),
            r@ =~= v@.take(i as int),
    {
        r.push(v[i].clone());
        proof {
            assert(r@ =~= v@.take(i + 1));
        }
    }
    proof {
        assert(v@.take(n as int) =~= v@);
    }
    r
}

/// Groups files by their size and returns only the groups that hold two or
/// more files: a file of a unique size cannot have a duplicate. Groups come
/// in order of first occurrence of their size; each group lists its paths
/// in input order.
pub fn group_by_size(files: Vec<FileEntry>) -> (groups: Vec<SizeGroup>)
    ensures
        groups@.len() == dup_sizes(files@).len(),
        forall|i: int|
            #![trigger groups@[i]]
            0 <= i < groups@.len() ==> {
                &&& groups@[i].size == dup_sizes(files@)[i]
                &&& groups@[i].files.deep_view() == paths_with_size(files@, dup_sizes(files@)[i])
                &&& groups@[i].files@.len() >= 2
            },
{
    let ghost fseq = files@;
    let mut all: Vec<SizeGroup> = Vec::new();
    let n = files.len();
    for i in 0..n
        invariant
            n == fseq.len(),
            files@ == fseq,
            all@.len() == sizes_in_order(fseq.take(i as int)).len(),
            forall|k: int|
                #![trigger all@[k]]
                0 <= k < all@.len() ==> all@[k].size == sizes_in_order(fseq.take(i as int))[k],
            forall|k: int|
                #![trigger all@[k]]
                0 <= k < all@.len() ==> all@[k].files.deep_view() == paths_with_size(
                    fseq.take(i as int),
                    all@[k].size,
                ),
    {
        let e = &files[i];
        let sz = e.size;
        let p = e.path.clone();
        let ghost t0 = fseq.take(i as int);
        let ghost t1 = fseq.take(i + 1);
        let ghost before = all@;
        proof {
            assert(t1.drop_last() =~= t0);
            assert(t1.last() == fseq[i as int]);
            lemma_sizes_in_order_distinct(t0);
        }
        let j = find_size_slot(&all, sz);
        if j < all.len() {
            proof {
                assert(all@ == before);
                assert(before[j as int].size == sz);
                assert(sizes_in_order(t0)[j as int] == sz);
                assert(sizes_in_order(t0).contains(sz));
                assert(sizes_in_order(t1) == sizes_in_order(t0));
            }
            let g = &mut all[j];
            g.files.push(p);
            proof {
                assert(all@ == before.update(j as int, all@[j as int]));
                assert(all@.len() == before.len());
                assert forall|k: int| 0 <= k < all@.len() implies all@[k].size == sizes_in_order(
                    t1,
                )[k] by {
                    if k != j {
                        assert(all@[k] == before[k]);
                    }
                }
                assert forall|k: int| 0 <= k < all@.len() implies all@[k].files.deep_view()
                    == paths_with_size(t1, all@[k].size) by {
                    if k == j {
                        assert(all@[k].files@ == before[j as int].files@.push(p));
                        assert(p@ == fseq[i as int].path@);
                        assert(all@[k].files.deep_view() =~= paths_with_size(t0, sz).push(
                            fseq[i as int].path@,
                        ));
                        assert(paths_with_size(t1, sz) == paths_with_size(t0, sz).push(
                            fseq[i as int].path@,
                        ));
                    } else {
                        assert(all@[k] == before[k]);
                        // sizes are pairwise distinct, so this group is untouched
                        assert(all@[k].size != sz);
                        assert(paths_with_size(t1, all@[k].size) == paths_with_size(
                            t0,
                            all@[k].size,
                        ));
                    }
                }
            }
        } else {
            proof {
                assert(all@ == before);
                assert(!sizes_in_order(t0).contains(sz)) by {
                    if sizes_in_order(t0).contains(sz) {
                        let w = choose|w: int|
                            0 <= w < sizes_in_order(t0).len() && sizes_in_order(t0)[w] == sz;
                        assert(before[w].size == sizes_in_order(t0)[w]);
                        assert(before[w].size == sz);
                    }
                }
                assert(sizes_in_order(t1) == sizes_in_order(t0).push(sz));
                lemma_sizes_in_order_contains(t0, sz);
                lemma_paths_empty_when_absent(t0, sz);
                assert(paths_with_size(t0, sz) =~= Seq::<Seq<char>>::empty());
            }
            let mut v: Vec<String> = Vec::new();
            v.push(p);
            all.push(SizeGroup { size: sz, files: v });
            proof {
                assert(all@.last().files.deep_view() =~= Seq::<Seq<char>>::empty().push(
                    fseq[i as int].path@,
                ));
                assert(paths_with_size(t1, sz) == paths_with_size(t0, sz).push(
                    fseq[i as int].path@,
                ));
                assert forall|k: int| 0 <= k < all@.len() implies all@[k].files.deep_view()
                    == paths_with_size(t1, all@[k].size) && all@[k].size == sizes_in_order(t1)[k]
                    by {
                    if k < all@.len() - 1 {
                        assert(all@[k] == before[k]);
                        assert(all@[k].size == sizes_in_order(t0)[k]);
                        assert(all@[k].size != sz) by {
                            if all@[k].size == sz {
                                assert(sizes_in_order(t0).contains(sz));
                            }
                        }
                        assert(paths_with_size(t1, all@[k].size) == paths_with_size(
                            t0,
                            all@[k].size,
                        ));
                    }
                }
            }
        }
    }
    proof {
        assert(fseq.take(n as int) =~= fseq);
    }

    // Keep only the sizes that two or more files share.
    let ghost dseq = sizes_in_order(fseq);
    let mut groups: Vec<SizeGroup> = Vec::new();
    let m = all.len();
    for k in 0..m
        invariant
            m == all@.len(),
            m == dseq.len(),
            forall|w: int| #![trigger all@[w]] 0 <= w < all@.len() ==> all@[w].size == dseq[w],
            forall|w: int|
                #![trigger all@[w]]
                0 <= w < all@.len() ==> all@[w].files.deep_view() == paths_with_size(
                    fseq,
                    all@[w].size,
                ),
            groups@.len() == keep_repeated_sizes(dseq.take(k as int), fseq).len(),
            forall|w: int|
                #![trigger groups@[w]]
                0 <= w < groups@.len() ==> {
                    &&& groups@[w].size == keep_repeated_sizes(dseq.take(k as int), fseq)[w]
                    &&& groups@[w].files.deep_view() == paths_with_size(fseq, groups@[w].size)
                    &&& groups@[w].files@.len() >= 2
                },
    {
        proof {
            assert(dseq.take(k + 1).drop_last() =~= dseq.take(k as int));
            assert(dseq.take(k + 1).last() == dseq[k as int]);
            assert(all@[k as int].files.deep_view().len() == all@[k as int].files@.len());
        }
        if all[k].files.len() >= 2 {
            let g = &all[k];
            groups.push(SizeGroup { size: g.size, files: copy_paths(&g.files) });
            proof {
                assert(groups@.last().files.deep_view() =~= all@[k as int].files.deep_view());
            }
        }
    }
    proof {
        assert(dseq.take(m as int) =~= dseq);
        lemma_keep_repeated_counts(dseq, fseq);
    }
    groups
}

/// How often `x` occurs in `ds`.
spec fn occurrences(ds: Seq<u64>, x: u64) -> int
    decreases ds.len(),
{
    if ds.len() == 0 {
        0
    } else {
        occurrences(ds.drop_last(), x) + if ds.last() == x {
            1int
        } else {
            0int
        }
    }
}

/// The total number of entries counted across the sizes of `ds`.
spec fn sum_counts(ds: Seq<u64>, s: Seq<FileEntry>) -> int
    decreases ds.len(),
{
    if ds.len() == 0 {
        0
    } else {
        sum_counts(ds.drop_last(), s) + size_count(s, ds.last())
    }
}

/// Counting over no entries yields nothing for any run of sizes.
proof fn lemma_sum_counts_empty(ds: Seq<u64>)
    ensures
        sum_counts(ds, Seq::empty()) == 0,
    decreases ds.len(),
{
    if ds.len() == 0 {
    } else {
        lemma_sum_counts_empty(ds.drop_last());
    }
}

/// A size absent from `ds` occurs zero times in it.
proof fn lemma_occurrences_absent(ds: Seq<u64>, x: u64)
    requires
        forall|i: int| 0 <= i < ds.len() ==> ds[i] != x,
    ensures
        occurrences(ds, x) == 0,
    decreases ds.len(),
{
    if ds.len() == 0 {
    } else {
        assert(ds.last() == ds[ds.len() - 1]);
        lemma_occurrences_absent(ds.drop_last(), x);
    }
}

/// In a run of pairwise distinct sizes every size occurs at most once.
proof fn lemma_occurrences_distinct(ds: Seq<u64>, x: u64)
    requires
        forall|i: int, j: int| #![trigger ds[i], ds[j]] 0 <= i < j < ds.len() ==> ds[i] != ds[j],
    ensures
        0 <= occurrences(ds, x) <= 1,
    decreases ds.len(),
{
    if ds.len() == 0 {
    } else {
        assert(ds.last() == ds[ds.len() - 1]);
        assert forall|i: int, j: int|
            #![trigger ds.drop_last()[i], ds.drop_last()[j]]
            0 <= i < j < ds.drop_last().len() implies ds.drop_last()[i] != ds.drop_last()[j] by {
            assert(ds[i] == ds.drop_last()[i]);
            assert(ds[j] == ds.drop_last()[j]);
        }
        lemma_occurrences_distinct(ds.drop_last(), x);
        if ds.last() == x {
            assert forall|i: int| 0 <= i < ds.drop_last().len() implies ds.drop_last()[i] != x by {
                assert(ds.drop_last()[i] == ds[i]);
                assert(ds[i] != ds[ds.len() - 1]);
            }
            lemma_occurrences_absent(ds.drop_last(), x);
        }
    }
}

/// Removing the last entry removes exactly its own occurrence from each
/// size's count, so from the total it removes one.
proof fn lemma_sum_counts_step(ds: Seq<u64>, s: Seq<FileEntry>)
    requires
        s.len() > 0,
    ensures
        sum_counts(ds, s) == sum_counts(ds, s.drop_last()) + occurrences(ds, s.last().size),
    decreases ds.len(),
{
    if ds.len() == 0 {
    } else {
        lemma_sum_counts_step(ds.drop_last(), s);
    }
}

/// Over pairwise distinct sizes the counts add up to at most the number
/// of entries: the groups draw from disjoint parts of the input.
proof fn lemma_sum_counts_bounded(ds: Seq<u64>, s: Seq<FileEntry>)
    requires
        forall|i: int, j: int| #![trigger ds[i], ds[j]] 0 <= i < j < ds.len() ==> ds[i] != ds[j],
    ensures
        0 <= sum_counts(ds, s) <= s.len(),
    decreases s.len(),
{
    if s.len() == 0 {
        lemma_sum_counts_empty(ds);
        assert(s =~= Seq::<FileEntry>::empty());
    } else {
        lemma_sum_counts_bounded(ds, s.drop_last());
        lemma_sum_counts_step(ds, s);
        lemma_occurrences_distinct(ds, s.last().size);
    }
}

/// The member total of groups whose files realize the per-size counts is
/// the sum of those counts.
proof fn lemma_total_matches_sum(gs: Seq<SizeGroup>, ds: Seq<u64>, s: Seq<FileEntry>)
    requires
        gs.len() == ds.len(),
        forall|i: int| #![trigger gs[i]] 0 <= i < gs.len() ==> gs[i].files@.len() == size_count(
            s,
            ds[i],
        ),
    ensures
        total_group_files(gs) == sum_counts(ds, s),
    decreases gs.len(),
{
    if gs.len() == 0 {
    } else {
        assert(gs.last() == gs[gs.len() - 1]);
        assert(ds.last() == ds[ds.len() - 1]);
        assert forall|i: int| #![trigger gs.drop_last()[i]] 0 <= i < gs.drop_last().len() implies
            gs.drop_last()[i].files@.len() == size_count(s, ds.drop_last()[i]) by {
            assert(gs.drop_last()[i] == gs[i]);
            assert(ds.drop_last()[i] == ds[i]);
        }
        lemma_total_matches_sum(gs.drop_last(), ds.drop_last(), s);
    }
}


/// A prefix of the groups accounts for no more files than all of them.
proof fn lemma_total_prefix_bound(gs: Seq<SizeGroup>, k: int)
    requires
        0 <= k <= gs.len(),
    ensures
        total_group_files(gs.take(k)) <= total_group_files(gs),
    decreases gs.len() - k,
{
    if k == gs.len() {
        assert(gs.take(k) =~= gs);
    } else {
        lemma_total_prefix_bound(gs, k + 1);
        assert(gs.take(k + 1).drop_last() =~= gs.take(k));
        assert(total_group_files(gs.take(k + 1)) == total_group_files(gs.take(k)) + gs.take(
            k + 1,
        ).last().files@.len());
    }
}

/// Statistics about the grouping operation.
#[derive(Debug, Clone)]
pub struct GroupingStats {
    /// Total number of files before grouping.
    pub total_files: usize,
    /// Number of files that share a size with at least one other file.
    pub n_candidate_files: usize,
    /// Number of size groups containing two or more files.
    pub n_candidate_groups: usize,
}

/// The total number of files across a run of size groups.
pub open spec fn total_group_files(gs: Seq<SizeGroup>) -> int
    decreases gs.len(),
{
    if gs.len() == 0 {
        0
    } else {
        total_group_files(gs.drop_last()) + gs.last().files@.len()
    }
}

/// Group files by size and return both the groups and the statistics the
/// report needs: how many files were seen, and how many files and groups
/// remain candidates for hashing.
pub fn group_by_size_with_stats(files: Vec<FileEntry>) -> (r: (Vec<SizeGroup>, GroupingStats))
    ensures
        r.0@.len() == dup_sizes(files@).len(),
        forall|i: int|
            #![trigger r.0@[i]]
            0 <= i < r.0@.len() ==> {
                &&& r.0@[i].size == dup_sizes(files@)[i]
                &&& r.0@[i].files.deep_view() == paths_with_size(files@, dup_sizes(files@)[i])
                &&& r.0@[i].files@.len() >= 2
            },
        r.1.total_files == files@.len(),
        r.1.n_candidate_groups == r.0@.len(),
        r.1.n_candidate_files == total_group_files(r.0@),
        total_group_files(r.0@) <= r.1.total_files,
{
    let ghost fseq = files@;
    let total_files = files.len();
    let groups = group_by_size(files);
    proof {
        lemma_dup_sizes_distinct(fseq);
        assert forall|i: int| #![trigger groups@[i]] 0 <= i < groups@.len() implies groups@[
            i
        ].files@.len() == size_count(fseq, dup_sizes(fseq)[i]) by {
            assert(groups@[i].files.deep_view().len() == groups@[i].files@.len());
        }
        lemma_total_matches_sum(groups@, dup_sizes(fseq), fseq);
        lemma_sum_counts_bounded(dup_sizes(fseq), fseq);
        assert(total_group_files(groups@) <= fseq.len());
    }

    let mut n_candidate_files: usize = 0;
    let m = groups.len();
    for k in 0..m
        invariant
            m == groups@.len(),
            n_candidate_files == total_group_files(groups@.take(k as int)),
            total_group_files(groups@) <= usize::MAX,
    {
        proof {
            assert(groups@.take(k + 1).drop_last() =~= groups@.take(k as int));
            assert(groups@.take(k + 1).last() == groups@[k as int]);
            lemma_total_prefix_bound(groups@, k + 1);
        }
        let c = groups[k].files.len();
        n_candidate_files = n_candidate_files + c;
    }
    proof {
        assert(groups@.take(m as int) =~= groups@);
    }
    let n_candidate_groups = m;

    let stats = GroupingStats { total_files, n_candidate_files, n_candidate_groups };
    (groups, stats)
}

/// No two entries of `s` name the same path: each file is listed once.
pub open spec fn distinct_entry_paths(s: Seq<FileEntry>) -> bool {
    forall|i: int, j: int|
        #![trigger s[i], s[j]]
        0 <= i < j < s.len() ==> s[i].path@ != s[j].path@
}

/// A path collected for size `sz` comes from an entry that carries both
/// that path and that size.
proof fn lemma_paths_with_size_member(s: Seq<FileEntry>, sz: u64, p: Seq<char>)
    requires
        paths_with_size(s, sz).contains(p),
    ensures
        exists|k: int| #![trigger s[k]] 0 <= k < s.len() && s[k].path@ == p && s[k].size == sz,
    decreases s.len(),
{
    if s.len() == 0 {
    } else {
        let rest = paths_with_size(s.drop_last(), sz);
        assert(s.last() == s[s.len() - 1]);
        if s.last().size == sz {
            let w = choose|w: int|
                0 <= w < paths_with_size(s, sz).len() && paths_with_size(s, sz)[w] == p;
            if w < rest.len() {
                assert(rest.contains(p));
                lemma_paths_with_size_member(s.drop_last(), sz, p);
                let k = choose|k: int|
                    0 <= k < s.drop_last().len() && s.drop_last()[k].path@ == p
                        && s.drop_last()[k].size == sz;
                assert(s[k].path@ == p && s[k].size == sz);
            } else {
                assert(p == s.last().path@);
                assert(s[s.len() - 1].path@ == p && s[s.len() - 1].size == sz);
            }
        } else {
            assert(rest.contains(p));
            lemma_paths_with_size_member(s.drop_last(), sz, p);
            let k = choose|k: int|
                0 <= k < s.drop_last().len() && s.drop_last()[k].path@ == p
                    && s.drop_last()[k].size == sz;
            assert(s[k].path@ == p && s[k].size == sz);
        }
    }
}

/// When each file is listed once, a collected path determines its entry,
/// so a path in the group for `sz` belongs to an entry of that size.
proof fn lemma_member_size_unique(s: Seq<FileEntry>, sz: u64, a: int)
    requires
        distinct_entry_paths(s),
        0 <= a < s.len(),
        paths_with_size(s, sz).contains(s[a].path@),
    ensures
        s[a].size == sz,
{
    lemma_paths_with_size_member(s, sz, s[a].path@);
    let k = choose|k: int|
        #![trigger s[k]]
        0 <= k < s.len() && s[k].path@ == s[a].path@ && s[k].size == sz;
    if k != a {
        if k < a {
            assert(s[k].path@ != s[a].path@);
        } else {
            assert(s[a].path@ != s[k].path@);
        }
    }
}

/// The group sizes are pairwise distinct: one group per size.
proof fn lemma_dup_sizes_distinct(s: Seq<FileEntry>)
    ensures
        forall|i: int, j: int|
            #![trigger dup_sizes(s)[i], dup_sizes(s)[j]]
            0 <= i < j < dup_sizes(s).len() ==> dup_sizes(s)[i] != dup_sizes(s)[j],
    decreases s.len(),
{
    lemma_sizes_in_order_distinct(s);
    lemma_keep_distinct_sizes(sizes_in_order(s), s);
}

/// Filtering a run of pairwise distinct sizes keeps them pairwise
/// distinct, and keeps only members of the run.
proof fn lemma_keep_distinct_sizes(ds: Seq<u64>, s: Seq<FileEntry>)
    requires
        forall|i: int, j: int| #![trigger ds[i], ds[j]] 0 <= i < j < ds.len() ==> ds[i] != ds[j],
    ensures
        forall|i: int|
            #![trigger keep_repeated_sizes(ds, s)[i]]
            0 <= i < keep_repeated_sizes(ds, s).len() ==> ds.contains(keep_repeated_sizes(ds, s)[i]),
        forall|i: int, j: int|
            #![trigger keep_repeated_sizes(ds, s)[i], keep_repeated_sizes(ds, s)[j]]
            0 <= i < j < keep_repeated_sizes(ds, s).len() ==> keep_repeated_sizes(ds, s)[i]
                != keep_repeated_sizes(ds, s)[j],
    decreases ds.len(),
{
    if ds.len() == 0 {
    } else {
        assert forall|i: int, j: int|
            #![trigger ds.drop_last()[i], ds.drop_last()[j]]
            0 <= i < j < ds.drop_last().len() implies ds.drop_last()[i] != ds.drop_last()[j] by {
            assert(ds[i] == ds.drop_last()[i]);
            assert(ds[j] == ds.drop_last()[j]);
        }
        lemma_keep_distinct_sizes(ds.drop_last(), s);
        let kept = keep_repeated_sizes(ds, s);
        let rest = keep_repeated_sizes(ds.drop_last(), s);
        assert(ds.last() == ds[ds.len() - 1]);
        assert forall|i: int| 0 <= i < kept.len() implies ds.contains(kept[i]) by {
            if i < rest.len() {
                assert(kept[i] == rest[i]);
                let w = choose|w: int| 0 <= w < ds.drop_last().len() && ds.drop_last()[w] == rest[i];
                assert(ds[w] == rest[i]);
            } else {
                assert(kept[i] == ds.last());
            }
        }
        if size_count(s, ds.last()) >= 2 {
            assert forall|i: int| 0 <= i < rest.len() implies rest[i] != ds.last() by {
                let w = choose|w: int| 0 <= w < ds.drop_last().len() && ds.drop_last()[w] == rest[i];
                assert(ds[w] == rest[i]);
                assert(ds[w] != ds[ds.len() - 1]);
            }
        }
    }
}

/// A size that a run of distinct sizes holds is kept whenever two or more
/// entries carry it.
proof fn lemma_keep_sizes_complete(ds: Seq<u64>, s: Seq<FileEntry>, w: int)
    requires
        0 <= w < ds.len(),
        size_count(s, ds[w]) >= 2,
    ensures
        keep_repeated_sizes(ds, s).contains(ds[w]),
    decreases ds.len(),
{
    assert(ds.last() == ds[ds.len() - 1]);
    if w == ds.len() - 1 {
        assert(keep_repeated_sizes(ds, s).last() == ds[w]);
    } else {
        assert(ds.drop_last()[w] == ds[w]);
        lemma_keep_sizes_complete(ds.drop_last(), s, w);
        let rest = keep_repeated_sizes(ds.drop_last(), s);
        let k = choose|k: int| 0 <= k < rest.len() && rest[k] == ds[w];
        assert(keep_repeated_sizes(ds, s)[k] == ds[w]);
    }
}

/// A size has a group exactly when at least two files carry it: no
/// singleton group ever appears, and no pair of same-sized files is
/// missed.
pub proof fn lemma_candidate_sizes(s: Seq<FileEntry>, sz: u64)
    ensures
        dup_sizes(s).contains(sz) <==> size_count(s, sz) >= 2,
{
    lemma_sizes_in_order_distinct(s);
    lemma_keep_distinct_sizes(sizes_in_order(s), s);
    lemma_keep_repeated_counts(sizes_in_order(s), s);
    if dup_sizes(s).contains(sz) {
        let i = choose|i: int| 0 <= i < dup_sizes(s).len() && dup_sizes(s)[i] == sz;
        assert(size_count(s, dup_sizes(s)[i]) >= 2);
    }
    if size_count(s, sz) >= 2 {
        let paths = paths_with_size(s, sz);
        assert(paths.contains(paths[0]));
        lemma_paths_with_size_member(s, sz, paths[0]);
        lemma_sizes_in_order_contains(s, sz);
        let w = choose|w: int| 0 <= w < sizes_in_order(s).len() && sizes_in_order(s)[w] == sz;
        lemma_keep_sizes_complete(sizes_in_order(s), s, w);
    }
}

/// No two size groups share a file: when each file is listed once, a path
/// collected for one group size is collected for no other.
pub proof fn lemma_size_groups_disjoint(s: Seq<FileEntry>, i: int, j: int, p: Seq<char>)
    requires
        distinct_entry_paths(s),
        0 <= i < dup_sizes(s).len(),
        0 <= j < dup_sizes(s).len(),
        i != j,
    ensures
        !(paths_with_size(s, dup_sizes(s)[i]).contains(p) && paths_with_size(
            s,
            dup_sizes(s)[j],
        ).contains(p)),
{
    lemma_dup_sizes_distinct(s);
    if paths_with_size(s, dup_sizes(s)[i]).contains(p) && paths_with_size(
        s,
        dup_sizes(s)[j],
    ).contains(p) {
        lemma_paths_with_size_member(s, dup_sizes(s)[i], p);
        let a = choose|a: int|
            #![trigger s[a]]
            0 <= a < s.len() && s[a].path@ == p && s[a].size == dup_sizes(s)[i];
        lemma_member_size_unique(s, dup_sizes(s)[j], a);
        if i < j {
            assert(dup_sizes(s)[i] != dup_sizes(s)[j]);
        } else {
            assert(dup_sizes(s)[j] != dup_sizes(s)[i]);
        }
    }
}

} // verus!
