//! Digest grouping: the filtering step both hash phases share. Files are
//! grouped by the fingerprint computed for them; buckets with fewer than
//! two members are dropped. The partial phase feeds prefix fingerprints
//! through this to cheaply separate files that differ early; the full phase
//! feeds whole-content fingerprints through it to confirm duplicates.

use vstd::prelude::*;

use crate::digest::Digest;
use crate::digest::digests_equal;
use crate::output::DuplicateGroup;

verus! {

/// A file path paired with the fingerprint computed for it.
#[derive(Debug)]
pub struct HashedFile {
    pub path: String,
    pub digest: Digest,
}

/// The paths of the entries of `s` whose fingerprint is exactly `d`, in
/// input order.
pub open spec fn paths_with_digest(s: Seq<HashedFile>, d: Seq<u8>) -> Seq<Seq<char>>
    decreases s.len(),
{
    if s.len() == 0 {
        Seq::empty()
    } else {
        let rest = paths_with_digest(s.drop_last(), d);
        if s.last().digest@ == d {
            rest.push(s.last().path@)
        } else {
            rest
        }
    }
}

/// How many entries of `s` carry the fingerprint `d`.
pub open spec fn digest_count(s: Seq<HashedFile>, d: Seq<u8>) -> nat {
    paths_with_digest(s, d).len()
}

/// The distinct fingerprints occurring in `s`, in order of first
/// occurrence.
pub open spec fn digests_in_order(s: Seq<HashedFile>) -> Seq<Seq<u8>>
    decreases s.len(),
{
    if s.len() == 0 {
        Seq::empty()
    } else {
        let rest = digests_in_order(s.drop_last());
        if rest.contains(s.last().digest@) {
            rest
        } else {
            rest.push(s.last().digest@)
        }
    }
}

/// The subsequence of `ds` whose members at least two entries of `s` carry.
pub open spec fn keep_repeated_digests(ds: Seq<Seq<u8>>, s: Seq<HashedFile>) -> Seq<Seq<u8>>
    decreases ds.len(),
{
    if ds.len() == 0 {
        Seq::empty()
    } else {
        let rest = keep_repeated_digests(ds.drop_last(), s);
        if digest_count(s, ds.last()) >= 2 {
            rest.push(ds.last())
        } else {
            rest
        }
    }
}

/// The fingerprints that at least two entries of `s` share, in order of
/// first occurrence: one per group that digest grouping returns.
pub open spec fn dup_digests(s: Seq<HashedFile>) -> Seq<Seq<u8>> {
    keep_repeated_digests(digests_in_order(s), s)
}

/// No two entries of `s` name the same path: each file is hashed once.
pub open spec fn distinct_paths(s: Seq<HashedFile>) -> bool {
    forall|i: int, j: int|
        #![trigger s[i], s[j]]
        0 <= i < j < s.len() ==> s[i].path@ != s[j].path@
}

/// A fingerprint occurs in `digests_in_order(s)` exactly when some entry
/// carries it.
proof fn lemma_digests_in_order_contains(s: Seq<HashedFile>, d: Seq<u8>)
    ensures
        digests_in_order(s).contains(d) <==> exists|i: int|
            0 <= i < s.len() && s[i].digest@ == d,
    decreases s.len(),
{
    if s.len() == 0 {
    } else {
        lemma_digests_in_order_contains(s.drop_last(), d);
        let rest = digests_in_order(s.drop_last());
        assert(s.last() == s[s.len() - 1]);
        if digests_in_order(s).contains(d) {
            if rest.contains(d) {
                let i = choose|i: int|
                    0 <= i < s.drop_last().len() && s.drop_last()[i].digest@ == d;
                assert(s[i].digest@ == d);
            } else {
                assert(d == s.last().digest@);
            }
        }
        if exists|i: int| 0 <= i < s.len() && s[i].digest@ == d {
            let i = choose|i: int| 0 <= i < s.len() && s[i].digest@ == d;
            if i < s.len() - 1 {
                assert(s.drop_last()[i].digest@ == d);
                assert(rest.contains(d));
                if rest.contains(s.last().digest@) {
                    assert(digests_in_order(s).contains(d));
                } else {
                    let j = choose|j: int| 0 <= j < rest.len() && rest[j] == d;
                    assert(digests_in_order(s)[j] == d);
                }
            } else {
                if rest.contains(s.last().digest@) {
                    assert(digests_in_order(s).contains(d));
                } else {
                    assert(digests_in_order(s).last() == d);
                    assert(digests_in_order(s).contains(d));
                }
            }
        }
    }
}

/// The fingerprints listed by `digests_in_order` are pairwise distinct.
proof fn lemma_digests_in_order_distinct(s: Seq<HashedFile>)
    ensures
        forall|i: int, j: int|
            #![trigger digests_in_order(s)[i], digests_in_order(s)[j]]
            0 <= i < j < digests_in_order(s).len() ==> digests_in_order(s)[i]
                != digests_in_order(s)[j],
    decreases s.len(),
{
    if s.len() == 0 {
    } else {
        lemma_digests_in_order_distinct(s.drop_last());
        let rest = digests_in_order(s.drop_last());
        if !rest.contains(s.last().digest@) {
            assert(forall|i: int| 0 <= i < rest.len() ==> rest[i] != s.last().digest@);
        }
    }
}

/// If no entry of `s` carries `d`, then no path is collected for `d`.
proof fn lemma_digest_paths_empty_when_absent(s: Seq<HashedFile>, d: Seq<u8>)
    requires
        forall|i: int| 0 <= i < s.len() ==> s[i].digest@ != d,
    ensures
        paths_with_digest(s, d).len() == 0,
    decreases s.len(),
{
    if s.len() == 0 {
    } else {
        assert(s.last() == s[s.len() - 1]);
        lemma_digest_paths_empty_when_absent(s.drop_last(), d);
    }
}

/// What `keep_repeated_digests` keeps: fingerprints of `ds` with two or
/// more carriers, still pairwise distinct when `ds` was.
proof fn lemma_keep_repeated_digests(ds: Seq<Seq<u8>>, s: Seq<HashedFile>)
    requires
        forall|i: int, j: int| #![trigger ds[i], ds[j]] 0 <= i < j < ds.len() ==> ds[i] != ds[j],
    ensures
        forall|i: int|
            #![trigger keep_repeated_digests(ds, s)[i]]
            0 <= i < keep_repeated_digests(ds, s).len() ==> digest_count(
                s,
                keep_repeated_digests(ds, s)[i],
            ) >= 2,
        forall|i: int|
            #![trigger keep_repeated_digests(ds, s)[i]]
            0 <= i < keep_repeated_digests(ds, s).len() ==> ds.contains(
                keep_repeated_digests(ds, s)[i],
            ),
        forall|i: int, j: int|
            #![trigger keep_repeated_digests(ds, s)[i], keep_repeated_digests(ds, s)[j]]
            0 <= i < j < keep_repeated_digests(ds, s).len() ==> keep_repeated_digests(ds, s)[i]
                != keep_repeated_digests(ds, s)[j],
    decreases ds.len(),
{
    if ds.len() == 0 {
    } else {
        assert forall|i: int, j: int|
            #![trigger ds.drop_last()[i], ds.drop_last()[j]]
            0 <= i < j < ds.drop_last().len() implies ds.drop_last()[i] != ds.drop_last()[j] by {
            assert(ds[i] == ds.drop_last()[i]);
            assert(ds[j] == ds.drop_last()[j]);
        }
        lemma_keep_repeated_digests(ds.drop_last(), s);
        let kept = keep_repeated_digests(ds, s);
        let rest = keep_repeated_digests(ds.drop_last(), s);
        assert(ds.last() == ds[ds.len() - 1]);
        assert forall|i: int| 0 <= i < kept.len() implies digest_count(s, kept[i]) >= 2
            && ds.contains(kept[i]) by {
            if i < rest.len() {
                assert(kept[i] == rest[i]);
                let w = choose|w: int| 0 <= w < ds.drop_last().len() && ds.drop_last()[w] == rest[i];
                assert(ds[w] == rest[i]);
            } else {
                assert(kept[i] == ds.last());
            }
        }
        if digest_count(s, ds.last()) >= 2 {
            // the pushed fingerprint differs from everything kept earlier
            assert forall|i: int| 0 <= i < rest.len() implies rest[i] != ds.last() by {
                let w = choose|w: int| 0 <= w < ds.drop_last().len() && ds.drop_last()[w] == rest[i];
                assert(ds[w] == rest[i]);
                assert(ds[w] != ds[ds.len() - 1]);
            }
        }
    }
}

/// A bucket under construction: one fingerprint and the paths that carry
/// it.
struct DigestBucket {
    digest: Digest,
    paths: Vec<String>,
}

/// Find the bucket of `all` that collects paths for fingerprint `d`, if one
/// exists.
fn find_digest_slot(all: &Vec<DigestBucket>, d: &Digest) -> (r: usize)
    ensures
        r <= all@.len(),
        r < all@.len() ==> all@[r as int].digest@ == d@,
        r == all@.len() ==> forall|k: int|
            #![trigger all@[k]]
            0 <= k < all@.len() ==> all@[k].digest@ != d@,
{
    let n = all.len();
    for j in 0..n
        invariant
            n == all@.len(),
            forall|k: int| #![trigger all@[k]] 0 <= k < j ==> all@[k].digest@ != d@,
    {
        if digests_equal(&all[j].digest, d) {
            return j;
        }
    }
    n
}

/// Groups hashed files by their fingerprint and returns only the groups
/// that hold two or more files. Groups come in order of first occurrence of
/// their fingerprint; each group lists its paths in input order.
pub fn group_by_digest(entries: Vec<HashedFile>) -> (groups: Vec<Vec<String>>)
    ensures
        groups@.len() == dup_digests(entries@).len(),
        forall|i: int|
            #![trigger groups@[i]]
            0 <= i < groups@.len() ==> {
                &&& groups@[i].deep_view() == paths_with_digest(entries@, dup_digests(entries@)[i])
                &&& groups@[i]@.len() >= 2
            },
{
    let ghost eseq = entries@;
    let mut all: Vec<DigestBucket> = Vec::new();
    let n = entries.len();
    for i in 0..n
        invariant
            n == eseq.len(),
            entries@ == eseq,
            all@.len() == digests_in_order(eseq.take(i as int)).len(),
            forall|k: int|
                #![trigger all@[k]]
                0 <= k < all@.len() ==> all@[k].digest@ == digests_in_order(eseq.take(i as int))[k],
            forall|k: int|
                #![trigger all@[k]]
                0 <= k < all@.len() ==> all@[k].paths.deep_view() == paths_with_digest(
                    eseq.take(i as int),
                    all@[k].digest@,
                ),
    {
        let e = &entries[i];
        let p = e.path.clone();
        let ghost t0 = eseq.take(i as int);
        let ghost t1 = eseq.take(i + 1);
        let ghost before = all@;
        proof {
            assert(t1.drop_last() =~= t0);
            assert(t1.last() == eseq[i as int]);
            lemma_digests_in_order_distinct(t0);
        }
        let j = find_digest_slot(&all, &e.digest);
        if j < all.len() {
            proof {
                assert(all@ == before);
                assert(before[j as int].digest@ == eseq[i as int].digest@);
                assert(digests_in_order(t0)[j as int] == eseq[i as int].digest@);
                assert(digests_in_order(t0).contains(eseq[i as int].digest@));
                assert(digests_in_order(t1) == digests_in_order(t0));
            }
            let g = &mut all[j];
            g.paths.push(p);
            proof {
                assert(all@ == before.update(j as int, all@[j as int]));
                assert(all@.len() == before.len());
                assert forall|k: int| 0 <= k < all@.len() implies all@[k].digest@
                    == digests_in_order(t1)[k] by {
                    if k != j {
                        assert(all@[k] == before[k]);
                    }
                }
                assert forall|k: int| 0 <= k < all@.len() implies all@[k].paths.deep_view()
                    == paths_with_digest(t1, all@[k].digest@) by {
                    if k == j {
                        assert(all@[k].paths@ == before[j as int].paths@.push(p));
                        assert(p@ == eseq[i as int].path@);
                        assert(all@[k].paths.deep_view() =~= paths_with_digest(
                            t0,
                            eseq[i as int].digest@,
                        ).push(eseq[i as int].path@));
                        assert(paths_with_digest(t1, eseq[i as int].digest@) == paths_with_digest(
                            t0,
                            eseq[i as int].digest@,
                        ).push(eseq[i as int].path@));
                    } else {
                        assert(all@[k] == before[k]);
                        // fingerprints are pairwise distinct, so this bucket is untouched
                        assert(all@[k].digest@ != eseq[i as int].digest@);
                        assert(paths_with_digest(t1, all@[k].digest@) == paths_with_digest(
                            t0,
                            all@[k].digest@,
                        ));
                    }
                }
            }
        } else {
            let dg = e.digest.clone();
            proof {
                assert(all@ == before);
                assert(!digests_in_order(t0).contains(eseq[i as int].digest@)) by {
                    if digests_in_order(t0).contains(eseq[i as int].digest@) {
                        let w = choose|w: int|
                            0 <= w < digests_in_order(t0).len()
                                && digests_in_order(t0)[w] == eseq[i as int].digest@;
                        assert(before[w].digest@ == digests_in_order(t0)[w]);
                    }
                }
                assert(digests_in_order(t1) == digests_in_order(t0).push(eseq[i as int].digest@));
                lemma_digests_in_order_contains(t0, eseq[i as int].digest@);
                lemma_digest_paths_empty_when_absent(t0, eseq[i as int].digest@);
                assert(paths_with_digest(t0, eseq[i as int].digest@) =~= Seq::<Seq<char>>::empty());
            }
            let mut v: Vec<String> = Vec::new();
            v.push(p);
            all.push(DigestBucket { digest: dg, paths: v });
            proof {
                assert(all@.last().digest@ == eseq[i as int].digest@);
                assert(all@.last().paths.deep_view() =~= Seq::<Seq<char>>::empty().push(
                    eseq[i as int].path@,
                ));
                assert(paths_with_digest(t1, eseq[i as int].digest@) == paths_with_digest(
                    t0,
                    eseq[i as int].digest@,
                ).push(eseq[i as int].path@));
                assert forall|k: int| 0 <= k < all@.len() implies all@[k].paths.deep_view()
                    == paths_with_digest(t1, all@[k].digest@) && all@[k].digest@
                    == digests_in_order(t1)[k] by {
                    if k < all@.len() - 1 {
                        assert(all@[k] == before[k]);
                        assert(all@[k].digest@ == digests_in_order(t0)[k]);
                        assert(all@[k].digest@ != eseq[i as int].digest@) by {
                            if all@[k].digest@ == eseq[i as int].digest@ {
                                assert(digests_in_order(t0).contains(eseq[i as int].digest@));
                            }
                        }
                        assert(paths_with_digest(t1, all@[k].digest@) == paths_with_digest(
                            t0,
                            all@[k].digest@,
                        ));
                    }
                }
            }
        }
    }
    proof {
        assert(eseq.take(n as int) =~= eseq);
    }

    // Keep only the fingerprints that two or more files share.
    let ghost dseq = digests_in_order(eseq);
    let mut groups: Vec<Vec<String>> = Vec::new();
    let m = all.len();
    for k in 0..m
        invariant
            m == all@.len(),
            m == dseq.len(),
            forall|w: int| #![trigger all@[w]] 0 <= w < all@.len() ==> all@[w].digest@ == dseq[w],
            forall|w: int|
                #![trigger all@[w]]
                0 <= w < all@.len() ==> all@[w].paths.deep_view() == paths_with_digest(
                    eseq,
                    all@[w].digest@,
                ),
            groups@.len() == keep_repeated_digests(dseq.take(k as int), eseq).len(),
            forall|w: int|
                #![trigger groups@[w]]
                0 <= w < groups@.len() ==> {
                    &&& groups@[w].deep_view() == paths_with_digest(
                        eseq,
                        keep_repeated_digests(dseq.take(k as int), eseq)[w],
                    )
                    &&& groups@[w]@.len() >= 2
                },
    {
        proof {
            assert(dseq.take(k + 1).drop_last() =~= dseq.take(k as int));
            assert(dseq.take(k + 1).last() == dseq[k as int]);
            assert(all@[k as int].paths.deep_view().len() == all@[k as int].paths@.len());
        }
        if all[k].paths.len() >= 2 {
            let g = &all[k];
            groups.push(crate::grouping::copy_paths(&g.paths));
            proof {
                assert(groups@.last().deep_view() =~= all@[k as int].paths.deep_view());
            }
        }
    }
    proof {
        assert(dseq.take(m as int) =~= dseq);
        lemma_digests_in_order_distinct(eseq);
        lemma_keep_repeated_digests(dseq, eseq);
    }
    groups
}

/// Turn the surviving full-phase buckets of one size group into confirmed
/// duplicate groups, each carrying the files' shared size.
pub fn duplicate_groups_for_size(size: u64, entries: Vec<HashedFile>) -> (out: Vec<DuplicateGroup>)
    ensures
        out@.len() == dup_digests(entries@).len(),
        forall|i: int|
            #![trigger out@[i]]
            0 <= i < out@.len() ==> {
                &&& out@[i].size == size
                &&& out@[i].files.deep_view() == paths_with_digest(entries@, dup_digests(entries@)[i])
                &&& out@[i].files@.len() >= 2
            },
{
    let ghost eseq = entries@;
    let mut gs = group_by_digest(entries);
    let ghost gseq = gs@;
    let mut out: Vec<DuplicateGroup> = Vec::new();
    let mut k: usize = 0;
    let m = gs.len();
    while k < m
        invariant
            m == gseq.len(),
            k <= m,
            gs@ =~= gseq.skip(k as int),
            out@.len() == k,
            forall|w: int|
                #![trigger out@[w]]
                0 <= w < k ==> out@[w].size == size && out@[w].files@ == gseq[w]@,
        decreases m - k,
    {
        let g = gs.remove(0);
        proof {
            assert(g == gseq[k as int]);
            assert(gs@ =~= gseq.skip(k + 1));
        }
        out.push(DuplicateGroup { size, files: g });
        k += 1;
    }
    proof {
        assert forall|i: int| 0 <= i < out@.len() implies out@[i].files.deep_view()
            == gseq[i].deep_view() by {
            assert(out@[i].files@ == gseq[i]@);
        }
    }
    out
}

/// A path collected for fingerprint `d` comes from an entry that carries
/// both that path and that fingerprint.
proof fn lemma_paths_with_digest_member(s: Seq<HashedFile>, d: Seq<u8>, p: Seq<char>)
    requires
        paths_with_digest(s, d).contains(p),
    ensures
        exists|k: int| #![trigger s[k]] 0 <= k < s.len() && s[k].path@ == p && s[k].digest@ == d,
    decreases s.len(),
{
    if s.len() == 0 {
    } else {
        let rest = paths_with_digest(s.drop_last(), d);
        assert(s.last() == s[s.len() - 1]);
        if s.last().digest@ == d {
            let w = choose|w: int|
                0 <= w < paths_with_digest(s, d).len() && paths_with_digest(s, d)[w] == p;
            if w < rest.len() {
                assert(rest.contains(p));
                lemma_paths_with_digest_member(s.drop_last(), d, p);
                let k = choose|k: int|
                    0 <= k < s.drop_last().len() && s.drop_last()[k].path@ == p
                        && s.drop_last()[k].digest@ == d;
                assert(s[k].path@ == p && s[k].digest@ == d);
            } else {
                assert(p == s.last().path@);
                assert(s[s.len() - 1].path@ == p && s[s.len() - 1].digest@ == d);
            }
        } else {
            assert(rest.contains(p));
            lemma_paths_with_digest_member(s.drop_last(), d, p);
            let k = choose|k: int|
                0 <= k < s.drop_last().len() && s.drop_last()[k].path@ == p
                    && s.drop_last()[k].digest@ == d;
            assert(s[k].path@ == p && s[k].digest@ == d);
        }
    }
}

/// When each file appears once, the entry holding a collected path is the
/// unique entry with that path, so its fingerprint is the group's.
proof fn lemma_member_digest_unique(s: Seq<HashedFile>, d: Seq<u8>, a: int)
    requires
        distinct_paths(s),
        0 <= a < s.len(),
        paths_with_digest(s, d).contains(s[a].path@),
    ensures
        s[a].digest@ == d,
{
    lemma_paths_with_digest_member(s, d, s[a].path@);
    let k = choose|k: int|
        #![trigger s[k]]
        0 <= k < s.len() && s[k].path@ == s[a].path@ && s[k].digest@ == d;
    if k != a {
        if k < a {
            assert(s[k].path@ != s[a].path@);
        } else {
            assert(s[a].path@ != s[k].path@);
        }
    }
}

/// The group fingerprints are pairwise distinct.
proof fn lemma_dup_digests_distinct(s: Seq<HashedFile>)
    ensures
        forall|i: int, j: int|
            #![trigger dup_digests(s)[i], dup_digests(s)[j]]
            0 <= i < j < dup_digests(s).len() ==> dup_digests(s)[i] != dup_digests(s)[j],
{
    lemma_digests_in_order_distinct(s);
    lemma_keep_repeated_digests(digests_in_order(s), s);
}

/// Every member of a duplicate group traces back to an input entry whose
/// fingerprint is the group's shared fingerprint: within a group, all files
/// carry one and the same content fingerprint.
pub proof fn lemma_group_members_share_digest(s: Seq<HashedFile>, i: int, p: Seq<char>)
    requires
        0 <= i < dup_digests(s).len(),
        paths_with_digest(s, dup_digests(s)[i]).contains(p),
    ensures
        exists|k: int|
            #![trigger s[k]]
            0 <= k < s.len() && s[k].path@ == p && s[k].digest@ == dup_digests(s)[i],
{
    lemma_paths_with_digest_member(s, dup_digests(s)[i], p);
}

/// No two duplicate groups share a file: when each file was hashed once,
/// a path collected for one group fingerprint is collected for no other.
pub proof fn lemma_duplicate_groups_disjoint(s: Seq<HashedFile>, i: int, j: int, p: Seq<char>)
    requires
        distinct_paths(s),
        0 <= i < dup_digests(s).len(),
        0 <= j < dup_digests(s).len(),
        i != j,
    ensures
        !(paths_with_digest(s, dup_digests(s)[i]).contains(p) && paths_with_digest(
            s,
            dup_digests(s)[j],
        ).contains(p)),
{
    lemma_dup_digests_distinct(s);
    if paths_with_digest(s, dup_digests(s)[i]).contains(p) && paths_with_digest(
        s,
        dup_digests(s)[j],
    ).contains(p) {
        lemma_paths_with_digest_member(s, dup_digests(s)[i], p);
        let a = choose|a: int|
            #![trigger s[a]]
            0 <= a < s.len() && s[a].path@ == p && s[a].digest@ == dup_digests(s)[i];
        lemma_member_digest_unique(s, dup_digests(s)[j], a);
        if i < j {
            assert(dup_digests(s)[i] != dup_digests(s)[j]);
        } else {
            assert(dup_digests(s)[j] != dup_digests(s)[i]);
        }
    }
}

/// Two files whose fingerprints differ never land in the same group. In
/// particular, two files that agree on their hashed prefix but differ in
/// full content are separated once the full-content fingerprints are
/// grouped: the partial phase may put them in one bucket, the full phase
/// never does.
pub proof fn lemma_differing_digests_separated(s: Seq<HashedFile>, a: int, b: int, i: int)
    requires
        distinct_paths(s),
        0 <= a < s.len(),
        0 <= b < s.len(),
        s[a].digest@ != s[b].digest@,
        0 <= i < dup_digests(s).len(),
    ensures
        !(paths_with_digest(s, dup_digests(s)[i]).contains(s[a].path@) && paths_with_digest(
            s,
            dup_digests(s)[i],
        ).contains(s[b].path@)),
{
    if paths_with_digest(s, dup_digests(s)[i]).contains(s[a].path@) && paths_with_digest(
        s,
        dup_digests(s)[i],
    ).contains(s[b].path@) {
        lemma_member_digest_unique(s, dup_digests(s)[i], a);
        lemma_member_digest_unique(s, dup_digests(s)[i], b);
    }
}

/// A fingerprint that a run of distinct fingerprints holds is kept
/// whenever two or more entries carry it.
proof fn lemma_keep_digests_complete(ds: Seq<Seq<u8>>, s: Seq<HashedFile>, w: int)
    requires
        0 <= w < ds.len(),
        digest_count(s, ds[w]) >= 2,
    ensures
        keep_repeated_digests(ds, s).contains(ds[w]),
    decreases ds.len(),
{
    assert(ds.last() == ds[ds.len() - 1]);
    if w == ds.len() - 1 {
        assert(keep_repeated_digests(ds, s).last() == ds[w]);
    } else {
        assert(ds.drop_last()[w] == ds[w]);
        lemma_keep_digests_complete(ds.drop_last(), s, w);
        let rest = keep_repeated_digests(ds.drop_last(), s);
        let k = choose|k: int| 0 <= k < rest.len() && rest[k] == ds[w];
        assert(keep_repeated_digests(ds, s)[k] == ds[w]);
    }
}

/// A fingerprint has a group exactly when at least two files carry it: no
/// singleton bucket survives, and no pair of same-fingerprint files is
/// missed.
pub proof fn lemma_candidate_digests(s: Seq<HashedFile>, d: Seq<u8>)
    ensures
        dup_digests(s).contains(d) <==> digest_count(s, d) >= 2,
{
    lemma_digests_in_order_distinct(s);
    lemma_keep_repeated_digests(digests_in_order(s), s);
    if dup_digests(s).contains(d) {
        let i = choose|i: int| 0 <= i < dup_digests(s).len() && dup_digests(s)[i] == d;
        assert(digest_count(s, dup_digests(s)[i]) >= 2);
    }
    if digest_count(s, d) >= 2 {
        let paths = paths_with_digest(s, d);
        assert(paths.contains(paths[0]));
        lemma_paths_with_digest_member(s, d, paths[0]);
        lemma_digests_in_order_contains(s, d);
        let w = choose|w: int| 0 <= w < digests_in_order(s).len() && digests_in_order(s)[w] == d;
        lemma_keep_digests_complete(digests_in_order(s), s, w);
    }
}

/// With pairwise distinct fingerprints, no fingerprint has two carriers.
proof fn lemma_distinct_digests_count_at_most_one(s: Seq<HashedFile>, d: Seq<u8>)
    requires
        forall|i: int, j: int|
            #![trigger s[i], s[j]]
            0 <= i < j < s.len() ==> s[i].digest@ != s[j].digest@,
    ensures
        digest_count(s, d) <= 1,
    decreases s.len(),
{
    if s.len() == 0 {
    } else {
        assert(s.last() == s[s.len() - 1]);
        assert forall|i: int, j: int|
            #![trigger s.drop_last()[i], s.drop_last()[j]]
            0 <= i < j < s.drop_last().len() implies s.drop_last()[i].digest@
            != s.drop_last()[j].digest@ by {
            assert(s.drop_last()[i] == s[i]);
            assert(s.drop_last()[j] == s[j]);
        }
        if s.last().digest@ == d {
            assert forall|i: int| 0 <= i < s.drop_last().len() implies s.drop_last()[i].digest@
                != d by {
                assert(s.drop_last()[i] == s[i]);
                assert(s[i].digest@ != s[s.len() - 1].digest@);
            }
            lemma_digest_paths_empty_when_absent(s.drop_last(), d);
        } else {
            lemma_distinct_digests_count_at_most_one(s.drop_last(), d);
        }
    }
}

/// Files with pairwise distinct content fingerprints yield no duplicate
/// groups at all: equal size alone never makes a duplicate.
pub proof fn lemma_all_distinct_digests_no_groups(s: Seq<HashedFile>)
    requires
        forall|i: int, j: int|
            #![trigger s[i], s[j]]
            0 <= i < j < s.len() ==> s[i].digest@ != s[j].digest@,
    ensures
        dup_digests(s).len() == 0,
{
    lemma_digests_in_order_distinct(s);
    lemma_keep_repeated_digests(digests_in_order(s), s);
    if dup_digests(s).len() > 0 {
        let d = dup_digests(s)[0];
        assert(digest_count(s, d) >= 2);
        lemma_distinct_digests_count_at_most_one(s, d);
    }
}

} // verus!
