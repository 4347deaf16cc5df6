//! The hardlink action's decisions and bookkeeping. The action replaces
//! every non-canonical member of a duplicate group with a hardlink to the
//! group's canonical file. The filesystem steps — checking whether two
//! paths already share an inode, linking to a temporary name and renaming
//! it into place — are carried out by the caller; which links to attempt,
//! where the temporary name lives, and what the outcome adds up to are
//! decided and proved here.

use vstd::prelude::*;
use vstd::string::StrSliceExecFns;
use vstd::string::StringExecFns;

use crate::output::DuplicateGroup;

verus! {

/// Result of a hardlink operation.
#[derive(Debug)]
pub struct ActionResult {
    /// Number of files replaced with hardlinks.
    pub files_linked: usize,
    /// Number of bytes saved.
    pub bytes_saved: u64,
    /// Errors encountered: path and error message.
    pub errors: Vec<(String, String)>,
}

impl Default for ActionResult {
    /// An empty outcome: nothing linked, nothing saved, no failures.
    fn default() -> (r: Self)
        ensures
            r.files_linked == 0,
            r.bytes_saved == 0,
            r.errors@.len() == 0,
    {
        ActionResult { files_linked: 0, bytes_saved: 0, errors: Vec::new() }
    }
}

/// The index of the first shortest path of `paths`, measured in characters:
/// a later path displaces the best seen so far only by being strictly
/// shorter, so ties keep the earliest.
pub open spec fn shortest_index(paths: Seq<Seq<char>>) -> int
    decreases paths.len(),
{
    if paths.len() <= 1 {
        0
    } else {
        let rest = shortest_index(paths.drop_last());
        if paths.last().len() < paths[rest].len() {
            paths.len() - 1
        } else {
            rest
        }
    }
}

/// The selected index is in range and no path is shorter than the selected
/// one.
proof fn lemma_shortest_index_min(paths: Seq<Seq<char>>)
    requires
        paths.len() >= 1,
    ensures
        0 <= shortest_index(paths) < paths.len(),
        forall|j: int|
            #![trigger paths[j]]
            0 <= j < paths.len() ==> paths[shortest_index(paths)].len() <= paths[j].len(),
    decreases paths.len(),
{
    if paths.len() <= 1 {
    } else {
        lemma_shortest_index_min(paths.drop_last());
        let rest = shortest_index(paths.drop_last());
        assert(paths.drop_last()[rest] == paths[rest]);
        assert forall|j: int| #![trigger paths[j]] 0 <= j < paths.len() implies paths[
            shortest_index(paths)
        ].len() <= paths[j].len() by {
            if j < paths.len() - 1 {
                assert(paths.drop_last()[j] == paths[j]);
            }
        }
    }
}

/// Select which file to keep as the canonical original in a duplicate
/// group: the member with the shortest path, the earliest of them on a tie.
pub fn select_original(files: &Vec<String>) -> (r: &String)
    requires
        files@.len() >= 1,
    ensures
        *r == files@[shortest_index(files.deep_view())],
        forall|j: int|
            #![trigger files.deep_view()[j]]
            0 <= j < files@.len() ==> r@.len() <= files.deep_view()[j].len(),
{
    let ghost fv = files.deep_view();
    proof {
        assert(fv.len() == files@.len());
        lemma_shortest_index_min(fv);
    }
    let mut best: usize = 0;
    let mut best_len: usize = files[0].as_str().unicode_len();
    let n = files.len();
    for j in 1..n
        invariant
            n == files@.len(),
            n == fv.len(),
            fv == files.deep_view(),
            1 <= n,
            best < j,
            best as int == shortest_index(fv.take(j as int)),
            best_len as nat == fv[best as int].len(),
    {
        proof {
            assert(fv.take(j + 1).drop_last() =~= fv.take(j as int));
            assert(fv.take(j + 1).last() == fv[j as int]);
            assert(fv.take(j as int)[best as int] == fv[best as int]);
        }
        let l = files[j].as_str().unicode_len();
        proof {
            assert(l as nat == fv[j as int].len());
        }
        if l < best_len {
            best = j;
            best_len = l;
        }
    }
    proof {
        assert(fv.take(n as int) =~= fv);
    }
    &files[best]
}

/// One planned replacement: `path` is to become a hardlink to `original`,
/// reclaiming `size` bytes.
#[derive(Debug, Clone)]
pub struct LinkJob {
    /// The duplicate to replace.
    pub path: String,
    /// The canonical file it will point at.
    pub original: String,
    /// The file size, counted as reclaimed when the link is made.
    pub size: u64,
}

/// The members of `paths` other than the canonical path `c`, in order.
pub open spec fn non_canonical_paths(paths: Seq<Seq<char>>, c: Seq<char>) -> Seq<Seq<char>>
    decreases paths.len(),
{
    if paths.len() == 0 {
        Seq::empty()
    } else {
        let rest = non_canonical_paths(paths.drop_last(), c);
        if paths.last() == c {
            rest
        } else {
            rest.push(paths.last())
        }
    }
}

/// The canonical path of a group: the first shortest member.
pub open spec fn canonical_path(paths: Seq<Seq<char>>) -> Seq<char> {
    paths[shortest_index(paths)]
}

/// Plan the replacements for one duplicate group: every member other than
/// the canonical one becomes a link job against it. A group with fewer
/// than two members yields no jobs.
pub fn plan_group_links(group: &DuplicateGroup) -> (jobs: Vec<LinkJob>)
    ensures
        group.files@.len() < 2 ==> jobs@.len() == 0,
        group.files@.len() >= 2 ==> jobs@.len() == non_canonical_paths(
            group.files.deep_view(),
            canonical_path(group.files.deep_view()),
        ).len(),
        forall|i: int|
            #![trigger jobs@[i]]
            0 <= i < jobs@.len() ==> {
                &&& jobs@[i].path@ == non_canonical_paths(
                    group.files.deep_view(),
                    canonical_path(group.files.deep_view()),
                )[i]
                &&& jobs@[i].original@ == canonical_path(group.files.deep_view())
                &&& jobs@[i].size == group.size
            },
{
    let ghost fv = group.files.deep_view();
    let mut jobs: Vec<LinkJob> = Vec::new();
    if group.files.len() < 2 {
        return jobs;
    }
    let canon: String = select_original(&group.files).clone();
    proof {
        lemma_shortest_index_min(fv);
        assert(canon == group.files@[shortest_index(fv)]);
        assert(fv[shortest_index(fv)] == group.files@[shortest_index(fv)]@);
        assert(canon@ == canonical_path(fv));
    }
    let n = group.files.len();
    for j in 0..n
        invariant
            n == group.files@.len(),
            n == fv.len(),
            fv == group.files.deep_view(),
            canon@ == canonical_path(fv),
            jobs@.len() == non_canonical_paths(fv.take(j as int), canon@).len(),
            forall|i: int|
                #![trigger jobs@[i]]
                0 <= i < jobs@.len() ==> {
                    &&& jobs@[i].path@ == non_canonical_paths(fv.take(j as int), canon@)[i]
                    &&& jobs@[i].original@ == canon@
                    &&& jobs@[i].size == group.size
                },
    {
        proof {
            assert(fv.take(j + 1).drop_last() =~= fv.take(j as int));
            assert(fv.take(j + 1).last() == fv[j as int]);
        }
        let member = &group.files[j];
        proof {
            assert(fv[j as int] == group.files@[j as int]@);
        }
        if !(*member == canon) {
            jobs.push(
                LinkJob { path: member.clone(), original: canon.clone(), size: group.size },
            );
        }
    }
    proof {
        assert(fv.take(n as int) =~= fv);
    }
    jobs
}

/// Whether two filesystem identities are the same file: same device and
/// same inode. A member that already shares its original's identity is
/// skipped, which makes the action idempotent.
pub fn same_identity(dev_a: u64, ino_a: u64, dev_b: u64, ino_b: u64) -> (r: bool)
    ensures
        r == (dev_a == dev_b && ino_a == ino_b),
{
    dev_a == dev_b && ino_a == ino_b
}

/// The temporary name used while replacing `path`: a fixed suffix keeps it
/// in the same directory, and the same `path` always maps to the same
/// temporary name, so a leftover from an interrupted run is found and
/// removed before the next attempt.
pub fn temp_link_path(path: &String) -> (r: String)
    ensures
        r@ == path@ + ".dedup.tmp"@,
        r@.len() > path@.len(),
        r@ != path@,
        forall|i: int| path@.len() <= i < r@.len() ==> r@[i] != '/',
{
    let r = path.clone().concat(".dedup.tmp");
    proof {
        reveal_strlit(".dedup.tmp");
        assert(r@.len() == path@.len() + 10);
        assert forall|i: int| path@.len() <= i < r@.len() implies r@[i] != '/' by {
            assert(r@[i] == ".dedup.tmp"@[i - path@.len()]);
        }
    }
    r
}

/// What happened to one planned link job.
#[derive(Debug, Clone)]
pub enum LinkOutcome {
    /// The replacement was carried out (or, in a dry run, would have been).
    Linked,
    /// The member already shared the original's identity; nothing was done.
    AlreadyLinked,
    /// The replacement failed; the message describes the error.
    Failed(String),
}

/// Whether an outcome counts as a completed link.
pub open spec fn is_linked(o: LinkOutcome) -> bool {
    match o {
        LinkOutcome::Linked => true,
        _ => false,
    }
}

/// Whether an outcome records a failure.
pub open spec fn is_failed(o: LinkOutcome) -> bool {
    match o {
        LinkOutcome::Failed(_) => true,
        _ => false,
    }
}

/// The message of a failed outcome.
pub open spec fn failure_message(o: LinkOutcome) -> Seq<char> {
    match o {
        LinkOutcome::Failed(m) => m@,
        _ => Seq::empty(),
    }
}

/// How many outcomes count as completed links.
pub open spec fn count_linked(outs: Seq<LinkOutcome>) -> int
    decreases outs.len(),
{
    if outs.len() == 0 {
        0
    } else {
        count_linked(outs.drop_last()) + if is_linked(outs.last()) {
            1int
        } else {
            0int
        }
    }
}

/// The bytes reclaimed by the completed links.
pub open spec fn linked_bytes(jobs: Seq<LinkJob>, outs: Seq<LinkOutcome>) -> int
    decreases outs.len(),
{
    if outs.len() == 0 || jobs.len() != outs.len() {
        0
    } else {
        linked_bytes(jobs.drop_last(), outs.drop_last()) + if is_linked(outs.last()) {
            jobs.last().size as int
        } else {
            0int
        }
    }
}

/// The failures, as path and message pairs, in job order.
pub open spec fn failures_of(jobs: Seq<LinkJob>, outs: Seq<LinkOutcome>) -> Seq<
    (Seq<char>, Seq<char>),
>
    decreases outs.len(),
{
    if outs.len() == 0 || jobs.len() != outs.len() {
        Seq::empty()
    } else {
        let rest = failures_of(jobs.drop_last(), outs.drop_last());
        if is_failed(outs.last()) {
            rest.push((jobs.last().path@, failure_message(outs.last())))
        } else {
            rest
        }
    }
}

/// At most one link is counted per outcome.
proof fn lemma_count_linked_bound(outs: Seq<LinkOutcome>)
    ensures
        0 <= count_linked(outs) <= outs.len(),
    decreases outs.len(),
{
    if outs.len() == 0 {
    } else {
        lemma_count_linked_bound(outs.drop_last());
    }
}

/// Add up what a run of link jobs achieved, one outcome per job: how many
/// links were made, how many bytes they reclaimed (saturating at the
/// counter's maximum), and which jobs failed with what message. A failure
/// never stops the accounting of the remaining jobs.
pub fn apply_link_events(jobs: &Vec<LinkJob>, outcomes: &Vec<LinkOutcome>) -> (r: ActionResult)
    requires
        jobs@.len() == outcomes@.len(),
    ensures
        r.files_linked == count_linked(outcomes@),
        r.bytes_saved == crate::cap_u64(linked_bytes(jobs@, outcomes@)),
        r.errors@.len() == failures_of(jobs@, outcomes@).len(),
        forall|i: int|
            #![trigger r.errors@[i]]
            0 <= i < r.errors@.len() ==> {
                &&& r.errors@[i].0@ == failures_of(jobs@, outcomes@)[i].0
                &&& r.errors@[i].1@ == failures_of(jobs@, outcomes@)[i].1
            },
{
    let mut files_linked: usize = 0;
    let mut bytes_saved: u64 = 0;
    let mut errors: Vec<(String, String)> = Vec::new();

    let n = jobs.len();
    for i in 0..n
        invariant
            n == jobs@.len(),
            n == outcomes@.len(),
            files_linked == count_linked(outcomes@.take(i as int)),
            files_linked <= i,
            bytes_saved == crate::cap_u64(
                linked_bytes(jobs@.take(i as int), outcomes@.take(i as int)),
            ),
            errors@.len() == failures_of(jobs@.take(i as int), outcomes@.take(i as int)).len(),
            forall|w: int|
                #![trigger errors@[w]]
                0 <= w < errors@.len() ==> {
                    &&& errors@[w].0@ == failures_of(
                        jobs@.take(i as int),
                        outcomes@.take(i as int),
                    )[w].0
                    &&& errors@[w].1@ == failures_of(
                        jobs@.take(i as int),
                        outcomes@.take(i as int),
                    )[w].1
                },
    {
        proof {
            assert(jobs@.take(i + 1).drop_last() =~= jobs@.take(i as int));
            assert(jobs@.take(i + 1).last() == jobs@[i as int]);
            assert(outcomes@.take(i + 1).drop_last() =~= outcomes@.take(i as int));
            assert(outcomes@.take(i + 1).last() == outcomes@[i as int]);
            lemma_count_linked_bound(outcomes@.take(i as int));
        }
        let job = &jobs[i];
        match &outcomes[i] {
            LinkOutcome::Linked => {
                files_linked = files_linked + 1;
                if bytes_saved > u64::MAX - job.size {
                    bytes_saved = u64::MAX;
                } else {
                    bytes_saved = bytes_saved + job.size;
                }
            },
            LinkOutcome::AlreadyLinked => {
            },
            LinkOutcome::Failed(m) => {
                errors.push((job.path.clone(), m.clone()));
            },
        }
        proof {
            assert(count_linked(outcomes@.take(i + 1)) == count_linked(outcomes@.take(i as int))
                + if is_linked(outcomes@[i as int]) {
                1int
            } else {
                0int
            });
        }
    }
    proof {
        assert(jobs@.take(n as int) =~= jobs@);
        assert(outcomes@.take(n as int) =~= outcomes@);
    }

    ActionResult { files_linked, bytes_saved, errors }
}

/// A second pass over an already-deduplicated tree is a no-op. After a
/// successful run every remaining member shares its original's filesystem
/// identity, so the identity check reports every job already linked — and
/// a run whose outcomes are all of that kind links no files, reclaims no
/// bytes and reports no failures.
pub proof fn lemma_already_linked_run_is_noop(jobs: Seq<LinkJob>, outs: Seq<LinkOutcome>)
    requires
        jobs.len() == outs.len(),
        forall|i: int|
            #![trigger outs[i]]
            0 <= i < outs.len() ==> outs[i] == LinkOutcome::AlreadyLinked,
    ensures
        count_linked(outs) == 0,
        linked_bytes(jobs, outs) == 0,
        failures_of(jobs, outs).len() == 0,
    decreases outs.len(),
{
    if outs.len() == 0 {
    } else {
        assert(outs.last() == outs[outs.len() - 1]);
        assert forall|i: int| #![trigger outs.drop_last()[i]] 0 <= i < outs.drop_last().len()
            implies outs.drop_last()[i] == LinkOutcome::AlreadyLinked by {
            assert(outs.drop_last()[i] == outs[i]);
        }
        lemma_already_linked_run_is_noop(jobs.drop_last(), outs.drop_last());
    }
}

} // verus!
