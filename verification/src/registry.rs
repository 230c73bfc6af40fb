//! The cross-workspace directories registry: the list of canonical workspace
//! paths registered on this machine, used to refuse nested workspaces.
//!
//! Loading, saving and canonicalizing are the caller's business; the rules —
//! no duplicates, the overlap check, the stale-entry sweep — live here.

use vstd::prelude::*;
use vstd::string::StringExecFns;
use crate::peers::{contains_id, keep_others, lemma_id_push, lemma_keep_others, remove_id};
use crate::reconcile::{distinct_paths, has_path};
use crate::sandbox::path_within;

verus! {

/// The registry persisted in the per-user application data directory.
pub struct DirectoriesRegistry {
    pub directories: Vec<String>,
}

impl DirectoriesRegistry {
    /// No directory occurs twice.
    pub open spec fn wf(&self) -> bool {
        distinct_paths(self.directories@)
    }

    /// An empty registry.
    pub fn new() -> (r: DirectoriesRegistry)
        ensures
            r.directories@.len() == 0,
            r.wf(),
    {
        DirectoriesRegistry { directories: Vec::new() }
    }
}

/// The registry file inside the per-user application data directory.
pub fn get_registry_path(data_dir: &String) -> (r: String)
    ensures
        r@ == data_dir@ + "/synclite/directories.json"@,
{
    let mut out = data_dir.clone();
    out.append("/synclite/directories.json");
    out
}

/// Register a canonical workspace path; duplicates are not added.
pub fn add_directory(registry: &mut DirectoriesRegistry, canonical_path: String)
    requires
        old(registry).wf(),
    ensures
        final(registry).wf(),
        forall|p: Seq<char>|
            has_path(final(registry).directories@, p) <==> (has_path(
                old(registry).directories@,
                p,
            ) || p == canonical_path@),
{
    if !contains_id(&registry.directories, &canonical_path) {
        let ghost old_seq = registry.directories@;
        registry.directories.push(canonical_path);
        proof {
            lemma_id_push(old_seq, final(registry).directories@.last());
            assert(final(registry).directories@ == old_seq.push(
                final(registry).directories@.last(),
            ));
        }
    }
}

/// Whether one path overlaps the other: either lies within the other.
pub open spec fn paths_conflict(a: Seq<char>, d: Seq<char>) -> bool {
    path_within(d, a) || path_within(a, d)
}

/// Check a canonical path against every registered workspace. Returns
/// whether a conflict exists and, if so, one registered directory that
/// causes it.
pub fn check_path_conflicts(registry: &DirectoriesRegistry, canonical_path: &String) -> (r: (
    bool,
    Option<String>,
))
    ensures
        r.0 <==> exists|i: int|
            0 <= i < registry.directories@.len() && paths_conflict(
                canonical_path@,
                #[trigger] registry.directories@[i]@,
            ),
        r.0 ==> r.1 is Some && exists|i: int|
            0 <= i < registry.directories@.len() && #[trigger] registry.directories@[i]@ == r.1
                ->0@ && paths_conflict(canonical_path@, r.1->0@),
        !r.0 ==> r.1 is None,
{
    let mut i: usize = 0;
    while i < registry.directories.len()
        invariant
            i <= registry.directories@.len(),
            forall|j: int|
                0 <= j < i ==> !paths_conflict(
                    canonical_path@,
                    #[trigger] registry.directories@[j]@,
                ),
        decreases registry.directories@.len() - i,
    {
        let dir = &registry.directories[i];
        let within_dir = crate::sandbox::is_within(dir.as_str(), canonical_path.as_str());
        let dir_within = crate::sandbox::is_within(canonical_path.as_str(), dir.as_str());
        if within_dir || dir_within {
            let found = registry.directories[i].clone();
            proof {
                assert(registry.directories@[i as int]@ == found@);
                assert(paths_conflict(canonical_path@, registry.directories@[i as int]@));
                assert(exists|k: int|
                    0 <= k < registry.directories@.len() && paths_conflict(
                        canonical_path@,
                        #[trigger] registry.directories@[k]@,
                    ));
                assert(exists|k: int|
                    0 <= k < registry.directories@.len() && #[trigger] registry.directories@[k]@
                        == found@ && paths_conflict(canonical_path@, found@));
            }
            return (true, Some(found));
        }
        i = i + 1;
    }
    (false, None)
}

/// The entries whose flag is set, in their original order.
pub open spec fn kept_flags(v: Seq<String>, keep: Seq<bool>) -> Seq<String>
    recommends
        v.len() <= keep.len(),
    decreases v.len(),
{
    if v.len() == 0 {
        Seq::<String>::empty()
    } else if v.len() <= keep.len() && keep[v.len() - 1] {
        kept_flags(v.drop_last(), keep).push(v.last())
    } else {
        kept_flags(v.drop_last(), keep)
    }
}

/// What the sweep keeps: exactly the flagged entries, still distinct.
pub proof fn lemma_kept_flags(v: Seq<String>, keep: Seq<bool>)
    requires
        v.len() <= keep.len(),
    ensures
        forall|q: Seq<char>|
            #[trigger] has_path(kept_flags(v, keep), q) <==> exists|i: int|
                0 <= i < v.len() && #[trigger] v[i]@ == q && keep[i],
        distinct_paths(v) ==> distinct_paths(kept_flags(v, keep)),
    decreases v.len(),
{
    if v.len() == 0 {
        assert forall|q: Seq<char>|
            #[trigger] has_path(kept_flags(v, keep), q) <==> exists|i: int|
                0 <= i < v.len() && #[trigger] v[i]@ == q && keep[i] by {
            if has_path(kept_flags(v, keep), q) {
                let j = choose|j: int|
                    0 <= j < kept_flags(v, keep).len() && #[trigger] kept_flags(v, keep)[j]@ == q;
            }
            if exists|i: int| 0 <= i < v.len() && #[trigger] v[i]@ == q && keep[i] {
                let i = choose|i: int| 0 <= i < v.len() && #[trigger] v[i]@ == q && keep[i];
            }
        }
    } else {
        let w = v.drop_last();
        let x = v.last();
        let n = v.len() - 1;
        if distinct_paths(v) {
            assert(distinct_paths(w));
        }
        lemma_kept_flags(w, keep);
        if keep[n as int] {
            assert(kept_flags(v, keep) == kept_flags(w, keep).push(x));
            lemma_id_push(kept_flags(w, keep), x);
            assert forall|q: Seq<char>|
                #[trigger] has_path(kept_flags(v, keep), q) <==> exists|i: int|
                    0 <= i < v.len() && #[trigger] v[i]@ == q && keep[i] by {
                assert(has_path(kept_flags(v, keep), q) == (has_path(kept_flags(w, keep), q)
                    || x@ == q));
                if has_path(kept_flags(w, keep), q) {
                    let i = choose|i: int| 0 <= i < w.len() && #[trigger] w[i]@ == q && keep[i];
                    assert(v[i]@ == q && keep[i]);
                }
                if x@ == q {
                    assert(v[n as int]@ == q && keep[n as int]);
                }
                if exists|i: int| 0 <= i < v.len() && #[trigger] v[i]@ == q && keep[i] {
                    let i = choose|i: int|
                        0 <= i < v.len() && #[trigger] v[i]@ == q && keep[i];
                    if i < n {
                        assert(w[i]@ == q && keep[i]);
                    }
                }
            }
            if distinct_paths(v) {
                assert(!has_path(kept_flags(w, keep), x@)) by {
                    if has_path(kept_flags(w, keep), x@) {
                        let i = choose|i: int|
                            0 <= i < w.len() && #[trigger] w[i]@ == x@ && keep[i];
                        assert(v[i]@ == v[n as int]@);
                        assert(false);
                    }
                }
            }
        } else {
            assert(kept_flags(v, keep) == kept_flags(w, keep));
            assert forall|q: Seq<char>|
                #[trigger] has_path(kept_flags(v, keep), q) <==> exists|i: int|
                    0 <= i < v.len() && #[trigger] v[i]@ == q && keep[i] by {
                if has_path(kept_flags(w, keep), q) {
                    let i = choose|i: int| 0 <= i < w.len() && #[trigger] w[i]@ == q && keep[i];
                    assert(v[i]@ == q && keep[i]);
                }
                if exists|i: int| 0 <= i < v.len() && #[trigger] v[i]@ == q && keep[i] {
                    let i = choose|i: int|
                        0 <= i < v.len() && #[trigger] v[i]@ == q && keep[i];
                    assert(i < n);
                    assert(w[i]@ == q && keep[i]);
                }
            }
        }
    }
}

/// Keep only the directories whose flag says their storage folder still
/// exists on disk; the caller supplies one flag per entry. Order is kept.
pub fn cleanup_registry(registry: &mut DirectoriesRegistry, keep: &Vec<bool>)
    requires
        old(registry).wf(),
        keep@.len() == old(registry).directories@.len(),
    ensures
        final(registry).wf(),
        final(registry).directories@ == kept_flags(old(registry).directories@, keep@),
        forall|p: Seq<char>|
            has_path(final(registry).directories@, p) <==> exists|i: int|
                0 <= i < old(registry).directories@.len() && #[trigger] old(
                    registry,
                ).directories@[i]@ == p && keep@[i],
{
    let ghost old_seq = registry.directories@;
    let mut kept: Vec<String> = Vec::new();
    let mut i: usize = 0;
    proof {
        assert(old_seq.take(0int) =~= Seq::<String>::empty());
        assert(kept@ =~= kept_flags(old_seq.take(0int), keep@));
    }
    while i < registry.directories.len()
        invariant
            i <= old_seq.len(),
            registry.directories@ == old_seq,
            keep@.len() == old_seq.len(),
            kept@ == kept_flags(old_seq.take(i as int), keep@),
        decreases old_seq.len() - i,
    {
        if keep[i] {
            kept.push(registry.directories[i].clone());
        }
        proof {
            let t1 = old_seq.take(i + 1);
            assert(t1 =~= old_seq.take(i as int).push(old_seq[i as int]));
            assert(t1.drop_last() =~= old_seq.take(i as int));
            assert(t1.last() == old_seq[i as int]);
            assert(t1.len() - 1 == i as int);
            assert(kept@ =~= kept_flags(t1, keep@));
        }
        i = i + 1;
    }
    proof {
        assert(old_seq.take(old_seq.len() as int) =~= old_seq);
        lemma_kept_flags(old_seq, keep@);
    }
    registry.directories = kept;
}

/// Unregister a canonical workspace path. The remaining entries keep their
/// order.
pub fn remove_directory(registry: &mut DirectoriesRegistry, canonical_path: &String)
    requires
        old(registry).wf(),
    ensures
        final(registry).wf(),
        final(registry).directories@ == keep_others(
            old(registry).directories@,
            canonical_path@,
        ),
        forall|p: Seq<char>|
            has_path(final(registry).directories@, p) <==> (has_path(
                old(registry).directories@,
                p,
            ) && p != canonical_path@),
        final(registry).directories@.len() == old(registry).directories@.len() - (if has_path(
            old(registry).directories@,
            canonical_path@,
        ) {
            1int
        } else {
            0int
        }),
{
    let ghost old_seq = registry.directories@;
    let kept = remove_id(&registry.directories, canonical_path);
    proof {
        lemma_keep_others(old_seq, canonical_path@);
    }
    registry.directories = kept;
}

} // verus!
