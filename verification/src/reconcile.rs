//! Last-writer-wins reconciliation of two sync states.
//!
//! `determine_winning_files(server, peer)` says what each side must send and
//! what each side must delete so that the two states come to agreement. The
//! decision for each path depends only on the two entries for that path.

use vstd::prelude::*;
use crate::state::{
    FileEntry, FileEntryV, SyncState, entries_equivalent, entry_wf, lemma_map_of_contains,
    lemma_map_of_index, map_of,
};

verus! {

/// Whether some element of `v` reads as the path `p`.
pub open spec fn has_path(v: Seq<String>, p: Seq<char>) -> bool {
    exists|i: int| 0 <= i < v.len() && #[trigger] v[i]@ == p
}

/// No path occurs twice in the list.
pub open spec fn distinct_paths(v: Seq<String>) -> bool {
    forall|i: int, j: int| 0 <= i < j < v.len() ==> v[i]@ != v[j]@
}

/// Whether `p` is a key of one of the first `n` pairs.
pub open spec fn key_in_prefix(s: Seq<(Seq<char>, FileEntryV)>, n: int, p: Seq<char>) -> bool {
    exists|j: int| 0 <= j < n && #[trigger] s[j].0 == p
}

pub proof fn lemma_prefix_extend(s: Seq<(Seq<char>, FileEntryV)>, n: int)
    requires
        0 <= n < s.len(),
    ensures
        forall|p: Seq<char>|
            #[trigger] key_in_prefix(s, n + 1, p) <==> (key_in_prefix(s, n, p) || s[n].0 == p),
{
    assert forall|p: Seq<char>|
        #[trigger] key_in_prefix(s, n + 1, p) <==> (key_in_prefix(s, n, p) || s[n].0 == p) by {
        if key_in_prefix(s, n + 1, p) {
            let j = choose|j: int| 0 <= j < n + 1 && #[trigger] s[j].0 == p;
            if j < n {
                assert(key_in_prefix(s, n, p));
            } else {
                assert(s[n].0 == p);
            }
        }
        if s[n].0 == p {
            assert(key_in_prefix(s, n + 1, p));
        }
        if key_in_prefix(s, n, p) {
            let j = choose|j: int| 0 <= j < n && #[trigger] s[j].0 == p;
            assert(key_in_prefix(s, n + 1, p));
        }
    }
}

pub proof fn lemma_prefix_full(s: Seq<(Seq<char>, FileEntryV)>)
    ensures
        forall|p: Seq<char>| #[trigger] key_in_prefix(s, s.len() as int, p) <==> map_of(s).contains_key(p),
{
    lemma_map_of_contains(s);
}

/// The first side holds the winning live content for `p` and must send it:
/// it has a live entry that the second side either lacks entirely or holds
/// with a different hash and a strictly older timestamp.
pub open spec fn a_sends(a: Map<Seq<char>, FileEntryV>, b: Map<Seq<char>, FileEntryV>, p: Seq<char>) -> bool {
    &&& a.contains_key(p)
    &&& !a[p].is_deleted
    &&& if b.contains_key(p) {
        a[p].hash != b[p].hash && a[p].last_modified > b[p].last_modified
    } else {
        true
    }
}

/// The second side holds the winning live content for `p` and must send it.
pub open spec fn b_sends(a: Map<Seq<char>, FileEntryV>, b: Map<Seq<char>, FileEntryV>, p: Seq<char>) -> bool {
    &&& b.contains_key(p)
    &&& !b[p].is_deleted
    &&& if a.contains_key(p) {
        b[p].hash != a[p].hash && b[p].last_modified > a[p].last_modified
    } else {
        true
    }
}

/// The second side holds the winning tombstone for `p`, so the first side
/// must delete `p` locally.
pub open spec fn a_deletes(a: Map<Seq<char>, FileEntryV>, b: Map<Seq<char>, FileEntryV>, p: Seq<char>) -> bool {
    &&& b.contains_key(p)
    &&& b[p].is_deleted
    &&& if a.contains_key(p) {
        b[p].hash != a[p].hash && b[p].last_modified > a[p].last_modified
    } else {
        true
    }
}

/// The first side holds the winning tombstone for `p`, so the second side
/// must delete `p` locally.
pub open spec fn b_deletes(a: Map<Seq<char>, FileEntryV>, b: Map<Seq<char>, FileEntryV>, p: Seq<char>) -> bool {
    &&& a.contains_key(p)
    &&& a[p].is_deleted
    &&& if b.contains_key(p) {
        a[p].hash != b[p].hash && a[p].last_modified > b[p].last_modified
    } else {
        true
    }
}

/// Two states describe the same workspace: the same paths, each pair of
/// entries equivalent (both tombstones of equal time, or both live with
/// equal hashes).
pub open spec fn states_equivalent(a: Map<Seq<char>, FileEntryV>, b: Map<Seq<char>, FileEntryV>) -> bool {
    &&& a.dom() == b.dom()
    &&& forall|p: Seq<char>| a.contains_key(p) ==> entries_equivalent(#[trigger] a[p], b[p])
}

/// Every entry a state maps to is well formed.
pub open spec fn map_entries_wf(m: Map<Seq<char>, FileEntryV>) -> bool {
    forall|p: Seq<char>| m.contains_key(p) ==> entry_wf(#[trigger] m[p])
}

/// Reconciliation is symmetric: swapping the two inputs swaps the two send
/// verdicts and swaps the two delete verdicts, for every path.
pub proof fn lemma_reconcile_symmetry(
    a: Map<Seq<char>, FileEntryV>,
    b: Map<Seq<char>, FileEntryV>,
    p: Seq<char>,
)
    ensures
        a_sends(a, b, p) == b_sends(b, a, p),
        b_sends(a, b, p) == a_sends(b, a, p),
        a_deletes(a, b, p) == b_deletes(b, a, p),
        b_deletes(a, b, p) == a_deletes(b, a, p),
{
}

/// Reconciliation of equivalent states asks for nothing: no sends and no
/// deletes on either side.
pub proof fn lemma_reconcile_fixpoint(
    a: Map<Seq<char>, FileEntryV>,
    b: Map<Seq<char>, FileEntryV>,
    p: Seq<char>,
)
    requires
        map_entries_wf(a),
        map_entries_wf(b),
        states_equivalent(a, b),
    ensures
        !a_sends(a, b, p),
        !b_sends(a, b, p),
        !a_deletes(a, b, p),
        !b_deletes(a, b, p),
{
    if a.contains_key(p) {
        assert(b.contains_key(p));
        assert(entries_equivalent(a[p], b[p]));
    }
    if b.contains_key(p) {
        assert(a.dom().contains(p));
        assert(entries_equivalent(a[p], b[p]));
    }
}

/// A tombstone strictly newer than the other side's live entry always wins:
/// the live side is told to delete the path.
pub proof fn lemma_tombstone_monotonicity(
    a: Map<Seq<char>, FileEntryV>,
    b: Map<Seq<char>, FileEntryV>,
    p: Seq<char>,
)
    requires
        map_entries_wf(a),
        map_entries_wf(b),
        b.contains_key(p),
        b[p].is_deleted,
        a.contains_key(p),
        !a[p].is_deleted,
        b[p].last_modified > a[p].last_modified,
    ensures
        a_deletes(a, b, p),
{
    assert(entry_wf(a[p]));
    assert(entry_wf(b[p]));
}

proof fn lemma_has_path_push(v: Seq<String>, x: String)
    ensures
        forall|p: Seq<char>| has_path(v.push(x), p) <==> (has_path(v, p) || x@ == p),
        !has_path(v, x@) && distinct_paths(v) ==> distinct_paths(v.push(x)),
{
    if !has_path(v, x@) && distinct_paths(v) {
        assert forall|i: int, j: int| 0 <= i < j < v.push(x).len() implies
            v.push(x)[i]@ != v.push(x)[j]@ by {
            if j == v.len() {
                if v[i]@ == x@ {
                    assert(has_path(v, x@));
                }
            }
        }
    }
    assert forall|p: Seq<char>| has_path(v.push(x), p) implies (has_path(v, p) || x@ == p) by {
        let i = choose|i: int| 0 <= i < v.push(x).len() && #[trigger] v.push(x)[i]@ == p;
        if i < v.len() {
            assert(v[i]@ == p);
        }
    }
    assert forall|p: Seq<char>| (has_path(v, p) || x@ == p) implies has_path(v.push(x), p) by {
        if has_path(v, p) {
            let i = choose|i: int| 0 <= i < v.len() && #[trigger] v[i]@ == p;
            assert(v.push(x)[i]@ == p);
        } else {
            assert(v.push(x)[v.len() as int]@ == p);
        }
    }
}

proof fn lemma_step_list(
    v0: Seq<String>,
    v1: Seq<String>,
    x: String,
    cond: bool,
    pred: spec_fn(Seq<char>) -> bool,
    done: spec_fn(Seq<char>) -> bool,
    s: Seq<(Seq<char>, FileEntryV)>,
    i: int,
)
    requires
        0 <= i < s.len(),
        s[i].0 == x@,
        forall|j: int| 0 <= j < i ==> s[j].0 != x@,
        !done(x@),
        v1 == if cond { v0.push(x) } else { v0 },
        cond == pred(x@),
        forall|p: Seq<char>|
            #[trigger] has_path(v0, p) <==> (pred(p) && (done(p) || key_in_prefix(s, i, p))),
        distinct_paths(v0),
    ensures
        forall|p: Seq<char>|
            #[trigger] has_path(v1, p) <==> (pred(p) && (done(p) || key_in_prefix(s, i + 1, p))),
        distinct_paths(v1),
{
    lemma_prefix_extend(s, i);
    lemma_has_path_push(v0, x);
    assert(!key_in_prefix(s, i, x@));
    assert(!has_path(v0, x@));
    assert forall|p: Seq<char>|
        #[trigger] has_path(v1, p) <==> (pred(p) && (done(p) || key_in_prefix(s, i + 1, p))) by {
        assert(key_in_prefix(s, i + 1, p) <==> (key_in_prefix(s, i, p) || s[i].0 == p));
        if cond {
            assert(has_path(v1, p) <==> (has_path(v0, p) || x@ == p));
        }
    }
}

proof fn lemma_skip_list(
    v0: Seq<String>,
    x_view: Seq<char>,
    pred: spec_fn(Seq<char>) -> bool,
    done: spec_fn(Seq<char>) -> bool,
    s: Seq<(Seq<char>, FileEntryV)>,
    i: int,
)
    requires
        0 <= i < s.len(),
        s[i].0 == x_view,
        done(x_view),
        forall|p: Seq<char>|
            #[trigger] has_path(v0, p) <==> (pred(p) && (done(p) || key_in_prefix(s, i, p))),
    ensures
        forall|p: Seq<char>|
            #[trigger] has_path(v0, p) <==> (pred(p) && (done(p) || key_in_prefix(s, i + 1, p))),
{
    lemma_prefix_extend(s, i);
    assert forall|p: Seq<char>|
        #[trigger] has_path(v0, p) <==> (pred(p) && (done(p) || key_in_prefix(s, i + 1, p))) by {
        assert(key_in_prefix(s, i + 1, p) <==> (key_in_prefix(s, i, p) || s[i].0 == p));
    }
}

/// Whether two optional hashes are the same.
fn hash_eq(a: &Option<String>, b: &Option<String>) -> (r: bool)
    ensures
        r <==> ((a is Some && b is Some && a->0@ == b->0@) || (a is None && b is None)),
{
    match a {
        Some(x) => match b {
            Some(y) => x.eq(y),
            None => false,
        },
        None => b.is_none(),
    }
}

/// Process one entry of the first state: push its path onto the list that
/// the reconciliation verdict for that path selects, if any.
fn reconcile_step(
    first_winning: &mut Vec<String>,
    second_winning: &mut Vec<String>,
    delete_from_first: &mut Vec<String>,
    delete_from_second: &mut Vec<String>,
    path: &String,
    entry: &FileEntry,
    second: &SyncState,
    Ghost(am): Ghost<Map<Seq<char>, FileEntryV>>,
)
    requires
        second.wf(),
        am.contains_key(path@),
        am[path@] == entry@,
    ensures
        ({
            let bm = second.as_map();
            let p = path@;
            &&& final(first_winning)@ == if a_sends(am, bm, p) {
                old(first_winning)@.push(*path)
            } else {
                old(first_winning)@
            }
            &&& final(second_winning)@ == if b_sends(am, bm, p) {
                old(second_winning)@.push(*path)
            } else {
                old(second_winning)@
            }
            &&& final(delete_from_first)@ == if a_deletes(am, bm, p) {
                old(delete_from_first)@.push(*path)
            } else {
                old(delete_from_first)@
            }
            &&& final(delete_from_second)@ == if b_deletes(am, bm, p) {
                old(delete_from_second)@.push(*path)
            } else {
                old(delete_from_second)@
            }
        }),
{
    let ghost bm = second.as_map();
    let ghost p = path@;
    match second.get_file(path) {
        Some(second_entry) => {
            if !hash_eq(&entry.hash, &second_entry.hash) {
                proof {
                    assert(am[p].hash != bm[p].hash);
                }
                if second_entry.last_modified > entry.last_modified {
                    if second_entry.is_deleted {
                        delete_from_first.push(path.clone());
                    } else {
                        second_winning.push(path.clone());
                    }
                } else if entry.last_modified > second_entry.last_modified {
                    if entry.is_deleted {
                        delete_from_second.push(path.clone());
                    } else {
                        first_winning.push(path.clone());
                    }
                }
            } else {
                proof {
                    assert(am[p].hash == bm[p].hash);
                }
            }
        },
        None => {
            if entry.is_deleted {
                delete_from_second.push(path.clone());
            } else {
                first_winning.push(path.clone());
            }
        },
    }
}

/// Decide what each side must do to bring two states into agreement.
///
/// Returns, in order: the paths whose content the first (server) side must
/// send, the paths whose content the second (peer) side must send, the paths
/// the server must delete locally, and the paths the peer must delete
/// locally. Each list holds each path at most once; order is the order the
/// entries are stored in.
#[verifier::rlimit(60)]
pub fn determine_winning_files(server: &SyncState, peer: &SyncState) -> (r: (
    Vec<String>,
    Vec<String>,
    Vec<String>,
    Vec<String>,
))
    requires
        server.wf(),
        peer.wf(),
    ensures
        ({
            let am = server.as_map();
            let bm = peer.as_map();
            &&& forall|p: Seq<char>| has_path(r.0@, p) <==> a_sends(am, bm, p)
            &&& forall|p: Seq<char>| has_path(r.1@, p) <==> b_sends(am, bm, p)
            &&& forall|p: Seq<char>| has_path(r.2@, p) <==> a_deletes(am, bm, p)
            &&& forall|p: Seq<char>| has_path(r.3@, p) <==> b_deletes(am, bm, p)
            &&& distinct_paths(r.0@)
            &&& distinct_paths(r.1@)
            &&& distinct_paths(r.2@)
            &&& distinct_paths(r.3@)
        }),
{
    let ghost am = server.as_map();
    let ghost bm = peer.as_map();

    let mut server_winning: Vec<String> = Vec::new();
    let mut peer_winning: Vec<String> = Vec::new();
    let mut delete_from_server: Vec<String> = Vec::new();
    let mut delete_from_peer: Vec<String> = Vec::new();

    let ghost aseq = server@;
    let ghost bseq = peer@;

    let mut i: usize = 0;
    while i < server.entries.len()
        invariant
            server.wf(),
            peer.wf(),
            am == server.as_map(),
            bm == peer.as_map(),
            aseq == server@,
            bseq == peer@,
            i <= aseq.len(),
            server.entries@.len() == aseq.len(),
            forall|p: Seq<char>|
                #[trigger] has_path(server_winning@, p) <==> (a_sends(am, bm, p)
                    && key_in_prefix(aseq, i as int, p)),
            forall|p: Seq<char>|
                #[trigger] has_path(peer_winning@, p) <==> (b_sends(am, bm, p)
                    && key_in_prefix(aseq, i as int, p)),
            forall|p: Seq<char>|
                #[trigger] has_path(delete_from_server@, p) <==> (a_deletes(am, bm, p)
                    && key_in_prefix(aseq, i as int, p)),
            forall|p: Seq<char>|
                #[trigger] has_path(delete_from_peer@, p) <==> (b_deletes(am, bm, p)
                    && key_in_prefix(aseq, i as int, p)),
            distinct_paths(server_winning@),
            distinct_paths(peer_winning@),
            distinct_paths(delete_from_server@),
            distinct_paths(delete_from_peer@),
        decreases aseq.len() - i,
    {
        let path: &String = &server.entries[i].0;
        let entry: &FileEntry = &server.entries[i].1;
        let ghost p = path@;
        proof {
            lemma_map_of_contains(server@);
            lemma_map_of_index(server@);
            assert(aseq[i as int].0 == p && aseq[i as int].1 == entry@);
            assert(am.contains_key(p) && am[p] == entry@);
            assert(forall|j: int| 0 <= j < i ==> aseq[j].0 != p);
            assert(!key_in_prefix(aseq, i as int, p));
            lemma_prefix_extend(aseq, i as int);
        }
        let ghost sw0 = server_winning@;
        let ghost pw0 = peer_winning@;
        let ghost dfs0 = delete_from_server@;
        let ghost dfp0 = delete_from_peer@;
        reconcile_step(
            &mut server_winning,
            &mut peer_winning,
            &mut delete_from_server,
            &mut delete_from_peer,
            path,
            entry,
            peer,
            Ghost(am),
        );
        proof {
            let none = (|q: Seq<char>| false);
            lemma_step_list(sw0, server_winning@, *path, a_sends(am, bm, p),
                |q: Seq<char>| a_sends(am, bm, q), none, aseq, i as int);
            lemma_step_list(pw0, peer_winning@, *path, b_sends(am, bm, p),
                |q: Seq<char>| b_sends(am, bm, q), none, aseq, i as int);
            lemma_step_list(dfs0, delete_from_server@, *path, a_deletes(am, bm, p),
                |q: Seq<char>| a_deletes(am, bm, q), none, aseq, i as int);
            lemma_step_list(dfp0, delete_from_peer@, *path, b_deletes(am, bm, p),
                |q: Seq<char>| b_deletes(am, bm, q), none, aseq, i as int);
        }
        i = i + 1;
    }

    proof {
        lemma_prefix_full(aseq);
    }

    let mut k: usize = 0;
    while k < peer.entries.len()
        invariant
            server.wf(),
            peer.wf(),
            am == server.as_map(),
            bm == peer.as_map(),
            aseq == server@,
            bseq == peer@,
            k <= bseq.len(),
            peer.entries@.len() == bseq.len(),
            forall|p: Seq<char>| #[trigger] has_path(server_winning@, p) <==> a_sends(am, bm, p),
            forall|p: Seq<char>| #[trigger] has_path(delete_from_peer@, p) <==> b_deletes(am, bm, p),
            forall|p: Seq<char>|
                #[trigger] has_path(peer_winning@, p) <==> (b_sends(am, bm, p)
                    && (am.contains_key(p) || key_in_prefix(bseq, k as int, p))),
            forall|p: Seq<char>|
                #[trigger] has_path(delete_from_server@, p) <==> (a_deletes(am, bm, p)
                    && (am.contains_key(p) || key_in_prefix(bseq, k as int, p))),
            distinct_paths(server_winning@),
            distinct_paths(peer_winning@),
            distinct_paths(delete_from_server@),
            distinct_paths(delete_from_peer@),
        decreases bseq.len() - k,
    {
        let path: &String = &peer.entries[k].0;
        let entry: &FileEntry = &peer.entries[k].1;
        let ghost p = path@;
        proof {
            lemma_map_of_contains(peer@);
            lemma_map_of_index(peer@);
            lemma_map_of_contains(server@);
            assert(bseq[k as int].0 == p && bseq[k as int].1 == entry@);
            assert(bm.contains_key(p) && bm[p] == entry@);
            assert(forall|j: int| 0 <= j < k ==> bseq[j].0 != p);
            assert(!key_in_prefix(bseq, k as int, p));
        }
        let ghost sw0 = server_winning@;
        let ghost pw0 = peer_winning@;
        let ghost dfs0 = delete_from_server@;
        let ghost dfp0 = delete_from_peer@;
        match server.get_file(path) {
            Some(_) => {
                // Both sides hold the path: the first pass already decided it.
                proof {
                    lemma_skip_list(pw0, p, |q: Seq<char>| b_sends(am, bm, q),
                        |q: Seq<char>| am.contains_key(q), bseq, k as int);
                    lemma_skip_list(dfs0, p, |q: Seq<char>| a_deletes(am, bm, q),
                        |q: Seq<char>| am.contains_key(q), bseq, k as int);
                }
            },
            None => {
                reconcile_step(
                    &mut peer_winning,
                    &mut server_winning,
                    &mut delete_from_peer,
                    &mut delete_from_server,
                    path,
                    entry,
                    server,
                    Ghost(bm),
                );
                proof {
                    assert(a_sends(bm, am, p) == b_sends(am, bm, p));
                    assert(b_sends(bm, am, p) == a_sends(am, bm, p));
                    assert(a_deletes(bm, am, p) == b_deletes(am, bm, p));
                    assert(b_deletes(bm, am, p) == a_deletes(am, bm, p));
                    assert(!a_sends(am, bm, p) && !b_deletes(am, bm, p));
                    assert(server_winning@ == sw0);
                    assert(delete_from_peer@ == dfp0);
                    lemma_step_list(pw0, peer_winning@, *path, b_sends(am, bm, p),
                        |q: Seq<char>| b_sends(am, bm, q), |q: Seq<char>| am.contains_key(q),
                        bseq, k as int);
                    lemma_step_list(dfs0, delete_from_server@, *path, a_deletes(am, bm, p),
                        |q: Seq<char>| a_deletes(am, bm, q), |q: Seq<char>| am.contains_key(q),
                        bseq, k as int);
                }
            },
        }
        k = k + 1;
    }

    proof {
        lemma_prefix_full(bseq);
    }

    (server_winning, peer_winning, delete_from_server, delete_from_peer)
}

} // verus!
