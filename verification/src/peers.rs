//! The peers registry: the known leader and the list of connected peer ids,
//! unique and in insertion order.

use vstd::prelude::*;
use crate::reconcile::{distinct_paths, has_path};

verus! {

/// The in-memory peers registry that `peers.json` persists.
pub struct PeersState {
    pub leader: Option<String>,
    pub peers: Vec<String>,
}

impl PeersState {
    /// No peer id occurs twice.
    pub open spec fn wf(&self) -> bool {
        distinct_paths(self.peers@)
    }

    /// An empty registry: no leader, no peers.
    pub fn new() -> (r: PeersState)
        ensures
            r.leader is None,
            r.peers@.len() == 0,
            r.wf(),
    {
        PeersState { leader: None, peers: Vec::new() }
    }

    /// Record a peer. Nothing changes if the id is already present.
    pub fn add_peer(&mut self, peer: String)
        requires
            old(self).wf(),
        ensures
            final(self).wf(),
            final(self).leader == old(self).leader,
            forall|p: Seq<char>|
                has_path(final(self).peers@, p) <==> (has_path(old(self).peers@, p) || p
                    == peer@),
            has_path(old(self).peers@, peer@) ==> final(self).peers@ == old(self).peers@,
            !has_path(old(self).peers@, peer@) ==> final(self).peers@ == old(self).peers@.push(
                peer,
            ),
    {
        if !contains_id(&self.peers, &peer) {
            let ghost old_seq = self.peers@;
            self.peers.push(peer);
            proof {
                lemma_id_push(old_seq, final(self).peers@.last());
                assert(final(self).peers@ == old_seq.push(final(self).peers@.last()));
            }
        }
    }

    /// Forget a peer. Does nothing if the id is unknown. The remaining ids
    /// keep their insertion order.
    pub fn remove_peer(&mut self, peer: &String)
        requires
            old(self).wf(),
        ensures
            final(self).wf(),
            final(self).leader == old(self).leader,
            final(self).peers@ == keep_others(old(self).peers@, peer@),
            forall|p: Seq<char>|
                has_path(final(self).peers@, p) <==> (has_path(old(self).peers@, p) && p
                    != peer@),
            final(self).peers@.len() == old(self).peers@.len() - (if has_path(
                old(self).peers@,
                peer@,
            ) {
                1int
            } else {
                0int
            }),
    {
        let ghost old_seq = self.peers@;
        let kept = remove_id(&self.peers, peer);
        proof {
            lemma_keep_others(old_seq, peer@);
        }
        self.peers = kept;
    }

    /// Record who the leader is.
    pub fn set_leader(&mut self, leader: String)
        ensures
            final(self).leader is Some && final(self).leader->0@ == leader@,
            final(self).peers == old(self).peers,
    {
        self.leader = Some(leader);
    }

    /// Replace the whole peer list, as a `PeerListUpdate` instructs.
    pub fn set_peers(&mut self, peers: Vec<String>)
        ensures
            final(self).peers == peers,
            final(self).leader == old(self).leader,
            distinct_paths(peers@) ==> final(self).wf(),
    {
        self.peers = peers;
    }

    /// A value copy for other components to read.
    pub fn snapshot(&self) -> (r: PeersState)
        ensures
            r.peers@.len() == self.peers@.len(),
            forall|i: int|
                0 <= i < r.peers@.len() ==> #[trigger] r.peers@[i]@ == self.peers@[i]@,
            match r.leader {
                Some(l) => self.leader is Some && l@ == self.leader->0@,
                None => self.leader is None,
            },
    {
        let leader = match &self.leader {
            Some(l) => Some(l.clone()),
            None => None,
        };
        let mut peers: Vec<String> = Vec::new();
        let mut i: usize = 0;
        while i < self.peers.len()
            invariant
                i <= self.peers@.len(),
                peers@.len() == i as int,
                forall|j: int| 0 <= j < i ==> #[trigger] peers@[j]@ == self.peers@[j]@,
            decreases self.peers@.len() - i,
        {
            peers.push(self.peers[i].clone());
            i = i + 1;
        }
        PeersState { leader, peers }
    }
}

/// Whether a list of ids holds the given one.
pub fn contains_id(v: &Vec<String>, x: &String) -> (r: bool)
    ensures
        r == has_path(v@, x@),
{
    let mut i: usize = 0;
    while i < v.len()
        invariant
            i <= v@.len(),
            forall|j: int| 0 <= j < i ==> v@[j]@ != x@,
        decreases v@.len() - i,
    {
        if v[i].eq(x) {
            return true;
        }
        i = i + 1;
    }
    false
}

pub proof fn lemma_id_push(v: Seq<String>, x: String)
    ensures
        forall|p: Seq<char>| has_path(v.push(x), p) <==> (has_path(v, p) || x@ == p),
        !has_path(v, x@) && distinct_paths(v) ==> distinct_paths(v.push(x)),
{
    assert forall|p: Seq<char>| has_path(v.push(x), p) implies (has_path(v, p) || x@ == p) by {
        let i = choose|i: int| 0 <= i < v.push(x).len() && #[trigger] v.push(x)[i]@ == p;
        if i < v.len() {
            assert(v[i]@ == p);
        }
    }
    assert forall|p: Seq<char>| (has_path(v, p) || x@ == p) implies has_path(v.push(x), p) by {
        if has_path(v, p) {
            let i = choose|i: int| 0 <= i < v.len() && #[trigger] v[i]@ == p;
            assert(v.push(x)[i]@ == p);
        } else {
            assert(v.push(x)[v.len() as int]@ == p);
        }
    }
    if !has_path(v, x@) && distinct_paths(v) {
        assert forall|i: int, j: int| 0 <= i < j < v.push(x).len() implies v.push(x)[i]@ != v.push(
            x,
        )[j]@ by {
            if j == v.len() {
                if v[i]@ == x@ {
                    assert(has_path(v, x@));
                }
            }
        }
    }
}

/// Whether `p` is the view of one of the first `n` ids.
pub open spec fn id_in_prefix(v: Seq<String>, n: int, p: Seq<char>) -> bool {
    exists|j: int| 0 <= j < n && #[trigger] v[j]@ == p
}

/// The list with every occurrence of the given id removed, the others kept
/// in their original order.
pub open spec fn keep_others(v: Seq<String>, p: Seq<char>) -> Seq<String>
    decreases v.len(),
{
    if v.len() == 0 {
        Seq::<String>::empty()
    } else if v.last()@ == p {
        keep_others(v.drop_last(), p)
    } else {
        keep_others(v.drop_last(), p).push(v.last())
    }
}

/// What removal keeps: exactly the other ids, still distinct, and — when
/// the input has no duplicates — one shorter iff the id was present.
pub proof fn lemma_keep_others(v: Seq<String>, p: Seq<char>)
    ensures
        forall|q: Seq<char>|
            #[trigger] has_path(keep_others(v, p), q) <==> (has_path(v, q) && q != p),
        distinct_paths(v) ==> distinct_paths(keep_others(v, p)),
        distinct_paths(v) ==> keep_others(v, p).len() == v.len() - (if has_path(v, p) {
            1int
        } else {
            0int
        }),
    decreases v.len(),
{
    if v.len() == 0 {
        assert forall|q: Seq<char>|
            #[trigger] has_path(keep_others(v, p), q) <==> (has_path(v, q) && q != p) by {
            if has_path(v, q) {
                let j = choose|j: int| 0 <= j < v.len() && #[trigger] v[j]@ == q;
            }
            if has_path(keep_others(v, p), q) {
                let j = choose|j: int|
                    0 <= j < keep_others(v, p).len() && #[trigger] keep_others(v, p)[j]@ == q;
            }
        }
    } else {
        let w = v.drop_last();
        let x = v.last();
        assert(v =~= w.push(x));
        if distinct_paths(v) {
            assert(distinct_paths(w));
        }
        lemma_keep_others(w, p);
        lemma_id_push(w, x);
        if x@ == p {
            assert(keep_others(v, p) == keep_others(w, p));
            assert forall|q: Seq<char>|
                #[trigger] has_path(keep_others(v, p), q) <==> (has_path(v, q) && q != p) by {
                assert(has_path(v, q) == (has_path(w, q) || x@ == q));
            }
            if distinct_paths(v) {
                if has_path(w, p) {
                    let j = choose|j: int| 0 <= j < w.len() && #[trigger] w[j]@ == p;
                    assert(v[j]@ == v[v.len() - 1]@);
                    assert(false);
                }
                assert(has_path(v, p));
            }
        } else {
            assert(keep_others(v, p) == keep_others(w, p).push(x));
            lemma_id_push(keep_others(w, p), x);
            assert forall|q: Seq<char>|
                #[trigger] has_path(keep_others(v, p), q) <==> (has_path(v, q) && q != p) by {
                assert(has_path(keep_others(v, p), q) == (has_path(keep_others(w, p), q) || x@
                    == q));
                assert(has_path(v, q) == (has_path(w, q) || x@ == q));
            }
            if distinct_paths(v) {
                assert(!has_path(w, x@)) by {
                    if has_path(w, x@) {
                        let j = choose|j: int| 0 <= j < w.len() && #[trigger] w[j]@ == x@;
                        assert(v[j]@ == v[v.len() - 1]@);
                        assert(false);
                    }
                }
                assert(!has_path(keep_others(w, p), x@));
                assert(distinct_paths(keep_others(v, p)));
                assert(has_path(v, p) == has_path(w, p));
            }
        }
    }
}

pub proof fn lemma_id_prefix_extend(v: Seq<String>, n: int)
    requires
        0 <= n < v.len(),
    ensures
        forall|p: Seq<char>|
            #[trigger] id_in_prefix(v, n + 1, p) <==> (id_in_prefix(v, n, p) || v[n]@ == p),
{
    assert forall|p: Seq<char>|
        #[trigger] id_in_prefix(v, n + 1, p) <==> (id_in_prefix(v, n, p) || v[n]@ == p) by {
        if id_in_prefix(v, n + 1, p) {
            let j = choose|j: int| 0 <= j < n + 1 && #[trigger] v[j]@ == p;
            if j < n {
                assert(id_in_prefix(v, n, p));
            }
        }
        if v[n]@ == p {
            assert(id_in_prefix(v, n + 1, p));
        }
        if id_in_prefix(v, n, p) {
            let j = choose|j: int| 0 <= j < n && #[trigger] v[j]@ == p;
            assert(id_in_prefix(v, n + 1, p));
        }
    }
}

pub proof fn lemma_id_prefix_full(v: Seq<String>)
    ensures
        forall|p: Seq<char>| #[trigger] id_in_prefix(v, v.len() as int, p) <==> has_path(v, p),
{
}

/// The list with every occurrence of the given id removed, order kept.
pub fn remove_id(v: &Vec<String>, x: &String) -> (r: Vec<String>)
    ensures
        r@ == keep_others(v@, x@),
{
    let mut kept: Vec<String> = Vec::new();
    let mut i: usize = 0;
    proof {
        assert(v@.take(0int) =~= Seq::<String>::empty());
        assert(kept@ =~= keep_others(v@.take(0int), x@));
    }
    while i < v.len()
        invariant
            i <= v@.len(),
            kept@ == keep_others(v@.take(i as int), x@),
        decreases v@.len() - i,
    {
        if !(v[i].eq(x)) {
            kept.push(v[i].clone());
        }
        proof {
            let t1 = v@.take(i + 1);
            assert(t1 =~= v@.take(i as int).push(v@[i as int]));
            assert(t1.drop_last() =~= v@.take(i as int));
            assert(t1.last() == v@[i as int]);
            assert(kept@ =~= keep_others(t1, x@));
        }
        i = i + 1;
    }
    proof {
        assert(v@.take(v@.len() as int) =~= v@);
    }
    kept
}

} // verus!
