//! The connection manager: which peers currently have a live writer.
//!
//! The writers themselves are sockets and live with the caller; this type is
//! the index the caller consults and maintains. A broadcast works in two
//! steps: `broadcast_targets` names the peers to write to, and after the
//! writes `evict_failed` removes every peer whose write failed — count drops
//! by exactly the number of failures and none of them stays connected.

use vstd::prelude::*;
use crate::errors::SyncError;
use crate::peers::{contains_id, id_in_prefix, keep_others, lemma_id_prefix_extend,
    lemma_id_prefix_full, lemma_id_push, lemma_keep_others, remove_id};
use crate::reconcile::{distinct_paths, has_path};

verus! {

/// The set of peer ids with a live connection, in the order they arrived.
pub struct ConnectionManager {
    pub connections: Vec<String>,
}

impl ConnectionManager {
    /// No peer id occurs twice.
    pub open spec fn wf(&self) -> bool {
        distinct_paths(self.connections@)
    }

    /// No connections yet.
    pub fn new() -> (r: ConnectionManager)
        ensures
            r.connections@.len() == 0,
            r.wf(),
    {
        ConnectionManager { connections: Vec::new() }
    }

    /// Register a peer whose writer is now owned by the caller.
    pub fn add_connection(&mut self, peer_id: String)
        requires
            old(self).wf(),
        ensures
            final(self).wf(),
            forall|p: Seq<char>|
                has_path(final(self).connections@, p) <==> (has_path(
                    old(self).connections@,
                    p,
                ) || p == peer_id@),
            !has_path(old(self).connections@, peer_id@) ==> final(self).connections@ == old(
                self,
            ).connections@.push(peer_id),
            has_path(old(self).connections@, peer_id@) ==> final(self).connections@ == old(
                self,
            ).connections@,
    {
        if !contains_id(&self.connections, &peer_id) {
            let ghost old_seq = self.connections@;
            self.connections.push(peer_id);
            proof {
                lemma_id_push(old_seq, final(self).connections@.last());
                assert(final(self).connections@ == old_seq.push(final(self).connections@.last()));
            }
        }
    }

    /// Drop a peer's connection. Idempotent; the remaining ids keep their
    /// order.
    pub fn remove_connection(&mut self, peer_id: &String)
        requires
            old(self).wf(),
        ensures
            final(self).wf(),
            final(self).connections@ == keep_others(old(self).connections@, peer_id@),
            forall|p: Seq<char>|
                has_path(final(self).connections@, p) <==> (has_path(
                    old(self).connections@,
                    p,
                ) && p != peer_id@),
            final(self).connections@.len() == old(self).connections@.len() - (if has_path(
                old(self).connections@,
                peer_id@,
            ) {
                1int
            } else {
                0int
            }),
    {
        let ghost old_seq = self.connections@;
        let kept = remove_id(&self.connections, peer_id);
        proof {
            lemma_keep_others(old_seq, peer_id@);
        }
        self.connections = kept;
    }

    /// How many peers are connected.
    pub fn connection_count(&self) -> (r: usize)
        ensures
            r == self.connections@.len(),
    {
        self.connections.len()
    }

    /// The ids of the connected peers, in order.
    pub fn get_connected_peers(&self) -> (r: Vec<String>)
        ensures
            r@.len() == self.connections@.len(),
            forall|i: int| 0 <= i < r@.len() ==> #[trigger] r@[i]@ == self.connections@[i]@,
    {
        let mut out: Vec<String> = Vec::new();
        let mut i: usize = 0;
        while i < self.connections.len()
            invariant
                i <= self.connections@.len(),
                out@.len() == i as int,
                forall|j: int| 0 <= j < i ==> #[trigger] out@[j]@ == self.connections@[j]@,
            decreases self.connections@.len() - i,
        {
            out.push(self.connections[i].clone());
            i = i + 1;
        }
        out
    }

    /// Whether a peer is connected.
    pub fn is_peer_connected(&self, peer_id: &String) -> (r: bool)
        ensures
            r == has_path(self.connections@, peer_id@),
    {
        contains_id(&self.connections, peer_id)
    }

    /// Whether a send to this peer may proceed: the error a send must report
    /// when the peer has no connection.
    pub fn check_send(&self, peer_id: &String) -> (r: Result<(), SyncError>)
        ensures
            r is Ok <==> has_path(self.connections@, peer_id@),
            r is Err ==> r->Err_0 == SyncError::UnknownPeer,
    {
        if contains_id(&self.connections, peer_id) {
            Ok(())
        } else {
            Err(SyncError::UnknownPeer)
        }
    }

    /// The peers a broadcast must write to: everyone connected except the
    /// excluded ids, in connection order.
    pub fn broadcast_targets(&self, exclude: &Vec<String>) -> (r: Vec<String>)
        requires
            self.wf(),
        ensures
            distinct_paths(r@),
            forall|p: Seq<char>|
                has_path(r@, p) <==> (has_path(self.connections@, p) && !has_path(exclude@, p)),
    {
        let ghost cs = self.connections@;
        let mut out: Vec<String> = Vec::new();
        let mut i: usize = 0;
        while i < self.connections.len()
            invariant
                i <= cs.len(),
                self.connections@ == cs,
                distinct_paths(cs),
                distinct_paths(out@),
                forall|p: Seq<char>|
                    #[trigger] has_path(out@, p) <==> (id_in_prefix(cs, i as int, p) && !has_path(
                        exclude@,
                        p,
                    )),
            decreases cs.len() - i,
        {
            proof {
                lemma_id_prefix_extend(cs, i as int);
            }
            if !contains_id(exclude, &self.connections[i]) {
                let ghost out0 = out@;
                let item = self.connections[i].clone();
                out.push(item);
                proof {
                    lemma_id_push(out0, cs[i as int]);
                    assert(out@ =~= out0.push(cs[i as int]));
                    assert(!has_path(out0, cs[i as int]@)) by {
                        if id_in_prefix(cs, i as int, cs[i as int]@) {
                            let j = choose|j: int|
                                0 <= j < i && #[trigger] cs[j]@ == cs[i as int]@;
                            assert(false);
                        }
                    }
                    assert forall|p: Seq<char>|
                        #[trigger] has_path(out@, p) <==> (id_in_prefix(cs, i + 1, p)
                            && !has_path(exclude@, p)) by {
                        assert(id_in_prefix(cs, i + 1, p) == (id_in_prefix(cs, i as int, p)
                            || cs[i as int]@ == p));
                        assert(has_path(out@, p) == (has_path(out0, p) || cs[i as int]@ == p));
                    }
                }
            } else {
                proof {
                    assert forall|p: Seq<char>|
                        #[trigger] has_path(out@, p) <==> (id_in_prefix(cs, i + 1, p)
                            && !has_path(exclude@, p)) by {
                        assert(id_in_prefix(cs, i + 1, p) == (id_in_prefix(cs, i as int, p)
                            || cs[i as int]@ == p));
                    }
                }
            }
            i = i + 1;
        }
        proof {
            lemma_id_prefix_full(cs);
        }
        out
    }

    /// Evict every peer whose broadcast write failed. The count drops by
    /// exactly the number of failed peers, and none of them stays connected.
    pub fn evict_failed(&mut self, failed: &Vec<String>)
        requires
            old(self).wf(),
            distinct_paths(failed@),
            forall|i: int|
                0 <= i < failed@.len() ==> has_path(old(self).connections@, #[trigger] failed@[
                    i]@),
        ensures
            final(self).wf(),
            forall|p: Seq<char>|
                has_path(final(self).connections@, p) <==> (has_path(old(self).connections@, p)
                    && !has_path(failed@, p)),
            final(self).connections@.len() == old(self).connections@.len() - failed@.len(),
    {
        let mut i: usize = 0;
        let ghost fs = failed@;
        let ghost orig = self.connections@;
        while i < failed.len()
            invariant
                i <= fs.len(),
                failed@ == fs,
                distinct_paths(fs),
                self.wf(),
                forall|p: Seq<char>|
                    has_path(self.connections@, p) <==> (has_path(orig, p) && !id_in_prefix(
                        fs,
                        i as int,
                        p,
                    )),
                forall|j: int| 0 <= j < fs.len() ==> has_path(orig, #[trigger] fs[j]@),
                self.connections@.len() == orig.len() - i,
            decreases fs.len() - i,
        {
            proof {
                lemma_id_prefix_extend(fs, i as int);
                assert(has_path(self.connections@, fs[i as int]@)) by {
                    if id_in_prefix(fs, i as int, fs[i as int]@) {
                        let j = choose|j: int| 0 <= j < i && #[trigger] fs[j]@ == fs[i as int]@;
                        assert(false);
                    }
                }
            }
            let ghost before = self.connections@;
            let peer: &String = &failed[i];
            self.remove_connection(peer);
            proof {
                assert forall|p: Seq<char>|
                    has_path(self.connections@, p) <==> (has_path(orig, p) && !id_in_prefix(
                        fs,
                        i + 1,
                        p,
                    )) by {
                    assert(id_in_prefix(fs, i + 1, p) == (id_in_prefix(fs, i as int, p)
                        || fs[i as int]@ == p));
                    assert(has_path(self.connections@, p) == (has_path(before, p) && p != fs[
                        i as int]@));
                }
            }
            i = i + 1;
        }
        proof {
            lemma_id_prefix_full(fs);
        }
    }
}

} // verus!
