//! The handshake and steady-state protocol: what each side does with each
//! message. The functions here make the decisions and update the local
//! state; the caller performs the socket and disk I/O around them.

use vstd::prelude::*;
use vstd::utf8::encode_utf8;
use crate::codec::{ServerMessage, ServerMessageV, pairs_view, strs_view};
use crate::connection::ConnectionManager;
use crate::errors::SyncError;
use crate::hash::{calculate_file_hash, sha256_hex};
use crate::peers::PeersState;
use crate::reconcile::{has_path, key_in_prefix, lemma_prefix_extend, lemma_prefix_full};
use crate::state::{
    FileEntry, FileEntryV, SyncState, lemma_map_of_contains, lemma_map_of_index,
};

verus! {

/// Relies on uuid::Uuid::new_v4 and its hyphenated text form: a fresh
/// random 128-bit identifier, rendered as 36 characters. Nothing about the
/// value itself can be promised; every caller treats it as opaque.
#[verifier::external_body]
pub fn generate_peer_id() -> (r: String)
    ensures
        r@.len() == 36,
{
    uuid::Uuid::new_v4().to_string()
}

/// The state after recording a batch of received file contents: each file
/// in turn becomes a live entry hashed from its content, stamped `now`.
pub open spec fn writes_fold(
    m: Map<Seq<char>, FileEntryV>,
    files: Seq<(Seq<char>, Seq<char>)>,
    now: u64,
) -> Map<Seq<char>, FileEntryV>
    decreases files.len(),
{
    if files.len() == 0 {
        m
    } else {
        writes_fold(
            m.insert(
                files[0].0,
                FileEntryV {
                    hash: Some(sha256_hex(encode_utf8(files[0].1))),
                    is_deleted: false,
                    last_modified: now,
                },
            ),
            files.skip(1),
            now,
        )
    }
}

/// The state after recording a batch of deletions: each path in turn
/// becomes a tombstone, stamped with the authority's time for that path if
/// it has one, and with `now` otherwise.
pub open spec fn deletes_fold(
    m: Map<Seq<char>, FileEntryV>,
    paths: Seq<Seq<char>>,
    src: Map<Seq<char>, FileEntryV>,
    now: u64,
) -> Map<Seq<char>, FileEntryV>
    decreases paths.len(),
{
    if paths.len() == 0 {
        m
    } else {
        let stamp = if src.contains_key(paths[0]) {
            src[paths[0]].last_modified
        } else {
            now
        };
        deletes_fold(
            m.insert(paths[0], FileEntryV { hash: None, is_deleted: true, last_modified: stamp }),
            paths.skip(1),
            src,
            now,
        )
    }
}

/// Record a batch of received file contents in the sync state. The caller
/// writes the files to disk; this keeps the state describing them.
pub fn apply_write_batch(state: &mut SyncState, files: &Vec<(String, String)>, now: u64)
    requires
        old(state).wf(),
    ensures
        final(state).wf(),
        final(state).as_map() == writes_fold(old(state).as_map(), pairs_view(files@), now),
{
    let ghost m0 = state.as_map();
    let ghost fv = pairs_view(files@);
    let mut i: usize = 0;
    proof {
        assert(fv.skip(0) =~= fv);
    }
    while i < files.len()
        invariant
            i <= files@.len(),
            state.wf(),
            fv == pairs_view(files@),
            writes_fold(m0, fv, now) == writes_fold(state.as_map(), fv.skip(i as int), now),
        decreases files@.len() - i,
    {
        proof {
            assert(fv.skip(i as int)[0] == fv[i as int]);
            assert(fv.skip(i as int).skip(1) =~= fv.skip(i + 1));
        }
        let content = &files[i].1;
        let bytes = content.as_str().as_bytes();
        let mut owned: Vec<u8> = Vec::new();
        let mut b: usize = 0;
        while b < bytes.len()
            invariant
                b <= bytes@.len(),
                owned@ == bytes@.take(b as int),
            decreases bytes@.len() - b,
        {
            owned.push(bytes[b]);
            proof {
                assert(owned@ =~= bytes@.take(b + 1));
            }
            b = b + 1;
        }
        proof {
            assert(owned@ =~= bytes@);
        }
        let hash = calculate_file_hash(&owned);
        state.update_file(files[i].0.clone(), hash, now);
        i = i + 1;
    }
    proof {
        assert(fv.skip(fv.len() as int).len() == 0);
    }
}

/// Record a batch of deletions in the sync state, stamping each tombstone
/// with the authority's time when one is given. The caller removes the
/// files from disk; this keeps the state describing them.
pub fn delete_files_with_source(
    state: &mut SyncState,
    paths: &Vec<String>,
    source: Option<&SyncState>,
    now: u64,
)
    requires
        old(state).wf(),
        match source {
            Some(src) => src.wf(),
            None => true,
        },
    ensures
        final(state).wf(),
        final(state).as_map() == deletes_fold(
            old(state).as_map(),
            strs_view(paths@),
            match source {
                Some(src) => src.as_map(),
                None => Map::<Seq<char>, FileEntryV>::empty(),
            },
            now,
        ),
{
    let ghost m0 = state.as_map();
    let ghost pv = strs_view(paths@);
    let ghost srcm = match source {
        Some(src) => src.as_map(),
        None => Map::<Seq<char>, FileEntryV>::empty(),
    };
    let mut i: usize = 0;
    proof {
        assert(pv.skip(0) =~= pv);
    }
    while i < paths.len()
        invariant
            i <= paths@.len(),
            state.wf(),
            pv == strs_view(paths@),
            match source {
                Some(src) => src.wf() && srcm == src.as_map(),
                None => srcm == Map::<Seq<char>, FileEntryV>::empty(),
            },
            deletes_fold(m0, pv, srcm, now) == deletes_fold(
                state.as_map(),
                pv.skip(i as int),
                srcm,
                now,
            ),
        decreases paths@.len() - i,
    {
        proof {
            assert(pv.skip(i as int)[0] == pv[i as int]);
            assert(pv.skip(i as int).skip(1) =~= pv.skip(i + 1));
        }
        let stamp: u64 = match source {
            Some(src) => match src.get_file(&paths[i]) {
                Some(e) => e.last_modified,
                None => now,
            },
            None => now,
        };
        state.delete_file(paths[i].clone(), stamp);
        i = i + 1;
    }
    proof {
        assert(pv.skip(pv.len() as int).len() == 0);
    }
}

/// The entry the boot-time merge keeps for a path: a path the scan found
/// is exactly as scanned, and a path only the persisted state knows is a
/// tombstone carrying the persisted timestamp.
pub open spec fn merged_entry(
    am: Map<Seq<char>, FileEntryV>,
    bm: Map<Seq<char>, FileEntryV>,
    q: Seq<char>,
) -> FileEntryV {
    if bm.contains_key(q) {
        bm[q]
    } else {
        FileEntryV { hash: None, is_deleted: true, last_modified: am[q].last_modified }
    }
}

/// Build the boot-time sync state from the persisted state and a fresh scan
/// of the workspace. The state then describes the workspace exactly: every
/// scanned path keeps its scanned entry, and every persisted path no longer
/// on disk becomes a tombstone stamped with its persisted time — whether it
/// was persisted live (the file vanished while the node was down) or was a
/// tombstone already.
pub fn initialise_state(persisted: &SyncState, scanned: &SyncState) -> (r: SyncState)
    requires
        persisted.wf(),
        scanned.wf(),
    ensures
        r.wf(),
        forall|q: Seq<char>|
            r.as_map().contains_key(q) <==> (persisted.as_map().contains_key(q)
                || scanned.as_map().contains_key(q)),
        forall|q: Seq<char>|
            r.as_map().contains_key(q) ==> r.as_map()[q] == merged_entry(
                persisted.as_map(),
                scanned.as_map(),
                q,
            ),
{
    let ghost am = persisted.as_map();
    let ghost bm = scanned.as_map();
    let ghost aseq = persisted@;
    let mut result = scanned.snapshot();
    proof {
        lemma_map_of_contains(persisted@);
        lemma_map_of_index(persisted@);
    }
    let mut i: usize = 0;
    while i < persisted.entries.len()
        invariant
            i <= aseq.len(),
            persisted@ == aseq,
            persisted.entries@.len() == aseq.len(),
            persisted.wf(),
            scanned.wf(),
            am == persisted.as_map(),
            bm == scanned.as_map(),
            result.wf(),
            forall|q: Seq<char>|
                result.as_map().contains_key(q) <==> (bm.contains_key(q) || key_in_prefix(
                    aseq,
                    i as int,
                    q,
                )),
            forall|q: Seq<char>|
                bm.contains_key(q) ==> result.as_map()[q] == bm[q],
            forall|q: Seq<char>|
                key_in_prefix(aseq, i as int, q) && !bm.contains_key(q) ==> result.as_map()[q]
                    == (FileEntryV { hash: None, is_deleted: true, last_modified: am[
                    q].last_modified }),
        decreases aseq.len() - i,
    {
        let ghost q = aseq[i as int].0;
        proof {
            lemma_map_of_contains(persisted@);
            lemma_map_of_index(persisted@);
            assert(am.contains_key(q) && am[q] == aseq[i as int].1);
            lemma_prefix_extend(aseq, i as int);
        }
        let path: &String = &persisted.entries[i].0;
        let entry: &FileEntry = &persisted.entries[i].1;
        let on_disk = match scanned.get_file(path) {
            Some(_) => true,
            None => false,
        };
        if !on_disk {
            result.add_file(path.clone(), FileEntry::new_deleted(entry.last_modified));
        }
        proof {
            assert forall|q2: Seq<char>|
                result.as_map().contains_key(q2) <==> (bm.contains_key(q2) || key_in_prefix(
                    aseq,
                    i + 1,
                    q2,
                )) by {
                assert(key_in_prefix(aseq, i + 1, q2) == (key_in_prefix(aseq, i as int, q2)
                    || q == q2));
            }
            assert forall|q2: Seq<char>|
                bm.contains_key(q2) implies result.as_map()[q2] == bm[q2] by {}
            assert forall|q2: Seq<char>|
                key_in_prefix(aseq, i + 1, q2) && !bm.contains_key(q2)
                    implies result.as_map()[q2] == (FileEntryV {
                    hash: None,
                    is_deleted: true,
                    last_modified: am[q2].last_modified,
                }) by {
                assert(key_in_prefix(aseq, i + 1, q2) == (key_in_prefix(aseq, i as int, q2)
                    || q == q2));
            }
        }
        i = i + 1;
    }
    proof {
        lemma_prefix_full(aseq);
        lemma_map_of_contains(persisted@);
        assert forall|q: Seq<char>|
            result.as_map().contains_key(q) <==> (am.contains_key(q) || bm.contains_key(q)) by {
            assert(key_in_prefix(aseq, aseq.len() as int, q) <==> am.contains_key(q));
        }
        assert forall|q: Seq<char>| result.as_map().contains_key(q) implies result.as_map()[q]
            == merged_entry(am, bm, q) by {
            if !bm.contains_key(q) {
                assert(key_in_prefix(aseq, aseq.len() as int, q));
            }
        }
    }
    result
}

/// What the leader does when it accepts a connection: register the writer,
/// record the peer, and produce the acknowledgement for the new peer and
/// the updated peer list for everyone.
pub fn leader_accept(
    cm: &mut ConnectionManager,
    peers: &mut PeersState,
    peer_id: String,
    leader_id: &String,
) -> (r: (ServerMessage, ServerMessage))
    requires
        old(cm).wf(),
        old(peers).wf(),
    ensures
        final(cm).wf(),
        final(peers).wf(),
        forall|p: Seq<char>|
            has_path(final(cm).connections@, p) <==> (has_path(old(cm).connections@, p) || p
                == peer_id@),
        forall|p: Seq<char>|
            has_path(final(peers).peers@, p) <==> (has_path(old(peers).peers@, p) || p
                == peer_id@),
        r.0@ matches ServerMessageV::ConnectionAck { peer_id: pid, leader_id: lid }
            && pid == peer_id@ && lid == leader_id@,
        r.1@ matches ServerMessageV::PeerListUpdate { peers: ps }
            && ps =~= strs_view(final(peers).peers@),
{
    cm.add_connection(peer_id.clone());
    peers.add_peer(peer_id.clone());
    let ack = ServerMessage::ConnectionAck {
        peer_id: peer_id.clone(),
        leader_id: leader_id.clone(),
    };
    let snapshot = peers.snapshot();
    let update = ServerMessage::PeerListUpdate { peers: snapshot.peers };
    proof {
        assert(update@ matches ServerMessageV::PeerListUpdate { peers: ps } && ps =~= strs_view(
            final(peers).peers@,
        ));
    }
    (ack, update)
}

/// What the leader does when a peer's connection dies: drop the writer,
/// forget the peer, and produce the peer list to broadcast to the rest.
pub fn leader_disconnect(
    cm: &mut ConnectionManager,
    peers: &mut PeersState,
    peer_id: &String,
) -> (r: ServerMessage)
    requires
        old(cm).wf(),
        old(peers).wf(),
    ensures
        final(cm).wf(),
        final(peers).wf(),
        forall|p: Seq<char>|
            has_path(final(cm).connections@, p) <==> (has_path(old(cm).connections@, p) && p
                != peer_id@),
        forall|p: Seq<char>|
            has_path(final(peers).peers@, p) <==> (has_path(old(peers).peers@, p) && p
                != peer_id@),
        r@ matches ServerMessageV::PeerListUpdate { peers: ps }
            && ps =~= strs_view(final(peers).peers@),
{
    cm.remove_connection(peer_id);
    peers.remove_peer(peer_id);
    let snapshot = peers.snapshot();
    let update = ServerMessage::PeerListUpdate { peers: snapshot.peers };
    proof {
        assert(update@ matches ServerMessageV::PeerListUpdate { peers: ps } && ps =~= strs_view(
            final(peers).peers@,
        ));
    }
    update
}

/// What a follower does with the first frame after dialing: it must be the
/// connection acknowledgement, whose leader id is recorded; anything else
/// is a protocol violation fatal to the process.
pub fn follower_handle_ack(peers: &mut PeersState, msg: ServerMessage) -> (r: Result<
    (String, String),
    SyncError,
>)
    requires
        old(peers).wf(),
    ensures
        final(peers).wf(),
        match r {
            Ok((own_id, leader_id)) => {
                &&& msg@ matches ServerMessageV::ConnectionAck { peer_id: pid, leader_id: lid }
                    && own_id@ == pid && leader_id@ == lid
                &&& final(peers).leader is Some && final(peers).leader->0@ == leader_id@
                &&& final(peers).peers == old(peers).peers
            },
            Err(e) => {
                &&& !(msg@ is ConnectionAck)
                &&& e == SyncError::BadRequest
                &&& final(peers).leader == old(peers).leader
                &&& final(peers).peers == old(peers).peers
            },
        },
{
    match msg {
        ServerMessage::ConnectionAck { peer_id, leader_id } => {
            peers.set_leader(leader_id.clone());
            Ok((peer_id, leader_id))
        },
        _ => Err(SyncError::BadRequest),
    }
}

/// What either side does with a `FileUpdatePush`: record the written files
/// and the deletions in the sync state. The caller performs the matching
/// disk writes and removals under echo suppression.
pub fn apply_file_update(
    state: &mut SyncState,
    files_to_write: &Vec<(String, String)>,
    files_to_delete: &Vec<String>,
    now: u64,
)
    requires
        old(state).wf(),
    ensures
        final(state).wf(),
        final(state).as_map() == deletes_fold(
            writes_fold(old(state).as_map(), pairs_view(files_to_write@), now),
            strs_view(files_to_delete@),
            Map::<Seq<char>, FileEntryV>::empty(),
            now,
        ),
{
    apply_write_batch(state, files_to_write, now);
    delete_files_with_source(state, files_to_delete, None, now);
}

/// What the leader does after reconciling a freshly connected follower's
/// state: delete the follower's winning tombstones locally (stamped with
/// the follower's times), then answer with its own winning contents, the
/// paths the follower must delete, and the paths it wants back.
pub fn leader_build_sync_response(
    state: &mut SyncState,
    peer_state: &SyncState,
    files_to_update: Vec<(String, String)>,
    files_to_delete_local: &Vec<String>,
    files_to_delete_remote: Vec<String>,
    files_to_send_back: Vec<String>,
    now: u64,
) -> (r: ServerMessage)
    requires
        old(state).wf(),
        peer_state.wf(),
    ensures
        final(state).wf(),
        final(state).as_map() == deletes_fold(
            old(state).as_map(),
            strs_view(files_to_delete_local@),
            peer_state.as_map(),
            now,
        ),
        r@ matches ServerMessageV::InitialSyncPushResponse {
            files_to_update: fu,
            files_to_delete: fd,
            files_to_send_back: fs,
        } && fu == pairs_view(files_to_update@) && fd == strs_view(files_to_delete_remote@)
            && fs == strs_view(files_to_send_back@),
{
    delete_files_with_source(state, files_to_delete_local, Some(peer_state), now);
    ServerMessage::InitialSyncPushResponse {
        files_to_update,
        files_to_delete: files_to_delete_remote,
        files_to_send_back,
    }
}

} // verus!
