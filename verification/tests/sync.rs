//! The content hasher, the sync-state store, the boot-time merge, and the
//! end-to-end handshake scenarios run over in-memory workspaces.

use std::collections::HashMap;

use synclite::{
    FileEntry, PeerMessage, ServerMessage, SyncState, apply_file_update, apply_write_batch,
    calculate_file_hash, decode_peer_message, decode_server_message, delete_files_with_source,
    determine_winning_files, encode_peer_message, encode_server_message, initialise_state,
    leader_build_sync_response,
};

fn s(x: &str) -> String {
    x.to_string()
}

const SHA_EMPTY: &str = "e3b0c44298fc1c149afbf4c8996fb92427ae41e4649b934ca495991b7852b855";
const SHA_ABC: &str = "ba7816bf8f01cfea414140de5dae2223b00361a396177a9cb410ff61f20015ad";
const SHA_ONE: &str = "6b86b273ff34fce19d6b804eff5a3f5747ada4eaa22f1d49c01e52ddb7875b4b";

#[test]
fn hash_known_vectors() {
    assert_eq!(calculate_file_hash(&Vec::new()), SHA_EMPTY);
    assert_eq!(calculate_file_hash(&b"abc".to_vec()), SHA_ABC);
    assert_eq!(calculate_file_hash(&b"1".to_vec()), SHA_ONE);
}

#[test]
fn hash_of_written_bytes_round_trip() {
    // Writing bytes and hashing what was written gives the digest of the
    // bytes themselves.
    let mut disk: HashMap<String, Vec<u8>> = HashMap::new();
    disk.insert(s("f"), b"abc".to_vec());
    let read_back = disk.get("f").unwrap();
    assert_eq!(calculate_file_hash(read_back), SHA_ABC);
}

#[test]
fn state_store_operations() {
    let mut st = SyncState::new();
    assert_eq!(st.file_count(), 0);
    st.update_file(s("a.txt"), s("h1"), 10);
    assert_eq!(st.file_count(), 1);
    assert!(st.file_exists(&s("a.txt")));
    st.update_file(s("a.txt"), s("h2"), 20);
    assert_eq!(st.file_count(), 1);
    assert_eq!(st.get_file(&s("a.txt")).unwrap().hash.as_deref(), Some("h2"));
    st.delete_file(s("a.txt"), 30);
    assert_eq!(st.file_count(), 1);
    assert!(!st.file_exists(&s("a.txt")));
    let e = st.get_file(&s("a.txt")).unwrap();
    assert!(e.is_deleted && e.hash.is_none() && e.last_modified == 30);
    st.delete_file(s("a.txt"), 40);
    assert_eq!(st.file_count(), 1);
    st.remove_file(&s("a.txt"));
    assert_eq!(st.file_count(), 0);
    assert!(st.check_wf());
}

#[test]
fn snapshot_is_a_deep_copy() {
    let mut st = SyncState::new();
    st.add_file(s("a"), FileEntry::new(s("h"), 5));
    let snap = st.snapshot();
    st.delete_file(s("a"), 9);
    assert!(!snap.get_file(&s("a")).unwrap().is_deleted);
    assert!(st.get_file(&s("a")).unwrap().is_deleted);
}

#[test]
fn boot_merge_describes_the_workspace_exactly() {
    let mut persisted = SyncState::new();
    persisted.add_file(s("kept.txt"), FileEntry::new(s("hk"), 100));
    persisted.add_file(s("edited.txt"), FileEntry::new(s("old"), 100));
    persisted.delete_file(s("gone.txt"), 100);
    let mut scanned = SyncState::new();
    scanned.add_file(s("kept.txt"), FileEntry::new(s("hk"), 500));
    scanned.add_file(s("edited.txt"), FileEntry::new(s("new"), 500));
    scanned.add_file(s("fresh.txt"), FileEntry::new(s("hf"), 500));
    let boot = initialise_state(&persisted, &scanned);
    assert!(boot.check_wf());
    // A path on disk carries its scanned entry, times included.
    let kept = boot.get_file(&s("kept.txt")).unwrap();
    assert_eq!(kept.hash.as_deref(), Some("hk"));
    assert_eq!(kept.last_modified, 500);
    let edited = boot.get_file(&s("edited.txt")).unwrap();
    assert_eq!(edited.hash.as_deref(), Some("new"));
    // A persisted tombstone with no file on disk survives, with its time.
    let gone = boot.get_file(&s("gone.txt")).unwrap();
    assert!(gone.is_deleted && gone.hash.is_none());
    assert_eq!(gone.last_modified, 100);
    // A new file on disk is adopted.
    assert_eq!(boot.get_file(&s("fresh.txt")).unwrap().hash.as_deref(), Some("hf"));
}

#[test]
fn boot_merge_tombstones_files_deleted_while_down() {
    // A file recorded live in the persisted state but absent from the scan
    // was deleted while the node was down: it becomes a tombstone carrying
    // the persisted time, so the deletion can still propagate.
    let mut persisted = SyncState::new();
    persisted.add_file(s("vanished.txt"), FileEntry::new(s("hv"), 777));
    let scanned = SyncState::new();
    let boot = initialise_state(&persisted, &scanned);
    let v = boot.get_file(&s("vanished.txt")).unwrap();
    assert!(v.is_deleted && v.hash.is_none());
    assert_eq!(v.last_modified, 777);
}

#[test]
fn boot_merge_never_overrides_the_scan() {
    // Even a persisted entry with a newer timestamp loses to the scan: the
    // boot state describes what is on disk.
    let mut persisted = SyncState::new();
    persisted.add_file(s("stale.txt"), FileEntry::new(s("hp"), 900));
    let mut scanned = SyncState::new();
    scanned.add_file(s("stale.txt"), FileEntry::new(s("hs"), 100));
    let boot = initialise_state(&persisted, &scanned);
    let e = boot.get_file(&s("stale.txt")).unwrap();
    assert_eq!(e.hash.as_deref(), Some("hs"));
    assert_eq!(e.last_modified, 100);
}

/// One node of the simulated pair: its sync state and its disk.
struct Node {
    state: SyncState,
    disk: HashMap<String, String>,
}

impl Node {
    fn new() -> Node {
        Node { state: SyncState::new(), disk: HashMap::new() }
    }

    /// Put a file on disk and track it, as the watcher would have.
    fn seed(&mut self, path: &str, content: &str, t: u64) {
        self.disk.insert(s(path), s(content));
        let hash = calculate_file_hash(&content.as_bytes().to_vec());
        self.state.update_file(s(path), hash, t);
    }

    /// Apply a received update batch to disk and state, echo-suppressed.
    fn apply_update(&mut self, writes: &Vec<(String, String)>, deletes: &Vec<String>, t: u64) {
        for (p, c) in writes {
            self.disk.insert(p.clone(), c.clone());
        }
        for p in deletes {
            self.disk.remove(p);
        }
        apply_file_update(&mut self.state, writes, deletes, t);
    }

    fn read(&self, path: &str) -> Option<&String> {
        self.disk.get(path)
    }
}

#[test]
fn cold_start_propagates_leader_content() {
    // Leader holds a.txt = "1"; a fresh follower connects with an empty
    // state and ends up with the file on disk and a live entry for it.
    let mut leader = Node::new();
    leader.seed("a.txt", "1", 100);
    let mut follower = Node::new();

    // Follower sends its state; the leader reconciles.
    let push = encode_peer_message(&PeerMessage::InitialSyncPush {
        sync_state: follower.state.snapshot(),
    })
    .unwrap();
    let follower_state = match decode_peer_message(&push).unwrap() {
        PeerMessage::InitialSyncPush { sync_state } => sync_state,
        _ => panic!("wrong message"),
    };
    let (to_send, to_request, delete_local, delete_remote) =
        determine_winning_files(&leader.state, &follower_state);
    assert_eq!(to_send, vec![s("a.txt")]);
    assert!(to_request.is_empty() && delete_local.is_empty() && delete_remote.is_empty());

    // The leader reads its winning files and answers.
    let contents: Vec<(String, String)> =
        to_send.iter().map(|p| (p.clone(), leader.read(p).unwrap().clone())).collect();
    let response = leader_build_sync_response(
        &mut leader.state,
        &follower_state,
        contents,
        &delete_local,
        delete_remote,
        to_request,
        101,
    );
    let frame = encode_server_message(&response).unwrap();

    // The follower applies the response.
    match decode_server_message(&frame).unwrap() {
        ServerMessage::InitialSyncPushResponse {
            files_to_update,
            files_to_delete,
            files_to_send_back,
        } => {
            follower.apply_update(&files_to_update, &files_to_delete, 101);
            assert!(files_to_send_back.is_empty());
        },
        _ => panic!("wrong message"),
    }
    assert_eq!(follower.read("a.txt").map(|c| c.as_str()), Some("1"));
    let e = follower.state.get_file(&s("a.txt")).unwrap();
    assert!(!e.is_deleted);
    assert_eq!(e.hash.as_deref(), Some(SHA_ONE));
}

#[test]
fn conflicting_edit_follower_wins() {
    // Both sides hold a.txt with different content; the follower's entry is
    // strictly newer, so after the handshake the leader holds the
    // follower's content and the follower is untouched.
    let mut leader = Node::new();
    leader.seed("a.txt", "old", 100);
    let mut follower = Node::new();
    follower.seed("a.txt", "new", 101);

    let follower_state = follower.state.snapshot();
    let (to_send, to_request, delete_local, _delete_remote) =
        determine_winning_files(&leader.state, &follower_state);
    assert!(to_send.is_empty() && delete_local.is_empty());
    assert_eq!(to_request, vec![s("a.txt")]);

    // The follower reads the requested files and pushes them back.
    let send_back: Vec<(String, String)> =
        to_request.iter().map(|p| (p.clone(), follower.read(p).unwrap().clone())).collect();
    let reply = encode_peer_message(&PeerMessage::FileUpdatePush {
        files_to_write: send_back,
        files_to_delete: Vec::new(),
    })
    .unwrap();
    match decode_peer_message(&reply).unwrap() {
        PeerMessage::FileUpdatePush { files_to_write, files_to_delete } => {
            leader.apply_update(&files_to_write, &files_to_delete, 102);
        },
        _ => panic!("wrong message"),
    }
    assert_eq!(leader.read("a.txt").map(|c| c.as_str()), Some("new"));
    assert_eq!(follower.read("a.txt").map(|c| c.as_str()), Some("new"));
    let lh = leader.state.get_file(&s("a.txt")).unwrap().hash.clone();
    let fh = follower.state.get_file(&s("a.txt")).unwrap().hash.clone();
    assert_eq!(lh, fh);
}

#[test]
fn deletion_propagates_via_tombstone() {
    // The follower deleted a.txt later than the leader last wrote it; the
    // handshake removes the leader's copy and stamps the tombstone with the
    // follower's time.
    let mut leader = Node::new();
    leader.seed("a.txt", "1", 100);
    let mut follower = Node::new();
    follower.state.delete_file(s("a.txt"), 101);

    let follower_state = follower.state.snapshot();
    let (to_send, to_request, delete_local, _delete_remote) =
        determine_winning_files(&leader.state, &follower_state);
    assert!(to_send.is_empty() && to_request.is_empty());
    assert_eq!(delete_local, vec![s("a.txt")]);

    for p in &delete_local {
        leader.disk.remove(p);
    }
    delete_files_with_source(&mut leader.state, &delete_local, Some(&follower_state), 999);
    assert!(leader.read("a.txt").is_none());
    let e = leader.state.get_file(&s("a.txt")).unwrap();
    assert!(e.is_deleted && e.hash.is_none());
    assert_eq!(e.last_modified, 101);
}

#[test]
fn write_batch_hashes_contents() {
    let mut st = SyncState::new();
    let files = vec![(s("x"), s("abc")), (s("y"), s(""))];
    apply_write_batch(&mut st, &files, 7);
    assert_eq!(st.get_file(&s("x")).unwrap().hash.as_deref(), Some(SHA_ABC));
    assert_eq!(st.get_file(&s("y")).unwrap().hash.as_deref(), Some(SHA_EMPTY));
    assert_eq!(st.get_file(&s("x")).unwrap().last_modified, 7);
}
