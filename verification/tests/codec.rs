//! Round-trip and robustness tests of the wire codec.

use synclite::{
    DecodeError, FileEntry, PeerMessage, ServerMessage, SyncState, decode_peer_message,
    decode_server_message, encode_peer_message, encode_server_message,
};

fn s(x: &str) -> String {
    x.to_string()
}

#[test]
fn roundtrip_connection_ack() {
    let m = ServerMessage::ConnectionAck { peer_id: s("p-1"), leader_id: s("l-1") };
    let frame = encode_server_message(&m).unwrap();
    match decode_server_message(&frame) {
        Ok(ServerMessage::ConnectionAck { peer_id, leader_id }) => {
            assert_eq!(peer_id, "p-1");
            assert_eq!(leader_id, "l-1");
        },
        _ => panic!("wrong decode"),
    }
}

#[test]
fn roundtrip_peer_list_update() {
    let m = ServerMessage::PeerListUpdate { peers: vec![s("a"), s("b"), s("c")] };
    let frame = encode_server_message(&m).unwrap();
    match decode_server_message(&frame) {
        Ok(ServerMessage::PeerListUpdate { peers }) => {
            assert_eq!(peers, vec![s("a"), s("b"), s("c")]);
        },
        _ => panic!("wrong decode"),
    }
}

#[test]
fn roundtrip_empty_peer_list() {
    let m = ServerMessage::PeerListUpdate { peers: Vec::new() };
    let frame = encode_server_message(&m).unwrap();
    match decode_server_message(&frame) {
        Ok(ServerMessage::PeerListUpdate { peers }) => assert!(peers.is_empty()),
        _ => panic!("wrong decode"),
    }
}

#[test]
fn roundtrip_initial_sync_push_response() {
    let m = ServerMessage::InitialSyncPushResponse {
        files_to_update: vec![(s("a.txt"), s("1")), (s("dir/b.txt"), s("two"))],
        files_to_delete: vec![s("gone.txt")],
        files_to_send_back: vec![s("want.txt")],
    };
    let frame = encode_server_message(&m).unwrap();
    match decode_server_message(&frame) {
        Ok(ServerMessage::InitialSyncPushResponse {
            files_to_update,
            files_to_delete,
            files_to_send_back,
        }) => {
            assert_eq!(files_to_update, vec![(s("a.txt"), s("1")), (s("dir/b.txt"), s("two"))]);
            assert_eq!(files_to_delete, vec![s("gone.txt")]);
            assert_eq!(files_to_send_back, vec![s("want.txt")]);
        },
        _ => panic!("wrong decode"),
    }
}

#[test]
fn roundtrip_file_update_push_with_escapes() {
    let tricky = s("line\"one\"\\and\nline\ttwo\u{1}");
    let m = ServerMessage::FileUpdatePush {
        files_to_write: vec![(s("notes.txt"), tricky.clone())],
        files_to_delete: Vec::new(),
    };
    let frame = encode_server_message(&m).unwrap();
    match decode_server_message(&frame) {
        Ok(ServerMessage::FileUpdatePush { files_to_write, files_to_delete }) => {
            assert_eq!(files_to_write, vec![(s("notes.txt"), tricky)]);
            assert!(files_to_delete.is_empty());
        },
        _ => panic!("wrong decode"),
    }
}

#[test]
fn roundtrip_non_ascii_content() {
    let text = s("héllo wörld — ✓ 文件");
    let m = PeerMessage::FileUpdatePush {
        files_to_write: vec![(s("ünïcode/パス.txt"), text.clone())],
        files_to_delete: vec![s("øld.txt")],
    };
    let frame = encode_peer_message(&m).unwrap();
    match decode_peer_message(&frame) {
        Ok(PeerMessage::FileUpdatePush { files_to_write, files_to_delete }) => {
            assert_eq!(files_to_write, vec![(s("ünïcode/パス.txt"), text)]);
            assert_eq!(files_to_delete, vec![s("øld.txt")]);
        },
        _ => panic!("wrong decode"),
    }
}

#[test]
fn roundtrip_initial_sync_push_state() {
    let mut st = SyncState::new();
    st.add_file(s("a.txt"), FileEntry::new(s("6b86"), 1700000000123));
    st.delete_file(s("b.txt"), 1700000000456);
    let m = PeerMessage::InitialSyncPush { sync_state: st };
    let frame = encode_peer_message(&m).unwrap();
    match decode_peer_message(&frame) {
        Ok(PeerMessage::InitialSyncPush { sync_state }) => {
            assert!(sync_state.check_wf());
            assert_eq!(sync_state.file_count(), 2);
            let a = sync_state.get_file(&s("a.txt")).unwrap();
            assert_eq!(a.hash.as_deref(), Some("6b86"));
            assert!(!a.is_deleted);
            assert_eq!(a.last_modified, 1700000000123);
            let b = sync_state.get_file(&s("b.txt")).unwrap();
            assert!(b.is_deleted);
            assert!(b.hash.is_none());
            assert_eq!(b.last_modified, 1700000000456);
        },
        _ => panic!("wrong decode"),
    }
}

#[test]
fn decode_rejects_truncated_length() {
    assert!(matches!(decode_server_message(&vec![]), Err(DecodeError::TruncatedLength)));
    assert!(matches!(decode_server_message(&vec![0, 0, 9]), Err(DecodeError::TruncatedLength)));
    assert!(matches!(decode_peer_message(&vec![1]), Err(DecodeError::TruncatedLength)));
}

#[test]
fn decode_rejects_truncated_body() {
    // Declared length 10, but only 3 body bytes follow.
    let buf = vec![0u8, 0, 0, 10, 0x7B, 0x22, 0x46];
    assert!(matches!(decode_server_message(&buf), Err(DecodeError::TruncatedBody)));
    assert!(matches!(decode_peer_message(&buf), Err(DecodeError::TruncatedBody)));
    // Every prefix of a valid frame that is shorter than the declared
    // length fails the same way.
    let m = ServerMessage::PeerListUpdate { peers: vec![s("a")] };
    let frame = encode_server_message(&m).unwrap();
    for cut in 4..frame.len() {
        let prefix: Vec<u8> = frame[..cut].to_vec();
        assert!(matches!(decode_server_message(&prefix), Err(DecodeError::TruncatedBody)));
    }
}

#[test]
fn decode_rejects_non_utf8_body() {
    // Declared length 4, body of invalid UTF-8 bytes.
    let buf = vec![0u8, 0, 0, 4, 0xFF, 0xFE, 0x80, 0xC0];
    assert!(matches!(decode_server_message(&buf), Err(DecodeError::InvalidUtf8)));
    assert!(matches!(decode_peer_message(&buf), Err(DecodeError::InvalidUtf8)));
}

#[test]
fn decode_rejects_wrong_enumeration() {
    // A valid frame of the wrong message family fails to decode.
    let m = ServerMessage::ConnectionAck { peer_id: s("p"), leader_id: s("l") };
    let frame = encode_server_message(&m).unwrap();
    assert!(matches!(decode_peer_message(&frame), Err(DecodeError::Malformed)));
    // Valid UTF-8 that is not one of the expected messages.
    let body = b"{\"Nonsense\":{}}";
    let mut buf = vec![0u8, 0, 0, body.len() as u8];
    buf.extend_from_slice(body);
    assert!(matches!(decode_server_message(&buf), Err(DecodeError::Malformed)));
}

#[test]
fn decode_rejects_trailing_bytes_inside_body() {
    // A well-formed message followed by junk, all inside the declared
    // length, is not a message.
    let m = ServerMessage::PeerListUpdate { peers: vec![s("a")] };
    let frame = encode_server_message(&m).unwrap();
    let mut body: Vec<u8> = frame[4..].to_vec();
    body.push(b' ');
    let n = body.len() as u32;
    let mut buf = n.to_be_bytes().to_vec();
    buf.extend_from_slice(&body);
    assert!(matches!(decode_server_message(&buf), Err(DecodeError::Malformed)));
}

#[test]
fn encode_length_prefix_is_big_endian() {
    let m = ServerMessage::PeerListUpdate { peers: Vec::new() };
    let frame = encode_server_message(&m).unwrap();
    let n = u32::from_be_bytes([frame[0], frame[1], frame[2], frame[3]]) as usize;
    assert_eq!(frame.len(), 4 + n);
    assert_eq!(&frame[4..], b"{\"PeerListUpdate\":{\"peers\":[]}}");
}
