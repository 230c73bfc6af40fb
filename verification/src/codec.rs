//! The wire codec: length-prefixed JSON frames carrying the two message
//! enumerations of the protocol.
//!
//! A frame is a four-byte big-endian length followed by a compact JSON body
//! tagged by its single outer key. The serializers below define the exact
//! bytes; the specification parsers accept exactly that grammar, and the
//! round-trip lemmas prove that a parse of an encoding finds the original
//! message.

use vstd::prelude::*;
use vstd::utf8::{
    decode_utf8, encode_utf8, encode_utf8_decode_utf8, encode_utf8_valid_utf8, is_ascii_chars,
    is_ascii_chars_encode_utf8, valid_utf8, valid_utf8_concat,
};
use crate::json::{
    DecodeError, QUOTE, dec_of, emit_json_string, emit_lit, emit_u64, esc_bytes, is_digit, jstr,
    lemma_ascii_bytes_valid, lemma_dec_of_digits, lemma_esc_bytes_valid,
    lemma_sp_string_body_of_escaped, lemma_sp_u64_of_dec, lemma_strip_concat, parse_string,
    parse_u64, expect_lit, sp_jstring, sp_string_body, sp_u64, strip, utf8_check,
};
use crate::state::{FileEntry, FileEntryV, SyncState};

verus! {

/// The abstract value of a list of path strings.
pub open spec fn strs_view(v: Seq<String>) -> Seq<Seq<char>> {
    v.map(|i: int, s: String| s@)
}

/// The abstract value of a path-to-content list.
pub open spec fn pairs_view(v: Seq<(String, String)>) -> Seq<(Seq<char>, Seq<char>)> {
    v.map(|i: int, p: (String, String)| (p.0@, p.1@))
}

/// Messages the leader sends to followers.
pub enum ServerMessage {
    ConnectionAck { peer_id: String, leader_id: String },
    PeerListUpdate { peers: Vec<String> },
    InitialSyncPushResponse {
        files_to_update: Vec<(String, String)>,
        files_to_delete: Vec<String>,
        files_to_send_back: Vec<String>,
    },
    FileUpdatePush { files_to_write: Vec<(String, String)>, files_to_delete: Vec<String> },
}

/// Messages a follower sends to the leader.
pub enum PeerMessage {
    InitialSyncPush { sync_state: SyncState },
    FileUpdatePush { files_to_write: Vec<(String, String)>, files_to_delete: Vec<String> },
}

/// The abstract value of a `ServerMessage`.
pub enum ServerMessageV {
    ConnectionAck { peer_id: Seq<char>, leader_id: Seq<char> },
    PeerListUpdate { peers: Seq<Seq<char>> },
    InitialSyncPushResponse {
        files_to_update: Seq<(Seq<char>, Seq<char>)>,
        files_to_delete: Seq<Seq<char>>,
        files_to_send_back: Seq<Seq<char>>,
    },
    FileUpdatePush { files_to_write: Seq<(Seq<char>, Seq<char>)>, files_to_delete: Seq<Seq<char>> },
}

/// The abstract value of a `PeerMessage`.
pub enum PeerMessageV {
    InitialSyncPush { sync_state: Seq<(Seq<char>, FileEntryV)> },
    FileUpdatePush { files_to_write: Seq<(Seq<char>, Seq<char>)>, files_to_delete: Seq<Seq<char>> },
}

impl View for ServerMessage {
    type V = ServerMessageV;

    open spec fn view(&self) -> ServerMessageV {
        match self {
            ServerMessage::ConnectionAck { peer_id, leader_id } => ServerMessageV::ConnectionAck {
                peer_id: peer_id@,
                leader_id: leader_id@,
            },
            ServerMessage::PeerListUpdate { peers } => ServerMessageV::PeerListUpdate {
                peers: strs_view(peers@),
            },
            ServerMessage::InitialSyncPushResponse {
                files_to_update,
                files_to_delete,
                files_to_send_back,
            } => ServerMessageV::InitialSyncPushResponse {
                files_to_update: pairs_view(files_to_update@),
                files_to_delete: strs_view(files_to_delete@),
                files_to_send_back: strs_view(files_to_send_back@),
            },
            ServerMessage::FileUpdatePush { files_to_write, files_to_delete } => {
                ServerMessageV::FileUpdatePush {
                    files_to_write: pairs_view(files_to_write@),
                    files_to_delete: strs_view(files_to_delete@),
                }
            },
        }
    }
}

impl View for PeerMessage {
    type V = PeerMessageV;

    open spec fn view(&self) -> PeerMessageV {
        match self {
            PeerMessage::InitialSyncPush { sync_state } => PeerMessageV::InitialSyncPush {
                sync_state: sync_state@,
            },
            PeerMessage::FileUpdatePush { files_to_write, files_to_delete } => {
                PeerMessageV::FileUpdatePush {
                    files_to_write: pairs_view(files_to_write@),
                    files_to_delete: strs_view(files_to_delete@),
                }
            },
        }
    }
}

/// The UTF-8 bytes of a fixed piece of JSON text.
pub open spec fn lb(s: Seq<char>) -> Seq<u8> {
    encode_utf8(s)
}

/// A JSON array of strings.
#[verifier::opaque]
pub open spec fn jstrlist(v: Seq<Seq<char>>) -> Seq<u8> {
    if v.len() == 0 {
        lb("[]"@)
    } else {
        lb("["@) + jstr(v[0]) + jstrlist_rest(v.skip(1))
    }
}

#[verifier::opaque]
pub open spec fn jstrlist_rest(v: Seq<Seq<char>>) -> Seq<u8>
    decreases v.len(),
{
    if v.len() == 0 {
        lb("]"@)
    } else {
        lb(","@) + jstr(v[0]) + jstrlist_rest(v.skip(1))
    }
}

/// A JSON object mapping strings to strings.
#[verifier::opaque]
pub open spec fn jmap(v: Seq<(Seq<char>, Seq<char>)>) -> Seq<u8> {
    if v.len() == 0 {
        lb("{}"@)
    } else {
        lb("{"@) + jstr(v[0].0) + lb(":"@) + jstr(v[0].1) + jmap_rest(v.skip(1))
    }
}

#[verifier::opaque]
pub open spec fn jmap_rest(v: Seq<(Seq<char>, Seq<char>)>) -> Seq<u8>
    decreases v.len(),
{
    if v.len() == 0 {
        lb("}"@)
    } else {
        lb(","@) + jstr(v[0].0) + lb(":"@) + jstr(v[0].1) + jmap_rest(v.skip(1))
    }
}

/// The JSON object for one file entry.
#[verifier::opaque]
pub open spec fn jentry(e: FileEntryV) -> Seq<u8> {
    lb("{\"hash\":"@) + (match e.hash {
        Some(h) => jstr(h),
        None => lb("null"@),
    }) + lb(",\"is_deleted\":"@) + (if e.is_deleted {
        lb("true"@)
    } else {
        lb("false"@)
    }) + lb(",\"last_modified\":"@) + dec_of(e.last_modified) + lb("}"@)
}

/// The JSON object for a whole sync state.
#[verifier::opaque]
pub open spec fn jstate(v: Seq<(Seq<char>, FileEntryV)>) -> Seq<u8> {
    if v.len() == 0 {
        lb("{}"@)
    } else {
        lb("{"@) + jstr(v[0].0) + lb(":"@) + jentry(v[0].1) + jstate_rest(v.skip(1))
    }
}

#[verifier::opaque]
pub open spec fn jstate_rest(v: Seq<(Seq<char>, FileEntryV)>) -> Seq<u8>
    decreases v.len(),
{
    if v.len() == 0 {
        lb("}"@)
    } else {
        lb(","@) + jstr(v[0].0) + lb(":"@) + jentry(v[0].1) + jstate_rest(v.skip(1))
    }
}

/// The JSON body of a leader-to-follower message.
pub open spec fn jserver(m: ServerMessageV) -> Seq<u8> {
    match m {
        ServerMessageV::ConnectionAck { peer_id, leader_id } => lb("{\"ConnectionAck\":{\"peer_id\":"@)
            + jstr(peer_id) + lb(",\"leader_id\":"@) + jstr(leader_id) + lb("}}"@),
        ServerMessageV::PeerListUpdate { peers } => lb("{\"PeerListUpdate\":{\"peers\":"@)
            + jstrlist(peers) + lb("}}"@),
        ServerMessageV::InitialSyncPushResponse {
            files_to_update,
            files_to_delete,
            files_to_send_back,
        } => lb("{\"InitialSyncPushResponse\":{\"files_to_update\":"@) + jmap(files_to_update)
            + lb(",\"files_to_delete\":"@) + jstrlist(files_to_delete)
            + lb(",\"files_to_send_back\":"@) + jstrlist(files_to_send_back) + lb("}}"@),
        ServerMessageV::FileUpdatePush { files_to_write, files_to_delete } => lb(
            "{\"FileUpdatePush\":{\"files_to_write\":"@,
        ) + jmap(files_to_write) + lb(",\"files_to_delete\":"@) + jstrlist(files_to_delete) + lb(
            "}}"@,
        ),
    }
}

/// The JSON body of a follower-to-leader message.
pub open spec fn jpeer(m: PeerMessageV) -> Seq<u8> {
    match m {
        PeerMessageV::InitialSyncPush { sync_state } => lb("{\"InitialSyncPush\":{\"sync_state\":"@)
            + jstate(sync_state) + lb("}}"@),
        PeerMessageV::FileUpdatePush { files_to_write, files_to_delete } => lb(
            "{\"FileUpdatePush\":{\"files_to_write\":"@,
        ) + jmap(files_to_write) + lb(",\"files_to_delete\":"@) + jstrlist(files_to_delete) + lb(
            "}}"@,
        ),
    }
}

/// The four-byte big-endian length prefix.
pub open spec fn be32(n: u32) -> Seq<u8> {
    seq![
        (n / 0x1000000) as u8,
        ((n / 0x10000) % 0x100) as u8,
        ((n / 0x100) % 0x100) as u8,
        (n % 0x100) as u8,
    ]
}

/// The value a four-byte big-endian prefix declares.
pub open spec fn be32_val(b: Seq<u8>) -> int
    recommends
        b.len() >= 4,
{
    b[0] * 0x1000000 + b[1] * 0x10000 + b[2] * 0x100 + b[3]
}

pub proof fn lemma_be32_roundtrip(n: u32)
    ensures
        be32_val(be32(n)) == n,
{
    assert(n / 0x1000000 < 0x100);
}

/// A whole frame: the length prefix and the body.
pub open spec fn frame(body: Seq<u8>) -> Seq<u8>
    recommends
        body.len() <= u32::MAX,
{
    be32(body.len() as u32) + body
}

// ------------------------- specification parsers -------------------------

#[verifier::opaque]
pub open spec fn sp_strlist(t: Seq<u8>) -> Option<(Seq<Seq<char>>, Seq<u8>)> {
    if strip(t, lb("[]"@)) is Some {
        Some((Seq::<Seq<char>>::empty(), strip(t, lb("[]"@))->0))
    } else {
        match strip(t, lb("["@)) {
            Some(t1) => sp_strlist_items(t1),
            None => None,
        }
    }
}

#[verifier::opaque]
pub open spec fn sp_strlist_items(t: Seq<u8>) -> Option<(Seq<Seq<char>>, Seq<u8>)>
    decreases t.len(),
{
    match sp_jstring(t) {
        None => None,
        Some((raw, t2)) => {
            if !valid_utf8(raw) {
                None
            } else if t2.len() >= t.len() {
                None
            } else if t2.len() > 0 && t2[0] == 0x2C {
                match sp_strlist_items(t2.skip(1)) {
                    Some((items, t3)) => Some((seq![decode_utf8(raw)] + items, t3)),
                    None => None,
                }
            } else if t2.len() > 0 && t2[0] == 0x5D {
                Some((seq![decode_utf8(raw)], t2.skip(1)))
            } else {
                None
            }
        },
    }
}

#[verifier::opaque]
pub open spec fn sp_pairmap(t: Seq<u8>) -> Option<(Seq<(Seq<char>, Seq<char>)>, Seq<u8>)> {
    if strip(t, lb("{}"@)) is Some {
        Some((Seq::<(Seq<char>, Seq<char>)>::empty(), strip(t, lb("{}"@))->0))
    } else {
        match strip(t, lb("{"@)) {
            Some(t1) => sp_pairmap_items(t1),
            None => None,
        }
    }
}

#[verifier::opaque]
pub open spec fn sp_pairmap_items(t: Seq<u8>) -> Option<(Seq<(Seq<char>, Seq<char>)>, Seq<u8>)>
    decreases t.len(),
{
    match sp_jstring(t) {
        None => None,
        Some((kraw, t2)) => {
            if !valid_utf8(kraw) {
                None
            } else {
                match strip(t2, lb(":"@)) {
                    None => None,
                    Some(t3) => {
                        match sp_jstring(t3) {
                            None => None,
                            Some((vraw, t4)) => {
                                if !valid_utf8(vraw) {
                                    None
                                } else if t4.len() >= t.len() {
                                    None
                                } else if t4.len() > 0 && t4[0] == 0x2C {
                                    match sp_pairmap_items(t4.skip(1)) {
                                        Some((items, t5)) => Some(
                                            (seq![(decode_utf8(kraw), decode_utf8(vraw))] + items, t5),
                                        ),
                                        None => None,
                                    }
                                } else if t4.len() > 0 && t4[0] == 0x7D {
                                    Some((seq![(decode_utf8(kraw), decode_utf8(vraw))], t4.skip(1)))
                                } else {
                                    None
                                }
                            },
                        }
                    },
                }
            }
        },
    }
}

#[verifier::opaque]
pub open spec fn sp_entry(t: Seq<u8>) -> Option<(FileEntryV, Seq<u8>)> {
    match strip(t, lb("{\"hash\":"@)) {
        None => None,
        Some(t1) => {
            let hash_parse: Option<(Option<Seq<char>>, Seq<u8>)> = if strip(t1, lb("null"@)) is Some {
                Some((None, strip(t1, lb("null"@))->0))
            } else {
                match sp_jstring(t1) {
                    Some((raw, t2)) => if valid_utf8(raw) {
                        Some((Some(decode_utf8(raw)), t2))
                    } else {
                        None
                    },
                    None => None,
                }
            };
            match hash_parse {
                None => None,
                Some((hash, t2)) => {
                    match strip(t2, lb(",\"is_deleted\":"@)) {
                        None => None,
                        Some(t3) => {
                            let bool_parse: Option<(bool, Seq<u8>)> = if strip(t3, lb("true"@)) is Some {
                                Some((true, strip(t3, lb("true"@))->0))
                            } else if strip(t3, lb("false"@)) is Some {
                                Some((false, strip(t3, lb("false"@))->0))
                            } else {
                                None
                            };
                            match bool_parse {
                                None => None,
                                Some((is_deleted, t4)) => {
                                    match strip(t4, lb(",\"last_modified\":"@)) {
                                        None => None,
                                        Some(t5) => {
                                            match sp_u64(t5) {
                                                None => None,
                                                Some((lm, t6)) => {
                                                    match strip(t6, lb("}"@)) {
                                                        None => None,
                                                        Some(t7) => Some(
                                                            (
                                                                FileEntryV {
                                                                    hash,
                                                                    is_deleted,
                                                                    last_modified: lm,
                                                                },
                                                                t7,
                                                            ),
                                                        ),
                                                    }
                                                },
                                            }
                                        },
                                    }
                                },
                            }
                        },
                    }
                },
            }
        },
    }
}

#[verifier::opaque]
pub open spec fn sp_state(t: Seq<u8>) -> Option<(Seq<(Seq<char>, FileEntryV)>, Seq<u8>)> {
    if strip(t, lb("{}"@)) is Some {
        Some((Seq::<(Seq<char>, FileEntryV)>::empty(), strip(t, lb("{}"@))->0))
    } else {
        match strip(t, lb("{"@)) {
            Some(t1) => sp_state_items(t1),
            None => None,
        }
    }
}

#[verifier::opaque]
pub open spec fn sp_state_items(t: Seq<u8>) -> Option<(Seq<(Seq<char>, FileEntryV)>, Seq<u8>)>
    decreases t.len(),
{
    match sp_jstring(t) {
        None => None,
        Some((kraw, t2)) => {
            if !valid_utf8(kraw) {
                None
            } else {
                match strip(t2, lb(":"@)) {
                    None => None,
                    Some(t3) => {
                        match sp_entry(t3) {
                            None => None,
                            Some((e, t4)) => {
                                if t4.len() >= t.len() {
                                    None
                                } else if t4.len() > 0 && t4[0] == 0x2C {
                                    match sp_state_items(t4.skip(1)) {
                                        Some((items, t5)) => Some(
                                            (seq![(decode_utf8(kraw), e)] + items, t5),
                                        ),
                                        None => None,
                                    }
                                } else if t4.len() > 0 && t4[0] == 0x7D {
                                    Some((seq![(decode_utf8(kraw), e)], t4.skip(1)))
                                } else {
                                    None
                                }
                            },
                        }
                    },
                }
            }
        },
    }
}

pub open spec fn sp_server(t: Seq<u8>) -> Option<(ServerMessageV, Seq<u8>)> {
    if strip(t, lb("{\"ConnectionAck\":{\"peer_id\":"@)) is Some {
        let t1 = strip(t, lb("{\"ConnectionAck\":{\"peer_id\":"@))->0;
        match sp_jstring(t1) {
            None => None,
            Some((praw, t2)) => if !valid_utf8(praw) {
                None
            } else {
                match strip(t2, lb(",\"leader_id\":"@)) {
                    None => None,
                    Some(t3) => {
                        match sp_jstring(t3) {
                            None => None,
                            Some((lraw, t4)) => if !valid_utf8(lraw) {
                                None
                            } else {
                                match strip(t4, lb("}}"@)) {
                                    None => None,
                                    Some(t5) => Some(
                                        (
                                            ServerMessageV::ConnectionAck {
                                                peer_id: decode_utf8(praw),
                                                leader_id: decode_utf8(lraw),
                                            },
                                            t5,
                                        ),
                                    ),
                                }
                            },
                        }
                    },
                }
            },
        }
    } else if strip(t, lb("{\"PeerListUpdate\":{\"peers\":"@)) is Some {
        let t1 = strip(t, lb("{\"PeerListUpdate\":{\"peers\":"@))->0;
        match sp_strlist(t1) {
            None => None,
            Some((peers, t2)) => {
                match strip(t2, lb("}}"@)) {
                    None => None,
                    Some(t3) => Some((ServerMessageV::PeerListUpdate { peers }, t3)),
                }
            },
        }
    } else if strip(t, lb("{\"InitialSyncPushResponse\":{\"files_to_update\":"@)) is Some {
        let t1 = strip(t, lb("{\"InitialSyncPushResponse\":{\"files_to_update\":"@))->0;
        match sp_pairmap(t1) {
            None => None,
            Some((fu, t2)) => {
                match strip(t2, lb(",\"files_to_delete\":"@)) {
                    None => None,
                    Some(t3) => {
                        match sp_strlist(t3) {
                            None => None,
                            Some((fd, t4)) => {
                                match strip(t4, lb(",\"files_to_send_back\":"@)) {
                                    None => None,
                                    Some(t5) => {
                                        match sp_strlist(t5) {
                                            None => None,
                                            Some((fs, t6)) => {
                                                match strip(t6, lb("}}"@)) {
                                                    None => None,
                                                    Some(t7) => Some(
                                                        (
                                                            ServerMessageV::InitialSyncPushResponse {
                                                                files_to_update: fu,
                                                                files_to_delete: fd,
                                                                files_to_send_back: fs,
                                                            },
                                                            t7,
                                                        ),
                                                    ),
                                                }
                                            },
                                        }
                                    },
                                }
                            },
                        }
                    },
                }
            },
        }
    } else if strip(t, lb("{\"FileUpdatePush\":{\"files_to_write\":"@)) is Some {
        let t1 = strip(t, lb("{\"FileUpdatePush\":{\"files_to_write\":"@))->0;
        match sp_pairmap(t1) {
            None => None,
            Some((fw, t2)) => {
                match strip(t2, lb(",\"files_to_delete\":"@)) {
                    None => None,
                    Some(t3) => {
                        match sp_strlist(t3) {
                            None => None,
                            Some((fd, t4)) => {
                                match strip(t4, lb("}}"@)) {
                                    None => None,
                                    Some(t5) => Some(
                                        (
                                            ServerMessageV::FileUpdatePush {
                                                files_to_write: fw,
                                                files_to_delete: fd,
                                            },
                                            t5,
                                        ),
                                    ),
                                }
                            },
                        }
                    },
                }
            },
        }
    } else {
        None
    }
}

pub open spec fn sp_peer(t: Seq<u8>) -> Option<(PeerMessageV, Seq<u8>)> {
    if strip(t, lb("{\"InitialSyncPush\":{\"sync_state\":"@)) is Some {
        let t1 = strip(t, lb("{\"InitialSyncPush\":{\"sync_state\":"@))->0;
        match sp_state(t1) {
            None => None,
            Some((st, t2)) => {
                match strip(t2, lb("}}"@)) {
                    None => None,
                    Some(t3) => Some((PeerMessageV::InitialSyncPush { sync_state: st }, t3)),
                }
            },
        }
    } else if strip(t, lb("{\"FileUpdatePush\":{\"files_to_write\":"@)) is Some {
        let t1 = strip(t, lb("{\"FileUpdatePush\":{\"files_to_write\":"@))->0;
        match sp_pairmap(t1) {
            None => None,
            Some((fw, t2)) => {
                match strip(t2, lb(",\"files_to_delete\":"@)) {
                    None => None,
                    Some(t3) => {
                        match sp_strlist(t3) {
                            None => None,
                            Some((fd, t4)) => {
                                match strip(t4, lb("}}"@)) {
                                    None => None,
                                    Some(t5) => Some(
                                        (
                                            PeerMessageV::FileUpdatePush {
                                                files_to_write: fw,
                                                files_to_delete: fd,
                                            },
                                            t5,
                                        ),
                                    ),
                                }
                            },
                        }
                    },
                }
            },
        }
    } else {
        None
    }
}

// ----------------------- round-trip lemmas -----------------------

/// Parsing a serialized JSON string finds its UTF-8 bytes and nothing more.
pub proof fn lemma_sp_jstring_of(s: Seq<char>, rest: Seq<u8>)
    ensures
        sp_jstring(jstr(s) + rest) == Some((encode_utf8(s), rest)),
        valid_utf8(encode_utf8(s)),
        decode_utf8(encode_utf8(s)) == s,
        jstr(s).len() >= 2,
{
    let t = jstr(s) + rest;
    lemma_sp_string_body_of_escaped(encode_utf8(s), rest);
    assert(t[0] == QUOTE);
    assert(t.skip(1) =~= esc_bytes(encode_utf8(s)) + seq![QUOTE] + rest);
    encode_utf8_valid_utf8(s);
    encode_utf8_decode_utf8(s);
}

/// A prefix match fails when some byte differs.
proof fn lemma_strip_ne(t: Seq<u8>, pre: Seq<u8>, i: int)
    requires
        0 <= i < pre.len(),
        i < t.len(),
        t[i] != pre[i],
    ensures
        strip(t, pre) is None,
{
    if pre.len() <= t.len() {
        assert(t.take(pre.len() as int)[i] == t[i]);
        assert(t.take(pre.len() as int) != pre);
    }
}

/// Parsing the items of a serialized non-empty string list finds the list.
#[verifier::rlimit(100)]
#[verifier::spinoff_prover]
proof fn lemma_sp_strlist_items_of(v: Seq<Seq<char>>, rest: Seq<u8>)
    requires
        v.len() > 0,
    ensures
        sp_strlist_items(jstr(v[0]) + jstrlist_rest(v.skip(1)) + rest) == Some((v, rest)),
    decreases v.len(),
{
    reveal(sp_strlist_items);
    reveal(jstrlist_rest);
    reveal_strlit(",");
    reveal_strlit("]");
    assert(is_ascii_chars(","@) && is_ascii_chars("]"@));
    is_ascii_chars_encode_utf8(","@);
    is_ascii_chars_encode_utf8("]"@);
    let t = jstr(v[0]) + jstrlist_rest(v.skip(1)) + rest;
    let tail = jstrlist_rest(v.skip(1)) + rest;
    assert(t =~= jstr(v[0]) + tail);
    lemma_sp_jstring_of(v[0], tail);
    assert(sp_jstring(t) == Some((encode_utf8(v[0]), tail)));
    assert(tail.len() < t.len());
    if v.len() == 1 {
        assert(v.skip(1).len() == 0);
        assert(jstrlist_rest(v.skip(1)) == lb("]"@));
        assert(lb("]"@).len() == 1 && lb("]"@)[0] == 0x5D);
        assert(tail[0] == 0x5D);
        assert(tail.skip(1) =~= rest);
        assert(seq![decode_utf8(encode_utf8(v[0]))] =~= v);
    } else {
        let w = v.skip(1);
        assert(w.len() > 0);
        assert(jstrlist_rest(w) == lb(","@) + jstr(w[0]) + jstrlist_rest(w.skip(1)));
        assert(lb(","@).len() == 1 && lb(","@)[0] == 0x2C);
        assert(tail[0] == 0x2C);
        lemma_sp_strlist_items_of(w, rest);
        assert(tail.skip(1) =~= jstr(w[0]) + jstrlist_rest(w.skip(1)) + rest);
        assert(sp_strlist_items(tail.skip(1)) == Some((w, rest)));
        assert(seq![decode_utf8(encode_utf8(v[0]))] + w =~= v);
    }
}

/// Parsing a serialized string list finds the list.
pub proof fn lemma_sp_strlist_of(v: Seq<Seq<char>>, rest: Seq<u8>)
    ensures
        sp_strlist(jstrlist(v) + rest) == Some((v, rest)),
        jstrlist(v).len() >= 2,
{
    reveal(sp_strlist);
    reveal(jstrlist);
    reveal(jstrlist_rest);
    reveal_strlit("[]");
    reveal_strlit("[");
    assert(is_ascii_chars("[]"@) && is_ascii_chars("["@));
    is_ascii_chars_encode_utf8("[]"@);
    is_ascii_chars_encode_utf8("["@);
    let t = jstrlist(v) + rest;
    if v.len() == 0 {
        assert(jstrlist(v) == lb("[]"@));
        lemma_strip_concat(lb("[]"@), rest);
        assert(v =~= Seq::<Seq<char>>::empty());
    } else {
        assert(jstrlist(v) == lb("["@) + jstr(v[0]) + jstrlist_rest(v.skip(1)));
        assert(lb("["@).len() == 1 && lb("["@)[0] == 0x5B);
        assert(lb("[]"@).len() == 2 && lb("[]"@)[1] == 0x5D);
        lemma_sp_jstring_of(v[0], Seq::<u8>::empty());
        assert(jstr(v[0])[0] == QUOTE);
        assert(t[1] == QUOTE);
        lemma_strip_ne(t, lb("[]"@), 1);
        let t1 = jstr(v[0]) + jstrlist_rest(v.skip(1)) + rest;
        assert(t =~= lb("["@) + t1);
        lemma_strip_concat(lb("["@), t1);
        lemma_sp_strlist_items_of(v, rest);
    }
}

/// Parsing the items of a serialized non-empty pair map finds the pairs.
#[verifier::rlimit(100)]
#[verifier::spinoff_prover]
proof fn lemma_sp_pairmap_items_of(v: Seq<(Seq<char>, Seq<char>)>, rest: Seq<u8>)
    requires
        v.len() > 0,
    ensures
        sp_pairmap_items(
            jstr(v[0].0) + lb(":"@) + jstr(v[0].1) + jmap_rest(v.skip(1)) + rest,
        ) == Some((v, rest)),
    decreases v.len(),
{
    reveal(sp_pairmap_items);
    reveal(jmap_rest);
    reveal_strlit(":");
    reveal_strlit(",");
    reveal_strlit("}");
    assert(is_ascii_chars(":"@) && is_ascii_chars(","@) && is_ascii_chars("}"@));
    is_ascii_chars_encode_utf8(":"@);
    is_ascii_chars_encode_utf8(","@);
    is_ascii_chars_encode_utf8("}"@);
    let t = jstr(v[0].0) + lb(":"@) + jstr(v[0].1) + jmap_rest(v.skip(1)) + rest;
    let t2exp = lb(":"@) + jstr(v[0].1) + jmap_rest(v.skip(1)) + rest;
    assert(t =~= jstr(v[0].0) + t2exp);
    lemma_sp_jstring_of(v[0].0, t2exp);
    let t3exp = jstr(v[0].1) + jmap_rest(v.skip(1)) + rest;
    assert(t2exp =~= lb(":"@) + t3exp);
    lemma_strip_concat(lb(":"@), t3exp);
    let t4exp = jmap_rest(v.skip(1)) + rest;
    assert(t3exp =~= jstr(v[0].1) + t4exp);
    lemma_sp_jstring_of(v[0].1, t4exp);
    assert(lb(":"@).len() == 1);
    assert(t4exp.len() < t.len());
    if v.len() == 1 {
        assert(v.skip(1).len() == 0);
        assert(jmap_rest(v.skip(1)) == lb("}"@));
        assert(lb("}"@).len() == 1 && lb("}"@)[0] == 0x7D);
        assert(t4exp[0] == 0x7D);
        assert(t4exp.skip(1) =~= rest);
        assert(seq![(decode_utf8(encode_utf8(v[0].0)), decode_utf8(encode_utf8(v[0].1)))] =~= v);
    } else {
        let w = v.skip(1);
        assert(jmap_rest(w) == lb(","@) + jstr(w[0].0) + lb(":"@) + jstr(w[0].1) + jmap_rest(
            w.skip(1),
        ));
        assert(lb(","@).len() == 1 && lb(","@)[0] == 0x2C);
        assert(t4exp[0] == 0x2C);
        lemma_sp_pairmap_items_of(w, rest);
        assert(t4exp.skip(1) =~= jstr(w[0].0) + lb(":"@) + jstr(w[0].1) + jmap_rest(w.skip(1))
            + rest);
        assert(seq![(decode_utf8(encode_utf8(v[0].0)), decode_utf8(encode_utf8(v[0].1)))] + w
            =~= v);
    }
}

/// Parsing a serialized pair map finds the pairs.
pub proof fn lemma_sp_pairmap_of(v: Seq<(Seq<char>, Seq<char>)>, rest: Seq<u8>)
    ensures
        sp_pairmap(jmap(v) + rest) == Some((v, rest)),
        jmap(v).len() >= 2,
{
    reveal(sp_pairmap);
    reveal(jmap);
    reveal(jmap_rest);
    reveal_strlit("{}");
    reveal_strlit("{");
    reveal_strlit(":");
    assert(is_ascii_chars("{}"@) && is_ascii_chars("{"@) && is_ascii_chars(":"@));
    is_ascii_chars_encode_utf8("{}"@);
    is_ascii_chars_encode_utf8("{"@);
    is_ascii_chars_encode_utf8(":"@);
    let t = jmap(v) + rest;
    if v.len() == 0 {
        assert(jmap(v) == lb("{}"@));
        lemma_strip_concat(lb("{}"@), rest);
        assert(v =~= Seq::<(Seq<char>, Seq<char>)>::empty());
    } else {
        assert(jmap(v) == lb("{"@) + jstr(v[0].0) + lb(":"@) + jstr(v[0].1) + jmap_rest(
            v.skip(1),
        ));
        assert(lb("{"@).len() == 1 && lb("{"@)[0] == 0x7B);
        assert(lb("{}"@).len() == 2 && lb("{}"@)[1] == 0x7D);
        lemma_sp_jstring_of(v[0].0, Seq::<u8>::empty());
        assert(jstr(v[0].0)[0] == QUOTE);
        assert(t[1] == QUOTE);
        lemma_strip_ne(t, lb("{}"@), 1);
        let t1 = jstr(v[0].0) + lb(":"@) + jstr(v[0].1) + jmap_rest(v.skip(1)) + rest;
        assert(t =~= lb("{"@) + t1);
        lemma_strip_concat(lb("{"@), t1);
        lemma_sp_pairmap_items_of(v, rest);
    }
}

/// Parsing a serialized file entry finds the entry.
#[verifier::rlimit(100)]
#[verifier::spinoff_prover]
pub proof fn lemma_sp_entry_of(e: FileEntryV, rest: Seq<u8>)
    ensures
        sp_entry(jentry(e) + rest) == Some((e, rest)),
        jentry(e).len() >= 2,
{
    reveal(jentry);
    reveal(sp_entry);
    reveal_strlit("{\"hash\":");
    reveal_strlit("null");
    reveal_strlit(",\"is_deleted\":");
    reveal_strlit("true");
    reveal_strlit("false");
    reveal_strlit(",\"last_modified\":");
    reveal_strlit("}");
    assert(is_ascii_chars("{\"hash\":"@) && is_ascii_chars("null"@));
    assert(is_ascii_chars(",\"is_deleted\":"@) && is_ascii_chars("true"@));
    assert(is_ascii_chars("false"@) && is_ascii_chars(",\"last_modified\":"@));
    assert(is_ascii_chars("}"@));
    is_ascii_chars_encode_utf8("{\"hash\":"@);
    is_ascii_chars_encode_utf8("null"@);
    is_ascii_chars_encode_utf8(",\"is_deleted\":"@);
    is_ascii_chars_encode_utf8("true"@);
    is_ascii_chars_encode_utf8("false"@);
    is_ascii_chars_encode_utf8(",\"last_modified\":"@);
    is_ascii_chars_encode_utf8("}"@);
    let t = jentry(e) + rest;
    let hp = match e.hash {
        Some(h) => jstr(h),
        None => lb("null"@),
    };
    let bp = if e.is_deleted {
        lb("true"@)
    } else {
        lb("false"@)
    };
    let r1 = hp + lb(",\"is_deleted\":"@) + bp + lb(",\"last_modified\":"@) + dec_of(
        e.last_modified,
    ) + lb("}"@) + rest;
    assert(t =~= lb("{\"hash\":"@) + r1);
    lemma_strip_concat(lb("{\"hash\":"@), r1);
    let r2 = lb(",\"is_deleted\":"@) + bp + lb(",\"last_modified\":"@) + dec_of(
        e.last_modified,
    ) + lb("}"@) + rest;
    assert(r1 =~= hp + r2);
    if e.hash is Some {
        let h = e.hash->0;
        lemma_sp_jstring_of(h, r2);
        assert(r1[0] == QUOTE);
        assert(lb("null"@).len() == 4 && lb("null"@)[0] == 0x6E);
        lemma_strip_ne(r1, lb("null"@), 0);
    } else {
        lemma_strip_concat(lb("null"@), r2);
    }
    let r3 = bp + lb(",\"last_modified\":"@) + dec_of(e.last_modified) + lb("}"@) + rest;
    assert(r2 =~= lb(",\"is_deleted\":"@) + r3);
    lemma_strip_concat(lb(",\"is_deleted\":"@), r3);
    let r4 = lb(",\"last_modified\":"@) + dec_of(e.last_modified) + lb("}"@) + rest;
    assert(r3 =~= bp + r4);
    if e.is_deleted {
        lemma_strip_concat(lb("true"@), r4);
    } else {
        assert(lb("false"@).len() == 5 && lb("false"@)[0] == 0x66);
        assert(lb("true"@).len() == 4 && lb("true"@)[0] == 0x74);
        assert(r3[0] == 0x66);
        lemma_strip_ne(r3, lb("true"@), 0);
        lemma_strip_concat(lb("false"@), r4);
    }
    let r5 = dec_of(e.last_modified) + (lb("}"@) + rest);
    assert(r4 =~= lb(",\"last_modified\":"@) + r5);
    lemma_strip_concat(lb(",\"last_modified\":"@), r5);
    assert(lb("}"@).len() == 1 && lb("}"@)[0] == 0x7D);
    assert((lb("}"@) + rest)[0] == 0x7D);
    assert(!is_digit(0x7D));
    lemma_sp_u64_of_dec(e.last_modified, lb("}"@) + rest);
    lemma_strip_concat(lb("}"@), rest);
    assert(sp_entry(t) == Some((FileEntryV { hash: e.hash, is_deleted: e.is_deleted, last_modified: e.last_modified }, rest)));
    assert(FileEntryV { hash: e.hash, is_deleted: e.is_deleted, last_modified: e.last_modified } == e);
}

/// Parsing the items of a serialized non-empty state finds the entries.
#[verifier::rlimit(100)]
#[verifier::spinoff_prover]
proof fn lemma_sp_state_items_of(v: Seq<(Seq<char>, FileEntryV)>, rest: Seq<u8>)
    requires
        v.len() > 0,
    ensures
        sp_state_items(
            jstr(v[0].0) + lb(":"@) + jentry(v[0].1) + jstate_rest(v.skip(1)) + rest,
        ) == Some((v, rest)),
    decreases v.len(),
{
    reveal(sp_state_items);
    reveal(jstate_rest);
    reveal_strlit(":");
    reveal_strlit(",");
    reveal_strlit("}");
    assert(is_ascii_chars(":"@) && is_ascii_chars(","@) && is_ascii_chars("}"@));
    is_ascii_chars_encode_utf8(":"@);
    is_ascii_chars_encode_utf8(","@);
    is_ascii_chars_encode_utf8("}"@);
    let t = jstr(v[0].0) + lb(":"@) + jentry(v[0].1) + jstate_rest(v.skip(1)) + rest;
    let t2exp = lb(":"@) + jentry(v[0].1) + jstate_rest(v.skip(1)) + rest;
    let t3exp = jentry(v[0].1) + jstate_rest(v.skip(1)) + rest;
    let t4exp = jstate_rest(v.skip(1)) + rest;
    assert(sp_jstring(t) == Some((encode_utf8(v[0].0), t2exp)) && valid_utf8(encode_utf8(v[0].0))
        && decode_utf8(encode_utf8(v[0].0)) == v[0].0 && jstr(v[0].0).len() >= 2) by {
        assert(t =~= jstr(v[0].0) + t2exp);
        lemma_sp_jstring_of(v[0].0, t2exp);
    }
    assert(strip(t2exp, lb(":"@)) == Some(t3exp)) by {
        assert(t2exp =~= lb(":"@) + t3exp);
        lemma_strip_concat(lb(":"@), t3exp);
    }
    assert(sp_entry(t3exp) == Some((v[0].1, t4exp)) && jentry(v[0].1).len() >= 2) by {
        assert(t3exp =~= jentry(v[0].1) + t4exp);
        lemma_sp_entry_of(v[0].1, t4exp);
    }
    assert(lb(":"@).len() == 1);
    assert(t4exp.len() < t.len());
    if v.len() == 1 {
        assert(v.skip(1).len() == 0);
        assert(jstate_rest(v.skip(1)) == lb("}"@));
        assert(lb("}"@).len() == 1 && lb("}"@)[0] == 0x7D);
        assert(t4exp[0] == 0x7D);
        assert(t4exp.skip(1) =~= rest);
        assert(seq![(decode_utf8(encode_utf8(v[0].0)), v[0].1)] =~= v);
    } else {
        let w = v.skip(1);
        assert(jstate_rest(w) == lb(","@) + jstr(w[0].0) + lb(":"@) + jentry(w[0].1)
            + jstate_rest(w.skip(1)));
        assert(lb(","@).len() == 1 && lb(","@)[0] == 0x2C);
        assert(t4exp[0] == 0x2C);
        assert(sp_state_items(t4exp.skip(1)) == Some((w, rest))) by {
            lemma_sp_state_items_of(w, rest);
            assert(t4exp.skip(1) =~= jstr(w[0].0) + lb(":"@) + jentry(w[0].1) + jstate_rest(
                w.skip(1),
            ) + rest);
        }
        assert(seq![(decode_utf8(encode_utf8(v[0].0)), v[0].1)] + w =~= v);
    }
}

/// Parsing a serialized state finds the entries.
#[verifier::rlimit(100)]
#[verifier::spinoff_prover]
pub proof fn lemma_sp_state_of(v: Seq<(Seq<char>, FileEntryV)>, rest: Seq<u8>)
    ensures
        sp_state(jstate(v) + rest) == Some((v, rest)),
        jstate(v).len() >= 2,
{
    reveal(sp_state);
    reveal(jstate);
    reveal(jstate_rest);
    reveal_strlit("{}");
    reveal_strlit("{");
    reveal_strlit(":");
    assert(is_ascii_chars("{}"@) && is_ascii_chars("{"@) && is_ascii_chars(":"@));
    is_ascii_chars_encode_utf8("{}"@);
    is_ascii_chars_encode_utf8("{"@);
    is_ascii_chars_encode_utf8(":"@);
    let t = jstate(v) + rest;
    if v.len() == 0 {
        assert(jstate(v) == lb("{}"@));
        lemma_strip_concat(lb("{}"@), rest);
        assert(v =~= Seq::<(Seq<char>, FileEntryV)>::empty());
    } else {
        assert(jstate(v) == lb("{"@) + jstr(v[0].0) + lb(":"@) + jentry(v[0].1) + jstate_rest(
            v.skip(1),
        ));
        assert(lb("{"@).len() == 1 && lb("{"@)[0] == 0x7B);
        assert(lb("{}"@).len() == 2 && lb("{}"@)[1] == 0x7D);
        lemma_sp_jstring_of(v[0].0, Seq::<u8>::empty());
        assert(jstr(v[0].0)[0] == QUOTE);
        assert(t[1] == QUOTE);
        lemma_strip_ne(t, lb("{}"@), 1);
        let t1 = jstr(v[0].0) + lb(":"@) + jentry(v[0].1) + jstate_rest(v.skip(1)) + rest;
        assert(t =~= lb("{"@) + t1);
        lemma_strip_concat(lb("{"@), t1);
        lemma_sp_state_items_of(v, rest);
    }
}

/// Parsing a serialized leader message finds the message.
#[verifier::rlimit(100)]
#[verifier::spinoff_prover]
pub proof fn lemma_sp_server_of(m: ServerMessageV, rest: Seq<u8>)
    ensures
        sp_server(jserver(m) + rest) == Some((m, rest)),
{
    reveal_strlit("{\"ConnectionAck\":{\"peer_id\":");
    reveal_strlit("{\"PeerListUpdate\":{\"peers\":");
    reveal_strlit("{\"InitialSyncPushResponse\":{\"files_to_update\":");
    reveal_strlit("{\"FileUpdatePush\":{\"files_to_write\":");
    reveal_strlit(",\"leader_id\":");
    reveal_strlit(",\"files_to_delete\":");
    reveal_strlit(",\"files_to_send_back\":");
    reveal_strlit("}}");
    let pa = lb("{\"ConnectionAck\":{\"peer_id\":"@);
    let pb = lb("{\"PeerListUpdate\":{\"peers\":"@);
    let pc = lb("{\"InitialSyncPushResponse\":{\"files_to_update\":"@);
    let pd = lb("{\"FileUpdatePush\":{\"files_to_write\":"@);
    assert(is_ascii_chars("{\"ConnectionAck\":{\"peer_id\":"@)) ;
    assert(is_ascii_chars("{\"PeerListUpdate\":{\"peers\":"@));
    assert(is_ascii_chars("{\"InitialSyncPushResponse\":{\"files_to_update\":"@));
    assert(is_ascii_chars("{\"FileUpdatePush\":{\"files_to_write\":"@));
    assert(is_ascii_chars(",\"leader_id\":"@) && is_ascii_chars(",\"files_to_delete\":"@));
    assert(is_ascii_chars(",\"files_to_send_back\":"@) && is_ascii_chars("}}"@));
    is_ascii_chars_encode_utf8("{\"ConnectionAck\":{\"peer_id\":"@);
    is_ascii_chars_encode_utf8("{\"PeerListUpdate\":{\"peers\":"@);
    is_ascii_chars_encode_utf8("{\"InitialSyncPushResponse\":{\"files_to_update\":"@);
    is_ascii_chars_encode_utf8("{\"FileUpdatePush\":{\"files_to_write\":"@);
    is_ascii_chars_encode_utf8(",\"leader_id\":"@);
    is_ascii_chars_encode_utf8(",\"files_to_delete\":"@);
    is_ascii_chars_encode_utf8(",\"files_to_send_back\":"@);
    is_ascii_chars_encode_utf8("}}"@);
    let t = jserver(m) + rest;
    match m {
        ServerMessageV::ConnectionAck { peer_id, leader_id } => {
            let r1 = jstr(peer_id) + lb(",\"leader_id\":"@) + jstr(leader_id) + lb("}}"@) + rest;
            assert(strip(t, pa) == Some(r1)) by {
                assert(t =~= pa + r1);
                lemma_strip_concat(pa, r1);
            }
            let r2 = lb(",\"leader_id\":"@) + jstr(leader_id) + lb("}}"@) + rest;
            assert(sp_jstring(r1) == Some((encode_utf8(peer_id), r2)) && valid_utf8(encode_utf8(
                peer_id,
            )) && decode_utf8(encode_utf8(peer_id)) == peer_id) by {
                assert(r1 =~= jstr(peer_id) + r2);
                lemma_sp_jstring_of(peer_id, r2);
            }
            let r3 = jstr(leader_id) + lb("}}"@) + rest;
            assert(strip(r2, lb(",\"leader_id\":"@)) == Some(r3)) by {
                assert(r2 =~= lb(",\"leader_id\":"@) + r3);
                lemma_strip_concat(lb(",\"leader_id\":"@), r3);
            }
            let r4 = lb("}}"@) + rest;
            assert(sp_jstring(r3) == Some((encode_utf8(leader_id), r4)) && valid_utf8(encode_utf8(
                leader_id,
            )) && decode_utf8(encode_utf8(leader_id)) == leader_id) by {
                assert(r3 =~= jstr(leader_id) + r4);
                lemma_sp_jstring_of(leader_id, r4);
            }
            assert(strip(r4, lb("}}"@)) == Some(rest)) by {
                lemma_strip_concat(lb("}}"@), rest);
            }
        },
        ServerMessageV::PeerListUpdate { peers } => {
            let r1 = jstrlist(peers) + lb("}}"@) + rest;
            assert(strip(t, pa) is None) by {
                assert(t =~= pb + r1);
                assert(t[2] == pb[2] && pb[2] == 0x50 && pa[2] == 0x43);
                lemma_strip_ne(t, pa, 2);
            }
            assert(strip(t, pb) == Some(r1)) by {
                assert(t =~= pb + r1);
                lemma_strip_concat(pb, r1);
            }
            let r2 = lb("}}"@) + rest;
            assert(sp_strlist(r1) == Some((peers, r2))) by {
                assert(r1 =~= jstrlist(peers) + r2);
                lemma_sp_strlist_of(peers, r2);
            }
            assert(strip(r2, lb("}}"@)) == Some(rest)) by {
                lemma_strip_concat(lb("}}"@), rest);
            }
        },
        ServerMessageV::InitialSyncPushResponse { files_to_update, files_to_delete, files_to_send_back } => {
            let r1 = jmap(files_to_update) + lb(",\"files_to_delete\":"@) + jstrlist(
                files_to_delete,
            ) + lb(",\"files_to_send_back\":"@) + jstrlist(files_to_send_back) + lb("}}"@) + rest;
            assert(strip(t, pa) is None && strip(t, pb) is None) by {
                assert(t =~= pc + r1);
                assert(t[2] == pc[2] && pc[2] == 0x49 && pa[2] == 0x43 && pb[2] == 0x50);
                lemma_strip_ne(t, pa, 2);
                lemma_strip_ne(t, pb, 2);
            }
            assert(strip(t, pc) == Some(r1)) by {
                assert(t =~= pc + r1);
                lemma_strip_concat(pc, r1);
            }
            let r2 = lb(",\"files_to_delete\":"@) + jstrlist(files_to_delete) + lb(
                ",\"files_to_send_back\":"@,
            ) + jstrlist(files_to_send_back) + lb("}}"@) + rest;
            assert(sp_pairmap(r1) == Some((files_to_update, r2))) by {
                assert(r1 =~= jmap(files_to_update) + r2);
                lemma_sp_pairmap_of(files_to_update, r2);
            }
            let r3 = jstrlist(files_to_delete) + lb(",\"files_to_send_back\":"@) + jstrlist(
                files_to_send_back,
            ) + lb("}}"@) + rest;
            assert(strip(r2, lb(",\"files_to_delete\":"@)) == Some(r3)) by {
                assert(r2 =~= lb(",\"files_to_delete\":"@) + r3);
                lemma_strip_concat(lb(",\"files_to_delete\":"@), r3);
            }
            let r4 = lb(",\"files_to_send_back\":"@) + jstrlist(files_to_send_back) + lb("}}"@)
                + rest;
            assert(sp_strlist(r3) == Some((files_to_delete, r4))) by {
                assert(r3 =~= jstrlist(files_to_delete) + r4);
                lemma_sp_strlist_of(files_to_delete, r4);
            }
            let r5 = jstrlist(files_to_send_back) + lb("}}"@) + rest;
            assert(strip(r4, lb(",\"files_to_send_back\":"@)) == Some(r5)) by {
                assert(r4 =~= lb(",\"files_to_send_back\":"@) + r5);
                lemma_strip_concat(lb(",\"files_to_send_back\":"@), r5);
            }
            let r6 = lb("}}"@) + rest;
            assert(sp_strlist(r5) == Some((files_to_send_back, r6))) by {
                assert(r5 =~= jstrlist(files_to_send_back) + r6);
                lemma_sp_strlist_of(files_to_send_back, r6);
            }
            assert(strip(r6, lb("}}"@)) == Some(rest)) by {
                lemma_strip_concat(lb("}}"@), rest);
            }
        },
        ServerMessageV::FileUpdatePush { files_to_write, files_to_delete } => {
            let r1 = jmap(files_to_write) + lb(",\"files_to_delete\":"@) + jstrlist(
                files_to_delete,
            ) + lb("}}"@) + rest;
            assert(strip(t, pa) is None && strip(t, pb) is None && strip(t, pc) is None) by {
                assert(t =~= pd + r1);
                assert(t[2] == pd[2] && pd[2] == 0x46 && pa[2] == 0x43 && pb[2] == 0x50
                    && pc[2] == 0x49);
                lemma_strip_ne(t, pa, 2);
                lemma_strip_ne(t, pb, 2);
                lemma_strip_ne(t, pc, 2);
            }
            assert(strip(t, pd) == Some(r1)) by {
                assert(t =~= pd + r1);
                lemma_strip_concat(pd, r1);
            }
            let r2 = lb(",\"files_to_delete\":"@) + jstrlist(files_to_delete) + lb("}}"@) + rest;
            assert(sp_pairmap(r1) == Some((files_to_write, r2))) by {
                assert(r1 =~= jmap(files_to_write) + r2);
                lemma_sp_pairmap_of(files_to_write, r2);
            }
            let r3 = jstrlist(files_to_delete) + lb("}}"@) + rest;
            assert(strip(r2, lb(",\"files_to_delete\":"@)) == Some(r3)) by {
                assert(r2 =~= lb(",\"files_to_delete\":"@) + r3);
                lemma_strip_concat(lb(",\"files_to_delete\":"@), r3);
            }
            let r4 = lb("}}"@) + rest;
            assert(sp_strlist(r3) == Some((files_to_delete, r4))) by {
                assert(r3 =~= jstrlist(files_to_delete) + r4);
                lemma_sp_strlist_of(files_to_delete, r4);
            }
            assert(strip(r4, lb("}}"@)) == Some(rest)) by {
                lemma_strip_concat(lb("}}"@), rest);
            }
        },
    }
}

/// Parsing a serialized follower message finds the message.
#[verifier::rlimit(100)]
#[verifier::spinoff_prover]
pub proof fn lemma_sp_peer_of(m: PeerMessageV, rest: Seq<u8>)
    ensures
        sp_peer(jpeer(m) + rest) == Some((m, rest)),
{
    reveal_strlit("{\"InitialSyncPush\":{\"sync_state\":");
    reveal_strlit("{\"FileUpdatePush\":{\"files_to_write\":");
    reveal_strlit(",\"files_to_delete\":");
    reveal_strlit("}}");
    let pi = lb("{\"InitialSyncPush\":{\"sync_state\":"@);
    let pf = lb("{\"FileUpdatePush\":{\"files_to_write\":"@);
    assert(is_ascii_chars("{\"InitialSyncPush\":{\"sync_state\":"@));
    assert(is_ascii_chars("{\"FileUpdatePush\":{\"files_to_write\":"@));
    assert(is_ascii_chars(",\"files_to_delete\":"@) && is_ascii_chars("}}"@));
    is_ascii_chars_encode_utf8("{\"InitialSyncPush\":{\"sync_state\":"@);
    is_ascii_chars_encode_utf8("{\"FileUpdatePush\":{\"files_to_write\":"@);
    is_ascii_chars_encode_utf8(",\"files_to_delete\":"@);
    is_ascii_chars_encode_utf8("}}"@);
    let t = jpeer(m) + rest;
    match m {
        PeerMessageV::InitialSyncPush { sync_state } => {
            let r1 = jstate(sync_state) + lb("}}"@) + rest;
            assert(strip(t, pi) == Some(r1)) by {
                assert(t =~= pi + r1);
                lemma_strip_concat(pi, r1);
            }
            let r2 = lb("}}"@) + rest;
            assert(sp_state(r1) == Some((sync_state, r2))) by {
                assert(r1 =~= jstate(sync_state) + r2);
                lemma_sp_state_of(sync_state, r2);
            }
            assert(strip(r2, lb("}}"@)) == Some(rest)) by {
                lemma_strip_concat(lb("}}"@), rest);
            }
        },
        PeerMessageV::FileUpdatePush { files_to_write, files_to_delete } => {
            let r1 = jmap(files_to_write) + lb(",\"files_to_delete\":"@) + jstrlist(
                files_to_delete,
            ) + lb("}}"@) + rest;
            assert(strip(t, pi) is None) by {
                assert(t =~= pf + r1);
                assert(t[2] == pf[2] && pf[2] == 0x46 && pi[2] == 0x49);
                lemma_strip_ne(t, pi, 2);
            }
            assert(strip(t, pf) == Some(r1)) by {
                assert(t =~= pf + r1);
                lemma_strip_concat(pf, r1);
            }
            let r2 = lb(",\"files_to_delete\":"@) + jstrlist(files_to_delete) + lb("}}"@) + rest;
            assert(sp_pairmap(r1) == Some((files_to_write, r2))) by {
                assert(r1 =~= jmap(files_to_write) + r2);
                lemma_sp_pairmap_of(files_to_write, r2);
            }
            let r3 = jstrlist(files_to_delete) + lb("}}"@) + rest;
            assert(strip(r2, lb(",\"files_to_delete\":"@)) == Some(r3)) by {
                assert(r2 =~= lb(",\"files_to_delete\":"@) + r3);
                lemma_strip_concat(lb(",\"files_to_delete\":"@), r3);
            }
            let r4 = lb("}}"@) + rest;
            assert(sp_strlist(r3) == Some((files_to_delete, r4))) by {
                assert(r3 =~= jstrlist(files_to_delete) + r4);
                lemma_sp_strlist_of(files_to_delete, r4);
            }
            assert(strip(r4, lb("}}"@)) == Some(rest)) by {
                lemma_strip_concat(lb("}}"@), rest);
            }
        },
    }
}

// ----------------------- body validity -----------------------

/// A serialized JSON string is valid UTF-8.
pub proof fn lemma_jstr_valid(s: Seq<char>)
    ensures
        valid_utf8(jstr(s)),
{
    encode_utf8_valid_utf8(s);
    lemma_esc_bytes_valid(encode_utf8(s));
    lemma_ascii_bytes_valid(seq![QUOTE]);
    valid_utf8_concat(seq![QUOTE], esc_bytes(encode_utf8(s)));
    valid_utf8_concat(seq![QUOTE] + esc_bytes(encode_utf8(s)), seq![QUOTE]);
    assert(jstr(s) =~= (seq![QUOTE] + esc_bytes(encode_utf8(s))) + seq![QUOTE]);
}

/// Printed digits are valid UTF-8.
pub proof fn lemma_dec_of_valid(n: u64)
    ensures
        valid_utf8(dec_of(n)),
{
    lemma_dec_of_digits(n);
    lemma_ascii_bytes_valid(dec_of(n));
}

proof fn lemma_jstrlist_rest_valid(v: Seq<Seq<char>>)
    ensures
        valid_utf8(jstrlist_rest(v)),
    decreases v.len(),
{
    reveal(jstrlist_rest);
    if v.len() == 0 {
        encode_utf8_valid_utf8("]"@);
    } else {
        encode_utf8_valid_utf8(","@);
        lemma_jstr_valid(v[0]);
        lemma_jstrlist_rest_valid(v.skip(1));
        valid_utf8_concat(lb(","@), jstr(v[0]));
        valid_utf8_concat(lb(","@) + jstr(v[0]), jstrlist_rest(v.skip(1)));
    }
}

pub proof fn lemma_jstrlist_valid(v: Seq<Seq<char>>)
    ensures
        valid_utf8(jstrlist(v)),
{
    reveal(jstrlist);
    if v.len() == 0 {
        encode_utf8_valid_utf8("[]"@);
    } else {
        encode_utf8_valid_utf8("["@);
        lemma_jstr_valid(v[0]);
        lemma_jstrlist_rest_valid(v.skip(1));
        valid_utf8_concat(lb("["@), jstr(v[0]));
        valid_utf8_concat(lb("["@) + jstr(v[0]), jstrlist_rest(v.skip(1)));
    }
}

proof fn lemma_jmap_rest_valid(v: Seq<(Seq<char>, Seq<char>)>)
    ensures
        valid_utf8(jmap_rest(v)),
    decreases v.len(),
{
    reveal(jmap_rest);
    if v.len() == 0 {
        encode_utf8_valid_utf8("}"@);
    } else {
        encode_utf8_valid_utf8(","@);
        encode_utf8_valid_utf8(":"@);
        lemma_jstr_valid(v[0].0);
        lemma_jstr_valid(v[0].1);
        lemma_jmap_rest_valid(v.skip(1));
        valid_utf8_concat(lb(","@), jstr(v[0].0));
        valid_utf8_concat(lb(","@) + jstr(v[0].0), lb(":"@));
        valid_utf8_concat(lb(","@) + jstr(v[0].0) + lb(":"@), jstr(v[0].1));
        valid_utf8_concat(lb(","@) + jstr(v[0].0) + lb(":"@) + jstr(v[0].1), jmap_rest(v.skip(1)));
    }
}

pub proof fn lemma_jmap_valid(v: Seq<(Seq<char>, Seq<char>)>)
    ensures
        valid_utf8(jmap(v)),
{
    reveal(jmap);
    if v.len() == 0 {
        encode_utf8_valid_utf8("{}"@);
    } else {
        encode_utf8_valid_utf8("{"@);
        encode_utf8_valid_utf8(":"@);
        lemma_jstr_valid(v[0].0);
        lemma_jstr_valid(v[0].1);
        lemma_jmap_rest_valid(v.skip(1));
        valid_utf8_concat(lb("{"@), jstr(v[0].0));
        valid_utf8_concat(lb("{"@) + jstr(v[0].0), lb(":"@));
        valid_utf8_concat(lb("{"@) + jstr(v[0].0) + lb(":"@), jstr(v[0].1));
        valid_utf8_concat(lb("{"@) + jstr(v[0].0) + lb(":"@) + jstr(v[0].1), jmap_rest(v.skip(1)));
    }
}

pub proof fn lemma_jentry_valid(e: FileEntryV)
    ensures
        valid_utf8(jentry(e)),
{
    reveal(jentry);
    encode_utf8_valid_utf8("{\"hash\":"@);
    encode_utf8_valid_utf8("null"@);
    encode_utf8_valid_utf8(",\"is_deleted\":"@);
    encode_utf8_valid_utf8("true"@);
    encode_utf8_valid_utf8("false"@);
    encode_utf8_valid_utf8(",\"last_modified\":"@);
    encode_utf8_valid_utf8("}"@);
    let hp = match e.hash {
        Some(h) => jstr(h),
        None => lb("null"@),
    };
    let bp = if e.is_deleted {
        lb("true"@)
    } else {
        lb("false"@)
    };
    if e.hash is Some {
        lemma_jstr_valid(e.hash->0);
    }
    lemma_dec_of_valid(e.last_modified);
    valid_utf8_concat(lb("{\"hash\":"@), hp);
    valid_utf8_concat(lb("{\"hash\":"@) + hp, lb(",\"is_deleted\":"@));
    valid_utf8_concat(lb("{\"hash\":"@) + hp + lb(",\"is_deleted\":"@), bp);
    valid_utf8_concat(lb("{\"hash\":"@) + hp + lb(",\"is_deleted\":"@) + bp, lb(
        ",\"last_modified\":"@,
    ));
    valid_utf8_concat(lb("{\"hash\":"@) + hp + lb(",\"is_deleted\":"@) + bp + lb(
        ",\"last_modified\":"@,
    ), dec_of(e.last_modified));
    valid_utf8_concat(lb("{\"hash\":"@) + hp + lb(",\"is_deleted\":"@) + bp + lb(
        ",\"last_modified\":"@,
    ) + dec_of(e.last_modified), lb("}"@));
}

proof fn lemma_jstate_rest_valid(v: Seq<(Seq<char>, FileEntryV)>)
    ensures
        valid_utf8(jstate_rest(v)),
    decreases v.len(),
{
    reveal(jstate_rest);
    if v.len() == 0 {
        encode_utf8_valid_utf8("}"@);
    } else {
        encode_utf8_valid_utf8(","@);
        encode_utf8_valid_utf8(":"@);
        lemma_jstr_valid(v[0].0);
        lemma_jentry_valid(v[0].1);
        lemma_jstate_rest_valid(v.skip(1));
        valid_utf8_concat(lb(","@), jstr(v[0].0));
        valid_utf8_concat(lb(","@) + jstr(v[0].0), lb(":"@));
        valid_utf8_concat(lb(","@) + jstr(v[0].0) + lb(":"@), jentry(v[0].1));
        valid_utf8_concat(lb(","@) + jstr(v[0].0) + lb(":"@) + jentry(v[0].1), jstate_rest(
            v.skip(1),
        ));
    }
}

pub proof fn lemma_jstate_valid(v: Seq<(Seq<char>, FileEntryV)>)
    ensures
        valid_utf8(jstate(v)),
{
    reveal(jstate);
    if v.len() == 0 {
        encode_utf8_valid_utf8("{}"@);
    } else {
        encode_utf8_valid_utf8("{"@);
        encode_utf8_valid_utf8(":"@);
        lemma_jstr_valid(v[0].0);
        lemma_jentry_valid(v[0].1);
        lemma_jstate_rest_valid(v.skip(1));
        valid_utf8_concat(lb("{"@), jstr(v[0].0));
        valid_utf8_concat(lb("{"@) + jstr(v[0].0), lb(":"@));
        valid_utf8_concat(lb("{"@) + jstr(v[0].0) + lb(":"@), jentry(v[0].1));
        valid_utf8_concat(lb("{"@) + jstr(v[0].0) + lb(":"@) + jentry(v[0].1), jstate_rest(
            v.skip(1),
        ));
    }
}

/// The body of a serialized leader message is valid UTF-8.
#[verifier::rlimit(100)]
#[verifier::spinoff_prover]
pub proof fn lemma_jserver_valid(m: ServerMessageV)
    ensures
        valid_utf8(jserver(m)),
{
    encode_utf8_valid_utf8("{\"ConnectionAck\":{\"peer_id\":"@);
    encode_utf8_valid_utf8("{\"PeerListUpdate\":{\"peers\":"@);
    encode_utf8_valid_utf8("{\"InitialSyncPushResponse\":{\"files_to_update\":"@);
    encode_utf8_valid_utf8("{\"FileUpdatePush\":{\"files_to_write\":"@);
    encode_utf8_valid_utf8(",\"leader_id\":"@);
    encode_utf8_valid_utf8(",\"files_to_delete\":"@);
    encode_utf8_valid_utf8(",\"files_to_send_back\":"@);
    encode_utf8_valid_utf8("}}"@);
    match m {
        ServerMessageV::ConnectionAck { peer_id, leader_id } => {
            let a = lb("{\"ConnectionAck\":{\"peer_id\":"@);
            lemma_jstr_valid(peer_id);
            lemma_jstr_valid(leader_id);
            valid_utf8_concat(a, jstr(peer_id));
            valid_utf8_concat(a + jstr(peer_id), lb(",\"leader_id\":"@));
            valid_utf8_concat(a + jstr(peer_id) + lb(",\"leader_id\":"@), jstr(leader_id));
            valid_utf8_concat(a + jstr(peer_id) + lb(",\"leader_id\":"@) + jstr(leader_id), lb(
                "}}"@,
            ));
        },
        ServerMessageV::PeerListUpdate { peers } => {
            let a = lb("{\"PeerListUpdate\":{\"peers\":"@);
            lemma_jstrlist_valid(peers);
            valid_utf8_concat(a, jstrlist(peers));
            valid_utf8_concat(a + jstrlist(peers), lb("}}"@));
        },
        ServerMessageV::InitialSyncPushResponse { files_to_update, files_to_delete, files_to_send_back } => {
            let a = lb("{\"InitialSyncPushResponse\":{\"files_to_update\":"@);
            lemma_jmap_valid(files_to_update);
            lemma_jstrlist_valid(files_to_delete);
            lemma_jstrlist_valid(files_to_send_back);
            valid_utf8_concat(a, jmap(files_to_update));
            valid_utf8_concat(a + jmap(files_to_update), lb(",\"files_to_delete\":"@));
            valid_utf8_concat(a + jmap(files_to_update) + lb(",\"files_to_delete\":"@), jstrlist(
                files_to_delete,
            ));
            valid_utf8_concat(a + jmap(files_to_update) + lb(",\"files_to_delete\":"@) + jstrlist(
                files_to_delete,
            ), lb(",\"files_to_send_back\":"@));
            valid_utf8_concat(a + jmap(files_to_update) + lb(",\"files_to_delete\":"@) + jstrlist(
                files_to_delete,
            ) + lb(",\"files_to_send_back\":"@), jstrlist(files_to_send_back));
            valid_utf8_concat(a + jmap(files_to_update) + lb(",\"files_to_delete\":"@) + jstrlist(
                files_to_delete,
            ) + lb(",\"files_to_send_back\":"@) + jstrlist(files_to_send_back), lb("}}"@));
        },
        ServerMessageV::FileUpdatePush { files_to_write, files_to_delete } => {
            let a = lb("{\"FileUpdatePush\":{\"files_to_write\":"@);
            lemma_jmap_valid(files_to_write);
            lemma_jstrlist_valid(files_to_delete);
            valid_utf8_concat(a, jmap(files_to_write));
            valid_utf8_concat(a + jmap(files_to_write), lb(",\"files_to_delete\":"@));
            valid_utf8_concat(a + jmap(files_to_write) + lb(",\"files_to_delete\":"@), jstrlist(
                files_to_delete,
            ));
            valid_utf8_concat(a + jmap(files_to_write) + lb(",\"files_to_delete\":"@) + jstrlist(
                files_to_delete,
            ), lb("}}"@));
        },
    }
}

/// The body of a serialized follower message is valid UTF-8.
#[verifier::rlimit(100)]
#[verifier::spinoff_prover]
pub proof fn lemma_jpeer_valid(m: PeerMessageV)
    ensures
        valid_utf8(jpeer(m)),
{
    encode_utf8_valid_utf8("{\"InitialSyncPush\":{\"sync_state\":"@);
    encode_utf8_valid_utf8("{\"FileUpdatePush\":{\"files_to_write\":"@);
    encode_utf8_valid_utf8(",\"files_to_delete\":"@);
    encode_utf8_valid_utf8("}}"@);
    match m {
        PeerMessageV::InitialSyncPush { sync_state } => {
            let a = lb("{\"InitialSyncPush\":{\"sync_state\":"@);
            lemma_jstate_valid(sync_state);
            valid_utf8_concat(a, jstate(sync_state));
            valid_utf8_concat(a + jstate(sync_state), lb("}}"@));
        },
        PeerMessageV::FileUpdatePush { files_to_write, files_to_delete } => {
            let a = lb("{\"FileUpdatePush\":{\"files_to_write\":"@);
            lemma_jmap_valid(files_to_write);
            lemma_jstrlist_valid(files_to_delete);
            valid_utf8_concat(a, jmap(files_to_write));
            valid_utf8_concat(a + jmap(files_to_write), lb(",\"files_to_delete\":"@));
            valid_utf8_concat(a + jmap(files_to_write) + lb(",\"files_to_delete\":"@), jstrlist(
                files_to_delete,
            ));
            valid_utf8_concat(a + jmap(files_to_write) + lb(",\"files_to_delete\":"@) + jstrlist(
                files_to_delete,
            ), lb("}}"@));
        },
    }
}

// ----------------------- encoding -----------------------

fn emit_strlist(out: &mut Vec<u8>, v: &Vec<String>)
    ensures
        final(out)@ == old(out)@ + jstrlist(strs_view(v@)),
{
    let ghost out0 = out@;
    let ghost vv = strs_view(v@);
    if v.len() == 0 {
        emit_lit(out, "[]");
        proof {
            reveal(jstrlist);
            assert(out@ =~= out0 + jstrlist(vv));
        }
        return;
    }
    emit_lit(out, "[");
    emit_json_string(out, v[0].as_str());
    let ghost mut d = lb("["@) + jstr(vv[0]);
    proof {
        reveal(jstrlist);
        assert(out@ =~= out0 + d);
        assert(jstrlist(vv) == d + jstrlist_rest(vv.skip(1)));
    }
    let mut j: usize = 1;
    while j < v.len()
        invariant
            1 <= j <= v@.len(),
            vv == strs_view(v@),
            vv.len() == v@.len(),
            out@ == out0 + d,
            jstrlist(vv) == d + jstrlist_rest(vv.skip(j as int)),
        decreases v@.len() - j,
    {
        emit_lit(out, ",");
        emit_json_string(out, v[j].as_str());
        proof {
            reveal(jstrlist_rest);
            assert(vv.skip(j as int)[0] == vv[j as int]);
            assert(vv.skip(j as int).skip(1) =~= vv.skip(j + 1));
            assert(jstrlist_rest(vv.skip(j as int)) == lb(","@) + jstr(vv[j as int])
                + jstrlist_rest(vv.skip(j + 1)));
            d = d + lb(","@) + jstr(vv[j as int]);
            assert(out@ =~= out0 + d);
            assert(jstrlist(vv) == d + jstrlist_rest(vv.skip(j + 1))) by {
                assert((d + jstrlist_rest(vv.skip(j + 1))) =~= (d.subrange(
                    0,
                    d.len() - (lb(","@) + jstr(vv[j as int])).len(),
                ) + (lb(","@) + jstr(vv[j as int]) + jstrlist_rest(vv.skip(j + 1)))));
            }
        }
        j = j + 1;
    }
    emit_lit(out, "]");
    proof {
        reveal(jstrlist_rest);
        assert(vv.skip(vv.len() as int).len() == 0);
        assert(jstrlist_rest(vv.skip(vv.len() as int)) == lb("]"@));
        assert(out@ =~= out0 + jstrlist(vv));
    }
}

fn emit_pairmap(out: &mut Vec<u8>, v: &Vec<(String, String)>)
    ensures
        final(out)@ == old(out)@ + jmap(pairs_view(v@)),
{
    let ghost out0 = out@;
    let ghost vv = pairs_view(v@);
    if v.len() == 0 {
        emit_lit(out, "{}");
        proof {
            reveal(jmap);
            assert(out@ =~= out0 + jmap(vv));
        }
        return;
    }
    emit_lit(out, "{");
    emit_json_string(out, v[0].0.as_str());
    emit_lit(out, ":");
    emit_json_string(out, v[0].1.as_str());
    let ghost mut d = lb("{"@) + jstr(vv[0].0) + lb(":"@) + jstr(vv[0].1);
    proof {
        reveal(jmap);
        assert(out@ =~= out0 + d);
        assert(jmap(vv) == d + jmap_rest(vv.skip(1)));
    }
    let mut j: usize = 1;
    while j < v.len()
        invariant
            1 <= j <= v@.len(),
            vv == pairs_view(v@),
            vv.len() == v@.len(),
            out@ == out0 + d,
            jmap(vv) == d + jmap_rest(vv.skip(j as int)),
        decreases v@.len() - j,
    {
        emit_lit(out, ",");
        emit_json_string(out, v[j].0.as_str());
        emit_lit(out, ":");
        emit_json_string(out, v[j].1.as_str());
        proof {
            reveal(jmap_rest);
            let piece = lb(","@) + jstr(vv[j as int].0) + lb(":"@) + jstr(vv[j as int].1);
            assert(vv.skip(j as int)[0] == vv[j as int]);
            assert(vv.skip(j as int).skip(1) =~= vv.skip(j + 1));
            assert(jmap_rest(vv.skip(j as int)) == piece + jmap_rest(vv.skip(j + 1))) by {
                assert(jmap_rest(vv.skip(j as int)) == lb(","@) + jstr(vv.skip(j as int)[0].0)
                    + lb(":"@) + jstr(vv.skip(j as int)[0].1) + jmap_rest(vv.skip(j as int).skip(1)));
                assert(lb(","@) + jstr(vv[j as int].0) + lb(":"@) + jstr(vv[j as int].1)
                    + jmap_rest(vv.skip(j + 1)) =~= piece + jmap_rest(vv.skip(j + 1)));
            }
            let ghost dold = d;
            d = d + piece;
            assert(out@ =~= out0 + d);
            assert(jmap(vv) == d + jmap_rest(vv.skip(j + 1))) by {
                assert(jmap(vv) == dold + (piece + jmap_rest(vv.skip(j + 1))));
                assert(dold + (piece + jmap_rest(vv.skip(j + 1))) =~= (dold + piece) + jmap_rest(
                    vv.skip(j + 1),
                ));
            }
        }
        j = j + 1;
    }
    emit_lit(out, "}");
    proof {
        reveal(jmap_rest);
        assert(vv.skip(vv.len() as int).len() == 0);
        assert(jmap_rest(vv.skip(vv.len() as int)) == lb("}"@));
        assert(out@ =~= out0 + jmap(vv));
    }
}

fn emit_entry(out: &mut Vec<u8>, e: &FileEntry)
    ensures
        final(out)@ == old(out)@ + jentry(e@),
{
    emit_lit(out, "{\"hash\":");
    match &e.hash {
        Some(h) => emit_json_string(out, h.as_str()),
        None => emit_lit(out, "null"),
    }
    emit_lit(out, ",\"is_deleted\":");
    if e.is_deleted {
        emit_lit(out, "true");
    } else {
        emit_lit(out, "false");
    }
    emit_lit(out, ",\"last_modified\":");
    emit_u64(out, e.last_modified);
    emit_lit(out, "}");
    proof {
        reveal(jentry);
        assert(out@ =~= old(out)@ + jentry(e@));
    }
}

fn emit_state(out: &mut Vec<u8>, st: &SyncState)
    ensures
        final(out)@ == old(out)@ + jstate(st@),
{
    let ghost out0 = out@;
    let ghost vv = st@;
    if st.entries.len() == 0 {
        emit_lit(out, "{}");
        proof {
            reveal(jstate);
            assert(out@ =~= out0 + jstate(vv));
        }
        return;
    }
    emit_lit(out, "{");
    emit_json_string(out, st.entries[0].0.as_str());
    emit_lit(out, ":");
    emit_entry(out, &st.entries[0].1);
    let ghost mut d = lb("{"@) + jstr(vv[0].0) + lb(":"@) + jentry(vv[0].1);
    proof {
        reveal(jstate);
        assert(vv[0].0 == st.entries@[0].0@ && vv[0].1 == st.entries@[0].1@);
        assert(out@ =~= out0 + d);
        assert(jstate(vv) == d + jstate_rest(vv.skip(1)));
    }
    let mut j: usize = 1;
    while j < st.entries.len()
        invariant
            1 <= j <= vv.len(),
            vv == st@,
            vv.len() == st.entries@.len(),
            out@ == out0 + d,
            jstate(vv) == d + jstate_rest(vv.skip(j as int)),
        decreases vv.len() - j,
    {
        emit_lit(out, ",");
        emit_json_string(out, st.entries[j].0.as_str());
        emit_lit(out, ":");
        emit_entry(out, &st.entries[j].1);
        proof {
            reveal(jstate_rest);
            assert(vv[j as int].0 == st.entries@[j as int].0@ && vv[j as int].1 == st.entries@[
                j as int].1@);
            let piece = lb(","@) + jstr(vv[j as int].0) + lb(":"@) + jentry(vv[j as int].1);
            assert(vv.skip(j as int)[0] == vv[j as int]);
            assert(vv.skip(j as int).skip(1) =~= vv.skip(j + 1));
            assert(jstate_rest(vv.skip(j as int)) == piece + jstate_rest(vv.skip(j + 1))) by {
                assert(jstate_rest(vv.skip(j as int)) == lb(","@) + jstr(vv.skip(j as int)[0].0)
                    + lb(":"@) + jentry(vv.skip(j as int)[0].1) + jstate_rest(
                    vv.skip(j as int).skip(1),
                ));
                assert(lb(","@) + jstr(vv[j as int].0) + lb(":"@) + jentry(vv[j as int].1)
                    + jstate_rest(vv.skip(j + 1)) =~= piece + jstate_rest(vv.skip(j + 1)));
            }
            let ghost dold = d;
            d = d + piece;
            assert(out@ =~= out0 + d);
            assert(jstate(vv) == d + jstate_rest(vv.skip(j + 1))) by {
                assert(jstate(vv) == dold + (piece + jstate_rest(vv.skip(j + 1))));
                assert(dold + (piece + jstate_rest(vv.skip(j + 1))) =~= (dold + piece)
                    + jstate_rest(vv.skip(j + 1)));
            }
        }
        j = j + 1;
    }
    emit_lit(out, "}");
    proof {
        reveal(jstate_rest);
        assert(vv.skip(vv.len() as int).len() == 0);
        assert(jstate_rest(vv.skip(vv.len() as int)) == lb("}"@));
        assert(out@ =~= out0 + jstate(vv));
    }
}

fn encode_server_body(m: &ServerMessage) -> (r: Vec<u8>)
    ensures
        r@ == jserver(m@),
{
    let mut out: Vec<u8> = Vec::new();
    match m {
        ServerMessage::ConnectionAck { peer_id, leader_id } => {
            emit_lit(&mut out, "{\"ConnectionAck\":{\"peer_id\":");
            emit_json_string(&mut out, peer_id.as_str());
            emit_lit(&mut out, ",\"leader_id\":");
            emit_json_string(&mut out, leader_id.as_str());
            emit_lit(&mut out, "}}");
            proof {
                assert(out@ =~= jserver(m@));
            }
        },
        ServerMessage::PeerListUpdate { peers } => {
            emit_lit(&mut out, "{\"PeerListUpdate\":{\"peers\":");
            emit_strlist(&mut out, peers);
            emit_lit(&mut out, "}}");
            proof {
                assert(out@ =~= jserver(m@));
            }
        },
        ServerMessage::InitialSyncPushResponse {
            files_to_update,
            files_to_delete,
            files_to_send_back,
        } => {
            emit_lit(&mut out, "{\"InitialSyncPushResponse\":{\"files_to_update\":");
            emit_pairmap(&mut out, files_to_update);
            emit_lit(&mut out, ",\"files_to_delete\":");
            emit_strlist(&mut out, files_to_delete);
            emit_lit(&mut out, ",\"files_to_send_back\":");
            emit_strlist(&mut out, files_to_send_back);
            emit_lit(&mut out, "}}");
            proof {
                assert(out@ =~= jserver(m@));
            }
        },
        ServerMessage::FileUpdatePush { files_to_write, files_to_delete } => {
            emit_lit(&mut out, "{\"FileUpdatePush\":{\"files_to_write\":");
            emit_pairmap(&mut out, files_to_write);
            emit_lit(&mut out, ",\"files_to_delete\":");
            emit_strlist(&mut out, files_to_delete);
            emit_lit(&mut out, "}}");
            proof {
                assert(out@ =~= jserver(m@));
            }
        },
    }
    out
}

fn encode_peer_body(m: &PeerMessage) -> (r: Vec<u8>)
    ensures
        r@ == jpeer(m@),
{
    let mut out: Vec<u8> = Vec::new();
    match m {
        PeerMessage::InitialSyncPush { sync_state } => {
            emit_lit(&mut out, "{\"InitialSyncPush\":{\"sync_state\":");
            emit_state(&mut out, sync_state);
            emit_lit(&mut out, "}}");
            proof {
                assert(out@ =~= jpeer(m@));
            }
        },
        PeerMessage::FileUpdatePush { files_to_write, files_to_delete } => {
            emit_lit(&mut out, "{\"FileUpdatePush\":{\"files_to_write\":");
            emit_pairmap(&mut out, files_to_write);
            emit_lit(&mut out, ",\"files_to_delete\":");
            emit_strlist(&mut out, files_to_delete);
            emit_lit(&mut out, "}}");
            proof {
                assert(out@ =~= jpeer(m@));
            }
        },
    }
    out
}

/// Wrap a finished body in its length-prefixed frame.
fn build_frame(body: Vec<u8>) -> (r: Option<Vec<u8>>)
    ensures
        r is Some <==> body@.len() <= u32::MAX,
        r is Some ==> r->0@ == frame(body@),
{
    let ghost bodyv = body@;
    if body.len() > 0xFFFFFFFFusize {
        return None;
    }
    let n: u32 = body.len() as u32;
    let mut out: Vec<u8> = Vec::new();
    out.push((n / 0x1000000) as u8);
    out.push(((n / 0x10000) % 0x100) as u8);
    out.push(((n / 0x100) % 0x100) as u8);
    out.push((n % 0x100) as u8);
    proof {
        assert(out@ =~= be32(n));
    }
    let mut body = body;
    out.append(&mut body);
    proof {
        assert(out@ =~= frame(bodyv));
    }
    Some(out)
}

/// Encode a leader message as one wire frame. Only a body longer than the
/// length prefix can express is refused.
pub fn encode_server_message(m: &ServerMessage) -> (r: Option<Vec<u8>>)
    ensures
        r is Some <==> jserver(m@).len() <= u32::MAX,
        r is Some ==> r->0@ == frame(jserver(m@)),
{
    let body = encode_server_body(m);
    build_frame(body)
}

/// Encode a follower message as one wire frame.
pub fn encode_peer_message(m: &PeerMessage) -> (r: Option<Vec<u8>>)
    ensures
        r is Some <==> jpeer(m@).len() <= u32::MAX,
        r is Some ==> r->0@ == frame(jpeer(m@)),
{
    let body = encode_peer_body(m);
    build_frame(body)
}

// ----------------------- decoding -----------------------

fn parse_strlist(buf: &Vec<u8>, pos: usize) -> (r: Result<(Vec<String>, usize), DecodeError>)
    requires
        pos <= buf@.len(),
    ensures
        ({
            let t = buf@.skip(pos as int);
            match r {
                Ok((v, np)) => {
                    &&& pos <= np <= buf@.len()
                    &&& sp_strlist(t) == Some((strs_view(v@), buf@.skip(np as int)))
                },
                Err(_) => sp_strlist(t) is None,
            }
        }),
{
    let ghost t = buf@.skip(pos as int);
    match expect_lit(buf, pos, "[]") {
        Ok(np) => {
            let v: Vec<String> = Vec::new();
            proof {
                reveal(sp_strlist);
                assert(strs_view(v@) =~= Seq::<Seq<char>>::empty());
            }
            return Ok((v, np));
        },
        Err(_) => {
        },
    }
    let p1 = match expect_lit(buf, pos, "[") {
        Ok(p) => p,
        Err(e) => {
            proof {
                reveal(sp_strlist);
            }
            return Err(e);
        },
    };
    let ghost tstart = buf@.skip(p1 as int);
    proof {
        reveal(sp_strlist);
        assert(sp_strlist(t) == sp_strlist_items(tstart));
    }
    let mut acc: Vec<String> = Vec::new();
    let mut i: usize = p1;
    loop
        invariant
            pos <= p1 <= i <= buf@.len(),
            t == buf@.skip(pos as int),
            tstart == buf@.skip(p1 as int),
            sp_strlist(t) == sp_strlist_items(tstart),
            sp_strlist_items(tstart) == match sp_strlist_items(buf@.skip(i as int)) {
                Some((items, rest)) => Some((strs_view(acc@) + items, rest)),
                None => None::<(Seq<Seq<char>>, Seq<u8>)>,
            },
        decreases buf@.len() - i,
    {
        let ghost cur = buf@.skip(i as int);
        match parse_string(buf, i) {
            Err(_) => {
                proof {
                    reveal(sp_strlist_items);
                }
                return Err(DecodeError::Malformed);
            },
            Ok((s, np)) => {
                proof {
                    reveal(sp_strlist_items);
                    assert(buf@.skip(np as int).len() < cur.len());
                }
                if np >= buf.len() {
                    proof {
                        assert(buf@.skip(np as int).len() == 0);
                    }
                    return Err(DecodeError::Malformed);
                }
                let b = buf[np];
                proof {
                    assert(buf@.skip(np as int)[0] == b);
                }
                if b == 0x2C {
                    let ghost acc0 = strs_view(acc@);
                    acc.push(s);
                    proof {
                        assert(strs_view(acc@) =~= acc0.push(s@));
                        assert(buf@.skip(np as int).skip(1) =~= buf@.skip(np + 1));
                        let ghost spn = sp_strlist_items(buf@.skip(np + 1));
                        if spn is Some {
                            let (items, rest) = spn->0;
                            assert(acc0 + (seq![s@] + items) =~= acc0.push(s@) + items);
                        }
                    }
                    i = np + 1;
                } else if b == 0x5D {
                    let ghost acc0 = strs_view(acc@);
                    acc.push(s);
                    proof {
                        assert(strs_view(acc@) =~= acc0.push(s@));
                        assert(buf@.skip(np as int).skip(1) =~= buf@.skip(np + 1));
                        assert(acc0 + seq![s@] =~= acc0.push(s@));
                    }
                    return Ok((acc, np + 1));
                } else {
                    return Err(DecodeError::Malformed);
                }
            },
        }
    }
}

fn parse_pairmap(buf: &Vec<u8>, pos: usize) -> (r: Result<(Vec<(String, String)>, usize), DecodeError>)
    requires
        pos <= buf@.len(),
    ensures
        ({
            let t = buf@.skip(pos as int);
            match r {
                Ok((v, np)) => {
                    &&& pos <= np <= buf@.len()
                    &&& sp_pairmap(t) == Some((pairs_view(v@), buf@.skip(np as int)))
                },
                Err(_) => sp_pairmap(t) is None,
            }
        }),
{
    let ghost t = buf@.skip(pos as int);
    match expect_lit(buf, pos, "{}") {
        Ok(np) => {
            let v: Vec<(String, String)> = Vec::new();
            proof {
                reveal(sp_pairmap);
                assert(pairs_view(v@) =~= Seq::<(Seq<char>, Seq<char>)>::empty());
            }
            return Ok((v, np));
        },
        Err(_) => {
        },
    }
    let p1 = match expect_lit(buf, pos, "{") {
        Ok(p) => p,
        Err(e) => {
            proof {
                reveal(sp_pairmap);
            }
            return Err(e);
        },
    };
    let ghost tstart = buf@.skip(p1 as int);
    proof {
        reveal(sp_pairmap);
        assert(sp_pairmap(t) == sp_pairmap_items(tstart));
    }
    let mut acc: Vec<(String, String)> = Vec::new();
    let mut i: usize = p1;
    loop
        invariant
            pos <= p1 <= i <= buf@.len(),
            t == buf@.skip(pos as int),
            tstart == buf@.skip(p1 as int),
            sp_pairmap(t) == sp_pairmap_items(tstart),
            sp_pairmap_items(tstart) == match sp_pairmap_items(buf@.skip(i as int)) {
                Some((items, rest)) => Some((pairs_view(acc@) + items, rest)),
                None => None::<(Seq<(Seq<char>, Seq<char>)>, Seq<u8>)>,
            },
        decreases buf@.len() - i,
    {
        let ghost cur = buf@.skip(i as int);
        let (k, p2) = match parse_string(buf, i) {
            Err(_) => {
                proof {
                    reveal(sp_pairmap_items);
                }
                return Err(DecodeError::Malformed);
            },
            Ok(kv) => kv,
        };
        let p3 = match expect_lit(buf, p2, ":") {
            Err(e) => {
                proof {
                    reveal(sp_pairmap_items);
                }
                return Err(e);
            },
            Ok(p) => p,
        };
        let (w, np) = match parse_string(buf, p3) {
            Err(_) => {
                proof {
                    reveal(sp_pairmap_items);
                }
                return Err(DecodeError::Malformed);
            },
            Ok(wv) => wv,
        };
        proof {
            reveal(sp_pairmap_items);
            assert(buf@.skip(np as int).len() < cur.len());
        }
        if np >= buf.len() {
            proof {
                assert(buf@.skip(np as int).len() == 0);
            }
            return Err(DecodeError::Malformed);
        }
        let b = buf[np];
        proof {
            assert(buf@.skip(np as int)[0] == b);
        }
        if b == 0x2C {
            let ghost acc0 = pairs_view(acc@);
            acc.push((k, w));
            proof {
                assert(pairs_view(acc@) =~= acc0.push((k@, w@)));
                assert(buf@.skip(np as int).skip(1) =~= buf@.skip(np + 1));
                let ghost spn = sp_pairmap_items(buf@.skip(np + 1));
                if spn is Some {
                    let (items, rest) = spn->0;
                    assert(acc0 + (seq![(k@, w@)] + items) =~= acc0.push((k@, w@)) + items);
                }
            }
            i = np + 1;
        } else if b == 0x7D {
            let ghost acc0 = pairs_view(acc@);
            acc.push((k, w));
            proof {
                assert(pairs_view(acc@) =~= acc0.push((k@, w@)));
                assert(buf@.skip(np as int).skip(1) =~= buf@.skip(np + 1));
                assert(acc0 + seq![(k@, w@)] =~= acc0.push((k@, w@)));
            }
            return Ok((acc, np + 1));
        } else {
            return Err(DecodeError::Malformed);
        }
    }
}

#[verifier::rlimit(100)]
#[verifier::spinoff_prover]
fn parse_entry(buf: &Vec<u8>, pos: usize) -> (r: Result<(FileEntry, usize), DecodeError>)
    requires
        pos <= buf@.len(),
    ensures
        ({
            let t = buf@.skip(pos as int);
            match r {
                Ok((e, np)) => {
                    &&& pos <= np <= buf@.len()
                    &&& sp_entry(t) == Some((e@, buf@.skip(np as int)))
                },
                Err(_) => sp_entry(t) is None,
            }
        }),
{
    proof {
        reveal(sp_entry);
        reveal_strlit("null");
        reveal_strlit("true");
        reveal_strlit("false");
        assert(is_ascii_chars("null"@) && is_ascii_chars("true"@) && is_ascii_chars("false"@));
        is_ascii_chars_encode_utf8("null"@);
        is_ascii_chars_encode_utf8("true"@);
        is_ascii_chars_encode_utf8("false"@);
    }
    let ghost t = buf@.skip(pos as int);
    let p1 = match expect_lit(buf, pos, "{\"hash\":") {
        Ok(p) => p,
        Err(e) => {
            return Err(e);
        },
    };
    let ghost t1 = buf@.skip(p1 as int);
    let (hash, p2) = if p1 < buf.len() && buf[p1] == 0x6E {
        proof {
            assert(t1[0] == 0x6E);
        }
        match expect_lit(buf, p1, "null") {
            Ok(p) => (None, p),
            Err(e) => {
                proof {
                    assert(sp_jstring(t1) is None);
                }
                return Err(e);
            },
        }
    } else {
        proof {
            if p1 < buf@.len() {
                assert(t1[0] != 0x6E && lb("null"@)[0] == 0x6E);
                if lb("null"@).len() <= t1.len() {
                    assert(t1.take(lb("null"@).len() as int)[0] == t1[0]);
                    assert(t1.take(lb("null"@).len() as int) != lb("null"@));
                }
            }
            assert(strip(t1, lb("null"@)) is None);
        }
        match parse_string(buf, p1) {
            Ok((s, p)) => (Some(s), p),
            Err(e) => {
                return Err(e);
            },
        }
    };
    let p3 = match expect_lit(buf, p2, ",\"is_deleted\":") {
        Ok(p) => p,
        Err(e) => {
            return Err(e);
        },
    };
    let ghost t3 = buf@.skip(p3 as int);
    let (is_deleted, p4) = if p3 < buf.len() && buf[p3] == 0x74 {
        match expect_lit(buf, p3, "true") {
            Ok(p) => (true, p),
            Err(e) => {
                proof {
                    assert(t3[0] == 0x74 && lb("false"@)[0] == 0x66);
                    if lb("false"@).len() <= t3.len() {
                        assert(t3.take(lb("false"@).len() as int)[0] == t3[0]);
                        assert(t3.take(lb("false"@).len() as int) != lb("false"@));
                    }
                    assert(strip(t3, lb("false"@)) is None);
                }
                return Err(e);
            },
        }
    } else {
        proof {
            if p3 < buf@.len() {
                assert(t3[0] != 0x74 && lb("true"@)[0] == 0x74);
                if lb("true"@).len() <= t3.len() {
                    assert(t3.take(lb("true"@).len() as int)[0] == t3[0]);
                    assert(t3.take(lb("true"@).len() as int) != lb("true"@));
                }
            }
            assert(strip(t3, lb("true"@)) is None);
        }
        match expect_lit(buf, p3, "false") {
            Ok(p) => (false, p),
            Err(e) => {
                return Err(e);
            },
        }
    };
    let p5 = match expect_lit(buf, p4, ",\"last_modified\":") {
        Ok(p) => p,
        Err(e) => {
            return Err(e);
        },
    };
    let (lm, p6) = match parse_u64(buf, p5) {
        Ok(v) => v,
        Err(e) => {
            return Err(e);
        },
    };
    let p7 = match expect_lit(buf, p6, "}") {
        Ok(p) => p,
        Err(e) => {
            return Err(e);
        },
    };
    let e = FileEntry { hash, is_deleted, last_modified: lm };
    Ok((e, p7))
}

fn parse_state(buf: &Vec<u8>, pos: usize) -> (r: Result<(SyncState, usize), DecodeError>)
    requires
        pos <= buf@.len(),
    ensures
        ({
            let t = buf@.skip(pos as int);
            match r {
                Ok((st, np)) => {
                    &&& pos <= np <= buf@.len()
                    &&& sp_state(t) == Some((st@, buf@.skip(np as int)))
                },
                Err(_) => sp_state(t) is None,
            }
        }),
{
    let ghost t = buf@.skip(pos as int);
    match expect_lit(buf, pos, "{}") {
        Ok(np) => {
            let st = SyncState { entries: Vec::new() };
            proof {
                reveal(sp_state);
                assert(st@ =~= Seq::<(Seq<char>, FileEntryV)>::empty());
            }
            return Ok((st, np));
        },
        Err(_) => {
        },
    }
    let p1 = match expect_lit(buf, pos, "{") {
        Ok(p) => p,
        Err(e) => {
            proof {
                reveal(sp_state);
            }
            return Err(e);
        },
    };
    let ghost tstart = buf@.skip(p1 as int);
    proof {
        reveal(sp_state);
        assert(sp_state(t) == sp_state_items(tstart));
    }
    let mut acc: Vec<(String, FileEntry)> = Vec::new();
    let mut i: usize = p1;
    loop
        invariant
            pos <= p1 <= i <= buf@.len(),
            t == buf@.skip(pos as int),
            tstart == buf@.skip(p1 as int),
            sp_state(t) == sp_state_items(tstart),
            sp_state_items(tstart) == match sp_state_items(buf@.skip(i as int)) {
                Some((items, rest)) => Some(
                    (
                        acc@.map(|q: int, pe: (String, FileEntry)| (pe.0@, pe.1@)) + items,
                        rest,
                    ),
                ),
                None => None::<(Seq<(Seq<char>, FileEntryV)>, Seq<u8>)>,
            },
        decreases buf@.len() - i,
    {
        let ghost cur = buf@.skip(i as int);
        let (k, p2) = match parse_string(buf, i) {
            Err(_) => {
                proof {
                    reveal(sp_state_items);
                }
                return Err(DecodeError::Malformed);
            },
            Ok(kv) => kv,
        };
        let p3 = match expect_lit(buf, p2, ":") {
            Err(e) => {
                proof {
                    reveal(sp_state_items);
                }
                return Err(e);
            },
            Ok(p) => p,
        };
        let (entry, np) = match parse_entry(buf, p3) {
            Err(e) => {
                proof {
                    reveal(sp_state_items);
                }
                return Err(e);
            },
            Ok(ev) => ev,
        };
        proof {
            reveal(sp_state_items);
            assert(buf@.skip(np as int).len() < cur.len());
        }
        if np >= buf.len() {
            proof {
                assert(buf@.skip(np as int).len() == 0);
            }
            return Err(DecodeError::Malformed);
        }
        let b = buf[np];
        proof {
            assert(buf@.skip(np as int)[0] == b);
        }
        if b == 0x2C {
            let ghost acc0 = acc@.map(|q: int, pe: (String, FileEntry)| (pe.0@, pe.1@));
            let ghost ev = entry@;
            acc.push((k, entry));
            proof {
                assert(acc@.map(|q: int, pe: (String, FileEntry)| (pe.0@, pe.1@)) =~= acc0.push(
                    (k@, ev),
                ));
                assert(buf@.skip(np as int).skip(1) =~= buf@.skip(np + 1));
                let ghost spn = sp_state_items(buf@.skip(np + 1));
                if spn is Some {
                    let (items, rest) = spn->0;
                    assert(acc0 + (seq![(k@, ev)] + items) =~= acc0.push((k@, ev)) + items);
                }
            }
            i = np + 1;
        } else if b == 0x7D {
            let ghost acc0 = acc@.map(|q: int, pe: (String, FileEntry)| (pe.0@, pe.1@));
            let ghost ev = entry@;
            acc.push((k, entry));
            let st = SyncState { entries: acc };
            proof {
                assert(st@ =~= acc0.push((k@, ev)));
                assert(buf@.skip(np as int).skip(1) =~= buf@.skip(np + 1));
                assert(acc0 + seq![(k@, ev)] =~= acc0.push((k@, ev)));
            }
            return Ok((st, np + 1));
        } else {
            return Err(DecodeError::Malformed);
        }
    }
}

#[verifier::rlimit(100)]
#[verifier::spinoff_prover]
fn parse_server(buf: &Vec<u8>, pos: usize) -> (r: Result<(ServerMessage, usize), DecodeError>)
    requires
        pos <= buf@.len(),
    ensures
        ({
            let t = buf@.skip(pos as int);
            match r {
                Ok((m, np)) => {
                    &&& pos <= np <= buf@.len()
                    &&& sp_server(t) == Some((m@, buf@.skip(np as int)))
                },
                Err(_) => sp_server(t) is None,
            }
        }),
{
    let ghost t = buf@.skip(pos as int);
    match expect_lit(buf, pos, "{\"ConnectionAck\":{\"peer_id\":") {
        Ok(p1) => {
            let (peer_id, p2) = match parse_string(buf, p1) {
                Ok(v) => v,
                Err(_) => {
                    return Err(DecodeError::Malformed);
                },
            };
            let p3 = match expect_lit(buf, p2, ",\"leader_id\":") {
                Ok(p) => p,
                Err(e) => {
                    return Err(e);
                },
            };
            let (leader_id, p4) = match parse_string(buf, p3) {
                Ok(v) => v,
                Err(_) => {
                    return Err(DecodeError::Malformed);
                },
            };
            let p5 = match expect_lit(buf, p4, "}}") {
                Ok(p) => p,
                Err(e) => {
                    return Err(e);
                },
            };
            return Ok((ServerMessage::ConnectionAck { peer_id, leader_id }, p5));
        },
        Err(_) => {
        },
    }
    match expect_lit(buf, pos, "{\"PeerListUpdate\":{\"peers\":") {
        Ok(p1) => {
            let (peers, p2) = match parse_strlist(buf, p1) {
                Ok(v) => v,
                Err(e) => {
                    return Err(e);
                },
            };
            let p3 = match expect_lit(buf, p2, "}}") {
                Ok(p) => p,
                Err(e) => {
                    return Err(e);
                },
            };
            return Ok((ServerMessage::PeerListUpdate { peers }, p3));
        },
        Err(_) => {
        },
    }
    match expect_lit(buf, pos, "{\"InitialSyncPushResponse\":{\"files_to_update\":") {
        Ok(p1) => {
            let (files_to_update, p2) = match parse_pairmap(buf, p1) {
                Ok(v) => v,
                Err(e) => {
                    return Err(e);
                },
            };
            let p3 = match expect_lit(buf, p2, ",\"files_to_delete\":") {
                Ok(p) => p,
                Err(e) => {
                    return Err(e);
                },
            };
            let (files_to_delete, p4) = match parse_strlist(buf, p3) {
                Ok(v) => v,
                Err(e) => {
                    return Err(e);
                },
            };
            let p5 = match expect_lit(buf, p4, ",\"files_to_send_back\":") {
                Ok(p) => p,
                Err(e) => {
                    return Err(e);
                },
            };
            let (files_to_send_back, p6) = match parse_strlist(buf, p5) {
                Ok(v) => v,
                Err(e) => {
                    return Err(e);
                },
            };
            let p7 = match expect_lit(buf, p6, "}}") {
                Ok(p) => p,
                Err(e) => {
                    return Err(e);
                },
            };
            return Ok((
                ServerMessage::InitialSyncPushResponse {
                    files_to_update,
                    files_to_delete,
                    files_to_send_back,
                },
                p7,
            ));
        },
        Err(_) => {
        },
    }
    match expect_lit(buf, pos, "{\"FileUpdatePush\":{\"files_to_write\":") {
        Ok(p1) => {
            let (files_to_write, p2) = match parse_pairmap(buf, p1) {
                Ok(v) => v,
                Err(e) => {
                    return Err(e);
                },
            };
            let p3 = match expect_lit(buf, p2, ",\"files_to_delete\":") {
                Ok(p) => p,
                Err(e) => {
                    return Err(e);
                },
            };
            let (files_to_delete, p4) = match parse_strlist(buf, p3) {
                Ok(v) => v,
                Err(e) => {
                    return Err(e);
                },
            };
            let p5 = match expect_lit(buf, p4, "}}") {
                Ok(p) => p,
                Err(e) => {
                    return Err(e);
                },
            };
            return Ok((ServerMessage::FileUpdatePush { files_to_write, files_to_delete }, p5));
        },
        Err(_) => {
        },
    }
    Err(DecodeError::Malformed)
}

#[verifier::rlimit(100)]
#[verifier::spinoff_prover]
fn parse_peer(buf: &Vec<u8>, pos: usize) -> (r: Result<(PeerMessage, usize), DecodeError>)
    requires
        pos <= buf@.len(),
    ensures
        ({
            let t = buf@.skip(pos as int);
            match r {
                Ok((m, np)) => {
                    &&& pos <= np <= buf@.len()
                    &&& sp_peer(t) == Some((m@, buf@.skip(np as int)))
                },
                Err(_) => sp_peer(t) is None,
            }
        }),
{
    let ghost t = buf@.skip(pos as int);
    match expect_lit(buf, pos, "{\"InitialSyncPush\":{\"sync_state\":") {
        Ok(p1) => {
            let (sync_state, p2) = match parse_state(buf, p1) {
                Ok(v) => v,
                Err(e) => {
                    return Err(e);
                },
            };
            let p3 = match expect_lit(buf, p2, "}}") {
                Ok(p) => p,
                Err(e) => {
                    return Err(e);
                },
            };
            return Ok((PeerMessage::InitialSyncPush { sync_state }, p3));
        },
        Err(_) => {
        },
    }
    match expect_lit(buf, pos, "{\"FileUpdatePush\":{\"files_to_write\":") {
        Ok(p1) => {
            let (files_to_write, p2) = match parse_pairmap(buf, p1) {
                Ok(v) => v,
                Err(e) => {
                    return Err(e);
                },
            };
            let p3 = match expect_lit(buf, p2, ",\"files_to_delete\":") {
                Ok(p) => p,
                Err(e) => {
                    return Err(e);
                },
            };
            let (files_to_delete, p4) = match parse_strlist(buf, p3) {
                Ok(v) => v,
                Err(e) => {
                    return Err(e);
                },
            };
            let p5 = match expect_lit(buf, p4, "}}") {
                Ok(p) => p,
                Err(e) => {
                    return Err(e);
                },
            };
            return Ok((PeerMessage::FileUpdatePush { files_to_write, files_to_delete }, p5));
        },
        Err(_) => {
        },
    }
    Err(DecodeError::Malformed)
}

proof fn lemma_server_frame_facts(bufv: Seq<u8>, m: ServerMessageV)
    requires
        bufv == frame(jserver(m)),
        jserver(m).len() <= u32::MAX,
    ensures
        bufv.len() == 4 + jserver(m).len(),
        be32_val(bufv) == jserver(m).len(),
        bufv.subrange(4, bufv.len() as int) == jserver(m),
        valid_utf8(jserver(m)),
        sp_server(jserver(m)) == Some((m, Seq::<u8>::empty())),
{
    let n = jserver(m).len() as u32;
    lemma_be32_roundtrip(n);
    assert(bufv[0] == be32(n)[0] && bufv[1] == be32(n)[1] && bufv[2] == be32(n)[2] && bufv[3]
        == be32(n)[3]);
    assert(be32_val(bufv) == be32_val(be32(n)));
    assert(bufv.subrange(4, bufv.len() as int) =~= jserver(m));
    lemma_jserver_valid(m);
    lemma_sp_server_of(m, Seq::<u8>::empty());
    assert(jserver(m) + Seq::<u8>::empty() =~= jserver(m));
}

proof fn lemma_peer_frame_facts(bufv: Seq<u8>, m: PeerMessageV)
    requires
        bufv == frame(jpeer(m)),
        jpeer(m).len() <= u32::MAX,
    ensures
        bufv.len() == 4 + jpeer(m).len(),
        be32_val(bufv) == jpeer(m).len(),
        bufv.subrange(4, bufv.len() as int) == jpeer(m),
        valid_utf8(jpeer(m)),
        sp_peer(jpeer(m)) == Some((m, Seq::<u8>::empty())),
{
    let n = jpeer(m).len() as u32;
    lemma_be32_roundtrip(n);
    assert(bufv[0] == be32(n)[0] && bufv[1] == be32(n)[1] && bufv[2] == be32(n)[2] && bufv[3]
        == be32(n)[3]);
    assert(be32_val(bufv) == be32_val(be32(n)));
    assert(bufv.subrange(4, bufv.len() as int) =~= jpeer(m));
    lemma_jpeer_valid(m);
    lemma_sp_peer_of(m, Seq::<u8>::empty());
    assert(jpeer(m) + Seq::<u8>::empty() =~= jpeer(m));
}

/// Decode one leader-to-follower frame.
///
/// Fails on a truncated length prefix, a body shorter than the declared
/// length, a body that is not UTF-8, and any body that is not exactly the
/// encoding of one `ServerMessage`. Every encoded message decodes back to
/// itself.
#[verifier::rlimit(100)]
#[verifier::spinoff_prover]
pub fn decode_server_message(buf: &Vec<u8>) -> (r: Result<ServerMessage, DecodeError>)
    ensures
        buf@.len() < 4 ==> r == Err::<ServerMessage, DecodeError>(DecodeError::TruncatedLength),
        buf@.len() >= 4 && buf@.len() - 4 < be32_val(buf@) ==> r == Err::<
            ServerMessage,
            DecodeError,
        >(DecodeError::TruncatedBody),
        buf@.len() >= 4 && buf@.len() - 4 >= be32_val(buf@) && !valid_utf8(
            buf@.subrange(4, 4 + be32_val(buf@)),
        ) ==> r == Err::<ServerMessage, DecodeError>(DecodeError::InvalidUtf8),
        r is Ok ==> buf@.len() >= 4 && buf@.len() - 4 >= be32_val(buf@) && sp_server(
            buf@.subrange(4, 4 + be32_val(buf@)),
        ) == Some((r->Ok_0@, Seq::<u8>::empty())),
        forall|m: ServerMessageV|
            (buf@ == frame(#[trigger] jserver(m)) && jserver(m).len() <= u32::MAX) ==> (r is Ok
                && r->Ok_0@ == m),
{
    if buf.len() < 4 {
        proof {
            assert forall|m: ServerMessageV|
                (buf@ == frame(#[trigger] jserver(m)) && jserver(m).len() <= u32::MAX)
                    implies false by {
                lemma_server_frame_facts(buf@, m);
            }
        }
        return Err(DecodeError::TruncatedLength);
    }
    let n: u32 = (buf[0] as u32) * 0x1000000 + (buf[1] as u32) * 0x10000 + (buf[2] as u32) * 0x100
        + (buf[3] as u32);
    proof {
        assert(n == be32_val(buf@));
    }
    if (buf.len() - 4) < n as usize {
        proof {
            assert forall|m: ServerMessageV|
                (buf@ == frame(#[trigger] jserver(m)) && jserver(m).len() <= u32::MAX)
                    implies false by {
                lemma_server_frame_facts(buf@, m);
            }
        }
        return Err(DecodeError::TruncatedBody);
    }
    let nn = n as usize;
    let bl = buf.len();
    let mut body: Vec<u8> = Vec::new();
    let mut k: usize = 0;
    proof {
        assert(body@ =~= buf@.subrange(4int, 4int));
    }
    while k < nn
        invariant
            k <= nn,
            4 + nn <= bl,
            bl == buf@.len(),
            nn == be32_val(buf@),
            body@ == buf@.subrange(4, 4 + k as int),
        decreases nn - k,
    {
        body.push(buf[4 + k]);
        proof {
            assert(body@ =~= buf@.subrange(4, 4 + (k + 1)));
        }
        k = k + 1;
    }
    if !utf8_check(&body) {
        proof {
            assert forall|m: ServerMessageV|
                (buf@ == frame(#[trigger] jserver(m)) && jserver(m).len() <= u32::MAX)
                    implies false by {
                lemma_server_frame_facts(buf@, m);
                assert(body@ == jserver(m));
            }
        }
        return Err(DecodeError::InvalidUtf8);
    }
    let parsed = parse_server(&body, 0);
    proof {
        assert(body@.skip(0) =~= body@);
    }
    match parsed {
        Ok((msg, np)) => {
            if np != body.len() {
                proof {
                    assert forall|m: ServerMessageV|
                        (buf@ == frame(#[trigger] jserver(m)) && jserver(m).len() <= u32::MAX)
                            implies false by {
                        lemma_server_frame_facts(buf@, m);
                        assert(body@ == jserver(m));
                        assert(body@.skip(np as int).len() == 0);
                    }
                }
                return Err(DecodeError::Malformed);
            }
            proof {
                assert(body@.skip(np as int) =~= Seq::<u8>::empty());
                assert forall|m: ServerMessageV|
                    (buf@ == frame(#[trigger] jserver(m)) && jserver(m).len() <= u32::MAX)
                        implies msg@ == m by {
                    lemma_server_frame_facts(buf@, m);
                    assert(body@ == jserver(m));
                }
            }
            Ok(msg)
        },
        Err(e) => {
            proof {
                assert forall|m: ServerMessageV|
                    (buf@ == frame(#[trigger] jserver(m)) && jserver(m).len() <= u32::MAX)
                        implies false by {
                    lemma_server_frame_facts(buf@, m);
                    assert(body@ == jserver(m));
                }
            }
            Err(DecodeError::Malformed)
        },
    }
}

/// Decode one follower-to-leader frame; the counterpart of
/// `decode_server_message` with the same failure rules.
#[verifier::rlimit(100)]
#[verifier::spinoff_prover]
pub fn decode_peer_message(buf: &Vec<u8>) -> (r: Result<PeerMessage, DecodeError>)
    ensures
        buf@.len() < 4 ==> r == Err::<PeerMessage, DecodeError>(DecodeError::TruncatedLength),
        buf@.len() >= 4 && buf@.len() - 4 < be32_val(buf@) ==> r == Err::<
            PeerMessage,
            DecodeError,
        >(DecodeError::TruncatedBody),
        buf@.len() >= 4 && buf@.len() - 4 >= be32_val(buf@) && !valid_utf8(
            buf@.subrange(4, 4 + be32_val(buf@)),
        ) ==> r == Err::<PeerMessage, DecodeError>(DecodeError::InvalidUtf8),
        r is Ok ==> buf@.len() >= 4 && buf@.len() - 4 >= be32_val(buf@) && sp_peer(
            buf@.subrange(4, 4 + be32_val(buf@)),
        ) == Some((r->Ok_0@, Seq::<u8>::empty())),
        forall|m: PeerMessageV|
            (buf@ == frame(#[trigger] jpeer(m)) && jpeer(m).len() <= u32::MAX) ==> (r is Ok
                && r->Ok_0@ == m),
{
    if buf.len() < 4 {
        proof {
            assert forall|m: PeerMessageV|
                (buf@ == frame(#[trigger] jpeer(m)) && jpeer(m).len() <= u32::MAX)
                    implies false by {
                lemma_peer_frame_facts(buf@, m);
            }
        }
        return Err(DecodeError::TruncatedLength);
    }
    let n: u32 = (buf[0] as u32) * 0x1000000 + (buf[1] as u32) * 0x10000 + (buf[2] as u32) * 0x100
        + (buf[3] as u32);
    proof {
        assert(n == be32_val(buf@));
    }
    if (buf.len() - 4) < n as usize {
        proof {
            assert forall|m: PeerMessageV|
                (buf@ == frame(#[trigger] jpeer(m)) && jpeer(m).len() <= u32::MAX)
                    implies false by {
                lemma_peer_frame_facts(buf@, m);
            }
        }
        return Err(DecodeError::TruncatedBody);
    }
    let nn = n as usize;
    let bl = buf.len();
    let mut body: Vec<u8> = Vec::new();
    let mut k: usize = 0;
    proof {
        assert(body@ =~= buf@.subrange(4int, 4int));
    }
    while k < nn
        invariant
            k <= nn,
            4 + nn <= bl,
            bl == buf@.len(),
            nn == be32_val(buf@),
            body@ == buf@.subrange(4, 4 + k as int),
        decreases nn - k,
    {
        body.push(buf[4 + k]);
        proof {
            assert(body@ =~= buf@.subrange(4, 4 + (k + 1)));
        }
        k = k + 1;
    }
    if !utf8_check(&body) {
        proof {
            assert forall|m: PeerMessageV|
                (buf@ == frame(#[trigger] jpeer(m)) && jpeer(m).len() <= u32::MAX)
                    implies false by {
                lemma_peer_frame_facts(buf@, m);
                assert(body@ == jpeer(m));
            }
        }
        return Err(DecodeError::InvalidUtf8);
    }
    let parsed = parse_peer(&body, 0);
    proof {
        assert(body@.skip(0) =~= body@);
    }
    match parsed {
        Ok((msg, np)) => {
            if np != body.len() {
                proof {
                    assert forall|m: PeerMessageV|
                        (buf@ == frame(#[trigger] jpeer(m)) && jpeer(m).len() <= u32::MAX)
                            implies false by {
                        lemma_peer_frame_facts(buf@, m);
                        assert(body@ == jpeer(m));
                        assert(body@.skip(np as int).len() == 0);
                    }
                }
                return Err(DecodeError::Malformed);
            }
            proof {
                assert(body@.skip(np as int) =~= Seq::<u8>::empty());
                assert forall|m: PeerMessageV|
                    (buf@ == frame(#[trigger] jpeer(m)) && jpeer(m).len() <= u32::MAX)
                        implies msg@ == m by {
                    lemma_peer_frame_facts(buf@, m);
                    assert(body@ == jpeer(m));
                }
            }
            Ok(msg)
        },
        Err(e) => {
            proof {
                assert forall|m: PeerMessageV|
                    (buf@ == frame(#[trigger] jpeer(m)) && jpeer(m).len() <= u32::MAX)
                        implies false by {
                    lemma_peer_frame_facts(buf@, m);
                    assert(body@ == jpeer(m));
                }
            }
            Err(DecodeError::Malformed)
        },
    }
}

} // verus!
