//! Synclite: a verified core for a directory-synchronization tool.
//!
//! A small set of peers in a star topology (one leader, several followers)
//! keeps the contents of a workspace directory in agreement. This crate holds
//! the logic of that system: the per-file sync state with tombstones, the
//! last-writer-wins reconciliation, the length-prefixed JSON wire codec, the
//! connection bookkeeping, the file-watcher event interpretation, and the
//! handshake protocol. All I/O stays outside; the functions here work on
//! plain values and carry contracts that Verus checks.

mod cli;
mod codec;
mod connection;
mod errors;
mod hash;
mod json;
mod peers;
mod reconcile;
mod registry;
mod sandbox;
mod session;
mod state;
mod watcher;

pub use cli::{Args, Command, ParseArgsError, parse_args};
pub use codec::{
    PeerMessage, ServerMessage, decode_peer_message, decode_server_message, encode_peer_message,
    encode_server_message,
};
pub use connection::ConnectionManager;
pub use errors::SyncError;
pub use hash::calculate_file_hash;
pub use json::DecodeError;
pub use peers::PeersState;
pub use reconcile::determine_winning_files;
pub use registry::{
    DirectoriesRegistry, add_directory, check_path_conflicts, cleanup_registry,
    get_registry_path, remove_directory,
};
pub use sandbox::{FileSystem, has_parent_component, is_within};
pub use session::{
    apply_file_update, apply_write_batch, delete_files_with_source, follower_handle_ack,
    generate_peer_id, initialise_state, leader_accept, leader_build_sync_response,
    leader_disconnect,
};
pub use state::{FileEntry, FileEntryV, SyncState};
pub use watcher::{
    FsEvent, FsEventKind, PathEvents, PathReport, WatchAction, contains_synclite, decide_action,
    group_events, process_burst, relative_to,
};
