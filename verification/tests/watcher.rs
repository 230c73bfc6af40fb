//! The debouncer: event grouping, the decision table, the atomic-save
//! collapse, and echo suppression.

use synclite::{
    FsEvent, FsEventKind, PathReport, SyncState, WatchAction, contains_synclite, decide_action,
    group_events, process_burst, relative_to,
};

fn s(x: &str) -> String {
    x.to_string()
}

fn ev(path: &str, kind: FsEventKind) -> FsEvent {
    FsEvent { path: s(path), kind }
}

#[test]
fn decision_table() {
    // exists, create, remove, modify
    assert_eq!(decide_action(true, true, true, false), WatchAction::Write);
    assert_eq!(decide_action(true, true, true, true), WatchAction::Write);
    assert_eq!(decide_action(true, true, false, false), WatchAction::Write);
    assert_eq!(decide_action(true, false, false, true), WatchAction::Write);
    assert_eq!(decide_action(true, false, true, true), WatchAction::Write);
    assert_eq!(decide_action(false, true, true, true), WatchAction::Delete);
    assert_eq!(decide_action(false, false, true, false), WatchAction::Delete);
    assert_eq!(decide_action(true, false, true, false), WatchAction::Ignore);
    assert_eq!(decide_action(false, false, false, true), WatchAction::Ignore);
    assert_eq!(decide_action(false, false, false, false), WatchAction::Ignore);
}

#[test]
fn grouping_collects_kinds_per_path() {
    let events = vec![
        ev("/w/a", FsEventKind::Create),
        ev("/w/b", FsEventKind::Modify),
        ev("/w/a", FsEventKind::Remove),
        ev("/w/a", FsEventKind::Create),
    ];
    let groups = group_events(&events);
    assert_eq!(groups.len(), 2);
    let a = groups.iter().find(|g| g.path == "/w/a").unwrap();
    assert!(a.saw_create && a.saw_remove && !a.saw_modify);
    let b = groups.iter().find(|g| g.path == "/w/b").unwrap();
    assert!(!b.saw_create && !b.saw_remove && b.saw_modify);
}

#[test]
fn atomic_save_collapses_to_one_write() {
    // Create, Remove, Create, Modify on one path within a burst, with the
    // file present afterwards: exactly one outgoing write for that path.
    let events = vec![
        ev("/w/a.txt", FsEventKind::Create),
        ev("/w/a.txt", FsEventKind::Remove),
        ev("/w/a.txt", FsEventKind::Create),
        ev("/w/a.txt", FsEventKind::Modify),
    ];
    let groups = group_events(&events);
    assert_eq!(groups.len(), 1);
    let g = &groups[0];
    let reports = vec![PathReport {
        path: g.path.clone(),
        exists_now: true,
        saw_create: g.saw_create,
        saw_remove: g.saw_remove,
        saw_modify: g.saw_modify,
        content: Some(s("final text")),
    }];
    let mut state = SyncState::new();
    let (writes, deletes) = process_burst(&mut state, &s("/w"), &reports, false, 42);
    assert_eq!(writes.len(), 1);
    assert_eq!(writes[0].0, "a.txt");
    assert_eq!(writes[0].1, "final text");
    assert!(deletes.is_empty());
    assert!(state.file_exists(&s("a.txt")));
}

#[test]
fn suppressed_burst_changes_nothing() {
    let reports = vec![PathReport {
        path: s("/w/a.txt"),
        exists_now: true,
        saw_create: true,
        saw_remove: false,
        saw_modify: false,
        content: Some(s("text")),
    }];
    let mut state = SyncState::new();
    let (writes, deletes) = process_burst(&mut state, &s("/w"), &reports, true, 42);
    assert!(writes.is_empty() && deletes.is_empty());
    assert_eq!(state.file_count(), 0);
}

#[test]
fn storage_folder_and_outside_paths_are_ignored() {
    let reports = vec![
        PathReport {
            path: s("/w/.synclite/state.json"),
            exists_now: true,
            saw_create: false,
            saw_remove: false,
            saw_modify: true,
            content: Some(s("{}")),
        },
        PathReport {
            path: s("/elsewhere/b.txt"),
            exists_now: true,
            saw_create: true,
            saw_remove: false,
            saw_modify: false,
            content: Some(s("b")),
        },
        PathReport {
            path: s("/w/ok.txt"),
            exists_now: false,
            saw_create: false,
            saw_remove: true,
            saw_modify: false,
            content: None,
        },
    ];
    let mut state = SyncState::new();
    let (writes, deletes) = process_burst(&mut state, &s("/w"), &reports, false, 9);
    assert!(writes.is_empty());
    assert_eq!(deletes, vec![s("ok.txt")]);
    assert!(state.get_file(&s("ok.txt")).unwrap().is_deleted);
    assert_eq!(state.file_count(), 1);
}

#[test]
fn relative_path_computation() {
    assert_eq!(relative_to("/w", "/w/a.txt"), Some(s("a.txt")));
    assert_eq!(relative_to("/w", "/w/dir/b.txt"), Some(s("dir/b.txt")));
    assert_eq!(relative_to("/w", "/w"), None);
    assert_eq!(relative_to("/w", "/worse/a.txt"), None);
    assert_eq!(relative_to("/w", "/other/a.txt"), None);
}

#[test]
fn synclite_segment_detection() {
    assert!(contains_synclite("/w/.synclite/peers.json"));
    assert!(contains_synclite("/w/.synclite"));
    assert!(!contains_synclite("/w/src/lib.rs"));
    assert!(!contains_synclite("/w/.synclit/e"));
}

#[test]
fn relative_path_with_non_ascii_names() {
    assert_eq!(relative_to("/wörk", "/wörk/ünter/datei.txt"), Some(s("ünter/datei.txt")));
    assert_eq!(relative_to("/wörk", "/wörk2/datei.txt"), None);
}
