//! Reconciliation: the last-writer-wins rules, their symmetry, the fixpoint
//! on equivalent states, and the tombstone rule.

use synclite::{FileEntry, SyncState, determine_winning_files};

fn s(x: &str) -> String {
    x.to_string()
}

fn live(hash: &str, t: u64) -> FileEntry {
    FileEntry::new(s(hash), t)
}

#[test]
fn fixpoint_on_equivalent_states() {
    let mut a = SyncState::new();
    a.add_file(s("a.txt"), live("h1", 100));
    a.delete_file(s("b.txt"), 200);
    let mut b = SyncState::new();
    // Same hash at a different time is still equivalent for a live file.
    b.add_file(s("a.txt"), live("h1", 150));
    b.delete_file(s("b.txt"), 200);
    let (asend, bsend, adel, bdel) = determine_winning_files(&a, &b);
    assert!(asend.is_empty());
    assert!(bsend.is_empty());
    assert!(adel.is_empty());
    assert!(bdel.is_empty());
}

#[test]
fn newer_side_wins_content() {
    let mut a = SyncState::new();
    a.add_file(s("a.txt"), live("h1", 100));
    let mut b = SyncState::new();
    b.add_file(s("a.txt"), live("h2", 101));
    let (asend, bsend, adel, bdel) = determine_winning_files(&a, &b);
    assert!(asend.is_empty());
    assert_eq!(bsend, vec![s("a.txt")]);
    assert!(adel.is_empty());
    assert!(bdel.is_empty());
}

#[test]
fn tie_is_a_no_op() {
    let mut a = SyncState::new();
    a.add_file(s("a.txt"), live("h1", 100));
    let mut b = SyncState::new();
    b.add_file(s("a.txt"), live("h2", 100));
    let (asend, bsend, adel, bdel) = determine_winning_files(&a, &b);
    assert!(asend.is_empty() && bsend.is_empty() && adel.is_empty() && bdel.is_empty());
}

#[test]
fn newer_tombstone_wins() {
    let mut a = SyncState::new();
    a.add_file(s("a.txt"), live("h1", 100));
    let mut b = SyncState::new();
    b.delete_file(s("a.txt"), 101);
    let (asend, bsend, adel, bdel) = determine_winning_files(&a, &b);
    assert!(asend.is_empty() && bsend.is_empty() && bdel.is_empty());
    assert_eq!(adel, vec![s("a.txt")]);
}

#[test]
fn older_tombstone_loses_to_live_content() {
    let mut a = SyncState::new();
    a.add_file(s("a.txt"), live("h1", 200));
    let mut b = SyncState::new();
    b.delete_file(s("a.txt"), 150);
    let (asend, bsend, adel, bdel) = determine_winning_files(&a, &b);
    assert_eq!(asend, vec![s("a.txt")]);
    assert!(bsend.is_empty() && adel.is_empty() && bdel.is_empty());
}

#[test]
fn one_sided_paths() {
    let mut a = SyncState::new();
    a.add_file(s("only-a.txt"), live("ha", 100));
    a.delete_file(s("dead-a.txt"), 100);
    let mut b = SyncState::new();
    b.add_file(s("only-b.txt"), live("hb", 100));
    b.delete_file(s("dead-b.txt"), 100);
    let (asend, bsend, adel, bdel) = determine_winning_files(&a, &b);
    assert_eq!(asend, vec![s("only-a.txt")]);
    assert_eq!(bsend, vec![s("only-b.txt")]);
    assert_eq!(adel, vec![s("dead-b.txt")]);
    assert_eq!(bdel, vec![s("dead-a.txt")]);
}

#[test]
fn symmetry_swaps_the_lists() {
    let mut a = SyncState::new();
    a.add_file(s("x"), live("h1", 10));
    a.add_file(s("y"), live("h2", 30));
    a.delete_file(s("z"), 50);
    let mut b = SyncState::new();
    b.add_file(s("x"), live("h9", 20));
    b.add_file(s("w"), live("h3", 5));
    let (asend, bsend, adel, bdel) = determine_winning_files(&a, &b);
    let (asend2, bsend2, adel2, bdel2) = determine_winning_files(&b, &a);
    let sort = |mut v: Vec<String>| {
        v.sort();
        v
    };
    assert_eq!(sort(asend), sort(bsend2));
    assert_eq!(sort(bsend), sort(asend2));
    assert_eq!(sort(adel), sort(bdel2));
    assert_eq!(sort(bdel), sort(adel2));
}
