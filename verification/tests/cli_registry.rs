//! Command-line parsing, the directories registry, and the sandbox guard.

use synclite::{
    Command, DirectoriesRegistry, FileSystem, ParseArgsError, SyncError, add_directory,
    check_path_conflicts, cleanup_registry, parse_args, remove_directory,
};

fn s(x: &str) -> String {
    x.to_string()
}

#[test]
fn parse_serve_and_connect() {
    let a = parse_args(&vec![s("serve"), s("/w")]).ok().unwrap();
    assert!(matches!(a.command, Command::Serve));
    assert_eq!(a.workspace_path, "/w");
    assert_eq!(a.port, 8080);
    let b = parse_args(&vec![s("connect"), s("/w"), s("9001")]).ok().unwrap();
    assert!(matches!(b.command, Command::Connect));
    assert_eq!(b.port, 9001);
}

#[test]
fn parse_rejections() {
    assert!(matches!(parse_args(&vec![s("serve")]), Err(ParseArgsError::InvalidArguments)));
    assert!(matches!(
        parse_args(&vec![s("-h"), s("x")]),
        Err(ParseArgsError::InvalidArguments)
    ));
    match parse_args(&vec![s("dance"), s("/w")]) {
        Err(ParseArgsError::InvalidCommand(c)) => assert_eq!(c, "dance"),
        _ => panic!("expected invalid command"),
    }
    match parse_args(&vec![s("serve"), s("/w"), s("70000")]) {
        Err(ParseArgsError::InvalidPortNumber(p)) => assert_eq!(p, "70000"),
        _ => panic!("expected invalid port"),
    }
    assert!(matches!(
        parse_args(&vec![s("serve"), s("/w"), s("12x")]),
        Err(ParseArgsError::InvalidPortNumber(_))
    ));
}

#[test]
fn sandbox_admits_only_inside_paths() {
    let fs = FileSystem::new(s("/home/me/w"));
    assert_eq!(fs.check_path(&s("/home/me/w")), Ok(()));
    assert_eq!(fs.check_path(&s("/home/me/w/a.txt")), Ok(()));
    assert_eq!(fs.check_path(&s("/home/me/wider/a.txt")), Err(SyncError::Permission));
    assert_eq!(fs.check_path(&s("/etc/passwd")), Err(SyncError::Permission));
    assert_eq!(fs.check_path(&s("/home/me")), Err(SyncError::Permission));
}

#[test]
fn sandbox_rejects_parent_components() {
    // A prefix match is not enough: a path that climbs out through parent
    // components is refused even though it starts with the root.
    let fs = FileSystem::new(s("/home/me/w"));
    assert_eq!(fs.check_path(&s("/home/me/w/../other/x")), Err(SyncError::Permission));
    assert_eq!(fs.check_path(&s("/home/me/w/a/../../x")), Err(SyncError::Permission));
    assert_eq!(fs.check_path(&s("/home/me/w/..")), Err(SyncError::Permission));
    // Dots inside a name are not a parent component.
    assert_eq!(fs.check_path(&s("/home/me/w/a..b/..c/d..")), Ok(()));
}

#[test]
fn registry_add_remove_dedup() {
    let mut r = DirectoriesRegistry::new();
    add_directory(&mut r, s("/a"));
    add_directory(&mut r, s("/b"));
    add_directory(&mut r, s("/a"));
    assert_eq!(r.directories, vec![s("/a"), s("/b")]);
    remove_directory(&mut r, &s("/a"));
    assert_eq!(r.directories, vec![s("/b")]);
}

#[test]
fn registry_detects_nested_workspaces() {
    let mut r = DirectoriesRegistry::new();
    add_directory(&mut r, s("/home/me/w"));
    // A directory inside a registered workspace conflicts.
    let (hit, which) = check_path_conflicts(&r, &s("/home/me/w/sub"));
    assert!(hit);
    assert_eq!(which.as_deref(), Some("/home/me/w"));
    // A directory that contains a registered workspace conflicts.
    let (hit2, which2) = check_path_conflicts(&r, &s("/home/me"));
    assert!(hit2);
    assert_eq!(which2.as_deref(), Some("/home/me/w"));
    // A sibling does not.
    let (hit3, which3) = check_path_conflicts(&r, &s("/home/me/other"));
    assert!(!hit3);
    assert!(which3.is_none());
}

#[test]
fn registry_cleanup_keeps_flagged_entries() {
    let mut r = DirectoriesRegistry::new();
    add_directory(&mut r, s("/a"));
    add_directory(&mut r, s("/b"));
    add_directory(&mut r, s("/c"));
    cleanup_registry(&mut r, &vec![true, false, true]);
    assert_eq!(r.directories, vec![s("/a"), s("/c")]);
}

#[test]
fn parse_port_edges() {
    let a = parse_args(&vec![s("serve"), s("/w"), s("0")]).ok().unwrap();
    assert_eq!(a.port, 0);
    let b = parse_args(&vec![s("serve"), s("/w"), s("65535")]).ok().unwrap();
    assert_eq!(b.port, 65535);
    assert!(matches!(
        parse_args(&vec![s("serve"), s("/w"), s("65536")]),
        Err(ParseArgsError::InvalidPortNumber(_))
    ));
}
