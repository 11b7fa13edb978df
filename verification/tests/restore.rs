use omemfs::collections::PathMap;
use omemfs::commands::restore::{
    helper_path, print_action, print_summary, remove_added_dir, remove_added_files,
    restore_absent, restore_path, restore_tree, run, verb_of, Counts, PathRestore, RemoveStep,
    RestoreAction, RestoreFacts, RestoreOptions, TreeStep, Verb,
};
use omemfs::object::{blob_stub, tree_stub, Content, Halt, ObjectHash, TreeEntry, TreeNode};
use omemfs::worktree::{DiskEntry, DiskKind};

fn hash(n: u64) -> ObjectHash {
    ObjectHash { w0: n, w1: 0, w2: 0, w3: 0 }
}

fn facts() -> RestoreFacts {
    RestoreFacts {
        is_file: false,
        stub_exists: false,
        stub: None,
        dir_stub_exists: false,
        dir_stub: None,
        content: None,
        mode_matches: false,
        helpers_exist: false,
        link_target: None,
    }
}

fn blob(name: &str, n: u64) -> TreeEntry {
    TreeEntry::Blob { name: name.to_string(), hash: hash(n), size: 4, mtime: None, mode: None }
}

fn plan(e: Option<&TreeEntry>, f: &RestoreFacts, dry: bool) -> (Vec<RestoreAction>, usize, usize) {
    match restore_path(e, f, dry) {
        PathRestore::Plan(p) => (p.actions, p.restored, p.deleted),
        PathRestore::Directory => panic!("this is no directory"),
    }
}

#[test]
fn files_are_restored() {
    let e = blob("f", 1);
    let mut f = facts();
    let (acts, restored, _) = plan(Some(&e), &f, false);
    assert!(matches!(&acts[0], RestoreAction::WriteFile { hash: h, .. } if *h == hash(1)));
    assert_eq!(restored, 1);
    let (acts, restored, _) = plan(Some(&e), &f, true);
    assert!(acts.is_empty());
    assert_eq!(restored, 1);
    f.is_file = true;
    f.content = Some(hash(1));
    assert!(matches!(&plan(Some(&e), &f, false).0[0], RestoreAction::SetMode { .. }));
    f.mode_matches = true;
    let (acts, restored, deleted) = plan(Some(&e), &f, false);
    assert!(acts.is_empty());
    assert_eq!((restored, deleted), (0, 0));
}

#[test]
fn stubs_are_brought_up_to_date() {
    let e = blob("f", 1);
    let mut f = facts();
    f.stub_exists = true;
    f.stub = Some(blob_stub(hash(9), 4, None, &None));
    assert!(matches!(&plan(Some(&e), &f, false).0[..], [RestoreAction::WriteStub(r)] if r.hash == hash(1)));
    f.stub = Some(blob_stub(hash(1), 4, None, &None));
    assert!(plan(Some(&e), &f, false).0.is_empty());
}

#[test]
fn symlinks_are_restored() {
    let e = TreeEntry::Symlink { name: "l".to_string(), target: "t".to_string(), mtime: None };
    let mut f = facts();
    assert!(matches!(&plan(Some(&e), &f, false).0[0], RestoreAction::WriteLink { target, .. } if target == "t"));
    f.link_target = Some("t".to_string());
    assert!(plan(Some(&e), &f, false).0.is_empty());
}

#[test]
fn what_the_tree_does_not_have_is_deleted() {
    let mut f = facts();
    f.is_file = true;
    f.dir_stub_exists = true;
    let p = restore_absent(&f, false);
    assert_eq!((p.restored, p.deleted), (0, 2));
    assert!(matches!(p.actions[0], RestoreAction::RemoveFile));
    assert!(restore_absent(&f, true).actions.is_empty());
    assert_eq!(plan(None, &facts(), false).2, 0);
}

#[test]
fn a_tree_is_restored() {
    let sub = TreeNode { hash: hash(2), content: Content::Entries(vec![blob("x", 3)]) };
    let dir = TreeEntry::Tree { name: "d".to_string(), size: 4, mtime: None, blob_count: 1, node: sub };
    assert!(matches!(restore_path(Some(&dir), &facts(), false), PathRestore::Directory));
    let root = TreeNode { hash: hash(1), content: Content::Entries(vec![blob("f", 4), dir]) };
    let mut known = PathMap::new();
    let mut there = facts();
    there.content = Some(hash(4));
    there.mode_matches = true;
    known.insert("f".to_string(), there);
    let mut steps = Vec::new();
    assert!(restore_tree(&root, "", &known, false, &mut steps).is_none());
    let written: Vec<&String> = steps
        .iter()
        .filter_map(|s| match s {
            TreeStep::At { path, plan } if plan.restored == 1 => Some(path),
            _ => None,
        })
        .collect();
    assert_eq!(written, vec!["d/x"]);
    let mut stubbed = facts();
    stubbed.dir_stub_exists = true;
    known.insert("d".to_string(), stubbed);
    let mut kept = Vec::new();
    assert!(restore_tree(&root, "", &known, false, &mut kept).is_none());
    assert!(kept.iter().any(|s| matches!(s, TreeStep::At { path, .. } if path == "d")));
    assert!(!kept.iter().any(|s| matches!(s, TreeStep::At { path, .. } if path == "d/x")));
    let unread = TreeNode { hash: hash(9), content: Content::Unread };
    assert!(matches!(
        restore_tree(&unread, "", &known, false, &mut Vec::new()),
        Some(Halt::Unread(h)) if h == hash(9)
    ));
}

/// What a plan leaves of a file.
fn left(f: &RestoreFacts, actions: &[RestoreAction]) -> RestoreFacts {
    let mut after = facts();
    after.stub_exists = f.stub_exists;
    after.stub = f.stub.as_ref().map(|s| blob_stub(s.hash, s.size, s.mtime, &s.mode));
    after.content = f.content;
    after.mode_matches = f.mode_matches;
    after.helpers_exist = f.helpers_exist;
    for action in actions {
        match action {
            RestoreAction::WriteFile { hash, .. } => {
                after.content = Some(*hash);
                after.mode_matches = true;
            }
            RestoreAction::SetMode { .. } => after.mode_matches = true,
            RestoreAction::WriteStub(s) => {
                after.stub = Some(blob_stub(s.hash, s.size, s.mtime, &s.mode));
            }
            RestoreAction::RemoveHelpers => after.helpers_exist = false,
            _ => panic!("a file is restored"),
        }
    }
    after
}

#[test]
fn a_stubbed_directory_names_its_tree() {
    let node = TreeNode { hash: hash(7), content: Content::Entries(vec![blob("x", 3)]) };
    let e = TreeEntry::Tree { name: "d".to_string(), size: 4, mtime: None, blob_count: 1, node };
    let mut stale = facts();
    stale.dir_stub_exists = true;
    stale.dir_stub = Some(tree_stub(hash(9), 4, None, 1));
    let (acts, restored, _) = plan(Some(&e), &stale, false);
    assert!(matches!(&acts[..], [RestoreAction::WriteDirStub(r)] if r.hash == hash(7)));
    assert_eq!(restored, 1);
    stale.dir_stub = Some(tree_stub(hash(7), 4, None, 1));
    assert!(plan(Some(&e), &stale, false).0.is_empty());
    let mut file = facts();
    file.stub_exists = true;
    let (acts, _, _) = plan(Some(&e), &file, false);
    assert!(matches!(&acts[..], [RestoreAction::StubToDir(r)] if r.hash == hash(7)));
}

#[test]
fn a_second_restore_does_nothing() {
    let e = blob("f", 1);
    let mut stale = facts();
    stale.stub_exists = true;
    stale.stub = Some(blob_stub(hash(9), 4, None, &None));
    let mut other_mode = facts();
    other_mode.content = Some(hash(1));
    other_mode.helpers_exist = true;
    for f in [facts(), stale, other_mode] {
        let (actions, restored, _) = plan(Some(&e), &f, false);
        assert_eq!(restored, 1);
        let (actions, restored, deleted) = plan(Some(&e), &left(&f, &actions), false);
        assert!(actions.is_empty());
        assert_eq!((restored, deleted), (0, 0));
    }
    let cleared = vec![disk("f", DiskKind::File { size: 1 }), disk("pipe", DiskKind::Other)];
    let mut steps = Vec::new();
    assert!(remove_added_files(&vec![blob("f", 1)], &cleared, "", false, &mut steps).is_none());
    assert!(steps.is_empty());
}

fn disk(name: &str, kind: DiskKind) -> DiskEntry {
    DiskEntry { name: name.to_string(), ignored: false, reserved: false, kind }
}

#[test]
fn added_files_are_removed() {
    let es = vec![blob("keep", 1)];
    let work = vec![
        disk("keep", DiskKind::File { size: 1 }),
        disk("extra", DiskKind::File { size: 1 }),
        disk(".omemfs", DiskKind::Dir(Vec::new())),
        disk("old", DiskKind::Dir(vec![disk("x", DiskKind::File { size: 1 })])),
    ];
    let mut steps = Vec::new();
    assert!(remove_added_files(&es, &work, "", false, &mut steps).is_none());
    assert!(steps.iter().any(|s| matches!(s, RemoveStep::File { path } if path == "extra")));
    assert!(steps.iter().any(|s| matches!(s, RemoveStep::File { path } if path == "old/x")));
    assert!(!steps.iter().any(|s| matches!(s, RemoveStep::File { path } if path == "keep")));
    let mut more = Vec::new();
    remove_added_dir(&vec![disk("y", DiskKind::File { size: 1 })], "d", false, &mut more);
    assert!(matches!(&more[0], RemoveStep::File { path } if path == "d/y"));
}

#[test]
fn what_a_restore_says() {
    assert_eq!(print_summary(&Counts { restored: 0, deleted: 0 }, false), "Nothing to restore.");
    assert_eq!(print_summary(&Counts { restored: 2, deleted: 1 }, false), "3 path(s) restored.");
    assert_eq!(
        print_summary(&Counts { restored: 2, deleted: 1 }, true),
        "3 path(s) would be restored."
    );
    assert_ne!(verb_of(Verb::Restore, false), verb_of(Verb::Restore, true));
    assert_ne!(verb_of(Verb::Delete, false), verb_of(Verb::Restore, false));
    assert_eq!(print_action("restored", "a/b"), "  restored: a/b");
    assert_eq!(helper_path("f", ".x"), "f.x");
    let opts = RestoreOptions {
        work_dir: "/w".to_string(),
        current_dir: "/w".to_string(),
        paths: vec!["a".to_string()],
        dry_run: false,
    };
    assert_eq!(
        run(&opts, None).err().unwrap().message(),
        "no clone_root — repository has never been synced"
    );
    assert!(matches!(run(&opts, Some(hash(1))), Ok((h, p)) if h == hash(1) && p == vec!["a"]));
}
