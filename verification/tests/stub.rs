use omemfs::commands::stub::{
    check_path, find_target, run, skip_warning, stub_report, stub_steps, verify_unchanged, Check,
    Found, Miss, PathFacts, StubOptions, StubPlan, StubStep, StubStop, StubTarget,
};
use omemfs::object::{
    blob_stub, Content, ObjectHash, StubTargetType, TreeEntry, TreeNode,
};

fn hash(n: u64) -> ObjectHash {
    ObjectHash { w0: n, w1: 0, w2: 0, w3: 0 }
}

fn root() -> TreeNode {
    let sub = TreeNode {
        hash: hash(2),
        content: Content::Entries(vec![TreeEntry::Blob {
            name: "f".to_string(),
            hash: hash(3),
            size: 7,
            mtime: None,
            mode: Some("644".to_string()),
        }]),
    };
    TreeNode {
        hash: hash(1),
        content: Content::Entries(vec![
            TreeEntry::Tree { name: "d".to_string(), size: 7, mtime: None, blob_count: 1, node: sub },
            TreeEntry::Symlink { name: "l".to_string(), target: "t".to_string(), mtime: None },
            TreeEntry::Tree {
                name: "gone".to_string(),
                size: 7,
                mtime: None,
                blob_count: 1,
                node: TreeNode { hash: hash(4), content: Content::Missing },
            },
        ]),
    }
}

fn complaint(rel: &str, found: Found) -> String {
    match find_target(&root(), rel, found) {
        Err(Miss::Failed(e)) => e.message(),
        Err(Miss::Unread(_)) => "unread".to_string(),
        Ok(_) => "found".to_string(),
    }
}

fn options(paths: &[&str]) -> StubOptions {
    StubOptions {
        work_dir: "w".to_string(),
        current_dir: "w".to_string(),
        paths: paths.iter().map(|p| p.to_string()).collect(),
        dry_run: false,
    }
}

fn facts(rel: &str, found: Found, actual: Option<u64>) -> PathFacts {
    PathFacts {
        rel: rel.to_string(),
        found,
        stubbed: false,
        visible: false,
        actual: actual.map(hash),
    }
}

fn failure(r: Result<StubPlan, StubStop>) -> String {
    match r {
        Err(StubStop::Failed(e)) => e.message(),
        Err(_) => "more is wanted".to_string(),
        Ok(_) => "a plan".to_string(),
    }
}

#[test]
fn paths_are_needed() {
    assert_eq!(
        failure(run(&options(&[]), Some(&root()), &Vec::new())),
        "nothing specified, nothing stubbed"
    );
    assert_eq!(
        failure(run(&options(&["a"]), None, &Vec::new())),
        "no clone_root — repository has never been synced"
    );
    assert!(matches!(run(&options(&["a"]), Some(&root()), &Vec::new()), Err(StubStop::Look)));
}

#[test]
fn a_run_asks_for_what_it_wants() {
    let opts = options(&["d/f", "d"]);
    let unread = TreeNode { hash: hash(9), content: Content::Unread };
    let seen = vec![facts("d/f", Found::File, None)];
    assert!(matches!(run(&opts, Some(&unread), &seen), Err(StubStop::Unread(h)) if h == hash(9)));
    assert!(matches!(run(&opts, Some(&root()), &seen), Err(StubStop::Hash(0))));
    let seen = vec![facts("d/f", Found::File, Some(3))];
    assert!(matches!(run(&opts, Some(&root()), &seen), Err(StubStop::Look)));
    let seen = vec![facts("d/f", Found::File, Some(3)), facts("d", Found::Dir, Some(2))];
    let Ok(plan) = run(&opts, Some(&root()), &seen) else {
        panic!("both paths can be stubbed");
    };
    assert!(plan.skipped.is_empty());
    assert_eq!(plan.targets.len(), 2);
    assert_eq!(
        stub_steps(&plan.targets, false),
        vec![
            StubStep::WriteStub(0),
            StubStep::RemoveFile(0),
            StubStep::EmptyDir(1),
            StubStep::WriteDirStub(1),
        ]
    );
    assert!(stub_steps(&plan.targets, true).is_empty());
}

#[test]
fn one_bad_path_spoils_a_run() {
    let opts = options(&["d/f", "./old", "d"]);
    let mut old = facts("old", Found::Nothing, None);
    old.stubbed = true;
    let good = || facts("d/f", Found::File, Some(3));
    let seen = vec![good(), old, facts("d", Found::Dir, Some(7))];
    assert_eq!(
        failure(run(&opts, Some(&root()), &seen)),
        "cannot stub 'd': working tree differs from clone_root (run 'omemfs push' to save changes first)"
    );
    let seen = vec![good(), facts("old", Found::Nothing, None)];
    assert_eq!(failure(run(&opts, Some(&root()), &seen)), "path does not exist: ./old");
    let mut old = facts("old", Found::Nothing, None);
    old.stubbed = true;
    let seen = vec![good(), old, facts("d", Found::Dir, Some(2))];
    let Ok(plan) = run(&opts, Some(&root()), &seen) else {
        panic!("what is stubbed already is skipped");
    };
    assert_eq!(plan.skipped, vec!["old".to_string()]);
    assert_eq!(plan.targets[1].record.hash, hash(2));
    let seen = vec![facts("gone/d", Found::Dir, Some(1))];
    assert_eq!(
        failure(run(&options(&["gone/d"]), Some(&root()), &seen)),
        format!("object not found: {}", hash(4).to_hex())
    );
}

#[test]
fn a_path_is_looked_at() {
    assert_eq!(check_path("a", "./a", Found::File, true, true).unwrap(), Check::Skip);
    assert_eq!(check_path("a", "./a", Found::Nothing, true, false).unwrap(), Check::Skip);
    assert_eq!(check_path("a", "./a", Found::Dir, false, false).unwrap(), Check::LookUp);
    assert_eq!(
        check_path("a", "./a", Found::Nothing, false, true).unwrap_err().message(),
        "path does not exist: ./a"
    );
    assert_eq!(
        check_path("a", "./a", Found::File, false, true).unwrap_err().message(),
        "cannot stub 'a': the .omemfs-stub file would be visible to Git (add it to .gitignore, or stub the entire Git repo root)"
    );
}

#[test]
fn the_last_sync_decides_what_is_stubbed() {
    match find_target(&root(), "d/f", Found::File) {
        Ok(t) => {
            assert_eq!(t.rel, "d/f");
            assert_eq!(t.record.target_type, StubTargetType::Blob);
            assert_eq!((t.record.hash, t.record.size), (hash(3), 7));
            assert_eq!(t.record.mode.as_deref(), Some("644"));
        }
        _ => panic!("the file is there"),
    }
    match find_target(&root(), "d", Found::Dir) {
        Ok(t) => {
            assert_eq!(t.record.target_type, StubTargetType::Tree);
            assert_eq!((t.record.hash, t.record.blob_count), (hash(2), 1));
        }
        _ => panic!("the directory is there"),
    }
    let missing = "not found in clone_root (run 'omemfs push' to sync first)";
    assert_eq!(complaint("x", Found::File), format!("cannot stub 'x': {missing}"));
    assert_eq!(complaint("x", Found::Dir), format!("cannot stub 'x': {missing}"));
    assert_eq!(complaint("d", Found::File), format!("cannot stub 'd': {missing}"));
    assert_eq!(complaint("gone/f", Found::File), format!("cannot stub 'gone/f': {missing}"));
    assert_eq!(complaint("gone/d", Found::Dir), format!("object not found: {}", hash(4).to_hex()));
    assert_eq!(complaint("l", Found::File), "cannot stub 'l': clone_root entry is not a file");
    assert_eq!(complaint("l", Found::Dir), "cannot stub 'l': clone_root entry is not a directory");
    let unread = TreeNode { hash: hash(9), content: Content::Unread };
    assert!(matches!(find_target(&unread, "a", Found::File), Err(Miss::Unread(h)) if h == hash(9)));
}

#[test]
fn only_what_is_unchanged_is_stubbed() {
    let t = StubTarget { rel: "a".to_string(), record: blob_stub(hash(5), 1, None, &None) };
    assert!(verify_unchanged(&t, hash(5)).is_ok());
    assert_eq!(
        verify_unchanged(&t, hash(6)).unwrap_err().message(),
        "cannot stub 'a': working tree differs from clone_root (run 'omemfs push' to save changes first)"
    );
}

#[test]
fn what_a_stub_run_says() {
    let t = |rel: &str| StubTarget { rel: rel.to_string(), record: blob_stub(hash(1), 1, None, &None) };
    assert_eq!(skip_warning("a"), "warning: 'a' is already stubbed, skipping");
    assert_eq!(
        stub_report(&Vec::new(), true),
        (vec!["Nothing to stub.".to_string()], "0 files".to_string())
    );
    assert_eq!(
        stub_report(&vec![t("a"), t("b")], true),
        (
            vec![
                "  would stub: a".to_string(),
                "  would stub: b".to_string(),
                "2 file(s) would be stubbed.".to_string(),
            ],
            "2 files (dry run)".to_string()
        )
    );
    assert_eq!(
        stub_report(&vec![t("a")], false),
        (vec!["1 file(s) stubbed.".to_string()], "1 files".to_string())
    );
}
