use omemfs::commands::clone::populate::CloneStep;
use omemfs::commands::expand::{
    collect_tree_fetches, count_materialised, expand_file, expand_report, expand_stub,
    expand_tree_materialise, last_steps, nothing_line, plan_stub, run, would_expand, LastStep,
    StubItem, Walk,
};
use omemfs::commands::stub::{find_target, Found};
use omemfs::commands::transfer::{self, HashNames, Next};
use omemfs::object::{
    blob_stub, tree_stub, Content, Halt, ObjectHash, StubRecord, Timestamp, TreeEntry, TreeNode,
};

fn hash(n: u64) -> ObjectHash {
    ObjectHash { w0: n, w1: 1, w2: 2, w3: 3 }
}

fn blob(name: &str, n: u64, size: u64) -> TreeEntry {
    TreeEntry::Blob { name: name.to_string(), hash: hash(n), size, mtime: None, mode: None }
}

fn dir(name: &str, n: u64, size: u64, content: Content) -> TreeEntry {
    TreeEntry::Tree {
        name: name.to_string(),
        size,
        mtime: None,
        blob_count: 1,
        node: TreeNode { hash: hash(n), content },
    }
}

/// A tree of `n` files, each with a content of its own.
fn tree_with_blobs(n: u64) -> (TreeNode, Vec<(String, ObjectHash)>) {
    let files: Vec<(String, ObjectHash)> =
        (0..n).map(|i| (format!("file{i}.txt"), hash(100 + i))).collect();
    let entries = files
        .iter()
        .map(|(name, h)| TreeEntry::Blob {
            name: name.clone(),
            hash: *h,
            size: 21,
            mtime: None,
            mode: None,
        })
        .collect();
    (TreeNode { hash: hash(1), content: Content::Entries(entries) }, files)
}

#[test]
fn expand_tree_materialises_correct_content() {
    let (tree, files) = tree_with_blobs(6);
    let mut walk = Walk::new();
    assert!(expand_tree_materialise(&tree, "dest", 0, &Vec::new(), &mut walk).is_ok());
    assert!(walk.asked.is_none());
    assert_eq!(count_materialised(&walk.steps), 6);
    for (name, h) in &files {
        let path = format!("dest/{name}");
        assert!(
            walk.steps.iter().any(|s| matches!(
                s,
                CloneStep::WriteFile { path: p, hash, .. } if *p == path && hash == h
            )),
            "materialised content mismatch for {name}"
        );
    }
}

#[test]
fn expand_tree_batches_blob_fetches_for_concurrency() {
    let (tree, files) = tree_with_blobs(6);
    let mut pending = HashNames::new();
    assert!(collect_tree_fetches(&tree, &HashNames::new(), 0, &mut pending).is_ok());
    let roots: Vec<ObjectHash> =
        files.iter().map(|(_, h)| *h).filter(|h| pending.contains(*h)).collect();
    assert_eq!(roots.len(), files.len());
    let mut batch = transfer::Walk::new(&roots);
    let mut in_flight = 0;
    for _ in 0..4 {
        if let Next::Process(_) = batch.next() {
            in_flight += 1;
        }
    }
    assert!(in_flight >= 2, "the fetches of {} files overlap ({in_flight})", files.len());
    let mut walk = Walk::new();
    assert!(expand_tree_materialise(&tree, "dest", 0, &Vec::new(), &mut walk).is_ok());
    assert_eq!(count_materialised(&walk.steps), files.len());
}

fn record(size: u64) -> StubRecord {
    blob_stub(hash(size), size, None, &None)
}

fn items() -> Vec<StubItem> {
    vec![
        StubItem { path: "a/big".to_string(), record: record(1000) },
        StubItem { path: "a/small".to_string(), record: record(10) },
        StubItem { path: "ab".to_string(), record: record(10) },
    ]
}

#[test]
fn scopes_and_sizes_choose_the_stubs() {
    let all = run(&items(), &Vec::new(), 0);
    assert_eq!((all.expand, all.kept), (vec![0, 1, 2], vec![]));
    let small = run(&items(), &Vec::new(), 100);
    assert_eq!((small.expand, small.kept), (vec![1, 2], vec![0]));
    let scoped = run(&items(), &vec!["a".to_string()], 100);
    assert_eq!((scoped.expand, scoped.kept), (vec![1], vec![0]));
    let named = run(&items(), &vec!["a/big".to_string()], 100);
    assert_eq!((named.expand, named.kept), (vec![0], vec![]));
    let whole = run(&items(), &vec!["".to_string(), "zz".to_string()], 1000);
    assert_eq!((whole.expand, whole.kept), (vec![1, 2], vec![0]));
}

#[test]
fn large_entries_wait_for_an_answer() {
    let tree = TreeNode {
        hash: hash(1),
        content: Content::Entries(vec![
            blob("big", 2, 500),
            dir("far", 3, 900, Content::Entries(vec![blob("x", 4, 1)])),
            blob("small", 5, 5),
        ]),
    };
    let ask = |answers: Vec<bool>| {
        let mut w = Walk::new();
        assert!(expand_tree_materialise(&tree, "d", 100, &answers, &mut w).is_ok());
        w
    };
    let first = ask(vec![]);
    assert_eq!(first.asked.as_deref(), Some("d/big.omemfs-stub"));
    assert_eq!(first.steps.len(), 1);
    let second = ask(vec![false]);
    assert_eq!(second.asked.as_deref(), Some("d/far/.omemfs-stub"));
    let stubbed = ask(vec![false, false]);
    assert!(stubbed.asked.is_none());
    assert_eq!(count_materialised(&stubbed.steps), 1);
    assert!(matches!(&stubbed.steps[1], CloneStep::StubFile { path, .. } if path == "d/big"));
    assert!(matches!(&stubbed.steps[2], CloneStep::StubDir { path, .. } if path == "d/far"));
    let visible = ask(vec![true, true]);
    assert_eq!(count_materialised(&visible.steps), 3);
}

#[test]
fn the_plan_leaves_out_what_is_cached_or_large() {
    let tree = TreeNode {
        hash: hash(1),
        content: Content::Entries(vec![
            blob("cached", 2, 5),
            blob("big", 3, 500),
            blob("small", 4, 5),
            dir("far", 5, 900, Content::Unread),
            dir("near", 6, 9, Content::Entries(vec![blob("x", 7, 1)])),
        ]),
    };
    let mut cached = HashNames::new();
    cached.insert(hash(2));
    let mut out = HashNames::new();
    assert!(collect_tree_fetches(&tree, &cached, 100, &mut out).is_ok());
    for (n, there) in [(2, false), (3, false), (4, true), (5, false), (7, true)] {
        assert_eq!(out.contains(hash(n)), there, "{n}");
    }
    assert!(matches!(
        collect_tree_fetches(&tree, &cached, 0, &mut HashNames::new()),
        Err(Halt::Unread(h)) if h == hash(5)
    ));
    let mut one = HashNames::new();
    assert!(plan_stub(&record(8), &tree, &cached, 100, &mut one).is_ok());
    assert!(one.contains(hash(8)));
    let mut more = HashNames::new();
    let whole = tree_stub(hash(1), 900, None, 5);
    assert!(plan_stub(&whole, &tree, &cached, 100, &mut more).is_ok());
    assert!(more.contains(hash(7)) && !more.contains(hash(3)));
}

#[test]
fn what_an_expansion_says() {
    assert_eq!(nothing_line(0), "Nothing to expand.");
    assert_eq!(nothing_line(2), "Nothing to expand (2 stub(s) at or above threshold kept).");
    assert_eq!(would_expand("a/b"), "  would expand: a/b");
    assert_eq!(
        expand_report(true, 3, 0, 0),
        ("3 would expand".to_string(), "3 stub(s) would be expanded.".to_string())
    );
    assert_eq!(
        expand_report(true, 3, 0, 1),
        (
            "3 would expand, 1 kept".to_string(),
            "3 stub(s) would be expanded, 1 stub(s) at or above threshold kept.".to_string()
        )
    );
    assert_eq!(
        expand_report(false, 3, 7, 0),
        ("7 expanded".to_string(), "7 file(s) expanded.".to_string())
    );
    assert_eq!(
        expand_report(false, 3, 7, 2),
        (
            "7 expanded, 2 kept".to_string(),
            "7 file(s) expanded, 2 stub(s) at or above threshold kept.".to_string()
        )
    );
}

#[test]
fn a_stubbed_file_comes_back_as_it_was() {
    let file = TreeEntry::Blob {
        name: "f".to_string(),
        hash: hash(7),
        size: 5,
        mtime: None,
        mode: Some("755".to_string()),
    };
    let root = TreeNode { hash: hash(1), content: Content::Entries(vec![file]) };
    let Ok(target) = find_target(&root, "f", Found::File) else {
        panic!("the file is there");
    };
    match expand_file(&target.rel, &target.record) {
        CloneStep::WriteFile { path, hash: h, mtime, mode } => {
            assert_eq!((path.as_str(), h, mtime), ("f", hash(7), None));
            assert_eq!(mode.as_deref(), Some("755"));
        }
        _ => panic!("a file is written"),
    }
    let mut names = HashNames::new();
    names.insert(hash(1));
    names.insert(hash(2));
    names.insert(hash(1));
    assert_eq!(names.into_vec().len(), 2);
}

#[test]
fn a_stub_goes_when_its_content_is_in_place() {
    let (tree, files) = tree_with_blobs(2);
    let time = Timestamp { secs: 5, nanos: 0 };
    let dir = StubItem { path: "d".to_string(), record: tree_stub(hash(1), 42, Some(time), 2) };
    let mut walk = Walk::new();
    assert!(expand_stub(&dir, &tree, 0, &Vec::new(), &mut walk).is_ok());
    assert_eq!(count_materialised(&walk.steps), files.len());
    assert_eq!(
        last_steps(&dir.record),
        vec![LastStep::RemoveDirStub, LastStep::SetDirTime(time)]
    );
    let untimed = tree_stub(hash(1), 42, None, 2);
    assert_eq!(last_steps(&untimed), vec![LastStep::RemoveDirStub]);
    let file = StubItem { path: "f".to_string(), record: record(7) };
    let mut walk = Walk::new();
    assert!(expand_stub(&file, &tree, 0, &Vec::new(), &mut walk).is_ok());
    assert!(matches!(
        walk.steps.as_slice(),
        [CloneStep::WriteFile { path, hash: h, .. }] if path == "f" && *h == hash(7)
    ));
    assert_eq!(last_steps(&file.record), vec![LastStep::RemoveStub]);
}
