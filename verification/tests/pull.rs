use omemfs::collections::{PathMap, PathSet};
use omemfs::commands::pull::{
    apply_diff, base_root_source, build_conflict_meta, classify_conflicts, cleanup_dirs,
    diff_trees, entry_source, flatten_clone_root_present, label_style, list_scoped, paint_diff_entry,
    mark_deleted_tree, marker_is_stale, materialise_tree, parent_path, pending_fetch,
    print_conflict_result, prunes_dir, pull_full, pull_report, pull_scoped, pull_start,
    records_io, removed_root, requested_paths, run, same_content, scope_of, scoped_change,
    scoped_header, splice_into_clone_root, write_conflict_for_path, Action, Applied, CloneRootEdit,
    DiffEntry, LabelStyle, PathDiff, PathFacts, PullOptions, PullPlan, PullStart, Scope,
    ScopedPlan, Step,
};
use omemfs::commands::transfer::{Next, Walk};
use omemfs::object::{Content, Halt, ObjectHash, StubTargetType, Timestamp, TreeEntry, TreeNode};
use std::collections::BTreeMap;

fn hash(n: u64) -> ObjectHash {
    ObjectHash { w0: n, w1: 0, w2: 0, w3: 0 }
}

fn blob(name: &str, n: u64) -> TreeEntry {
    TreeEntry::Blob { name: name.to_string(), hash: hash(n), size: 10, mtime: None, mode: None }
}

fn link(name: &str, target: &str) -> TreeEntry {
    TreeEntry::Symlink { name: name.to_string(), target: target.to_string(), mtime: None }
}

fn dir(name: &str, size: u64, node: TreeNode) -> TreeEntry {
    TreeEntry::Tree {
        name: name.to_string(),
        size,
        mtime: Some(Timestamp { secs: 7, nanos: 0 }),
        blob_count: 1,
        node,
    }
}

fn tree(n: u64, es: Vec<TreeEntry>) -> TreeNode {
    TreeNode { hash: hash(n), content: Content::Entries(es) }
}

fn added(n: u64) -> DiffEntry {
    DiffEntry::Added { hash: hash(n), size: 19, mtime: None, mode: None }
}

fn facts() -> PathFacts {
    PathFacts {
        exists: false,
        stub_exists: false,
        stub_visible: false,
        has_git_child: false,
        dir_stub_visible: false,
        in_cache: false,
    }
}

fn nothing_applied() -> Applied {
    Applied { changed: 0, deleted_dirs: PathSet::new() }
}

/// A diff of `n` added files, each with a content of its own.
fn added_blobs_diff(n: u64) -> (PathMap<DiffEntry>, Vec<(String, ObjectHash)>) {
    let mut diff = PathMap::new();
    let mut files = Vec::new();
    for i in 0..n {
        let rel = format!("file{i}.txt");
        diff.insert(rel.clone(), added(100 + i));
        files.push((rel, hash(100 + i)));
    }
    (diff, files)
}

#[test]
fn apply_diff_materialises_correct_content_for_many_added_blobs() {
    let (diff, files) = added_blobs_diff(6);
    let mut state = nothing_applied();
    for (rel, content) in &files {
        let acts = apply_diff(&mut state, rel, diff.get(rel).unwrap(), 0, &facts());
        assert!(
            matches!(&acts[..], [Action::Materialise { hash, .. }] if hash == content),
            "materialised content mismatch for {rel}"
        );
    }
    assert_eq!(state.changed, files.len());
}

#[test]
fn apply_diff_batches_blob_fetches_for_concurrency() {
    let (diff, files) = added_blobs_diff(6);
    let pending: Vec<ObjectHash> = files
        .iter()
        .filter_map(|(rel, _)| pending_fetch(diff.get(rel).unwrap(), 0, &facts()))
        .collect();
    assert_eq!(pending.len(), files.len());
    let mut batch = Walk::new(&pending);
    let mut in_flight = 0;
    for _ in 0..4 {
        if let Next::Process(_) = batch.next() {
            in_flight += 1;
        }
    }
    assert!(in_flight >= 2, "the fetches of {} files overlap ({in_flight})", files.len());
    let mut state = nothing_applied();
    for (rel, _) in &files {
        apply_diff(&mut state, rel, diff.get(rel).unwrap(), 0, &facts());
    }
    assert_eq!(state.changed, files.len());
}

/// The files and symlinks of a tree, by path.
fn leaves(node: &TreeNode, prefix: &str, out: &mut BTreeMap<String, String>) {
    if let Content::Entries(es) = &node.content {
        for e in es {
            let path =
                if prefix.is_empty() { e.name().clone() } else { format!("{prefix}/{}", e.name()) };
            match e {
                TreeEntry::Blob { hash, mode, .. } => {
                    out.insert(path, format!("{} {:?}", hash.to_hex(), mode));
                }
                TreeEntry::Symlink { target, .. } => {
                    out.insert(path, format!("-> {target}"));
                }
                TreeEntry::Tree { node, .. } => leaves(node, &path, out),
            }
        }
    }
}

#[test]
fn a_diff_turns_the_base_into_the_target() {
    let base = tree(
        1,
        vec![
            blob("gone", 10),
            blob("kept", 11),
            blob("changed", 12),
            link("l", "a"),
            dir("d", 5, tree(2, vec![blob("x", 13), dir("deep", 5, tree(3, vec![blob("y", 14)]))])),
            dir("same", 5, tree(4, vec![blob("z", 15)])),
        ],
    );
    let target = tree(
        5,
        vec![
            blob("kept", 11),
            blob("changed", 20),
            link("l", "b"),
            dir("d", 5, tree(6, vec![blob("x", 21), blob("new", 22)])),
            dir("same", 5, tree(4, vec![blob("z", 15)])),
            dir("more", 5, tree(7, vec![blob("w", 23)])),
            dir("empty", 0, tree(8, vec![])),
        ],
    );
    let diff = diff_trees(Some(&base), Some(&target), 0).unwrap();
    let mut got = BTreeMap::new();
    leaves(&base, "", &mut got);
    for path in diff.sorted_keys() {
        match diff.get(&path).unwrap() {
            DiffEntry::Added { hash, mode, .. } | DiffEntry::Modified { hash, mode, .. } => {
                got.insert(path, format!("{} {:?}", hash.to_hex(), mode));
            }
            DiffEntry::Symlink { target, .. } => {
                got.insert(path, format!("-> {target}"));
            }
            DiffEntry::Deleted => {
                got.remove(&path);
            }
            DiffEntry::AddedEmptyDir => assert_eq!(path, "empty"),
            DiffEntry::AddedTree { .. } => panic!("nothing is stubbed"),
        }
    }
    let mut wanted = BTreeMap::new();
    leaves(&target, "", &mut wanted);
    assert_eq!(got, wanted);
    assert!(!diff.contains_key("kept") && !diff.contains_key("same/z"));
    assert!(diff_trees(Some(&base), Some(&base), 0).unwrap().is_empty());
    assert!(diff_trees(Some(&base), None, 0).unwrap().is_empty());
}

#[test]
fn a_new_large_directory_is_one_change() {
    let target = tree(1, vec![dir("big", 500, tree(2, vec![blob("x", 3)]))]);
    let diff = diff_trees(None, Some(&target), 100).unwrap();
    assert_eq!(diff.sorted_keys(), vec!["big"]);
    assert!(matches!(diff.get("big"), Some(DiffEntry::AddedTree { hash: h, .. }) if *h == hash(2)));
    let git = tree(1, vec![dir("big", 500, tree(2, vec![dir(".git", 1, tree(4, vec![blob("HEAD", 5)]))]))]);
    assert_eq!(
        diff_trees(None, Some(&git), 100).unwrap().sorted_keys(),
        vec!["big/.git/HEAD"]
    );
    let unread = tree(1, vec![dir("d", 1, TreeNode { hash: hash(9), content: Content::Unread })]);
    assert!(matches!(diff_trees(None, Some(&unread), 0), Err(Halt::Unread(h)) if h == hash(9)));
}

#[test]
fn a_deleted_directory_is_deleted_by_its_files() {
    let mut out = PathMap::new();
    let node = tree(1, vec![blob("x", 2), dir("d", 1, tree(3, vec![blob("y", 4)]))]);
    assert!(mark_deleted_tree(&node, "p", &mut out).is_ok());
    assert_eq!(out.sorted_keys(), vec!["p/d/y", "p/x"]);
}

fn map(items: Vec<(&str, DiffEntry)>) -> PathMap<DiffEntry> {
    let mut m = PathMap::new();
    for (k, v) in items {
        m.insert(k.to_string(), v);
    }
    m
}

#[test]
fn changes_on_both_sides_conflict_unless_they_agree() {
    let remote = map(vec![("a", added(1)), ("b", added(2)), ("c", added(3)), ("d", DiffEntry::Deleted)]);
    let local = map(vec![("a", added(1)), ("b", added(9)), ("d", DiffEntry::Deleted), ("e", added(5))]);
    let (clean, conflicts) = classify_conflicts(&remote, &local);
    assert_eq!(conflicts, vec!["b"]);
    assert!(clean.contains_key("c") && !clean.contains_key("b"));
    assert!(same_content(&added(1), &added(1)) && !same_content(&added(1), &added(2)));
    let (all, none) = classify_conflicts(&remote, &PathMap::new());
    assert_eq!(all.len(), 4);
    assert!(none.is_empty());
}

#[test]
fn a_pull_is_planned() {
    let remote = map(vec![("b", added(2)), ("a", DiffEntry::Deleted)]);
    let local = map(vec![("b", added(3))]);
    let none = PathMap::new();
    assert!(matches!(pull_full(&none, &local, false), PullPlan::UpToDate));
    match pull_full(&remote, &local, true) {
        PullPlan::Listing(lines) => {
            let got: Vec<(&str, &str)> = lines.iter().map(|l| (l.label, l.path.as_str())).collect();
            assert_eq!(got, vec![("deleted", "a"), ("added", "b")]);
        }
        _ => panic!("a dry run lists"),
    }
    assert!(matches!(pull_full(&remote, &local, false), PullPlan::Conflicts(p) if p == vec!["b"]));
    assert!(matches!(pull_full(&remote, &none, false), PullPlan::Apply(m) if m.len() == 2));
    let report = pull_report("origin", &remote, &map(vec![("z", added(4))]), 2);
    assert_eq!(report.header, "Pulling from origin ...");
    assert_eq!(report.updated, "2 path(s) updated.");
    assert_eq!(report.preserved, vec!["z"]);
    assert_eq!(
        print_conflict_result("Stopped.", &vec!["b".to_string()]),
        vec![
            "Stopped.",
            "  conflict: b",
            "\nResolve conflicts and push:",
            "  omemfs push           (after resolving conflicts)",
            "  omemfs restore <path> (discard local changes)",
        ]
    );
}

#[test]
fn a_pull_starts_where_it_may() {
    let empty = hash(0);
    assert!(matches!(
        pull_start(Some(hash(1)), true, Some(hash(2)), empty),
        Ok(PullStart::Compare(h)) if h == hash(2)
    ));
    assert!(matches!(pull_start(Some(hash(1)), true, Some(hash(1)), empty), Ok(PullStart::UpToDate)));
    assert!(matches!(pull_start(None, false, None, empty), Ok(PullStart::UpToDate)));
    assert!(pull_start(Some(hash(1)), false, None, empty)
        .err()
        .unwrap()
        .message()
        .starts_with("index root not found on remote"));
    assert!(records_io(true, false));
    assert!(!records_io(true, true) && !records_io(false, false));
}

#[test]
fn scoped_pulls() {
    assert!(matches!(scope_of(vec!["a".to_string(), "".to_string()]), Scope::Whole));
    assert!(matches!(
        scope_of(vec!["a/b".to_string(), "a".to_string()]),
        Scope::Paths(p) if p == vec!["a"]
    ));
    let clone = tree(1, vec![blob("x", 2)]);
    let remote = tree(3, vec![blob("x", 4)]);
    assert!(scoped_change(Some(&clone), Some(&clone), 0).unwrap().is_empty());
    assert_eq!(scoped_change(Some(&clone), Some(&remote), 0).unwrap().sorted_keys(), vec!["x"]);
    assert_eq!(scoped_change(Some(&clone), None, 0).unwrap().sorted_keys(), vec!["x"]);
    let pd = |rel: &str, local: PathMap<DiffEntry>| PathDiff {
        rel: rel.to_string(),
        remote_diff: map(vec![(&format!("{rel}/x"), added(1))]),
        local_diff: local,
        remote_hash: Some(hash(3)),
    };
    assert!(matches!(pull_scoped(&Vec::new(), false), ScopedPlan::UpToDate));
    let two = vec![pd("a", PathMap::new()), pd("b", map(vec![("b/x", added(2))]))];
    assert!(matches!(pull_scoped(&two, true), ScopedPlan::Listing(l) if l.len() == 2));
    assert_eq!(list_scoped(&two).len(), 2);
    match pull_scoped(&two, false) {
        ScopedPlan::Conflicts(cs) => {
            assert_eq!(cs.len(), 1);
            assert_eq!((cs[0].path.as_str(), cs[0].owner), ("b/x", 1));
        }
        _ => panic!("one path conflicts"),
    }
    assert!(matches!(pull_scoped(&two[..1].iter().map(|_| pd("a", PathMap::new())).collect(), false), ScopedPlan::Apply));
    assert_eq!(scoped_header("origin", &vec![pd("a", PathMap::new())]), "Pulling a from origin ...");
    assert_eq!(scoped_header("origin", &two), "Pulling from origin ...");
}

#[test]
fn conflicts_at_the_same_path_of_two_scopes_are_told_apart() {
    let pd = |rel: &str, paths: &[&str]| PathDiff {
        rel: rel.to_string(),
        remote_diff: map(paths.iter().map(|p| (*p, added(1))).collect()),
        local_diff: map(paths.iter().map(|p| (*p, added(2))).collect()),
        remote_hash: Some(hash(3)),
    };
    let pds = vec![pd("a", &["x", "z"]), pd("b", &["y", "x"]), pd("c", &["x"])];
    let ScopedPlan::Conflicts(cs) = pull_scoped(&pds, false) else {
        panic!("every scope conflicts");
    };
    let got: Vec<(&str, usize)> = cs.iter().map(|c| (c.path.as_str(), c.owner)).collect();
    assert_eq!(got, vec![("x", 0), ("x", 1), ("x", 2), ("y", 1), ("z", 0)]);
}

#[test]
fn the_clone_root_is_edited() {
    let comps = vec!["a".to_string(), "b".to_string()];
    assert!(matches!(
        splice_into_clone_root(Some(hash(1)), &comps, None, None, 0, 0),
        Ok(CloneRootEdit::Remove(h)) if h == hash(1)
    ));
    assert_eq!(
        splice_into_clone_root(None, &comps, None, None, 0, 0).err().unwrap().message(),
        "no base root to remove from"
    );
    match splice_into_clone_root(None, &comps, Some(hash(2)), None, 9, 3) {
        Ok(CloneRootEdit::Splice(TreeEntry::Tree { name, size, blob_count, node, .. })) => {
            assert_eq!((name.as_str(), size, blob_count, node.hash), ("b", 9, 3, hash(2)));
        }
        _ => panic!("a directory takes its place"),
    }
    assert_eq!(removed_root(None).err().unwrap().message(), "entry not found in clone_root");
}

#[test]
fn changes_become_actions() {
    let mut s = nothing_applied();
    let mut seen = facts();
    let acts = apply_diff(&mut s, "f", &added(1), 10, &seen);
    assert!(matches!(&acts[..], [Action::WriteStub(r)] if r.target_type == StubTargetType::Blob));
    seen.stub_visible = true;
    assert!(matches!(&apply_diff(&mut s, "f", &added(1), 10, &seen)[..], [Action::Materialise { .. }]));
    assert!(pending_fetch(&added(1), 10, &seen).is_none());
    seen.exists = true;
    let acts = apply_diff(&mut s, "d/f", &DiffEntry::Deleted, 0, &seen);
    assert!(matches!(&acts[..], [Action::RemoveFile, Action::RemoveStub]));
    assert_eq!(s.deleted_dirs.sorted(), vec!["d"]);
    let whole = DiffEntry::AddedTree { hash: hash(4), size: 9, mtime: None, blob_count: 2 };
    let acts = apply_diff(&mut s, "d", &whole, 1, &seen);
    assert!(matches!(&acts[..], [Action::CreateDir, Action::WriteDirStub(r)] if r.blob_count == 2));
    seen.has_git_child = true;
    let acts = apply_diff(&mut s, "d", &whole, 1, &seen);
    assert!(matches!(&acts[..], [Action::MaterialiseTree(h)] if *h == hash(4)));
    assert_eq!(parent_path("a/b/c"), "a/b");
    assert_eq!(parent_path("a"), "");
    let mut dirs = PathSet::new();
    dirs.insert("a/b".to_string());
    let cleaned = cleanup_dirs(&dirs);
    assert!(cleaned.iter().any(|d| d == "a/b") && cleaned.iter().any(|d| d == "a"), "{cleaned:?}");
    assert!(marker_is_stale(true, Some(&vec![".omemfs-stub".to_string()])));
    assert!(!marker_is_stale(true, Some(&vec![".omemfs-stub".to_string(), "x".to_string()])));
    assert!(prunes_dir(Some(&Vec::new())) && !prunes_dir(None));
}

#[test]
fn a_conflict_keeps_all_sides() {
    let base = tree(1, vec![blob("f", 2)]);
    let remote = map(vec![("f", DiffEntry::Modified {
        hash: hash(3),
        size: 1,
        mtime: None,
        mode: Some("755".to_string()),
    })]);
    let files = write_conflict_for_path("f", Some(&base), &remote, true).unwrap();
    assert_eq!((files.base, files.local, files.remote), (Some(hash(2)), true, Some(hash(3))));
    assert_eq!(files.meta.remote.unwrap().mode.as_deref(), Some("755"));
    assert_eq!(entry_source(&added(7)), Some(hash(7)));
    assert_eq!(entry_source(&DiffEntry::Deleted), None);
    assert_eq!(base_root_source(Some(&base), "f").unwrap(), Some(hash(2)));
    assert_eq!(base_root_source(None, "f").unwrap(), None);
    let meta = build_conflict_meta(None, None);
    assert!(meta.base.is_none() && meta.remote.is_none());
}

#[test]
fn a_directory_is_written_out_whole() {
    let node = tree(1, vec![blob("x", 2), dir("d", 1, tree(3, vec![link("l", "t")]))]);
    let mut steps = Vec::new();
    assert!(materialise_tree(&node, "p", &mut steps).is_ok());
    assert!(matches!(&steps[0], Step::CreateDir { path } if path == "p"));
    assert!(matches!(&steps[1], Step::WriteFile { path, hash: h, .. } if path == "p/x" && *h == hash(2)));
    assert!(matches!(&steps[2], Step::CreateDir { path } if path == "p/d"));
    assert!(matches!(&steps[3], Step::WriteLink { path, .. } if path == "p/d/l"));
    assert!(matches!(&steps[4], Step::SetDirTime { path, .. } if path == "p/d"));
    let mut dirs = PathSet::new();
    dirs.insert("d".to_string());
    let flat = flatten_clone_root_present(&node, &dirs).unwrap();
    assert!(flat.contains_key("x"));
}

#[test]
fn paths_default_to_the_current_directory() {
    let here = "/w/sub".to_string();
    assert_eq!(requested_paths(&Vec::new(), &here), vec!["/w/sub"]);
    assert_eq!(requested_paths(&vec!["a".to_string()], &here), vec!["a"]);
    let opts = PullOptions {
        work_dir: "/w".to_string(),
        current_dir: here,
        paths: Vec::new(),
        dry_run: false,
        stub_threshold: 0,
    };
    assert_eq!(run(&opts), vec!["/w/sub"]);
    assert!(matches!(label_style("added"), LabelStyle::Added));
    assert!(matches!(label_style("deleted"), LabelStyle::Deleted));
    assert!(matches!(label_style("modified"), LabelStyle::Modified));
}

#[test]
fn a_pull_merges_three_ways() {
    let clone = tree(1, vec![blob("a", 1), blob("b", 2), blob("c", 3)]);
    let remote = tree(2, vec![blob("a", 10), blob("b", 2), blob("d", 4)]);
    let working = tree(3, vec![blob("a", 1), blob("b", 20), blob("c", 3), blob("d", 4)]);
    let remote_diff = diff_trees(Some(&clone), Some(&remote), 0).unwrap();
    let local_diff = diff_trees(Some(&clone), Some(&working), 0).unwrap();
    let PullPlan::Apply(clean) = pull_full(&remote_diff, &local_diff, false) else {
        panic!("there is no conflict");
    };
    let mut got = BTreeMap::new();
    leaves(&working, "", &mut got);
    for path in clean.sorted_keys() {
        match clean.get(&path).unwrap() {
            DiffEntry::Added { hash, mode, .. } | DiffEntry::Modified { hash, mode, .. } => {
                got.insert(path, format!("{} {:?}", hash.to_hex(), mode));
            }
            DiffEntry::Deleted => {
                got.remove(&path);
            }
            _ => panic!("only files change"),
        }
    }
    let mut wanted = BTreeMap::new();
    leaves(&tree(4, vec![blob("a", 10), blob("b", 20), blob("d", 4)]), "", &mut wanted);
    assert_eq!(got, wanted);
    assert_eq!(paint_diff_entry("added", "x"), "added: x");
}

#[test]
fn a_pull_with_stubs_merges_three_ways() {
    let clone = tree(1, vec![blob("a", 1), blob("kind", 9), dir("d", 900, tree(5, vec![blob("x", 2)]))]);
    let remote = tree(
        2,
        vec![
            blob("a", 10),
            dir("kind", 1, tree(8, vec![blob("in", 12)])),
            dir("d", 900, tree(6, vec![blob("x", 2), blob("y", 3)])),
            dir("big", 500, tree(7, vec![blob("z", 4)])),
        ],
    );
    let working = tree(
        3,
        vec![
            blob("a", 1),
            blob("kind", 9),
            dir("d", 900, tree(5, vec![blob("x", 2)])),
            blob("mine", 11),
        ],
    );
    let remote_diff = diff_trees(Some(&clone), Some(&remote), 100).unwrap();
    let local_diff = diff_trees(Some(&clone), Some(&working), 0).unwrap();
    let PullPlan::Apply(clean) = pull_full(&remote_diff, &local_diff, false) else {
        panic!("there is no conflict");
    };
    // A directory that was there is never one change, however large it is.
    assert_eq!(clean.sorted_keys(), vec!["a", "big", "d/y", "kind/in"]);
    assert!(matches!(clean.get("a"), Some(DiffEntry::Modified { hash: h, .. }) if *h == hash(10)));
    assert!(matches!(clean.get("d/y"), Some(DiffEntry::Added { hash: h, .. }) if *h == hash(3)));
    assert!(matches!(clean.get("kind/in"), Some(DiffEntry::Added { hash: h, .. }) if *h == hash(12)));
    assert!(matches!(clean.get("big"), Some(DiffEntry::AddedTree { hash: h, .. }) if *h == hash(7)));
    assert!(!clean.contains_key("mine") && !clean.contains_key("big/z"));
}
