use omemfs::collections::PathSet;
use omemfs::commands::push::scoped::{
    absent_note, after_read_failure, plan_scoped, push_scoped, scoped_path, scoped_summary, Look,
    PathOutcome, PathState, PutItem, ScopedPush, ScopedResult, SpliceStep, Splices, Splicing,
};
use omemfs::commands::push::{
    backup_warnings, check_paths, deduplicate_paths, is_scoped_path_ignored, is_system_path,
    lead_paths, post_clone_sync_guard, push_full, report_unresolved_conflicts,
    report_unstable_paths, resolve_scoped_stub, root_line, run, transfer_objects,
    transfer_workers, upload_missing, upload_missing_with_progress, BackupFailure, FullPush,
    PushOptions, StubFacts, Transfer, TransferEvent, TransferStep, Upload, GUARD_MESSAGE,
};
use omemfs::commands::transfer::ObjectContent;
use omemfs::error::{Error, IoKind};
use omemfs::object::{blob_stub, tree_stub, ObjectHash, TreeEntry};
use std::collections::{BTreeMap, BTreeSet};

fn hash(n: u64) -> ObjectHash {
    ObjectHash { w0: n, w1: 0, w2: 0, w3: 0 }
}

fn strings(v: &[&str]) -> Vec<String> {
    v.iter().map(|s| s.to_string()).collect()
}

fn set(v: &[&str]) -> PathSet {
    let mut s = PathSet::new();
    for p in v {
        s.insert(p.to_string());
    }
    s
}

#[test]
fn an_empty_remote_is_refused_after_a_sync() {
    let empty = hash(0);
    assert!(post_clone_sync_guard(Some(hash(1)), true, empty).is_ok());
    assert!(post_clone_sync_guard(None, false, empty).is_ok());
    assert!(post_clone_sync_guard(Some(empty), false, empty).is_ok());
    assert_eq!(
        post_clone_sync_guard(Some(hash(1)), false, empty).unwrap_err().message(),
        GUARD_MESSAGE
    );
}

#[test]
fn only_outermost_paths_are_kept() {
    assert_eq!(
        deduplicate_paths(strings(&["b", "a/b/c", "a/b", "ab", "b"])),
        strings(&["a/b", "ab", "b"])
    );
    assert!(deduplicate_paths(Vec::new()).is_empty());
}

#[test]
fn paths_that_cannot_be_pushed() {
    assert!(is_system_path(".omemfs/config"));
    assert!(!is_system_path("a/b"));
    assert_eq!(lead_paths("a/b/c"), strings(&["a", "a/b", "a/b/c"]));
    assert!(is_scoped_path_ignored(&set(&["a"]), "a/b"));
    assert!(!is_scoped_path_ignored(&set(&["a/b"]), "a"));
    assert!(check_paths(&strings(&["x"]), &set(&["a"])).is_ok());
    assert!(check_paths(&strings(&["x", "a/b"]), &set(&["a"])).is_err());
    assert!(check_paths(&strings(&[".omemfs"]), &set(&[])).is_err());
}

#[test]
fn a_push_settles() {
    let (old, new) = (Some(hash(1)), hash(2));
    assert_eq!(push_full(old, new, true, false).err().unwrap().message(), "unresolved conflicts");
    assert!(matches!(push_full(old, new, false, false), Ok(FullPush::Push(h)) if h == new));
    assert!(matches!(push_full(old, new, false, true), Ok(FullPush::WouldPush(h)) if h == new));
    assert!(matches!(push_full(Some(new), new, false, false), Ok(FullPush::NothingToPush)));
}

#[test]
fn stubs_stand_for_what_they_name() {
    let none = || StubFacts { exists: false, is_dir: false, file_stub: None, dir_stub: None, names: None };
    assert!(resolve_scoped_stub("a/b", none()).is_none());
    let mut file = none();
    file.file_stub = Some(blob_stub(hash(1), 5, None, &Some("755".to_string())));
    match resolve_scoped_stub("a/b", file) {
        Some(TreeEntry::Blob { name, hash: h, size, mode, .. }) => {
            assert_eq!((name.as_str(), h, size), ("b", hash(1), 5));
            assert_eq!(mode.as_deref(), Some("755"));
        }
        _ => panic!("the stub of a file"),
    }
    let mut dir = none();
    dir.exists = true;
    dir.is_dir = true;
    dir.dir_stub = Some(tree_stub(hash(2), 6, None, 3));
    dir.names = Some(vec![".omemfs-stub".to_string()]);
    match resolve_scoped_stub("a/d", dir) {
        Some(TreeEntry::Tree { name, node, blob_count, .. }) => {
            assert_eq!((name.as_str(), node.hash, blob_count), ("d", hash(2), 3));
        }
        _ => panic!("the stub of a directory"),
    }
}

#[test]
fn a_scoped_path_has_an_outcome() {
    let present = |n: u64, m: u64| PathState::Present {
        hash: hash(n),
        is_dir: false,
        existing: Some(hash(m)),
    };
    assert!(matches!(scoped_path(present(1, 1)), PathOutcome::Unchanged));
    assert!(matches!(
        scoped_path(present(1, 2)),
        PathOutcome::Put { hash: h, is_dir: false } if h == hash(1)
    ));
    assert!(matches!(scoped_path(PathState::Absent), PathOutcome::Delete));
    assert!(matches!(scoped_path(PathState::Raced), PathOutcome::Unstable));
    let stub = |existing| PathState::Stub { hash: hash(1), existing };
    assert!(matches!(scoped_path(stub(Some(hash(1)))), PathOutcome::Unchanged));
    assert!(matches!(scoped_path(stub(None)), PathOutcome::Put { hash: h, .. } if h == hash(1)));
    assert!(matches!(
        after_read_failure(Error::Io(IoKind::NotFound, "gone".to_string())),
        Ok(PathState::Raced)
    ));
    assert!(after_read_failure(Error::Io(IoKind::Other, "disk".to_string())).is_err());
    assert!(after_read_failure(Error::SourceChanged("f".to_string())).is_ok());
}

fn blob(name: &str, n: u64) -> TreeEntry {
    TreeEntry::Blob { name: name.to_string(), hash: hash(n), size: 1, mtime: None, mode: None }
}

fn present(n: u64, is_dir: bool) -> PathState {
    PathState::Present { hash: hash(n), is_dir, existing: None }
}

fn look(rel: &str, state: PathState, entry: Option<TreeEntry>) -> Look {
    Look { rel: rel.to_string(), state, entry }
}

fn result(rel: &str, n: Option<u64>) -> ScopedResult {
    let state = match n {
        Some(n) => present(n, false),
        None => PathState::Absent,
    };
    let entry = n.map(|n| blob(rel, n));
    plan_scoped(vec![look(rel, state, entry)], PathSet::new()).results.pop().unwrap()
}

#[test]
fn a_scoped_push_is_planned() {
    let looks = || vec![
        look("a", present(1, false), Some(blob("a", 1))),
        look("b", PathState::Absent, None),
        look("c", PathState::Raced, None),
        look("d", PathState::Present { hash: hash(4), is_dir: true, existing: Some(hash(4)) }, None),
    ];
    let plan = plan_scoped(looks(), set(&["x/y"]));
    assert_eq!(plan.results.len(), 2);
    assert_eq!(plan.unstable.sorted(), strings(&["c", "x/y"]));
    assert!(push_scoped(&plan, &set(&["h"]), false).is_err());
    let nothing = plan_scoped(Vec::new(), PathSet::new());
    assert!(matches!(push_scoped(&nothing, &set(&[]), false), Ok(ScopedPush::NothingToPush)));
    match push_scoped(&plan, &set(&[]), true) {
        Ok(ScopedPush::Listing(lines)) => {
            assert_eq!(lines, strings(&["Would push a → 00000000", "Would delete b"]));
        }
        _ => panic!("a dry run lists"),
    }
    assert!(matches!(push_scoped(&plan, &set(&[]), false), Ok(ScopedPush::Proceed)));
    assert_eq!(scoped_summary(&plan.results, "origin"), "Pushed to origin.");
    assert_eq!(scoped_summary(&vec![result("a", None)], "origin"), "Deleted a from origin.");
    assert_eq!(scoped_summary(&vec![result("a", Some(1))], "origin"), "Pushed a to origin.");
    assert_eq!(absent_note("a"), "note: 'a' is already absent on remote");
    assert_eq!(root_line(hash(1)), "Remote root: 00000000");
}

#[test]
fn what_is_put_is_what_was_captured() {
    let plan = plan_scoped(
        vec![
            look("d/f", present(1, false), None),
            look("d/g", present(2, true), None),
            look("d/h", present(3, true), Some(blob("h", 3))),
        ],
        PathSet::new(),
    );
    let items: Vec<&PutItem> =
        plan.results.iter().map(|r| &r.put.as_ref().unwrap().item).collect();
    assert!(matches!(items[0], PutItem::Lost));
    assert!(matches!(items[1], PutItem::Dir));
    assert!(matches!(items[2], PutItem::Entry(TreeEntry::Blob { .. })));
    let mut run = Splicing::new(plan.results, Some(hash(8)), Some(hash(9)));
    assert_eq!(
        run.step().err().unwrap().message(),
        "captured metadata missing for scoped file: d/f"
    );
    run.results.remove(0);
    assert!(matches!(run.step(), Ok(SpliceStep::ReadMeta(h)) if h == hash(2)));
    run.read_meta(None, 4, 2);
    match &run.results[0].put.as_ref().unwrap().item {
        PutItem::Entry(TreeEntry::Tree { name, size: 4, blob_count: 2, node, .. }) => {
            assert_eq!((name.as_str(), node.hash), ("g", hash(2)));
        }
        _ => panic!("the entry of the directory"),
    }
    assert!(matches!(run.step(), Ok(SpliceStep::Put)));
}

#[test]
fn splices_add_up() {
    let mut run = Splicing::new(
        vec![result("a", Some(1)), result("b", None), result("c", None)],
        Some(hash(10)),
        Some(hash(20)),
    );
    assert!(matches!(run.step(), Ok(SpliceStep::Put)));
    run.put(hash(11), hash(21));
    assert!(matches!(run.step(), Ok(SpliceStep::RemoveFromRemote(h)) if h == hash(11)));
    assert_eq!(
        run.removed_from_remote(None).as_deref(),
        Some("note: 'b' is already absent on remote")
    );
    assert!(matches!(run.step(), Ok(SpliceStep::RemoveFromRemote(h)) if h == hash(11)));
    assert!(run.removed_from_remote(Some(hash(12))).is_none());
    assert!(matches!(run.step(), Ok(SpliceStep::RemoveFromClone(h)) if h == hash(21)));
    run.removed_from_clone(None);
    assert!(matches!(run.step(), Ok(SpliceStep::Done)));
    assert!(matches!(
        run.roots.finish(),
        Ok(Some((r, c))) if r == hash(12) && c == hash(21)
    ));
}

#[test]
fn a_deletion_of_nothing_writes_nothing() {
    let mut run = Splicing::new(vec![result("a", None)], None, Some(hash(2)));
    assert!(matches!(run.step(), Ok(SpliceStep::NoTree)));
    assert!(run.removed_from_remote(None).is_some());
    assert!(matches!(run.step(), Ok(SpliceStep::Done)));
    assert!(matches!(run.roots.finish(), Ok(None)));
    let mut run = Splicing::new(vec![result("a", None)], Some(hash(1)), None);
    assert!(run.removed_from_remote(Some(hash(3))).is_none());
    assert!(matches!(run.step(), Ok(SpliceStep::Done)));
    assert_eq!(run.roots.finish().err().unwrap().message(), "push resulted in empty clone root");
    let gone = Splices { remote: None, clone: None, any_change: true };
    assert_eq!(gone.finish().err().unwrap().message(), "push resulted in empty remote tree");
}

/// Stores of objects that refer to others, by number.
struct Stores {
    src: BTreeMap<u64, Vec<u64>>,
    dst: BTreeSet<u64>,
    unreadable: BTreeSet<u64>,
    copies: usize,
}

impl Stores {
    fn content(&self, h: ObjectHash) -> Option<ObjectContent> {
        let children = self.src.get(&h.w0)?;
        Some(ObjectContent::Manifest(children.iter().map(|n| hash(*n)).collect()))
    }

    /// Does what `step` says until it is done.
    fn drive(&mut self, next: &mut dyn FnMut(TransferEvent<'_>) -> TransferStep) {
        let mut step = next(TransferEvent::Ready);
        loop {
            step = match step {
                TransferStep::Look(h) => {
                    next(TransferEvent::Looked { hash: h, exists: self.dst.contains(&h.w0) })
                }
                TransferStep::ReadBack(h) => {
                    let content =
                        if self.unreadable.contains(&h.w0) { None } else { self.content(h) };
                    next(TransferEvent::ReadBack { hash: h, content: content.as_ref() })
                }
                TransferStep::Copy(h) => match self.content(h) {
                    Some(content) => {
                        self.dst.insert(h.w0);
                        self.copies += 1;
                        next(TransferEvent::Copied { hash: h, content: &content })
                    }
                    None => {
                        let error = Error::ObjectNotFound(h.to_hex());
                        next(TransferEvent::Failed { hash: h, error })
                    }
                },
                TransferStep::Again => next(TransferEvent::Ready),
                TransferStep::Wait | TransferStep::Done => return,
            };
        }
    }
}

fn stores(dst: &[u64]) -> Stores {
    Stores {
        src: BTreeMap::from([
            (1, vec![2, 3]),
            (2, vec![4]),
            (3, vec![4, 5]),
            (4, vec![]),
            (5, vec![]),
        ]),
        dst: dst.iter().copied().collect(),
        unreadable: BTreeSet::new(),
        copies: 0,
    }
}

#[test]
fn a_transfer_copies_what_is_missing() {
    let mut s = stores(&[]);
    let mut t = Transfer::new(&vec![hash(1), hash(1)], false);
    s.drive(&mut |e| transfer_objects(&mut t, e));
    assert!(t.outcome().is_ok());
    assert_eq!(s.dst, BTreeSet::from([1, 2, 3, 4, 5]));
    assert_eq!(s.copies, 5);
    assert_eq!(transfer_workers(3, 8), 8);
}

#[test]
fn existing_objects_are_traversed_on_request() {
    let mut s = stores(&[2, 3]);
    let mut t = Transfer::new(&vec![hash(1)], false);
    s.drive(&mut |e| transfer_objects(&mut t, e));
    assert_eq!(s.dst, BTreeSet::from([1, 2, 3]));
    let mut s = stores(&[2, 3]);
    let mut t = Transfer::new(&vec![hash(1)], true);
    s.drive(&mut |e| transfer_objects(&mut t, e));
    assert_eq!(s.dst, BTreeSet::from([1, 2, 3, 4, 5]));
    let mut s = stores(&[2, 3]);
    s.unreadable.insert(3);
    let mut t = Transfer::new(&vec![hash(1)], true);
    s.drive(&mut |e| transfer_objects(&mut t, e));
    assert_eq!(s.dst, BTreeSet::from([1, 2, 3, 4]));
}

#[test]
fn a_failed_transfer_stops() {
    let mut s = stores(&[]);
    s.src.remove(&3);
    let mut t = Transfer::new(&vec![hash(1)], false);
    s.drive(&mut |e| transfer_objects(&mut t, e));
    assert!(matches!(t.outcome(), Err(Error::ObjectNotFound(h)) if h == hash(3).to_hex()));
    assert!(!s.dst.contains(&5));
}

#[test]
fn an_upload_counts_what_it_does() {
    let mut s = stores(&[3]);
    let mut u = Upload::new(hash(1));
    let mut lines = Vec::new();
    s.drive(&mut |e| {
        let (step, line) = upload_missing_with_progress(&mut u, e);
        lines.extend(line);
        step
    });
    assert!(u.outcome().is_ok());
    let of = |n: u64| hash(n).to_short();
    assert_eq!(
        lines,
        vec![
            format!("upload {} (1 uploaded, 0 cached)", of(1)),
            format!("upload {} (2 uploaded, 0 cached)", of(2)),
            format!("cached {} (2 uploaded, 1 cached)", of(3)),
            format!("upload {} (3 uploaded, 1 cached)", of(4)),
        ]
    );
    let mut s = stores(&[]);
    let mut u = Upload::new(hash(1));
    s.drive(&mut |e| upload_missing(&mut u, e));
    assert_eq!(s.copies, 5);
}

#[test]
fn what_a_push_says() {
    let lines = report_unresolved_conflicts(&set(&["b", "a"]));
    assert_eq!(
        lines,
        strings(&["The following conflict helper files were found:", "  a", "  b"])
    );
    assert!(report_unstable_paths(&set(&["x"])).iter().any(|l| l.contains("x")));
    assert_eq!(
        backup_warnings(&BackupFailure::NotConfigured),
        strings(&[
            "warning: --with-backup specified but no 'backup' remote configured",
            "  Run 'omemfs config add-backup' to set one up.",
        ])
    );
    assert_eq!(
        backup_warnings(&BackupFailure::Upload("slow".to_string())),
        strings(&["warning: backup upload failed: slow"])
    );
    let opts = PushOptions {
        work_dir: "/w".to_string(),
        current_dir: "/w".to_string(),
        paths: strings(&["a"]),
        dry_run: false,
        with_backup: false,
    };
    assert_eq!(run(&opts), strings(&["a"]));
}
