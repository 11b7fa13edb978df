use omemfs::collections::{PathMap, PathSet};
use omemfs::commands::ls::diff::{diff_trees, DiffRow, Found};
use omemfs::commands::ls::marks::{mark_unknown, sort_rows};
use omemfs::commands::ls::remote::remote_status;
use omemfs::commands::ls::render::{
    digit_count, format_mtime_staged, mtime_cell, mtime_stage, paint_status, print_rows,
    render_size_cell, Ink, MtimeStage, Piece, FIRST_SECOND, LAST_SECOND,
};
use omemfs::commands::ls::rows::{
    format_hash, merge_side_data, plain_row, status_char, LsSource, Row, SideData, Stop,
    TreeMeta,
};
use omemfs::commands::ls::scope::{
    find_scope_root, is_direct_child, single_scope_prefix, trim_slashes, ScopeFilter,
};
use omemfs::commands::ls::{
    check_options, list_dirty, raw_paths, run, scan_scoped_for_ls, scope_prefixes, LsError,
    LsOptions, LsTrees, ScanFacts, ScanStep,
};
use omemfs::error::Error;
use omemfs::object::{Content, ObjectHash, Timestamp, TreeEntry, TreeNode};

fn hash(n: u64) -> ObjectHash {
    ObjectHash { w0: n, w1: 0, w2: 0, w3: 0 }
}

fn blob_entry(name: &str, n: u64) -> TreeEntry {
    TreeEntry::Blob { name: name.to_string(), hash: hash(n), size: 3, mtime: None, mode: None }
}

fn tree_entry(name: &str, node: TreeNode) -> TreeEntry {
    TreeEntry::Tree { name: name.to_string(), size: 0, mtime: None, blob_count: 0, node }
}

fn stored(n: u64, es: Vec<TreeEntry>) -> TreeNode {
    TreeNode { hash: hash(n), content: Content::Entries(es) }
}

/// A tree that was never written.
fn dangling(n: u64) -> TreeNode {
    TreeNode { hash: hash(n), content: Content::Missing }
}

const LINK: u64 = 999;

#[test]
fn diff_trees_tolerates_missing_base_subtree_and_diffs_siblings() {
    let base = stored(
        1,
        vec![
            tree_entry("a", dangling(10)),
            tree_entry("b", stored(11, vec![blob_entry("file.txt", 100)])),
        ],
    );
    let target = stored(
        2,
        vec![
            tree_entry("a", stored(12, vec![blob_entry("x.txt", 101)])),
            tree_entry("b", stored(13, vec![blob_entry("file.txt", 102)])),
        ],
    );
    let found = diff_trees(Some(&base), &target, &ScopeFilter::unscoped(), hash(LINK))
        .expect("a missing base subtree must not abort the whole diff");
    assert_eq!(
        found.unknown.sorted(),
        vec!["a".to_string()],
        "the unresolvable subtree must be recorded as unknown, by its bare path"
    );
    assert!(
        !found.rows.contains_key("a"),
        "an unresolvable subtree must not be reported as a normal Added/Modified/Deleted entry"
    );
    assert!(
        matches!(found.rows.get("b/file.txt"), Some(DiffRow::Modified { .. })),
        "the sibling subtree 'b' must still be diffed correctly \
         (expected b/file.txt: Modified), got {:?}",
        found.rows.get("b/file.txt")
    );
}

#[test]
fn diff_trees_tolerates_missing_base_subtree_at_nested_depth() {
    let base = stored(
        1,
        vec![tree_entry(
            "src",
            stored(10, vec![tree_entry("sub", dangling(11)), blob_entry("lib.rs", 100)]),
        )],
    );
    let target = stored(
        2,
        vec![tree_entry(
            "src",
            stored(
                12,
                vec![
                    tree_entry("sub", stored(13, vec![blob_entry("inner.txt", 101)])),
                    blob_entry("lib.rs", 102),
                ],
            ),
        )],
    );
    let found = diff_trees(Some(&base), &target, &ScopeFilter::unscoped(), hash(LINK))
        .expect("a missing base subtree at any depth must not abort the whole diff");
    assert_eq!(found.unknown.sorted(), vec!["src/sub".to_string()]);
    assert!(
        matches!(found.rows.get("src/lib.rs"), Some(DiffRow::Modified { .. })),
        "the sibling blob 'src/lib.rs' must still be diffed correctly, got {:?}",
        found.rows.get("src/lib.rs")
    );
}

#[test]
fn diff_trees_tolerates_missing_root_base() {
    let base = dangling(1);
    let target = stored(2, vec![blob_entry("file.txt", 100)]);
    let found = diff_trees(Some(&base), &target, &ScopeFilter::unscoped(), hash(LINK))
        .expect("an unreadable root base must not abort ls");
    assert_eq!(found.unknown.sorted(), vec![".".to_string()]);
    assert!(found.rows.is_empty());
}

#[test]
fn a_diff_stays_in_its_scope() {
    let base = stored(1, vec![]);
    let target = stored(
        2,
        vec![
            tree_entry("in", stored(3, vec![blob_entry("x", 4)])),
            tree_entry("out", stored(5, vec![blob_entry("y", 6)])),
        ],
    );
    let scope = ScopeFilter::new(&vec!["in".to_string()]);
    assert!(scope.in_scope("in/x") && !scope.in_scope("out/y"));
    assert!(scope.should_descend("in") && !scope.should_descend("out"));
    let found = diff_trees(Some(&base), &target, &scope, hash(LINK)).unwrap();
    assert!(found.rows.contains_key("in/x"));
    assert!(!found.rows.contains_key("out/y"));
}

#[test]
fn a_scope_filters_the_diff_of_the_whole() {
    let base = stored(1, vec![tree_entry("gone", stored(7, vec![blob_entry("z", 8)]))]);
    let target = stored(
        2,
        vec![
            tree_entry(
                "a",
                stored(3, vec![blob_entry("x", 4), tree_entry("empty", stored(9, vec![]))]),
            ),
            tree_entry("ab", stored(5, vec![blob_entry("y", 6)])),
            tree_entry("lost", dangling(10)),
        ],
    );
    let scopes = [vec!["a"], vec!["a/empty", "gone"], vec!["lost", "ab/y"], vec!["none"]];
    let whole = diff_trees(Some(&base), &target, &ScopeFilter::unscoped(), hash(LINK)).unwrap();
    assert_eq!(whole.rows.sorted_keys(), vec!["a/empty", "a/x", "ab/y", "gone/z"]);
    for prefixes in scopes {
        let prefixes: Vec<String> = prefixes.iter().map(|p| p.to_string()).collect();
        let scope = ScopeFilter::new(&prefixes);
        let part = diff_trees(Some(&base), &target, &scope, hash(LINK)).unwrap();
        let mut expected = whole.rows.sorted_keys();
        expected.retain(|k| scope.in_scope(k));
        assert_eq!(part.rows.sorted_keys(), expected);
        assert!(expected.iter().all(|k| part.rows.get(k) == whole.rows.get(k)));
        let mut unknown = whole.unknown.sorted();
        unknown.retain(|k| scope.in_scope(k));
        assert_eq!(part.unknown.sorted(), unknown);
    }
}

fn link_entry(name: &str, target: &str) -> TreeEntry {
    TreeEntry::Symlink { name: name.to_string(), target: target.to_string(), mtime: None }
}

#[test]
fn a_link_differs_by_its_target() {
    let base = stored(
        1,
        vec![link_entry("kept", "x"), link_entry("moved", "x"), blob_entry("was_file", 2)],
    );
    let target = stored(
        3,
        vec![
            link_entry("kept", "x"),
            link_entry("moved", "y"),
            link_entry("was_file", "x"),
            link_entry("fresh", "x"),
        ],
    );
    let found =
        diff_trees(Some(&base), &target, &ScopeFilter::unscoped(), hash(LINK)).unwrap();
    let modified = DiffRow::Modified { working_hash: hash(LINK) };
    assert_eq!(found.rows.sorted_keys(), vec!["fresh", "moved", "was_file"]);
    assert_eq!(found.rows.get("moved"), Some(&modified));
    assert_eq!(found.rows.get("was_file"), Some(&modified));
    assert_eq!(found.rows.get("fresh"), Some(&DiffRow::Added { working_hash: hash(LINK) }));
}

#[test]
fn a_remote_link_is_compared_by_its_target() {
    let scope = ScopeFilter::unscoped();
    let clone = stored(1, vec![blob_entry("f", 2), link_entry("l", "x")]);
    let same_link = stored(3, vec![blob_entry("f", 4), link_entry("l", "x")]);
    let d = remote_status(&clone, Some(&same_link), &scope).unwrap();
    assert_eq!(d.status.sorted_keys(), vec!["f"]);
    assert_eq!(d.status.get("f"), Some(&'M'));
    assert!(d.added.is_empty());
    let moved = stored(5, vec![blob_entry("f", 2), link_entry("l", "y")]);
    let d = remote_status(&clone, Some(&moved), &scope).unwrap();
    assert_eq!((d.status.sorted_keys(), d.status.get("l")), (vec!["l".to_string()], Some(&'M')));
    let gone = stored(6, vec![blob_entry("f", 2)]);
    let d = remote_status(&clone, Some(&gone), &scope).unwrap();
    assert_eq!((d.status.sorted_keys(), d.status.get("l")), (vec!["l".to_string()], Some(&'D')));
}

#[test]
fn the_remote_is_not_asked_for_and_forbidden() {
    let mut opts = options(false, LsSource::Remote);
    opts.no_remote = false;
    assert!(check_options(&opts).is_ok());
    opts.no_remote = true;
    assert_eq!(
        check_options(&opts).err().unwrap().report().unwrap().message(),
        "--remote and --no-remote cannot be used together"
    );
    assert!(matches!(
        LsError::Stop(Stop::Missing(hash(1))).report(),
        Some(Error::ObjectNotFound(h)) if h == hash(1).to_hex()
    ));
    assert!(matches!(
        LsError::Stop(Stop::NoPath("p".to_string())).report(),
        Some(Error::Other(m)) if m == "path not found: p"
    ));
    assert!(LsError::Stop(Stop::Unread(hash(1))).report().is_none());
}

#[test]
fn paths_and_scopes() {
    assert!(is_direct_child("a/b", "a"));
    assert!(!is_direct_child("a/b/c", "a"));
    assert_eq!(find_scope_root(&vec!["a/b".to_string()], "a/b/c"), "a/b");
    assert_eq!(single_scope_prefix(&vec!["a".to_string()]).as_deref(), Some("a"));
    assert_eq!(single_scope_prefix(&vec!["/a/b/".to_string()]).as_deref(), Some("a/b"));
    assert_eq!(single_scope_prefix(&vec!["".to_string()]).as_deref(), Some(""));
    assert_eq!(single_scope_prefix(&Vec::new()), None);
    assert_eq!(single_scope_prefix(&vec!["a".to_string(), "b".to_string()]), None);
    assert_eq!(trim_slashes("/a/b/"), "a/b");
    assert_eq!(scope_prefixes(&vec!["a".to_string()]), vec!["a".to_string()]);
}

fn row(path: &str) -> Row {
    plain_row(' ', "h".to_string(), Some(1), 0, path.to_string())
}

#[test]
fn rows_are_sorted_and_marked() {
    let mut rows = vec![row("b"), row("a/"), row("a/x")];
    sort_rows(&mut rows);
    let paths: Vec<&str> = rows.iter().map(|r| r.path.as_str()).collect();
    assert_eq!(paths, vec!["a/", "a/x", "b"]);
    let mut unknown = PathSet::new();
    unknown.insert("a".to_string());
    mark_unknown(&mut rows, &unknown);
    assert_eq!(rows[0].status, '?');
    assert_eq!(rows[2].status, ' ');
}

#[test]
fn a_conflict_is_shown_before_any_other_mark() {
    let mut rows = PathMap::new();
    rows.insert("f".to_string(), DiffRow::Modified { working_hash: hash(9) });
    assert_eq!(status_char("f", &rows), 'M');
    let found = Found { rows, unknown: PathSet::new() };
    let dirty = list_dirty(&found, false);
    assert_eq!(dirty.len(), 1);
    assert_eq!((dirty[0].status, dirty[0].path.as_str()), ('M', "f"));
    assert_eq!(format_hash(&hash(0xabcd_0000_0000_0000), false).len(), 8);
    assert_eq!(format_hash(&hash(0xabcd_0000_0000_0000), true).len(), 64);
}

fn no_side() -> SideData {
    SideData {
        conflict_paths: Vec::new(),
        stubs: Vec::new(),
        ignored: Vec::new(),
        unknown_reserved: Vec::new(),
    }
}

fn options(dirty: bool, source: LsSource) -> LsOptions {
    LsOptions {
        work_dir: "w".to_string(),
        current_dir: "w".to_string(),
        paths: Vec::new(),
        recursive: true,
        full_hash: false,
        dirty,
        no_remote: true,
        source,
    }
}

fn meta() -> TreeMeta {
    TreeMeta { mtime: None, size: 3, blob_count: 1 }
}

#[test]
fn a_clean_tree_is_not_dirty() {
    let clone = stored(1, vec![blob_entry("f", 2)]);
    let working = stored(1, vec![blob_entry("f", 2)]);
    let changed = stored(3, vec![blob_entry("f", 4), blob_entry("g", 5)]);
    let ignored = PathSet::new();
    let side = no_side();
    let rows = |w: &TreeNode, dirty: bool| {
        let t = LsTrees {
            clone: Some(&clone),
            clone_meta: meta(),
            working: w,
            working_meta: meta(),
            remote: None,
            link_hash: hash(LINK),
            ignored: &ignored,
            side: &side,
        };
        match run(&options(dirty, LsSource::Clone), &Vec::new(), &t) {
            Ok(rows) => rows,
            Err(_) => panic!("everything is there"),
        }
    };
    assert!(rows(&working, true).is_empty());
    let dirty: Vec<(char, String)> =
        rows(&changed, true).into_iter().map(|r| (r.status, r.path)).collect();
    assert_eq!(dirty, vec![('M', "f".to_string()), ('A', "g".to_string())]);
    let all: Vec<(char, String)> =
        rows(&changed, false).into_iter().map(|r| (r.status, r.path)).collect();
    assert!(all.contains(&('M', "f".to_string())), "{all:?}");
    assert!(all.contains(&('A', "g".to_string())), "{all:?}");
}

#[test]
fn dirty_rows_have_no_source() {
    let tree = stored(1, vec![]);
    let ignored = PathSet::new();
    let side = no_side();
    let t = LsTrees {
        clone: Some(&tree),
        clone_meta: meta(),
        working: &tree,
        working_meta: meta(),
        remote: None,
        link_hash: hash(LINK),
        ignored: &ignored,
        side: &side,
    };
    match run(&options(true, LsSource::Remote), &Vec::new(), &t) {
        Err(LsError::Clash) => assert!(LsError::Clash.report().is_some()),
        _ => panic!("the two options exclude each other"),
    }
}

#[test]
fn the_same_root_is_in_sync() {
    let clone = stored(1, vec![blob_entry("f", 2)]);
    let same = stored(1, vec![blob_entry("f", 2)]);
    let other = stored(3, vec![blob_entry("f", 4), blob_entry("g", 5)]);
    let scope = ScopeFilter::unscoped();
    let s = remote_status(&clone, Some(&same), &scope).unwrap();
    assert!(s.status.is_empty() && s.added.is_empty());
    let d = remote_status(&clone, Some(&other), &scope).unwrap();
    assert!(d.status.contains_key("f"));
    assert!(d.added.contains_key("g"));
}

fn at(secs: i64) -> Timestamp {
    Timestamp { secs, nanos: 0 }
}

#[test]
fn times_are_staged() {
    // 2026-06-13 12:00:00 UTC.
    let now = at(1_781_352_000);
    assert!(matches!(mtime_stage(at(1_781_351_990), 0, now, 0), MtimeStage::JustNow));
    assert!(matches!(mtime_stage(at(1_781_351_700), 0, now, 0), MtimeStage::MinAgo));
    assert!(matches!(mtime_stage(at(1_781_340_000), 0, now, 0), MtimeStage::Today));
    let (recent, stage) = format_mtime_staged(at(1_781_352_000 - 5 * 86_400), 0, now, 0);
    assert!(matches!(stage, MtimeStage::Recent | MtimeStage::Older), "{recent}");
    let (old, stage) = format_mtime_staged(at(1_600_000_000), 0, now, 0);
    assert!(matches!(stage, MtimeStage::Older));
    assert_eq!(old, "2020-09-13");
    // One hour to the east the day has changed.
    let (east, _) = format_mtime_staged(at(1_600_037_999), 3600, now, 0);
    assert_eq!(east, "2020-09-13");
    let (next, _) = format_mtime_staged(at(1_600_038_000), 3600, now, 0);
    assert_eq!(next, "2020-09-14");
}

fn text_of(ps: &[Piece]) -> String {
    ps.iter().map(|p| p.text.as_str()).collect()
}

#[test]
fn cells_are_rendered() {
    let mut out = Vec::new();
    render_size_cell(&mut out, Some(1_234_567), 12, 3);
    assert_eq!(text_of(&out).replace(',', "").trim(), "1234567");
    assert_eq!(digit_count(0), 1);
    assert_eq!(digit_count(1000), 4);
    assert!(matches!(paint_status('M'), Ink::Modified));
    assert!(matches!(paint_status('A'), Ink::Added));
    assert!(matches!(paint_status('D'), Ink::Deleted));
    let rows = vec![row("f")];
    let cells = vec![mtime_cell(None, 0, at(0), 0)];
    let lines = print_rows(&rows, &cells, 0);
    assert_eq!(lines.len(), 1);
    assert!(text_of(&lines[0]).ends_with("f"), "{}", text_of(&lines[0]));
}

#[test]
fn scoped_paths_are_classified() {
    let facts = |ignored: bool, stub: bool, exists: bool, dir: bool| ScanFacts {
        rel: "a".to_string(),
        ignored,
        stub,
        exists,
        dir,
    };
    let steps = scan_scoped_for_ls(&vec![
        facts(false, true, false, false),
        facts(false, false, true, true),
        facts(false, false, true, false),
    ])
    .unwrap();
    assert!(matches!(steps[0], ScanStep::Stub));
    assert!(matches!(steps[1], ScanStep::Dir));
    assert!(matches!(steps[2], ScanStep::File));
    let mut dst = no_side();
    let mut src = no_side();
    src.conflict_paths.push("c".to_string());
    merge_side_data(&mut dst, src);
    assert_eq!(dst.conflict_paths, vec!["c".to_string()]);
}

#[test]
fn the_ends_of_the_calendar_have_dates() {
    let now = at(0);
    for (secs, offset) in [(FIRST_SECOND, -86_399), (LAST_SECOND, 86_399)] {
        let (text, stage) = format_mtime_staged(at(secs), offset, now, 0);
        assert!(matches!(stage, MtimeStage::Older));
        assert!(text.contains("26214"), "{text}");
    }
}

#[test]
fn paths_default_to_where_the_command_runs() {
    let mut opts = options(false, LsSource::Clone);
    opts.paths = Vec::new();
    opts.current_dir = "/w/d".to_string();
    assert_eq!(raw_paths(&opts), vec!["/w/d"]);
    opts.paths = vec!["x".to_string()];
    assert_eq!(raw_paths(&opts), vec!["x"]);
}
