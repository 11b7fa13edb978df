use omemfs::commands::conflict::{
    accepted_meta, base_path_of_helper, collect_conflicting_base_paths,
    collect_conflicting_base_paths_scoped, collect_helper_files, ensure_scope_is_physical,
    is_conflict_helper, resolve_scope_paths, run_accept, run_clean, run_list, sidecar_path,
    strip_conflict_suffix, AcceptSide, ConflictAcceptOptions, ConflictMeta, SideMeta,
};
use omemfs::error::{Error, IoKind};
use omemfs::worktree::{DiskEntry, DiskKind};

fn disk(name: &str, kind: DiskKind) -> DiskEntry {
    DiskEntry { name: name.to_string(), ignored: false, reserved: false, kind }
}

fn file(name: &str) -> DiskEntry {
    disk(name, DiskKind::File { size: 1 })
}

fn work() -> Vec<DiskEntry> {
    vec![
        file("a"),
        file("a.omemfs-conflict-local"),
        file("a.omemfs-conflict-remote"),
        disk("d", DiskKind::Dir(vec![file("b.omemfs-conflict-base")])),
        disk(".omemfs", DiskKind::Dir(vec![file("c.omemfs-conflict-base")])),
        disk("l", DiskKind::Symlink { leads: true, to_file: false }),
    ]
}

fn options(dry_run: bool, side: AcceptSide) -> ConflictAcceptOptions {
    ConflictAcceptOptions {
        work_dir: "/w".to_string(),
        current_dir: "/w".to_string(),
        paths: vec!["zz".to_string()],
        dry_run,
        side,
    }
}

#[test]
fn helper_files_are_known_by_their_suffix() {
    assert!(is_conflict_helper("a.omemfs-conflict-base"));
    assert!(!is_conflict_helper("a.omemfs-conflict-meta"));
    assert_eq!(strip_conflict_suffix("a.omemfs-conflict-local").as_deref(), Some("a"));
    assert_eq!(strip_conflict_suffix("a"), None);
    assert_eq!(base_path_of_helper("d/a.omemfs-conflict-remote"), "d/a");
    assert_eq!(sidecar_path("d/a"), "d/a.omemfs-conflict-meta");
    assert_eq!(AcceptSide::Remote.suffix(), ".omemfs-conflict-remote");
    assert_eq!(AcceptSide::Base.label(), "base");
}

#[test]
fn conflicts_are_listed() {
    assert_eq!(collect_conflicting_base_paths(&work()).sorted(), vec!["a", "d/b"]);
    assert_eq!(
        run_list(&work()),
        vec!["  a", "  d/b", "2 paths with unresolved conflicts."]
    );
    assert!(run_list(&Vec::new()).is_empty());
    assert_eq!(
        collect_conflicting_base_paths_scoped(&work(), &vec!["d".to_string()]).sorted(),
        vec!["d/b"]
    );
    assert_eq!(
        collect_helper_files(&work(), &vec!["".to_string()]).len(),
        3
    );
}

#[test]
fn a_scope_does_not_lead_through_a_link() {
    assert!(ensure_scope_is_physical(&work(), "d").is_ok());
    assert!(ensure_scope_is_physical(&work(), "l/x").is_err());
    assert!(resolve_scope_paths(&work(), &vec!["d".to_string()]).is_ok());
    assert!(resolve_scope_paths(&work(), &vec!["d".to_string(), "l/x".to_string()]).is_err());
    assert_eq!(
        ensure_scope_is_physical(&work(), "l").err().unwrap().message(),
        "path l traverses a symlink"
    );
}

#[test]
fn a_scope_does_not_lead_through_a_file() {
    assert!(ensure_scope_is_physical(&work(), "a").is_ok());
    assert!(ensure_scope_is_physical(&work(), "none/x").is_ok());
    assert!(matches!(
        ensure_scope_is_physical(&work(), "a/b"),
        Err(Error::Io(IoKind::NotADirectory, _))
    ));
    assert!(matches!(
        resolve_scope_paths(&work(), &vec!["d".to_string(), "a/b".to_string()]),
        Err(Error::Io(IoKind::NotADirectory, _))
    ));
}

#[test]
fn a_helper_that_leads_nowhere_is_not_there() {
    let present = |leads: bool| {
        let root = vec![
            file("a.omemfs-conflict-base"),
            disk("a.omemfs-conflict-remote", DiskKind::Symlink { leads, to_file: leads }),
        ];
        match run_accept(&options(false, AcceptSide::Remote), &root, &vec!["".to_string()]) {
            Ok(plan) => plan.steps[0].present,
            Err(_) => panic!("there is a conflict"),
        }
    };
    assert!(present(true));
    assert!(!present(false));
}

#[test]
fn conflicts_are_cleaned() {
    let all = vec!["".to_string()];
    let plan = run_clean(&work(), &all, false);
    assert_eq!(plan.delete.len(), 3);
    assert_eq!(plan.sidecars, vec!["a.omemfs-conflict-meta", "d/b.omemfs-conflict-meta"]);
    assert_eq!(plan.lines.last().unwrap(), "2 conflicts cleaned.");
    let dry = run_clean(&work(), &all, true);
    assert!(dry.delete.is_empty() && dry.sidecars.is_empty());
    assert_eq!(dry.lines.last().unwrap(), "2 conflicts would be cleaned (dry run).");
}

#[test]
fn a_side_is_accepted() {
    let all = vec!["".to_string()];
    match run_accept(&options(false, AcceptSide::Remote), &work(), &all) {
        Ok(plan) => {
            let got: Vec<(&str, bool)> =
                plan.steps.iter().map(|s| (s.base.as_str(), s.present)).collect();
            assert_eq!(got, vec![("a", true), ("d/b", false)]);
            assert_eq!(plan.lines.last().unwrap(), "2 conflicts resolved.");
        }
        Err(_) => panic!("there are conflicts"),
    }
    match run_accept(&options(true, AcceptSide::Base), &work(), &all) {
        Ok(plan) => {
            assert!(plan.steps.is_empty());
            assert_eq!(plan.lines.last().unwrap(), "2 conflicts would be resolved (dry run).");
        }
        Err(_) => panic!("there are conflicts"),
    }
    assert_eq!(
        run_accept(&options(false, AcceptSide::Local), &Vec::new(), &all).err().unwrap().message(),
        "no conflict files found for 'zz'"
    );
    let meta = ConflictMeta {
        base: None,
        remote: Some(SideMeta { mtime: None, mode: Some("755".to_string()) }),
    };
    assert!(meta.worth_writing());
    assert!(accepted_meta(AcceptSide::Base, Some(&meta)).is_none());
    assert_eq!(
        accepted_meta(AcceptSide::Remote, Some(&meta)).unwrap().mode.as_deref(),
        Some("755")
    );
}
