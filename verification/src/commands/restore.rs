//! `restore`: what has to be done so that the working tree is again what the clone
//! root records.

use crate::collections::PathMap;
use crate::commands::clone::populate;
use crate::commands::pull::{self, leaves, leaves::Leaf};
use crate::error::Error;
use crate::object::{
    blob_stub, tree_stub, Content, Halt, ObjectHash, StubRecord, StubTargetType, Timestamp,
    TreeEntry, TreeNode,
};
use crate::text::{self, concat, concat3, decimal_of, join_path, opt_copy, opt_eq, str_eq};
use crate::worktree::{
    self, is_stub_filename, logical_name, DIR_STUB_NAME, DiskEntry, DiskKind, STATE_DIR,
};
use vstd::prelude::*;
use vstd::string::*;

pub mod reported;

verus! {

pub struct RestoreOptions {
    pub work_dir: String,
    /// Directory the command was invoked from; relative paths resolve against it.
    pub current_dir: String,
    /// Paths to restore. Empty means the entire working tree.
    pub paths: Vec<String>,
    pub dry_run: bool,
}

/// What `restore` works on: the clone root, and the paths given or else the whole
/// working tree, wherever the command was invoked. A repository that was never
/// synced has nothing to restore from.
pub fn run(opts: &RestoreOptions, clone_root: Option<ObjectHash>) -> (r: Result<
    (ObjectHash, Vec<String>),
    Error,
>)
    ensures
        r is Err <==> clone_root is None,
        r matches Err(e) ==> (e matches Error::Other(m) && m@
            == "no clone_root — repository has never been synced"@),
        r matches Ok(p) ==> clone_root == Some(p.0) && text::views(p.1@) == pull::requested(
            text::views(opts.paths@),
            opts.work_dir@,
        ),
{
    match clone_root {
        None => Err(
            Error::Other("no clone_root — repository has never been synced".to_owned()),
        ),
        Some(h) => Ok(
            (h, crate::commands::pull::requested_paths(&opts.paths, &opts.work_dir)),
        ),
    }
}

// ---------------------------------------------------------------------------
// One path
// ---------------------------------------------------------------------------

/// What stands at a path on disk.
pub struct RestoreFacts {
    /// Whether it is a regular file.
    pub is_file: bool,
    /// Whether a file stub stands for it.
    pub stub_exists: bool,
    /// What the file stub says, where the clone root has a file; `None` means that there
    /// is no stub. A stub that cannot be read is no fact but a failure of the restore.
    pub stub: Option<StubRecord>,
    /// Whether it is a directory with a stub marker.
    pub dir_stub_exists: bool,
    /// What the directory stub says, where the clone root has a directory; as above.
    pub dir_stub: Option<StubRecord>,
    /// The hash of the file's content, where it can be read.
    pub content: Option<ObjectHash>,
    /// Whether the file has the mode that the clone root records.
    pub mode_matches: bool,
    /// Whether there are conflict helper files for it.
    pub helpers_exist: bool,
    /// Where it leads to, if it is a symlink.
    pub link_target: Option<String>,
}

/// One thing to do at a path.
pub enum RestoreAction {
    /// Remove the file.
    RemoveFile,
    /// Remove the file stub.
    RemoveStub,
    /// Remove the directory stub, then the directory if it is empty.
    RemoveDirStub,
    /// Write the file stub.
    WriteStub(StubRecord),
    /// Write the directory stub.
    WriteDirStub(StubRecord),
    /// Remove the directory with all it holds, and write a file stub in its place.
    DirToStub(StubRecord),
    /// Remove the file stub, create the directory, and write its stub.
    StubToDir(StubRecord),
    /// Write the file with this content and metadata.
    WriteFile { hash: ObjectHash, mtime: Option<Timestamp>, mode: Option<String> },
    /// Give the file this mode.
    SetMode { mode: Option<String> },
    /// Remove any stub, and write the symlink.
    WriteLink { target: String, mtime: Option<Timestamp> },
    /// Remove the conflict helper files.
    RemoveHelpers,
}

/// What is done at one path: the actions, and how often it counts as restored and
/// as deleted. Each count is shown as one line.
pub struct PathPlan {
    pub actions: Vec<RestoreAction>,
    pub restored: usize,
    pub deleted: usize,
}

/// What a plan for one path says.
pub struct PlanView {
    pub actions: Seq<RestoreAction>,
    pub restored: nat,
    pub deleted: nat,
}

impl View for PathPlan {
    type V = PlanView;

    open spec fn view(&self) -> PlanView {
        PlanView {
            actions: self.actions@,
            restored: self.restored as nat,
            deleted: self.deleted as nat,
        }
    }
}

/// Nothing to do.
pub open spec fn nothing() -> PlanView {
    PlanView { actions: seq![], restored: 0, deleted: 0 }
}

/// One restored path; a dry run counts it and does nothing.
pub open spec fn one_restored(actions: Seq<RestoreAction>, dry_run: bool) -> PlanView {
    PlanView {
        actions: if dry_run {
            seq![]
        } else {
            actions
        },
        restored: 1,
        deleted: 0,
    }
}

/// Whether a file stub says something else than the clone root, or is gone.
pub open spec fn stub_is_stale(
    stub: Option<StubRecord>,
    hash: ObjectHash,
    size: u64,
    mtime: Option<Timestamp>,
    mode: Option<String>,
) -> bool {
    match stub {
        None => true,
        Some(s) => s.hash != hash || s.size != size || s.mtime != mtime || text::opt_view(s.mode)
            != text::opt_view(mode),
    }
}

/// Whether a directory stub says something else than the clone root, or is gone.
pub open spec fn dir_stub_is_stale(
    stub: Option<StubRecord>,
    hash: ObjectHash,
    size: u64,
    mtime: Option<Timestamp>,
    blob_count: u64,
) -> bool {
    match stub {
        None => true,
        Some(s) => s.hash != hash || s.size != size || s.mtime != mtime || s.blob_count
            != blob_count,
    }
}

/// What is done where the clone root has a file. A stub is brought up to date
/// rather than expanded.
pub open spec fn blob_plan(
    hash: ObjectHash,
    size: u64,
    mtime: Option<Timestamp>,
    mode: Option<String>,
    facts: RestoreFacts,
    dry_run: bool,
) -> PlanView {
    let record = StubRecord {
        target_type: StubTargetType::Blob,
        hash,
        size,
        mtime,
        mode,
        blob_count: 0,
    };
    let content_matches = facts.content == Some(hash);
    let matches = content_matches && facts.mode_matches;
    if facts.stub_exists {
        if stub_is_stale(facts.stub, hash, size, mtime, mode) {
            one_restored(seq![RestoreAction::WriteStub(record)], dry_run)
        } else {
            nothing()
        }
    } else if facts.dir_stub_exists {
        one_restored(seq![RestoreAction::DirToStub(record)], dry_run)
    } else if matches {
        if facts.helpers_exist && !dry_run {
            PlanView { actions: seq![RestoreAction::RemoveHelpers], restored: 0, deleted: 0 }
        } else {
            nothing()
        }
    } else if content_matches {
        one_restored(
            seq![RestoreAction::SetMode { mode }, RestoreAction::RemoveHelpers],
            dry_run,
        )
    } else {
        one_restored(
            seq![RestoreAction::WriteFile { hash, mtime, mode }, RestoreAction::RemoveHelpers],
            dry_run,
        )
    }
}

/// What is done where the clone root has a directory: a stub is brought up to date
/// and not looked into. `None` means that there is no stub: the directory itself is
/// restored.
pub open spec fn dir_plan(
    hash: ObjectHash,
    size: u64,
    mtime: Option<Timestamp>,
    blob_count: u64,
    facts: RestoreFacts,
    dry_run: bool,
) -> Option<PlanView> {
    let record = StubRecord {
        target_type: StubTargetType::Tree,
        hash,
        size,
        mtime,
        mode: None,
        blob_count,
    };
    if facts.dir_stub_exists {
        if dir_stub_is_stale(facts.dir_stub, hash, size, mtime, blob_count) {
            Some(one_restored(seq![RestoreAction::WriteDirStub(record)], dry_run))
        } else {
            Some(nothing())
        }
    } else if facts.stub_exists {
        Some(one_restored(seq![RestoreAction::StubToDir(record)], dry_run))
    } else {
        None
    }
}

/// What is done where the clone root has a symlink.
pub open spec fn link_plan(
    target: String,
    mtime: Option<Timestamp>,
    facts: RestoreFacts,
    dry_run: bool,
) -> PlanView {
    if text::opt_view(facts.link_target) == Some(target@) {
        nothing()
    } else {
        one_restored(
            seq![RestoreAction::WriteLink { target, mtime }, RestoreAction::RemoveHelpers],
            dry_run,
        )
    }
}

/// What is done where the clone root has nothing: files and stubs are deleted.
pub open spec fn absent_plan(facts: RestoreFacts, dry_run: bool) -> PlanView {
    let file = if facts.is_file {
        seq![RestoreAction::RemoveFile, RestoreAction::RemoveStub]
    } else if facts.stub_exists {
        seq![RestoreAction::RemoveStub]
    } else {
        seq![]
    };
    let dir = if facts.dir_stub_exists {
        seq![RestoreAction::RemoveDirStub]
    } else {
        seq![]
    };
    PlanView {
        actions: if dry_run {
            seq![]
        } else {
            file + dir + seq![RestoreAction::RemoveHelpers]
        },
        restored: 0,
        deleted: (if facts.is_file || facts.stub_exists {
            1nat
        } else {
            0nat
        }) + (if facts.dir_stub_exists {
            1nat
        } else {
            0nat
        }),
    }
}

fn no_plan() -> (r: PathPlan)
    ensures
        r@ == nothing(),
{
    let r = PathPlan { actions: Vec::new(), restored: 0, deleted: 0 };
    assert(r.actions@ =~= seq![]);
    r
}

fn restored_by(actions: Vec<RestoreAction>, dry_run: bool) -> (r: PathPlan)
    ensures
        r@ == one_restored(actions@, dry_run),
{
    if dry_run {
        let r = PathPlan { actions: Vec::new(), restored: 1, deleted: 0 };
        assert(r.actions@ =~= seq![]);
        r
    } else {
        PathPlan { actions, restored: 1, deleted: 0 }
    }
}

/// Whether a file must be written again: its content is not the expected one.
fn needs_restore_blob(facts: &RestoreFacts, expected: ObjectHash) -> (r: bool)
    ensures
        r == (facts.content != Some(expected)),
{
    match facts.content {
        Some(h) => h != expected,
        None => true,
    }
}

/// Where the clone root has a file and a file stub stands for it.
fn reconcile_file_stub_to_blob(
    hash: ObjectHash,
    size: u64,
    mtime: Option<Timestamp>,
    mode: &Option<String>,
    stub: &Option<StubRecord>,
    dry_run: bool,
) -> (r: PathPlan)
    ensures
        r@ == if stub_is_stale(*stub, hash, size, mtime, *mode) {
            one_restored(
                seq![
                    RestoreAction::WriteStub(
                        StubRecord {
                            target_type: StubTargetType::Blob,
                            hash,
                            size,
                            mtime,
                            mode: *mode,
                            blob_count: 0,
                        },
                    ),
                ],
                dry_run,
            )
        } else {
            nothing()
        },
{
    let stale = match stub {
        None => true,
        Some(s) => s.hash != hash || s.size != size || !same_time(s.mtime, mtime) || !opt_eq(
            &s.mode,
            mode,
        ),
    };
    if !stale {
        return no_plan();
    }
    let mut acts: Vec<RestoreAction> = Vec::new();
    acts.push(RestoreAction::WriteStub(blob_stub(hash, size, mtime, mode)));
    assert(acts@ =~= seq![acts@[0]]);
    restored_by(acts, dry_run)
}

fn same_time(a: Option<Timestamp>, b: Option<Timestamp>) -> (r: bool)
    ensures
        r == (a == b),
{
    match (a, b) {
        (Some(x), Some(y)) => x == y,
        (None, None) => true,
        _ => false,
    }
}

/// Where the clone root has a directory and a directory stub stands for it.
fn reconcile_dir_stub_to_tree(
    hash: ObjectHash,
    size: u64,
    mtime: Option<Timestamp>,
    blob_count: u64,
    stub: &Option<StubRecord>,
    dry_run: bool,
) -> (r: PathPlan)
    ensures
        r@ == if dir_stub_is_stale(*stub, hash, size, mtime, blob_count) {
            one_restored(
                seq![
                    RestoreAction::WriteDirStub(
                        StubRecord {
                            target_type: StubTargetType::Tree,
                            hash,
                            size,
                            mtime,
                            mode: None,
                            blob_count,
                        },
                    ),
                ],
                dry_run,
            )
        } else {
            nothing()
        },
{
    let stale = match stub {
        None => true,
        Some(s) => s.hash != hash || s.size != size || !same_time(s.mtime, mtime) || s.blob_count
            != blob_count,
    };
    if !stale {
        return no_plan();
    }
    let mut acts: Vec<RestoreAction> = Vec::new();
    acts.push(RestoreAction::WriteDirStub(tree_stub(hash, size, mtime, blob_count)));
    assert(acts@ =~= seq![acts@[0]]);
    restored_by(acts, dry_run)
}

/// Where the clone root has a file and a directory stub stands in its place.
fn reconcile_dir_stub_to_blob(
    hash: ObjectHash,
    size: u64,
    mtime: Option<Timestamp>,
    mode: &Option<String>,
    dry_run: bool,
) -> (r: PathPlan)
    ensures
        r@ == one_restored(
            seq![
                RestoreAction::DirToStub(
                    StubRecord {
                        target_type: StubTargetType::Blob,
                        hash,
                        size,
                        mtime,
                        mode: *mode,
                        blob_count: 0,
                    },
                ),
            ],
            dry_run,
        ),
{
    let mut acts: Vec<RestoreAction> = Vec::new();
    acts.push(RestoreAction::DirToStub(blob_stub(hash, size, mtime, mode)));
    assert(acts@ =~= seq![acts@[0]]);
    restored_by(acts, dry_run)
}

/// Where the clone root has a directory and a file stub stands in its place.
fn reconcile_file_stub_to_tree(
    hash: ObjectHash,
    size: u64,
    mtime: Option<Timestamp>,
    blob_count: u64,
    dry_run: bool,
) -> (r: PathPlan)
    ensures
        r@ == one_restored(
            seq![
                RestoreAction::StubToDir(
                    StubRecord {
                        target_type: StubTargetType::Tree,
                        hash,
                        size,
                        mtime,
                        mode: None,
                        blob_count,
                    },
                ),
            ],
            dry_run,
        ),
{
    let mut acts: Vec<RestoreAction> = Vec::new();
    acts.push(RestoreAction::StubToDir(tree_stub(hash, size, mtime, blob_count)));
    assert(acts@ =~= seq![acts@[0]]);
    restored_by(acts, dry_run)
}

/// What is done where the clone root has a file.
pub fn restore_blob(
    hash: ObjectHash,
    size: u64,
    mtime: Option<Timestamp>,
    mode: &Option<String>,
    facts: &RestoreFacts,
    dry_run: bool,
) -> (r: PathPlan)
    ensures
        r@ == blob_plan(hash, size, mtime, *mode, *facts, dry_run),
{
    if facts.stub_exists {
        return reconcile_file_stub_to_blob(hash, size, mtime, mode, &facts.stub, dry_run);
    }
    if facts.dir_stub_exists {
        return reconcile_dir_stub_to_blob(hash, size, mtime, mode, dry_run);
    }
    let content_matches = !needs_restore_blob(facts, hash);
    let already_matches = content_matches && facts.mode_matches;
    if already_matches {
        if facts.helpers_exist && !dry_run {
            let mut acts: Vec<RestoreAction> = Vec::new();
            acts.push(RestoreAction::RemoveHelpers);
            assert(acts@ =~= seq![RestoreAction::RemoveHelpers]);
            return PathPlan { actions: acts, restored: 0, deleted: 0 };
        }
        return no_plan();
    }
    let mut acts: Vec<RestoreAction> = Vec::new();
    if content_matches {
        acts.push(RestoreAction::SetMode { mode: opt_copy(mode) });
    } else {
        acts.push(RestoreAction::WriteFile { hash, mtime, mode: opt_copy(mode) });
    }
    acts.push(RestoreAction::RemoveHelpers);
    assert(acts@ =~= seq![acts@[0], RestoreAction::RemoveHelpers]);
    restored_by(acts, dry_run)
}

/// What is done where the clone root has a directory; `None` means that the
/// directory itself is restored.
pub fn restore_dir(
    hash: ObjectHash,
    size: u64,
    mtime: Option<Timestamp>,
    blob_count: u64,
    facts: &RestoreFacts,
    dry_run: bool,
) -> (r: Option<PathPlan>)
    ensures
        match r {
            Some(p) => dir_plan(hash, size, mtime, blob_count, *facts, dry_run) == Some(p@),
            None => dir_plan(hash, size, mtime, blob_count, *facts, dry_run) == None::<PlanView>,
        },
{
    if facts.dir_stub_exists {
        return Some(
            reconcile_dir_stub_to_tree(hash, size, mtime, blob_count, &facts.dir_stub, dry_run),
        );
    }
    if facts.stub_exists {
        return Some(reconcile_file_stub_to_tree(hash, size, mtime, blob_count, dry_run));
    }
    None
}

/// Whether a path is already a symlink to `target`.
fn symlink_matches(facts: &RestoreFacts, target: &String) -> (r: bool)
    ensures
        r == (text::opt_view(facts.link_target) == Some(target@)),
{
    match &facts.link_target {
        Some(t) => *t == *target,
        None => false,
    }
}

/// What is done where the clone root has a symlink.
pub fn restore_link(
    target: &String,
    mtime: Option<Timestamp>,
    facts: &RestoreFacts,
    dry_run: bool,
) -> (r: PathPlan)
    ensures
        r@ == link_plan(*target, mtime, *facts, dry_run),
{
    if symlink_matches(facts, target) {
        return no_plan();
    }
    let mut acts: Vec<RestoreAction> = Vec::new();
    acts.push(RestoreAction::WriteLink { target: target.clone(), mtime });
    acts.push(RestoreAction::RemoveHelpers);
    assert(acts@ =~= seq![acts@[0], RestoreAction::RemoveHelpers]);
    restored_by(acts, dry_run)
}

/// What is done where the clone root has nothing.
pub fn restore_absent(facts: &RestoreFacts, dry_run: bool) -> (r: PathPlan)
    ensures
        r@ == absent_plan(*facts, dry_run),
{
    let mut acts: Vec<RestoreAction> = Vec::new();
    let mut deleted: usize = 0;
    if facts.is_file || facts.stub_exists {
        if !dry_run {
            if facts.is_file {
                acts.push(RestoreAction::RemoveFile);
            }
            acts.push(RestoreAction::RemoveStub);
        }
        deleted = deleted + 1;
    }
    if facts.dir_stub_exists {
        if !dry_run {
            acts.push(RestoreAction::RemoveDirStub);
        }
        deleted = deleted + 1;
    }
    if !dry_run {
        acts.push(RestoreAction::RemoveHelpers);
    }
    assert(acts@ =~= absent_plan(*facts, dry_run).actions);
    PathPlan { actions: acts, restored: 0, deleted }
}

/// What restoring one path amounts to.
pub enum PathRestore {
    /// Do this at the path.
    Plan(PathPlan),
    /// Restore the directory at the path, and remove what was added to it.
    Directory,
}

/// Decides what restoring one path amounts to; `entry` is what the clone root has
/// there.
pub fn restore_path(entry: Option<&TreeEntry>, facts: &RestoreFacts, dry_run: bool) -> (r:
    PathRestore)
    ensures
        match entry {
            None => r matches PathRestore::Plan(p) && p@ == absent_plan(*facts, dry_run),
            Some(TreeEntry::Blob { hash, size, mtime, mode, .. }) => r matches PathRestore::Plan(p)
                && p@ == blob_plan(*hash, *size, *mtime, *mode, *facts, dry_run),
            Some(TreeEntry::Symlink { target, mtime, .. }) => r matches PathRestore::Plan(p) && p@
                == link_plan(*target, *mtime, *facts, dry_run),
            Some(TreeEntry::Tree { size, mtime, blob_count, node, .. }) => match dir_plan(
                node.hash,
                *size,
                *mtime,
                *blob_count,
                *facts,
                dry_run,
            ) {
                Some(plan) => r matches PathRestore::Plan(p) && p@ == plan,
                None => r is Directory,
            },
        },
{
    match entry {
        None => PathRestore::Plan(restore_absent(facts, dry_run)),
        Some(TreeEntry::Blob { hash, size, mtime, mode, .. }) => PathRestore::Plan(
            restore_blob(*hash, *size, *mtime, mode, facts, dry_run),
        ),
        Some(TreeEntry::Symlink { target, mtime, .. }) => PathRestore::Plan(
            restore_link(target, *mtime, facts, dry_run),
        ),
        Some(TreeEntry::Tree { size, mtime, blob_count, node, .. }) => match restore_dir(
            node.hash,
            *size,
            *mtime,
            *blob_count,
            facts,
            dry_run,
        ) {
            Some(plan) => PathRestore::Plan(plan),
            None => PathRestore::Directory,
        },
    }
}

/// A dry run does nothing, whatever stands at the path.
pub proof fn law_dry_run_does_nothing(e: TreeEntry, facts: RestoreFacts)
    ensures
        absent_plan(facts, true).actions.len() == 0,
        e matches TreeEntry::Blob { hash, size, mtime, mode, .. } ==> blob_plan(
            hash,
            size,
            mtime,
            mode,
            facts,
            true,
        ).actions.len() == 0,
        e matches TreeEntry::Tree { size, mtime, blob_count, node, .. } ==> (dir_plan(
            node.hash,
            size,
            mtime,
            blob_count,
            facts,
            true,
        ) matches Some(p) ==> p.actions.len() == 0),
        e matches TreeEntry::Symlink { target, mtime, .. } ==> link_plan(
            target,
            mtime,
            facts,
            true,
        ).actions.len() == 0,
{
}

/// A dry run counts exactly what a real run restores and deletes.
pub proof fn law_dry_run_counts(e: TreeEntry, facts: RestoreFacts)
    ensures
        absent_plan(facts, true).deleted == absent_plan(facts, false).deleted,
        e matches TreeEntry::Blob { hash, size, mtime, mode, .. } ==> blob_plan(
            hash,
            size,
            mtime,
            mode,
            facts,
            true,
        ).restored == blob_plan(hash, size, mtime, mode, facts, false).restored,
        e matches TreeEntry::Symlink { target, mtime, .. } ==> link_plan(
            target,
            mtime,
            facts,
            true,
        ).restored == link_plan(target, mtime, facts, false).restored,
{
}

/// What stands at a path once an action is done.
pub open spec fn after_action(facts: RestoreFacts, action: RestoreAction) -> RestoreFacts {
    match action {
        RestoreAction::RemoveFile => RestoreFacts {
            is_file: false,
            content: None,
            link_target: None,
            ..facts
        },
        RestoreAction::RemoveStub => RestoreFacts { stub_exists: false, stub: None, ..facts },
        RestoreAction::RemoveDirStub => RestoreFacts {
            dir_stub_exists: false,
            dir_stub: None,
            ..facts
        },
        RestoreAction::WriteStub(r) => RestoreFacts { stub_exists: true, stub: Some(r), ..facts },
        RestoreAction::WriteDirStub(r) => RestoreFacts {
            dir_stub_exists: true,
            dir_stub: Some(r),
            ..facts
        },
        RestoreAction::DirToStub(r) => RestoreFacts {
            stub_exists: true,
            stub: Some(r),
            dir_stub_exists: false,
            dir_stub: None,
            ..facts
        },
        RestoreAction::StubToDir(r) => RestoreFacts {
            stub_exists: false,
            stub: None,
            dir_stub_exists: true,
            dir_stub: Some(r),
            ..facts
        },
        RestoreAction::WriteFile { hash, .. } => RestoreFacts {
            is_file: true,
            stub_exists: false,
            stub: None,
            content: Some(hash),
            mode_matches: true,
            link_target: None,
            ..facts
        },
        RestoreAction::SetMode { .. } => RestoreFacts { mode_matches: true, ..facts },
        RestoreAction::WriteLink { target, .. } => RestoreFacts {
            stub_exists: false,
            stub: None,
            dir_stub_exists: false,
            dir_stub: None,
            link_target: Some(target),
            ..facts
        },
        RestoreAction::RemoveHelpers => RestoreFacts { helpers_exist: false, ..facts },
    }
}

/// What stands at a path once the actions are done, one after the other.
pub open spec fn after_actions(facts: RestoreFacts, actions: Seq<RestoreAction>) -> RestoreFacts
    decreases actions.len(),
{
    if actions.len() == 0 {
        facts
    } else {
        after_action(after_actions(facts, actions.drop_last()), actions.last())
    }
}

proof fn lemma_after_one(facts: RestoreFacts, a: RestoreAction)
    ensures
        after_actions(facts, seq![a]) == after_action(facts, a),
{
    reveal_with_fuel(after_actions, 2);
    assert(seq![a].drop_last() =~= Seq::<RestoreAction>::empty());
}

proof fn lemma_after_two(facts: RestoreFacts, a: RestoreAction, b: RestoreAction)
    ensures
        after_actions(facts, seq![a, b]) == after_action(after_action(facts, a), b),
{
    lemma_after_one(facts, a);
    assert(seq![a, b].drop_last() =~= seq![a]);
}

/// Restoring a file a second time does nothing.
pub proof fn law_file_is_restored_once(
    hash: ObjectHash,
    size: u64,
    mtime: Option<Timestamp>,
    mode: Option<String>,
    facts: RestoreFacts,
    dry_run: bool,
)
    ensures
        ({
            let left = after_actions(
                facts,
                blob_plan(hash, size, mtime, mode, facts, false).actions,
            );
            blob_plan(hash, size, mtime, mode, left, dry_run) == nothing()
        }),
{
    let actions = blob_plan(hash, size, mtime, mode, facts, false).actions;
    if actions.len() == 1 {
        assert(actions =~= seq![actions[0]]);
        lemma_after_one(facts, actions[0]);
    } else if actions.len() == 2 {
        assert(actions =~= seq![actions[0], actions[1]]);
        lemma_after_two(facts, actions[0], actions[1]);
    }
}

/// Restoring a symlink a second time does nothing.
pub proof fn law_link_is_restored_once(
    target: String,
    mtime: Option<Timestamp>,
    facts: RestoreFacts,
    dry_run: bool,
)
    ensures
        ({
            let left = after_actions(facts, link_plan(target, mtime, facts, false).actions);
            link_plan(target, mtime, left, dry_run) == nothing()
        }),
{
    let actions = link_plan(target, mtime, facts, false).actions;
    if actions.len() == 2 {
        assert(actions =~= seq![actions[0], actions[1]]);
        lemma_after_two(facts, actions[0], actions[1]);
    }
}

/// Restoring a stubbed directory a second time does nothing.
pub proof fn law_dir_stub_is_restored_once(
    hash: ObjectHash,
    size: u64,
    mtime: Option<Timestamp>,
    blob_count: u64,
    facts: RestoreFacts,
    dry_run: bool,
)
    ensures
        dir_plan(hash, size, mtime, blob_count, facts, false) matches Some(plan) ==> dir_plan(
            hash,
            size,
            mtime,
            blob_count,
            after_actions(facts, plan.actions),
            dry_run,
        ) == Some(nothing()),
{
    if let Some(plan) = dir_plan(hash, size, mtime, blob_count, facts, false) {
        if plan.actions.len() == 1 {
            assert(plan.actions =~= seq![plan.actions[0]]);
            lemma_after_one(facts, plan.actions[0]);
        }
    }
}

/// Deleting what the clone root does not have a second time deletes nothing.
pub proof fn law_absent_is_deleted_once(facts: RestoreFacts, dry_run: bool)
    ensures
        absent_plan(
            after_actions(facts, absent_plan(facts, false).actions),
            dry_run,
        ).deleted == 0,
{
    reveal_with_fuel(after_actions, 5);
}

/// A file that is as the clone root records it, without helper files, is left alone.
pub proof fn law_restored_file_is_left_alone(
    hash: ObjectHash,
    size: u64,
    mtime: Option<Timestamp>,
    mode: Option<String>,
    facts: RestoreFacts,
    dry_run: bool,
)
    requires
        !facts.stub_exists,
        !facts.dir_stub_exists,
        facts.content == Some(hash),
        facts.mode_matches,
        !facts.helpers_exist,
    ensures
        blob_plan(hash, size, mtime, mode, facts, dry_run) == nothing(),
{
}

/// A stub is never expanded by a restore: no file is written in its place.
pub proof fn law_stub_is_not_expanded(
    hash: ObjectHash,
    size: u64,
    mtime: Option<Timestamp>,
    mode: Option<String>,
    facts: RestoreFacts,
    i: int,
)
    requires
        facts.stub_exists || facts.dir_stub_exists,
        0 <= i < blob_plan(hash, size, mtime, mode, facts, false).actions.len(),
    ensures
        !(blob_plan(hash, size, mtime, mode, facts, false).actions[i] is WriteFile),
{
}

/// Whether a stub says all that the clone root records of a file.
pub open spec fn records_file(
    stub: Option<StubRecord>,
    hash: ObjectHash,
    size: u64,
    mtime: Option<Timestamp>,
    mode: Option<String>,
) -> bool {
    stub matches Some(s) && s.hash == hash && s.size == size && s.mtime == mtime && text::opt_view(
        s.mode,
    ) == text::opt_view(mode)
}

/// Once a file is restored, what stands at its path is what the clone root records: a stub
/// stays a stub and says it all, anything else is the file with its content and mode, without
/// helper files. It counts as restored exactly where that was not so before, helper files
/// aside.
pub proof fn law_file_ends_as_recorded(
    hash: ObjectHash,
    size: u64,
    mtime: Option<Timestamp>,
    mode: Option<String>,
    facts: RestoreFacts,
)
    ensures
        ({
            let plan = blob_plan(hash, size, mtime, mode, facts, false);
            let left = after_actions(facts, plan.actions);
            &&& plan.deleted == 0
            &&& facts.stub_exists || facts.dir_stub_exists ==> left.stub_exists && records_file(
                left.stub,
                hash,
                size,
                mtime,
                mode,
            ) && (facts.stub_exists || !left.dir_stub_exists)
            &&& !facts.stub_exists && !facts.dir_stub_exists ==> left.content == Some(hash)
                && left.mode_matches && !left.helpers_exist && !left.stub_exists
            &&& facts.stub_exists ==> plan.restored == if records_file(
                facts.stub,
                hash,
                size,
                mtime,
                mode,
            ) {
                0nat
            } else {
                1nat
            }
            &&& !facts.stub_exists && facts.dir_stub_exists ==> plan.restored == 1
            &&& !facts.stub_exists && !facts.dir_stub_exists ==> plan.restored
                == if facts.content == Some(hash) && facts.mode_matches {
                0nat
            } else {
                1nat
            }
        }),
{
    let actions = blob_plan(hash, size, mtime, mode, facts, false).actions;
    if actions.len() == 1 {
        assert(actions =~= seq![actions[0]]);
        lemma_after_one(facts, actions[0]);
    } else if actions.len() == 2 {
        assert(actions =~= seq![actions[0], actions[1]]);
        lemma_after_two(facts, actions[0], actions[1]);
    }
}

/// What is written is what the clone root records, with its time.
pub proof fn law_written_file_is_the_recorded_one(
    hash: ObjectHash,
    size: u64,
    mtime: Option<Timestamp>,
    mode: Option<String>,
    facts: RestoreFacts,
    i: int,
)
    requires
        0 <= i < blob_plan(hash, size, mtime, mode, facts, false).actions.len(),
    ensures
        match blob_plan(hash, size, mtime, mode, facts, false).actions[i] {
            RestoreAction::WriteFile { hash: h, mtime: t, mode: m } => h == hash && t == mtime && m
                == mode,
            RestoreAction::SetMode { mode: m } => m == mode && facts.content == Some(hash),
            RestoreAction::WriteStub(r) => records_file(Some(r), hash, size, mtime, mode)
                && r.target_type == StubTargetType::Blob,
            RestoreAction::DirToStub(r) => records_file(Some(r), hash, size, mtime, mode)
                && r.target_type == StubTargetType::Blob,
            RestoreAction::RemoveHelpers => true,
            _ => false,
        },
{
}

/// Once a symlink is restored it leads where the clone root says; it counts as restored
/// exactly where it did not.
pub proof fn law_link_ends_as_recorded(target: String, mtime: Option<Timestamp>, facts: RestoreFacts)
    ensures
        ({
            let plan = link_plan(target, mtime, facts, false);
            let left = after_actions(facts, plan.actions);
            let was = text::opt_view(facts.link_target) == Some(target@);
            &&& text::opt_view(left.link_target) == Some(target@)
            &&& plan.deleted == 0
            &&& plan.restored == if was {
                0nat
            } else {
                1nat
            }
            &&& !was ==> !left.helpers_exist && !left.stub_exists && !left.dir_stub_exists
        }),
{
    let actions = link_plan(target, mtime, facts, false).actions;
    if actions.len() == 2 {
        assert(actions =~= seq![actions[0], actions[1]]);
        lemma_after_two(facts, actions[0], actions[1]);
    }
}

/// Once a stubbed directory is restored its stub says all that the clone root records; it
/// counts as restored exactly where it did not. A directory without a stub is looked into.
pub proof fn law_dir_stub_ends_as_recorded(
    hash: ObjectHash,
    size: u64,
    mtime: Option<Timestamp>,
    blob_count: u64,
    facts: RestoreFacts,
)
    ensures
        dir_plan(hash, size, mtime, blob_count, facts, false) is None <==> !facts.stub_exists
            && !facts.dir_stub_exists,
        dir_plan(hash, size, mtime, blob_count, facts, false) matches Some(plan) ==> {
            let left = after_actions(facts, plan.actions);
            let was = facts.dir_stub_exists && (facts.dir_stub matches Some(s) && s.hash == hash
                && s.size == size && s.mtime == mtime && s.blob_count == blob_count);
            &&& left.dir_stub_exists
            &&& left.dir_stub matches Some(s)
            &&& s.hash == hash && s.size == size && s.mtime == mtime && s.blob_count == blob_count
            &&& !facts.dir_stub_exists ==> !left.stub_exists
            &&& plan.deleted == 0
            &&& plan.restored == if was {
                0nat
            } else {
                1nat
            }
        },
{
    if let Some(plan) = dir_plan(hash, size, mtime, blob_count, facts, false) {
        if plan.actions.len() == 1 {
            assert(plan.actions =~= seq![plan.actions[0]]);
            lemma_after_one(facts, plan.actions[0]);
        }
    }
}

/// Where the clone root has nothing, nothing is left: no file, no stub of either kind and no
/// helper files. It counts as deleted what was there.
pub proof fn law_nothing_is_left(facts: RestoreFacts)
    ensures
        ({
            let plan = absent_plan(facts, false);
            let left = after_actions(facts, plan.actions);
            &&& !left.is_file && !left.stub_exists && !left.dir_stub_exists && !left.helpers_exist
            &&& plan.restored == 0
            &&& plan.deleted == 0 <==> !facts.is_file && !facts.stub_exists && !facts.dir_stub_exists
            &&& plan.deleted == 2 <==> facts.dir_stub_exists && (facts.is_file || facts.stub_exists)
            &&& plan.deleted <= 2
        }),
{
    reveal_with_fuel(after_actions, 5);
}

// ---------------------------------------------------------------------------
// A whole tree
// ---------------------------------------------------------------------------

/// One step of restoring a tree.
pub enum TreeStep {
    /// Make sure that the directory exists.
    CreateDir { path: String },
    /// Do this at the path.
    At { path: String, plan: PathPlan },
}

/// What a step says.
pub enum TreeStepView {
    CreateDir { path: Seq<char> },
    At { path: Seq<char>, plan: PlanView },
}

impl View for TreeStep {
    type V = TreeStepView;

    open spec fn view(&self) -> TreeStepView {
        match *self {
            TreeStep::CreateDir { path } => TreeStepView::CreateDir { path: path@ },
            TreeStep::At { path, plan } => TreeStepView::At { path: path@, plan: plan@ },
        }
    }
}

/// What a list of steps says.
pub open spec fn tree_step_views(steps: Seq<TreeStep>) -> Seq<TreeStepView> {
    Seq::new(steps.len(), |i: int| steps[i]@)
}

/// What is known of a path at which nothing was found.
pub open spec fn blank_facts() -> RestoreFacts {
    RestoreFacts {
        is_file: false,
        stub_exists: false,
        stub: None,
        dir_stub_exists: false,
        dir_stub: None,
        content: None,
        mode_matches: false,
        helpers_exist: false,
        link_target: None,
    }
}

/// What is known of a path.
pub open spec fn facts_at(facts: Map<Seq<char>, RestoreFacts>, path: Seq<char>) -> RestoreFacts {
    if facts.dom().contains(path) {
        facts[path]
    } else {
        blank_facts()
    }
}

/// The steps that restore a tree at `dir`, behind `acc`, and where they break off
/// because a tree object is not known.
pub open spec fn tree_plan(
    node: TreeNode,
    dir: Seq<char>,
    facts: Map<Seq<char>, RestoreFacts>,
    dry_run: bool,
    acc: Seq<TreeStepView>,
) -> (Seq<TreeStepView>, Option<Halt>)
    decreases node, 0nat,
{
    match node.content {
        Content::Unread => (acc, Some(Halt::Unread(node.hash))),
        Content::Missing => (acc, Some(Halt::Missing(node.hash))),
        Content::Entries(es) => listing_plan(
            es@,
            es@.len(),
            dir,
            facts,
            dry_run,
            if dry_run {
                acc
            } else {
                acc.push(TreeStepView::CreateDir { path: dir })
            },
        ),
    }
}

/// The steps that restore the first `n` entries of a tree.
pub open spec fn listing_plan(
    es: Seq<TreeEntry>,
    n: nat,
    dir: Seq<char>,
    facts: Map<Seq<char>, RestoreFacts>,
    dry_run: bool,
    acc: Seq<TreeStepView>,
) -> (Seq<TreeStepView>, Option<Halt>)
    decreases es, n,
{
    if n == 0 || n > es.len() {
        (acc, None)
    } else {
        let prev = listing_plan(es, (n - 1) as nat, dir, facts, dry_run, acc);
        if prev.1 is Some {
            prev
        } else {
            let e = es[n - 1];
            let path = text::joined(dir, e.name_text());
            let here = facts_at(facts, path);
            match e {
                TreeEntry::Blob { hash, size, mtime, mode, .. } => (
                    prev.0.push(
                        TreeStepView::At {
                            path,
                            plan: blob_plan(hash, size, mtime, mode, here, dry_run),
                        },
                    ),
                    None,
                ),
                TreeEntry::Symlink { target, mtime, .. } => (
                    prev.0.push(
                        TreeStepView::At { path, plan: link_plan(target, mtime, here, dry_run) },
                    ),
                    None,
                ),
                TreeEntry::Tree { size, mtime, blob_count, node, .. } => match dir_plan(
                    node.hash,
                    size,
                    mtime,
                    blob_count,
                    here,
                    dry_run,
                ) {
                    Some(plan) => (prev.0.push(TreeStepView::At { path, plan }), None),
                    None => tree_plan(node, path, facts, dry_run, prev.0),
                },
            }
        }
    }
}

proof fn lemma_listing_plan_halts(
    es: Seq<TreeEntry>,
    a: nat,
    b: nat,
    dir: Seq<char>,
    facts: Map<Seq<char>, RestoreFacts>,
    dry_run: bool,
    acc: Seq<TreeStepView>,
)
    requires
        a <= b <= es.len(),
        listing_plan(es, a, dir, facts, dry_run, acc).1 is Some,
    ensures
        listing_plan(es, b, dir, facts, dry_run, acc) == listing_plan(
            es,
            a,
            dir,
            facts,
            dry_run,
            acc,
        ),
    decreases b - a,
{
    if a < b {
        lemma_listing_plan_halts(es, a, (b - 1) as nat, dir, facts, dry_run, acc);
    }
}

/// Whether an action puts a file with this content and mode in place, itself or as a
/// stub.
pub open spec fn puts_file(a: RestoreAction, hash: ObjectHash, mode: Option<Seq<char>>) -> bool {
    match a {
        RestoreAction::WriteFile { hash: h, mode: m, .. } => h == hash && text::opt_view(m) == mode,
        RestoreAction::WriteStub(r) => r.hash == hash && text::opt_view(r.mode) == mode,
        RestoreAction::DirToStub(r) => r.hash == hash && text::opt_view(r.mode) == mode,
        _ => false,
    }
}

/// Whether a path ends up with this content and mode: an action puts them there, or
/// they are there and only the mode was to be set.
pub open spec fn ends_as_file(
    facts: RestoreFacts,
    actions: Seq<RestoreAction>,
    hash: ObjectHash,
    mode: Option<Seq<char>>,
) -> bool {
    ||| exists|i: int| 0 <= i < actions.len() && puts_file(#[trigger] actions[i], hash, mode)
    ||| facts.content == Some(hash) && facts.mode_matches
    ||| facts.content == Some(hash) && exists|i: int|
        0 <= i < actions.len() && ((#[trigger] actions[i]) matches RestoreAction::SetMode { mode: m }
            && text::opt_view(m) == mode)
    ||| facts.stub_exists && (facts.stub matches Some(r) && r.hash == hash && text::opt_view(r.mode)
        == mode)
}

/// Whether a path ends up as a symlink to this target.
pub open spec fn ends_as_link(
    facts: RestoreFacts,
    actions: Seq<RestoreAction>,
    target: Seq<char>,
) -> bool {
    ||| exists|i: int|
        0 <= i < actions.len() && ((#[trigger] actions[i]) matches RestoreAction::WriteLink {
            target: t,
            ..
        } && t@ == target)
    ||| text::opt_view(facts.link_target) == Some(target)
}

/// Whether a path ends up as the stub of a directory with this hash: an action puts it
/// there, or it is there.
pub open spec fn ends_as_dir_stub(
    facts: RestoreFacts,
    actions: Seq<RestoreAction>,
    hash: ObjectHash,
) -> bool {
    ||| exists|i: int|
        0 <= i < actions.len() && match #[trigger] actions[i] {
            RestoreAction::WriteDirStub(r) => r.hash == hash,
            RestoreAction::StubToDir(r) => r.hash == hash,
            _ => false,
        }
    ||| facts.dir_stub_exists && (facts.dir_stub matches Some(r) && r.hash == hash)
}

/// Whether a step sees to a leaf of the tree `root` at `top`: what it does at the path
/// leaves the leaf there, or the path of the step ends up as a stub that names the hash of
/// a directory of the tree that holds the leaf.
pub open spec fn sees_to(
    s: TreeStepView,
    facts: Map<Seq<char>, RestoreFacts>,
    root: TreeNode,
    top: Seq<char>,
    k: Seq<char>,
    l: Leaf,
) -> bool {
    match s {
        TreeStepView::CreateDir { .. } => false,
        TreeStepView::At { path, plan } => {
            let here = facts_at(facts, path);
            ||| path == k && match l {
                Leaf::File { hash, mode } => ends_as_file(here, plan.actions, hash, mode),
                Leaf::Link { target } => ends_as_link(here, plan.actions, target),
            }
            ||| exists|hash: ObjectHash| #[trigger]
                populate::holds_leaf(root, top, path, hash, k, l) && ends_as_dir_stub(
                    here,
                    plan.actions,
                    hash,
                )
        },
    }
}

/// Whether some step sees to a leaf.
pub open spec fn seen_to(
    steps: Seq<TreeStepView>,
    facts: Map<Seq<char>, RestoreFacts>,
    root: TreeNode,
    top: Seq<char>,
    k: Seq<char>,
    l: Leaf,
) -> bool {
    exists|i: int| 0 <= i < steps.len() && sees_to(#[trigger] steps[i], facts, root, top, k, l)
}

proof fn lemma_seen_push(
    steps: Seq<TreeStepView>,
    s: TreeStepView,
    facts: Map<Seq<char>, RestoreFacts>,
    root: TreeNode,
    top: Seq<char>,
    k: Seq<char>,
    l: Leaf,
)
    ensures
        seen_to(steps, facts, root, top, k, l) ==> seen_to(steps.push(s), facts, root, top, k, l),
        sees_to(s, facts, root, top, k, l) ==> seen_to(steps.push(s), facts, root, top, k, l),
{
    if seen_to(steps, facts, root, top, k, l) {
        let i = choose|i: int|
            0 <= i < steps.len() && sees_to(#[trigger] steps[i], facts, root, top, k, l);
        assert(steps.push(s)[i] == steps[i]);
    }
    assert(steps.push(s)[steps.len() as int] == s);
}

proof fn lemma_leaf_step(
    e: TreeEntry,
    dir: Seq<char>,
    facts: Map<Seq<char>, RestoreFacts>,
    root: TreeNode,
    top: Seq<char>,
    k: Seq<char>,
    l: Leaf,
)
    requires
        !(e is Tree),
        leaves::entry_leaf(e, dir, k) == Some(l),
    ensures
        ({
            let path = text::joined(dir, e.name_text());
            let here = facts_at(facts, path);
            let plan = match e {
                TreeEntry::Blob { hash, size, mtime, mode, .. } => blob_plan(
                    hash,
                    size,
                    mtime,
                    mode,
                    here,
                    false,
                ),
                TreeEntry::Symlink { target, mtime, .. } => link_plan(target, mtime, here, false),
                _ => nothing(),
            };
            sees_to(TreeStepView::At { path, plan }, facts, root, top, k, l)
        }),
{
    let path = text::joined(dir, e.name_text());
    let here = facts_at(facts, path);
    match e {
        TreeEntry::Blob { hash, size, mtime, mode, .. } => {
            let plan = blob_plan(hash, size, mtime, mode, here, false);
            if plan.actions.len() > 0 {
                assert(puts_file(plan.actions[0], hash, text::opt_view(mode)) || plan.actions[0] is SetMode
                    || plan.actions[0] is RemoveHelpers);
            }
        },
        TreeEntry::Symlink { target, mtime, .. } => {
            let plan = link_plan(target, mtime, here, false);
            if plan.actions.len() > 0 {
                assert(plan.actions[0] is WriteLink);
            }
        },
        _ => {},
    }
}

/// A restore is complete: every file and symlink of the tree is left in place with the
/// content and mode that the tree gives it, itself or as a stub, or lies in a directory of
/// the tree whose hash a stub names that is written or kept.
pub proof fn law_restore_is_complete(
    node: TreeNode,
    dir: Seq<char>,
    facts: Map<Seq<char>, RestoreFacts>,
    acc: Seq<TreeStepView>,
    k: Seq<char>,
    l: Leaf,
)
    requires
        tree_plan(node, dir, facts, false, acc).1 is None,
        leaves::leaf_at(node, dir, k) == Some(l),
    ensures
        seen_to(tree_plan(node, dir, facts, false, acc).0, facts, node, dir, k, l),
{
    lemma_tree_seen(node, dir, node, dir, facts, acc, k, l);
}

proof fn lemma_tree_seen(
    root: TreeNode,
    top: Seq<char>,
    node: TreeNode,
    dir: Seq<char>,
    facts: Map<Seq<char>, RestoreFacts>,
    acc: Seq<TreeStepView>,
    k: Seq<char>,
    l: Leaf,
)
    requires
        leaves::reaches_dir(root, top, dir, node),
        tree_plan(node, dir, facts, false, acc).1 is None,
        leaves::leaf_at(node, dir, k) == Some(l) || seen_to(acc, facts, root, top, k, l),
    ensures
        seen_to(tree_plan(node, dir, facts, false, acc).0, facts, root, top, k, l),
    decreases node, 0nat,
{
    if let Content::Entries(es) = node.content {
        lemma_seen_push(acc, TreeStepView::CreateDir { path: dir }, facts, root, top, k, l);
        lemma_listing_seen(
            root,
            top,
            node,
            es@,
            es@.len(),
            dir,
            facts,
            acc.push(TreeStepView::CreateDir { path: dir }),
            k,
            l,
        );
    }
}

proof fn lemma_listing_seen(
    root: TreeNode,
    top: Seq<char>,
    own_node: TreeNode,
    es: Seq<TreeEntry>,
    n: nat,
    dir: Seq<char>,
    facts: Map<Seq<char>, RestoreFacts>,
    acc: Seq<TreeStepView>,
    k: Seq<char>,
    l: Leaf,
)
    requires
        leaves::reaches_dir(root, top, dir, own_node),
        own_node.content matches Content::Entries(v) && v@ == es,
        n <= es.len(),
        listing_plan(es, n, dir, facts, false, acc).1 is None,
        leaves::leaf_in(es, n, dir, k) == Some(l) || seen_to(acc, facts, root, top, k, l),
    ensures
        seen_to(listing_plan(es, n, dir, facts, false, acc).0, facts, root, top, k, l),
    decreases es, n,
{
    if n > 0 {
        let prev = listing_plan(es, (n - 1) as nat, dir, facts, false, acc);
        let all = listing_plan(es, n, dir, facts, false, acc);
        let e = es[n - 1];
        let path = text::joined(dir, e.name_text());
        let own = leaves::entry_leaf(e, dir, k);
        if seen_to(acc, facts, root, top, k, l) || own is None {
            lemma_listing_seen(
                root,
                top,
                own_node,
                es,
                (n - 1) as nat,
                dir,
                facts,
                acc,
                k,
                l,
            );
        }
        match e {
            TreeEntry::Tree { size, mtime, blob_count, node, .. } => {
                leaves::lemma_dir_of_dir(root, top, dir, own_node, es, n - 1);
                let here = facts_at(facts, path);
                match dir_plan(node.hash, size, mtime, blob_count, here, false) {
                    Some(plan) => {
                        if own == Some(l) {
                            populate::lemma_stub_holds(root, top, path, node, k, l);
                            if plan.actions.len() > 0 {
                                assert(match plan.actions[0] {
                                    RestoreAction::WriteDirStub(r) => r.hash == node.hash,
                                    RestoreAction::StubToDir(r) => r.hash == node.hash,
                                    _ => false,
                                });
                            }
                            assert(ends_as_dir_stub(here, plan.actions, node.hash));
                        }
                        lemma_seen_push(
                            prev.0,
                            TreeStepView::At { path, plan },
                            facts,
                            root,
                            top,
                            k,
                            l,
                        );
                    },
                    None => {
                        lemma_tree_seen(root, top, node, path, facts, prev.0, k, l);
                    },
                }
            },
            _ => {
                if own == Some(l) {
                    lemma_leaf_step(e, dir, facts, root, top, k, l);
                }
                lemma_seen_push(prev.0, all.0.last(), facts, root, top, k, l);
            },
        }
    }
}

/// Whether `left` is what the steps of a restore leave where they found `facts`: at
/// each path what the actions there leave, and of a directory that was made or kept
/// that it is no stub.
pub open spec fn leaves_behind(
    steps: Seq<TreeStepView>,
    facts: Map<Seq<char>, RestoreFacts>,
    left: Map<Seq<char>, RestoreFacts>,
) -> bool {
    forall|i: int| 0 <= i < steps.len() ==> left_by(#[trigger] steps[i], facts, left)
}

/// What one step leaves.
pub open spec fn left_by(
    step: TreeStepView,
    facts: Map<Seq<char>, RestoreFacts>,
    left: Map<Seq<char>, RestoreFacts>,
) -> bool {
    match step {
        TreeStepView::CreateDir { path } => {
            &&& facts_at(left, path).stub_exists == facts_at(facts, path).stub_exists
            &&& facts_at(left, path).dir_stub_exists == facts_at(facts, path).dir_stub_exists
        },
        TreeStepView::At { path, plan } => facts_at(left, path) == after_actions(
            facts_at(facts, path),
            plan.actions,
        ),
    }
}

/// Whether no step does or counts anything at a path.
pub open spec fn all_idle(steps: Seq<TreeStepView>) -> bool {
    forall|i: int| 0 <= i < steps.len() ==> idle(#[trigger] steps[i])
}

/// Whether a step does and counts nothing at a path.
pub open spec fn idle(step: TreeStepView) -> bool {
    step matches TreeStepView::At { plan, .. } ==> plan == nothing()
}

/// Restoring a tree a second time does nothing and counts nothing.
pub proof fn law_tree_is_restored_once(
    node: TreeNode,
    dir: Seq<char>,
    facts: Map<Seq<char>, RestoreFacts>,
    left: Map<Seq<char>, RestoreFacts>,
    dry_run: bool,
)
    requires
        tree_plan(node, dir, facts, false, seq![]).1 is None,
        leaves_behind(tree_plan(node, dir, facts, false, seq![]).0, facts, left),
    ensures
        tree_plan(node, dir, left, dry_run, seq![]).1 is None,
        all_idle(tree_plan(node, dir, left, dry_run, seq![]).0),
{
    lemma_tree_restored_once(node, dir, facts, left, dry_run, seq![], seq![]);
}

proof fn lemma_tree_restored_once(
    node: TreeNode,
    dir: Seq<char>,
    facts: Map<Seq<char>, RestoreFacts>,
    left: Map<Seq<char>, RestoreFacts>,
    dry_run: bool,
    acc: Seq<TreeStepView>,
    acc2: Seq<TreeStepView>,
)
    requires
        tree_plan(node, dir, facts, false, acc).1 is None,
        leaves_behind(tree_plan(node, dir, facts, false, acc).0, facts, left),
        all_idle(acc2),
    ensures
        tree_plan(node, dir, left, dry_run, acc2).1 is None,
        all_idle(tree_plan(node, dir, left, dry_run, acc2).0),
        leaves_behind(acc, facts, left),
        left_by(TreeStepView::CreateDir { path: dir }, facts, left),
    decreases node, 0nat,
{
    if let Content::Entries(es) = node.content {
        let made = TreeStepView::CreateDir { path: dir };
        let start = acc.push(made);
        let start2 = if dry_run {
            acc2
        } else {
            acc2.push(made)
        };
        lemma_listing_restored_once(
            es@,
            es@.len(),
            dir,
            facts,
            left,
            dry_run,
            start,
            start2,
        );
        assert forall|i: int| 0 <= i < acc.len() implies left_by(
            #[trigger] acc[i],
            facts,
            left,
        ) by {
            assert(start[i] == acc[i]);
        }
        assert(start[acc.len() as int] == made);
    }
}

proof fn lemma_listing_restored_once(
    es: Seq<TreeEntry>,
    n: nat,
    dir: Seq<char>,
    facts: Map<Seq<char>, RestoreFacts>,
    left: Map<Seq<char>, RestoreFacts>,
    dry_run: bool,
    acc: Seq<TreeStepView>,
    acc2: Seq<TreeStepView>,
)
    requires
        n <= es.len(),
        listing_plan(es, n, dir, facts, false, acc).1 is None,
        leaves_behind(listing_plan(es, n, dir, facts, false, acc).0, facts, left),
        all_idle(acc2),
    ensures
        listing_plan(es, n, dir, left, dry_run, acc2).1 is None,
        all_idle(listing_plan(es, n, dir, left, dry_run, acc2).0),
        leaves_behind(acc, facts, left),
    decreases es, n,
{
    if n > 0 {
        let prev = listing_plan(es, (n - 1) as nat, dir, facts, false, acc);
        let prev2 = listing_plan(es, (n - 1) as nat, dir, left, dry_run, acc2);
        let all = listing_plan(es, n, dir, facts, false, acc);
        let e = es[n - 1];
        let path = text::joined(dir, e.name_text());
        let here = facts_at(facts, path);
        match e {
            TreeEntry::Tree { size, mtime, blob_count, node, .. } => {
                match dir_plan(node.hash, size, mtime, blob_count, here, false) {
                    Some(plan) => {
                        lemma_behind_init(prev.0, all.0.last(), facts, left);
                        lemma_listing_restored_once(
                            es,
                            (n - 1) as nat,
                            dir,
                            facts,
                            left,
                            dry_run,
                            acc,
                            acc2,
                        );
                        law_dir_stub_is_restored_once(
                            node.hash,
                            size,
                            mtime,
                            blob_count,
                            here,
                            dry_run,
                        );
                    },
                    None => {
                        lemma_tree_restored_once(
                            node,
                            path,
                            facts,
                            left,
                            dry_run,
                            prev.0,
                            seq![],
                        );
                        lemma_listing_restored_once(
                            es,
                            (n - 1) as nat,
                            dir,
                            facts,
                            left,
                            dry_run,
                            acc,
                            acc2,
                        );
                        lemma_tree_restored_once(
                            node,
                            path,
                            facts,
                            left,
                            dry_run,
                            prev.0,
                            prev2.0,
                        );
                    },
                }
            },
            TreeEntry::Blob { hash, size, mtime, mode, .. } => {
                lemma_behind_init(prev.0, all.0.last(), facts, left);
                lemma_listing_restored_once(
                    es,
                    (n - 1) as nat,
                    dir,
                    facts,
                    left,
                    dry_run,
                    acc,
                    acc2,
                );
                law_file_is_restored_once(hash, size, mtime, mode, here, dry_run);
            },
            TreeEntry::Symlink { target, mtime, .. } => {
                lemma_behind_init(prev.0, all.0.last(), facts, left);
                lemma_listing_restored_once(
                    es,
                    (n - 1) as nat,
                    dir,
                    facts,
                    left,
                    dry_run,
                    acc,
                    acc2,
                );
                law_link_is_restored_once(target, mtime, here, dry_run);
            },
        }
    }
}

proof fn lemma_behind_init(
    steps: Seq<TreeStepView>,
    s: TreeStepView,
    facts: Map<Seq<char>, RestoreFacts>,
    left: Map<Seq<char>, RestoreFacts>,
)
    requires
        leaves_behind(steps.push(s), facts, left),
    ensures
        leaves_behind(steps, facts, left),
        left_by(s, facts, left),
{
    let all = steps.push(s);
    assert(left_by(all[steps.len() as int], facts, left));
    assert forall|i: int| 0 <= i < steps.len() implies left_by(
        #[trigger] steps[i],
        facts,
        left,
    ) by {
        assert(all[i] == steps[i]);
    }
}

fn no_facts() -> (r: RestoreFacts)
    ensures
        r == blank_facts(),
{
    RestoreFacts {
        is_file: false,
        stub_exists: false,
        stub: None,
        dir_stub_exists: false,
        dir_stub: None,
        content: None,
        mode_matches: false,
        helpers_exist: false,
        link_target: None,
    }
}

fn push_tree_step(steps: &mut Vec<TreeStep>, step: TreeStep)
    ensures
        tree_step_views(final(steps)@) == tree_step_views(old(steps)@).push(step@),
{
    let ghost before = tree_step_views(steps@);
    steps.push(step);
    assert(tree_step_views(steps@) =~= before.push(step@));
}

/// Appends the steps that restore a tree at `dir`. `Some` means that a tree object
/// is not known: the steps up to there stand.
#[verifier::loop_isolation(false)]
pub fn restore_tree(
    node: &TreeNode,
    dir: &str,
    facts: &PathMap<RestoreFacts>,
    dry_run: bool,
    steps: &mut Vec<TreeStep>,
) -> (r: Option<Halt>)
    requires
        facts.wf(),
    ensures
        (tree_step_views(final(steps)@), r) == tree_plan(
            *node,
            dir@,
            facts@,
            dry_run,
            tree_step_views(old(steps)@),
        ),
    decreases node,
{
    let es = match node.entries() {
        Ok(es) => es,
        Err(h) => {
            return Some(h);
        },
    };
    if !dry_run {
        push_tree_step(steps, TreeStep::CreateDir { path: dir.to_owned() });
    }
    let ghost acc = tree_step_views(steps@);
    let blank = no_facts();
    let mut i: usize = 0;
    while i < es.len()
        invariant
            i <= es@.len(),
            listing_plan(es@, i as nat, dir@, facts@, dry_run, acc) == (
                tree_step_views(steps@),
                None::<Halt>,
            ),
        decreases es.len() - i,
    {
        let entry = &es[i];
        let path = join_path(dir, entry.name().as_str());
        let here: &RestoreFacts = match facts.get(path.as_str()) {
            Some(f) => f,
            None => &blank,
        };
        assert(*here == facts_at(facts@, path@));
        match entry {
            TreeEntry::Blob { hash, size, mtime, mode, .. } => {
                let plan = restore_blob(*hash, *size, *mtime, mode, here, dry_run);
                push_tree_step(steps, TreeStep::At { path, plan });
            },
            TreeEntry::Symlink { target, mtime, .. } => {
                let plan = restore_link(target, *mtime, here, dry_run);
                push_tree_step(steps, TreeStep::At { path, plan });
            },
            TreeEntry::Tree { size, mtime, blob_count, node: sub, .. } => {
                match restore_dir(sub.hash, *size, *mtime, *blob_count, here, dry_run) {
                    Some(plan) => {
                        push_tree_step(steps, TreeStep::At { path, plan });
                    },
                    None => {
                        let halted = restore_tree(sub, path.as_str(), facts, dry_run, steps);
                        if halted.is_some() {
                            proof {
                                lemma_listing_plan_halts(
                                    es@,
                                    (i + 1) as nat,
                                    es@.len(),
                                    dir@,
                                    facts@,
                                    dry_run,
                                    acc,
                                );
                            }
                            return halted;
                        }
                    },
                }
            },
        }
        i = i + 1;
    }
    None
}

// ---------------------------------------------------------------------------
// Added files
// ---------------------------------------------------------------------------

/// One step of removing what the clone root does not have.
pub enum RemoveStep {
    /// Delete the stub of a file that is shown as `shown`.
    Stub { path: String, shown: String },
    /// Delete a file or symlink, and its stub.
    File { path: String },
    /// Delete a stub inside a directory that is being removed, without a word.
    InnerStub { path: String },
    /// Remove a directory, if it is empty by now.
    Dir { path: String },
}

/// What a step says.
pub enum RemoveStepView {
    Stub { path: Seq<char>, shown: Seq<char> },
    File { path: Seq<char> },
    InnerStub { path: Seq<char> },
    Dir { path: Seq<char> },
}

impl View for RemoveStep {
    type V = RemoveStepView;

    open spec fn view(&self) -> RemoveStepView {
        match *self {
            RemoveStep::Stub { path, shown } => RemoveStepView::Stub { path: path@, shown: shown@ },
            RemoveStep::File { path } => RemoveStepView::File { path: path@ },
            RemoveStep::InnerStub { path } => RemoveStepView::InnerStub { path: path@ },
            RemoveStep::Dir { path } => RemoveStepView::Dir { path: path@ },
        }
    }
}

/// What a list of steps says.
pub open spec fn remove_step_views(steps: Seq<RemoveStep>) -> Seq<RemoveStepView> {
    Seq::new(steps.len(), |i: int| steps[i]@)
}

/// The index of the first entry with this name, from `from` on.
pub open spec fn first_entry(es: Seq<TreeEntry>, name: Seq<char>, from: nat) -> Option<nat>
    decreases es.len() - from,
{
    if from >= es.len() {
        None
    } else if es[from as int].name_text() == name {
        Some(from)
    } else {
        first_entry(es, name, from + 1)
    }
}

/// The index of the first entry with this name.
fn find_first(es: &Vec<TreeEntry>, name: &str) -> (r: Option<usize>)
    ensures
        match r {
            Some(i) => i < es@.len() && first_entry(es@, name@, 0) == Some(i as nat),
            None => first_entry(es@, name@, 0) == None::<nat>,
        },
{
    let mut i: usize = 0;
    while i < es.len()
        invariant
            i <= es@.len(),
            first_entry(es@, name@, 0) == first_entry(es@, name@, i as nat),
        decreases es.len() - i,
    {
        if str_eq(es[i].name().as_str(), name) {
            return Some(i);
        }
        i = i + 1;
    }
    None
}

/// Whether a directory on disk has a stub marker.
pub open spec fn has_marker(es: Seq<DiskEntry>) -> bool {
    exists|i: int| 0 <= i < es.len() && (#[trigger] es[i]).name@ == DIR_STUB_NAME@
}

fn marker_in(es: &Vec<DiskEntry>) -> (r: bool)
    ensures
        r == has_marker(es@),
{
    let mut i: usize = 0;
    while i < es.len()
        invariant
            i <= es@.len(),
            forall|k: int| 0 <= k < i ==> (#[trigger] es@[k]).name@ != DIR_STUB_NAME@,
        decreases es.len() - i,
    {
        if str_eq(es[i].name.as_str(), DIR_STUB_NAME) {
            assert(es@[i as int].name@ == DIR_STUB_NAME@);
            return true;
        }
        i = i + 1;
    }
    false
}

/// The steps that remove the first `n` entries of a directory that the clone root
/// does not have. Stubs in it go without a word; a dry run leaves stubs and
/// directories out.
pub open spec fn added_dir_steps(
    es: Seq<DiskEntry>,
    n: nat,
    dir: Seq<char>,
    dry_run: bool,
    acc: Seq<RemoveStepView>,
) -> Seq<RemoveStepView>
    decreases es, n,
{
    if n == 0 || n > es.len() {
        acc
    } else {
        let prev = added_dir_steps(es, (n - 1) as nat, dir, dry_run, acc);
        let e = es[n - 1];
        let path = text::joined(dir, e.name@);
        if worktree::stub_name(e.name@) {
            if dry_run {
                prev
            } else {
                prev.push(RemoveStepView::InnerStub { path })
            }
        } else {
            match e.kind {
                DiskKind::File { .. } => prev.push(RemoveStepView::File { path }),
                DiskKind::Symlink { .. } => prev.push(RemoveStepView::File { path }),
                DiskKind::Dir(sub) => {
                    let inner = added_dir_steps(sub@, sub@.len(), path, dry_run, prev);
                    if dry_run {
                        inner
                    } else {
                        inner.push(RemoveStepView::Dir { path })
                    }
                },
                DiskKind::Other => prev,
            }
        }
    }
}

/// The steps that remove, among the first `n` entries of a directory on disk, what
/// the clone root's tree `tes` does not have.
pub open spec fn added_steps(
    tes: Seq<TreeEntry>,
    es: Seq<DiskEntry>,
    n: nat,
    dir: Seq<char>,
    dry_run: bool,
    acc: Seq<RemoveStepView>,
) -> (Seq<RemoveStepView>, Option<Halt>)
    decreases es, n,
{
    if n == 0 || n > es.len() {
        (acc, None)
    } else {
        let prev = added_steps(tes, es, (n - 1) as nat, dir, dry_run, acc);
        if prev.1 is Some {
            prev
        } else {
            let e = es[n - 1];
            let path = text::joined(dir, e.name@);
            if e.name@ == STATE_DIR@ {
                prev
            } else if worktree::stub_name(e.name@) {
                let logical = e.name@.take(e.name@.len() - DIR_STUB_NAME@.len());
                if e.name@ != DIR_STUB_NAME@ && logical.len() > 0 && first_entry(tes, logical, 0)
                    is None {
                    (
                        prev.0.push(
                            RemoveStepView::Stub { path, shown: text::joined(dir, logical) },
                        ),
                        None,
                    )
                } else {
                    prev
                }
            } else {
                match first_entry(tes, e.name@, 0) {
                    Some(k) => match e.kind {
                        DiskKind::Dir(sub) => if has_marker(sub@) {
                            prev
                        } else {
                            match tes[k as int] {
                                TreeEntry::Tree { node, .. } => match node.listing() {
                                    Err(h) => (prev.0, Some(h)),
                                    Ok(inner) => added_steps(
                                        inner,
                                        sub@,
                                        sub@.len(),
                                        path,
                                        dry_run,
                                        prev.0,
                                    ),
                                },
                                _ => prev,
                            }
                        },
                        _ => prev,
                    },
                    None => match e.kind {
                        DiskKind::File { .. } => (
                            prev.0.push(RemoveStepView::File { path }),
                            None,
                        ),
                        DiskKind::Symlink { .. } => (
                            prev.0.push(RemoveStepView::File { path }),
                            None,
                        ),
                        DiskKind::Dir(sub) => {
                            let inner = added_dir_steps(sub@, sub@.len(), path, dry_run, prev.0);
                            (
                                if dry_run {
                                    inner
                                } else {
                                    inner.push(RemoveStepView::Dir { path })
                                },
                                None,
                            )
                        },
                        DiskKind::Other => prev,
                    },
                }
            }
        }
    }
}

/// Whether an entry of a directory that the clone root has goes: it is a file, a symlink
/// or the stub of a file that the clone root's tree `tes` does not have.
pub open spec fn goes(tes: Seq<TreeEntry>, e: DiskEntry) -> bool {
    let logical = e.name@.take(e.name@.len() - DIR_STUB_NAME@.len());
    e.name@ != STATE_DIR@ && if worktree::stub_name(e.name@) {
        e.name@ != DIR_STUB_NAME@ && logical.len() > 0 && first_entry(tes, logical, 0) is None
    } else {
        first_entry(tes, e.name@, 0) is None && (e.kind is File || e.kind is Symlink)
    }
}

/// What a directory that the clone root does not have still holds once the steps are
/// done: no file, symlink or stub.
pub open spec fn emptied(after: Seq<DiskEntry>) -> bool
    decreases after,
{
    forall|j: int|
        0 <= j < after.len() ==> !worktree::stub_name((#[trigger] after[j]).name@) && match after[j].kind {
            DiskKind::Dir(sub) => emptied(sub@),
            DiskKind::Other => true,
            _ => false,
        }
}

/// What a directory that the clone root has still holds once the steps are done: nothing
/// of it goes, and so below it, except below a directory with a stub marker. A directory
/// that the clone root does not have is emptied.
pub open spec fn cleared(tes: Seq<TreeEntry>, after: Seq<DiskEntry>) -> bool
    decreases after,
{
    forall|j: int|
        0 <= j < after.len() ==> !goes(tes, #[trigger] after[j]) && match after[j].kind {
            DiskKind::Dir(sub) => after[j].name@ == STATE_DIR@ || worktree::stub_name(
                after[j].name@,
            ) || match first_entry(tes, after[j].name@, 0) {
                None => emptied(sub@),
                Some(k) => has_marker(sub@) || match tes[k as int] {
                    TreeEntry::Tree { node, .. } => match node.listing() {
                        Ok(inner) => cleared(inner, sub@),
                        Err(_) => true,
                    },
                    _ => true,
                },
            },
            _ => true,
        }
}

/// Whether steps only remove directories that are empty.
pub open spec fn only_dirs(steps: Seq<RemoveStepView>) -> bool {
    forall|i: int| 0 <= i < steps.len() ==> (#[trigger] steps[i]) is Dir
}

/// What goes is named: the steps for a directory delete each entry of it that goes.
pub proof fn law_what_goes_is_removed(
    tes: Seq<TreeEntry>,
    es: Seq<DiskEntry>,
    n: nat,
    dir: Seq<char>,
    dry_run: bool,
    acc: Seq<RemoveStepView>,
)
    requires
        0 < n <= es.len(),
        added_steps(tes, es, n, dir, dry_run, acc).1 is None,
        goes(tes, es[n - 1]),
    ensures
        ({
            let steps = added_steps(tes, es, n, dir, dry_run, acc).0;
            let path = text::joined(dir, es[n - 1].name@);
            steps.len() > 0 && match steps.last() {
                RemoveStepView::Stub { path: p, .. } => p == path,
                RemoveStepView::File { path: p } => p == path,
                _ => false,
            }
        }),
{
}

/// The steps for a directory that the clone root does not have delete each file, symlink
/// and stub in it.
pub proof fn law_added_dir_is_emptied(
    es: Seq<DiskEntry>,
    n: nat,
    dir: Seq<char>,
    acc: Seq<RemoveStepView>,
)
    requires
        0 < n <= es.len(),
        worktree::stub_name(es[n - 1].name@) || es[n - 1].kind is File || es[n - 1].kind is Symlink,
    ensures
        ({
            let steps = added_dir_steps(es, n, dir, false, acc);
            let path = text::joined(dir, es[n - 1].name@);
            steps.len() > 0 && match steps.last() {
                RemoveStepView::InnerStub { path: p } => p == path,
                RemoveStepView::File { path: p } => p == path,
                _ => false,
            }
        }),
{
}

/// Removing what was added a second time deletes nothing: at most, directories that are
/// still not empty are tried again.
pub proof fn law_added_is_removed_once(
    tes: Seq<TreeEntry>,
    after: Seq<DiskEntry>,
    dir: Seq<char>,
    dry_run: bool,
)
    requires
        cleared(tes, after),
    ensures
        only_dirs(added_steps(tes, after, after.len(), dir, dry_run, seq![]).0),
{
    lemma_cleared_steps(tes, after, after.len(), dir, dry_run, seq![]);
}

proof fn lemma_cleared_steps(
    tes: Seq<TreeEntry>,
    after: Seq<DiskEntry>,
    n: nat,
    dir: Seq<char>,
    dry_run: bool,
    acc: Seq<RemoveStepView>,
)
    requires
        n <= after.len(),
        cleared(tes, after),
        only_dirs(acc),
    ensures
        only_dirs(added_steps(tes, after, n, dir, dry_run, acc).0),
    decreases after, n,
{
    if n > 0 {
        lemma_cleared_steps(tes, after, (n - 1) as nat, dir, dry_run, acc);
        let prev = added_steps(tes, after, (n - 1) as nat, dir, dry_run, acc);
        let e = after[n - 1];
        let path = text::joined(dir, e.name@);
        assert(!goes(tes, after[n - 1]));
        if prev.1 is None && e.name@ != STATE_DIR@ && !worktree::stub_name(e.name@) {
            if let DiskKind::Dir(sub) = e.kind {
                match first_entry(tes, e.name@, 0) {
                    None => {
                        lemma_emptied_steps(sub@, sub@.len(), path, dry_run, prev.0);
                    },
                    Some(k) => {
                        if !has_marker(sub@) {
                            if let TreeEntry::Tree { node, .. } = tes[k as int] {
                                if let Ok(inner) = node.listing() {
                                    lemma_cleared_steps(
                                        inner,
                                        sub@,
                                        sub@.len(),
                                        path,
                                        dry_run,
                                        prev.0,
                                    );
                                }
                            }
                        }
                    },
                }
            }
        }
    }
}

proof fn lemma_emptied_steps(
    after: Seq<DiskEntry>,
    n: nat,
    dir: Seq<char>,
    dry_run: bool,
    acc: Seq<RemoveStepView>,
)
    requires
        n <= after.len(),
        emptied(after),
        only_dirs(acc),
    ensures
        only_dirs(added_dir_steps(after, n, dir, dry_run, acc)),
    decreases after, n,
{
    if n > 0 {
        lemma_emptied_steps(after, (n - 1) as nat, dir, dry_run, acc);
        let prev = added_dir_steps(after, (n - 1) as nat, dir, dry_run, acc);
        let e = after[n - 1];
        if let DiskKind::Dir(sub) = after[n - 1].kind {
            lemma_emptied_steps(
                sub@,
                sub@.len(),
                text::joined(dir, e.name@),
                dry_run,
                prev,
            );
        }
    }
}

proof fn lemma_added_steps_halt(
    tes: Seq<TreeEntry>,
    es: Seq<DiskEntry>,
    a: nat,
    b: nat,
    dir: Seq<char>,
    dry_run: bool,
    acc: Seq<RemoveStepView>,
)
    requires
        a <= b <= es.len(),
        added_steps(tes, es, a, dir, dry_run, acc).1 is Some,
    ensures
        added_steps(tes, es, b, dir, dry_run, acc) == added_steps(tes, es, a, dir, dry_run, acc),
    decreases b - a,
{
    if a < b {
        lemma_added_steps_halt(tes, es, a, (b - 1) as nat, dir, dry_run, acc);
    }
}

fn push_remove_step(steps: &mut Vec<RemoveStep>, step: RemoveStep)
    ensures
        remove_step_views(final(steps)@) == remove_step_views(old(steps)@).push(step@),
{
    let ghost before = remove_step_views(steps@);
    steps.push(step);
    assert(remove_step_views(steps@) =~= before.push(step@));
}

/// Appends the steps that remove all that a directory holds.
pub fn remove_added_dir(dir_entries: &Vec<DiskEntry>, dir: &str, dry_run: bool, steps: &mut Vec<
    RemoveStep,
>)
    ensures
        remove_step_views(final(steps)@) == added_dir_steps(
            dir_entries@,
            dir_entries@.len(),
            dir@,
            dry_run,
            remove_step_views(old(steps)@),
        ),
    decreases dir_entries,
{
    let ghost acc = remove_step_views(steps@);
    let mut i: usize = 0;
    while i < dir_entries.len()
        invariant
            i <= dir_entries@.len(),
            remove_step_views(steps@) == added_dir_steps(
                dir_entries@,
                i as nat,
                dir@,
                dry_run,
                acc,
            ),
        decreases dir_entries.len() - i,
    {
        let e = &dir_entries[i];
        let path = join_path(dir, e.name.as_str());
        if is_stub_filename(e.name.as_str()) {
            if !dry_run {
                push_remove_step(steps, RemoveStep::InnerStub { path });
            }
        } else {
            match &e.kind {
                DiskKind::File { .. } => {
                    push_remove_step(steps, RemoveStep::File { path });
                },
                DiskKind::Symlink { .. } => {
                    push_remove_step(steps, RemoveStep::File { path });
                },
                DiskKind::Dir(sub) => {
                    remove_added_dir(sub, path.as_str(), dry_run, steps);
                    if !dry_run {
                        push_remove_step(steps, RemoveStep::Dir { path });
                    }
                },
                DiskKind::Other => {},
            }
        }
        i = i + 1;
    }
}

/// Appends the steps that remove, in a directory on disk, what the clone root's tree
/// `tes` does not have. A stubbed directory is not looked into.
#[verifier::loop_isolation(false)]
#[verifier::rlimit(40)]
pub fn remove_added_files(
    tes: &Vec<TreeEntry>,
    dir_entries: &Vec<DiskEntry>,
    dir: &str,
    dry_run: bool,
    steps: &mut Vec<RemoveStep>,
) -> (r: Option<Halt>)
    ensures
        (remove_step_views(final(steps)@), r) == added_steps(
            tes@,
            dir_entries@,
            dir_entries@.len(),
            dir@,
            dry_run,
            remove_step_views(old(steps)@),
        ),
    decreases dir_entries,
{
    let ghost acc = remove_step_views(steps@);
    let mut i: usize = 0;
    while i < dir_entries.len()
        invariant
            i <= dir_entries@.len(),
            added_steps(tes@, dir_entries@, i as nat, dir@, dry_run, acc) == (
                remove_step_views(steps@),
                None::<Halt>,
            ),
        decreases dir_entries.len() - i,
    {
        let e = &dir_entries[i];
        let path = join_path(dir, e.name.as_str());
        if str_eq(e.name.as_str(), STATE_DIR) {
        } else if is_stub_filename(e.name.as_str()) {
            if !str_eq(e.name.as_str(), DIR_STUB_NAME) {
                if let Some(logical) = logical_name(e.name.as_str()) {
                    if !logical.as_str().is_empty() && find_first(tes, logical.as_str()).is_none() {
                        let shown = join_path(dir, logical.as_str());
                        push_remove_step(steps, RemoveStep::Stub { path, shown });
                    }
                }
            }
        } else {
            match find_first(tes, e.name.as_str()) {
                Some(k) => {
                    if let DiskKind::Dir(sub) = &e.kind {
                        if !marker_in(sub) {
                            if let TreeEntry::Tree { node, .. } = &tes[k] {
                                match node.entries() {
                                    Err(h) => {
                                        proof {
                                            lemma_added_steps_halt(
                                                tes@,
                                                dir_entries@,
                                                (i + 1) as nat,
                                                dir_entries@.len(),
                                                dir@,
                                                dry_run,
                                                acc,
                                            );
                                        }
                                        return Some(h);
                                    },
                                    Ok(inner) => {
                                        let halted = remove_added_files(
                                            inner,
                                            sub,
                                            path.as_str(),
                                            dry_run,
                                            steps,
                                        );
                                        if halted.is_some() {
                                            proof {
                                                lemma_added_steps_halt(
                                                    tes@,
                                                    dir_entries@,
                                                    (i + 1) as nat,
                                                    dir_entries@.len(),
                                                    dir@,
                                                    dry_run,
                                                    acc,
                                                );
                                            }
                                            return halted;
                                        }
                                    },
                                }
                            }
                        }
                    }
                },
                None => {
                    match &e.kind {
                        DiskKind::File { .. } => {
                            push_remove_step(steps, RemoveStep::File { path });
                        },
                        DiskKind::Symlink { .. } => {
                            push_remove_step(steps, RemoveStep::File { path });
                        },
                        DiskKind::Dir(sub) => {
                            remove_added_dir(sub, path.as_str(), dry_run, steps);
                            if !dry_run {
                                push_remove_step(steps, RemoveStep::Dir { path });
                            }
                        },
                        DiskKind::Other => {},
                    }
                },
            }
        }
        i = i + 1;
    }
    None
}

// ---------------------------------------------------------------------------
// Reports
// ---------------------------------------------------------------------------

/// How many paths were restored and deleted.
pub struct Counts {
    pub restored: usize,
    pub deleted: usize,
}

/// The last line of a restore.
pub open spec fn summary_text(total: nat, dry_run: bool) -> Seq<char> {
    if total == 0 {
        "Nothing to restore."@
    } else if dry_run {
        text::decimal(total) + " path(s) would be restored."@
    } else {
        text::decimal(total) + " path(s) restored."@
    }
}

/// The last line of a restore.
pub fn print_summary(counts: &Counts, dry_run: bool) -> (r: String)
    requires
        counts.restored + counts.deleted <= usize::MAX,
    ensures
        r@ == summary_text((counts.restored + counts.deleted) as nat, dry_run),
{
    let total: usize = counts.restored + counts.deleted;
    if total == 0 {
        return "Nothing to restore.".to_owned();
    }
    if dry_run {
        concat(decimal_of(total as u64).as_str(), " path(s) would be restored.")
    } else {
        concat(decimal_of(total as u64).as_str(), " path(s) restored.")
    }
}

/// What is reported of a path.
#[derive(Clone, Copy, Debug, PartialEq, Eq, Structural)]
pub enum Verb {
    Restore,
    Delete,
}

/// How a verb is put.
pub open spec fn verb_text(verb: Verb, dry_run: bool) -> Seq<char> {
    match (verb, dry_run) {
        (Verb::Restore, true) => "would restore"@,
        (Verb::Restore, false) => "restored"@,
        (Verb::Delete, true) => "would delete"@,
        (Verb::Delete, false) => "deleted"@,
    }
}

/// How a verb is put.
pub fn verb_of(verb: Verb, dry_run: bool) -> (r: &'static str)
    ensures
        r@ == verb_text(verb, dry_run),
{
    match verb {
        Verb::Restore => if dry_run {
            "would restore"
        } else {
            "restored"
        },
        Verb::Delete => if dry_run {
            "would delete"
        } else {
            "deleted"
        },
    }
}

/// The line about one path; `verb` is the verb as it is shown, colored or not.
pub fn print_action(verb: &str, path: &str) -> (r: String)
    ensures
        r@ == "  "@ + verb@ + ": "@ + path@,
{
    let mut s = concat3("  ", verb, ": ");
    s.append(path);
    s
}

/// The helper file of a path with this suffix.
pub fn helper_path(base: &str, suffix: &str) -> (r: String)
    ensures
        r@ == base@ + suffix@,
{
    concat(base, suffix)
}

} // verus!
