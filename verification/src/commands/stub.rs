//! Replacing content by stubs.

use crate::error::{not_found, Error};
use crate::object::{
    self, blob_stub, navigate_entry, tree_stub, Halt, ObjectHash, StubRecord, StubTargetType,
    TreeEntry, TreeNode,
};
use crate::text::{self, concat, concat3, decimal_of, path_components};
use vstd::prelude::*;

pub mod reported;

verus! {

/// What the command was asked for.
pub struct StubOptions {
    pub work_dir: String,
    /// The directory that paths are relative to.
    pub current_dir: String,
    /// The paths to stub.
    pub paths: Vec<String>,
    pub dry_run: bool,
}

/// What stands at a path on disk.
#[derive(Clone, Copy, Debug, PartialEq, Eq, Structural)]
pub enum Found {
    Dir,
    File,
    Nothing,
}

/// What is done with a path next.
#[derive(Clone, Copy, Debug, PartialEq, Eq, Structural)]
pub enum Check {
    /// It is stubbed already and is skipped.
    Skip,
    /// It is looked up in the tree of the last sync.
    LookUp,
}

/// The complaint about a path that cannot be stubbed.
pub open spec fn refusal(rel: Seq<char>, why: Seq<char>) -> Seq<char> {
    "cannot stub '"@ + rel + why
}

/// Why a path is refused at first sight.
pub open spec fn first_refusal(
    rel: Seq<char>,
    given: Seq<char>,
    found: Found,
    stubbed: bool,
    visible: bool,
) -> Option<Seq<char>> {
    if stubbed {
        None
    } else if found == Found::Nothing {
        Some("path does not exist: "@ + given)
    } else if visible {
        Some(
            refusal(
                rel,
                "': the .omemfs-stub file would be visible to Git (add it to .gitignore, or stub the entire Git repo root)"@,
            ),
        )
    } else {
        None
    }
}

/// Looks at a path: one that is stubbed is skipped, and one whose stub Git would see
/// is refused. `given` is the path as it was entered.
pub fn check_path(rel: &str, given: &str, found: Found, stubbed: bool, visible: bool) -> (r: Result<
    Check,
    Error,
>)
    ensures
        match r {
            Ok(c) => first_refusal(rel@, given@, found, stubbed, visible) is None && c == if stubbed {
                Check::Skip
            } else {
                Check::LookUp
            },
            Err(e) => e matches Error::Other(s) && first_refusal(
                rel@,
                given@,
                found,
                stubbed,
                visible,
            ) == Some(s@),
        },
{
    if stubbed {
        return Ok(Check::Skip);
    }
    match found {
        Found::Nothing => {
            return Err(Error::Other(concat("path does not exist: ", given)));
        },
        _ => {},
    }
    if visible {
        return Err(
            Error::Other(
                concat3(
                    "cannot stub '",
                    rel,
                    "': the .omemfs-stub file would be visible to Git (add it to .gitignore, or stub the entire Git repo root)",
                ),
            ),
        );
    }
    Ok(Check::LookUp)
}

/// An item to stub.
pub struct StubTarget {
    pub rel: String,
    pub record: StubRecord,
}

/// The record of an entry that is stubbed as what stands on disk, or the complaint.
pub open spec fn record_of(rel: Seq<char>, found: Found, entry: Option<TreeEntry>) -> Result<
    StubRecord,
    Seq<char>,
> {
    match entry {
        None => Err(
            refusal(
                rel,
                "': not found in clone_root (run 'omemfs push' to sync first)"@,
            ),
        ),
        Some(e) => if found == Found::Dir {
            match e {
                TreeEntry::Tree { size, mtime, blob_count, node, .. } => Ok(
                    StubRecord {
                        target_type: StubTargetType::Tree,
                        hash: node.hash,
                        size,
                        mtime,
                        mode: None,
                        blob_count,
                    },
                ),
                _ => Err(refusal(rel, "': clone_root entry is not a directory"@)),
            }
        } else {
            match e {
                TreeEntry::Blob { hash, size, mtime, mode, .. } => Ok(
                    StubRecord {
                        target_type: StubTargetType::Blob,
                        hash,
                        size,
                        mtime,
                        mode,
                        blob_count: 0,
                    },
                ),
                _ => Err(refusal(rel, "': clone_root entry is not a file"@)),
            }
        },
    }
}

/// What the tree of the last sync holds at a path. For a file, a directory that is not
/// there hides what is below it, and a directory at the path itself is no entry.
pub open spec fn synced_entry(root: TreeNode, rel: Seq<char>, found: Found) -> Result<
    Option<TreeEntry>,
    Halt,
> {
    match object::entry_at(root, text::components(rel), 0) {
        Ok(Some(e)) => if found == Found::File && e is Tree {
            Ok(None)
        } else {
            Ok(Some(e))
        },
        Ok(None) => Ok(None),
        Err(Halt::Missing(h)) => if found == Found::File {
            Ok(None)
        } else {
            Err(Halt::Missing(h))
        },
        Err(Halt::Unread(h)) => Err(Halt::Unread(h)),
    }
}

/// Why a target could not be found.
pub enum Miss {
    /// This object has to be read first.
    Unread(ObjectHash),
    Failed(Error),
}

/// The stub that would take the place of a path.
pub fn find_target(root: &TreeNode, rel: &str, found: Found) -> (r: Result<StubTarget, Miss>)
    ensures
        match synced_entry(*root, rel@, found) {
            Err(Halt::Unread(h)) => r == Err::<StubTarget, Miss>(Miss::Unread(h)),
            Err(Halt::Missing(h)) => r matches Err(Miss::Failed(Error::ObjectNotFound(s))) && s@
                == h.hex(),
            Ok(entry) => match record_of(rel@, found, entry) {
                Ok(record) => r matches Ok(t) && t.rel@ == rel@ && t.record == record,
                Err(m) => r matches Err(Miss::Failed(Error::Other(s))) && s@ == m,
            },
        },
{
    let comps = path_components(rel);
    let entry: Option<&TreeEntry> = match navigate_entry(root, &comps, 0) {
        Ok(e) => e,
        Err(Halt::Unread(h)) => {
            return Err(Miss::Unread(h));
        },
        Err(Halt::Missing(h)) => {
            if found == Found::File {
                None
            } else {
                return Err(Miss::Failed(not_found(h)));
            }
        },
    };
    if found == Found::Dir {
        match entry {
            Some(TreeEntry::Tree { size, mtime, blob_count, node, .. }) => Ok(
                StubTarget {
                    rel: rel.to_owned(),
                    record: tree_stub(node.hash, *size, *mtime, *blob_count),
                },
            ),
            Some(_) => Err(refused(rel, "': clone_root entry is not a directory")),
            None => Err(
                refused(rel, "': not found in clone_root (run 'omemfs push' to sync first)"),
            ),
        }
    } else {
        match entry {
            Some(TreeEntry::Blob { hash, size, mtime, mode, .. }) => Ok(
                StubTarget {
                    rel: rel.to_owned(),
                    record: blob_stub(*hash, *size, *mtime, mode),
                },
            ),
            Some(TreeEntry::Symlink { .. }) => Err(
                refused(rel, "': clone_root entry is not a file"),
            ),
            Some(TreeEntry::Tree { .. }) => {
                if found == Found::File {
                    Err(
                        refused(
                            rel,
                            "': not found in clone_root (run 'omemfs push' to sync first)",
                        ),
                    )
                } else {
                    Err(refused(rel, "': clone_root entry is not a file"))
                }
            },
            None => Err(
                refused(rel, "': not found in clone_root (run 'omemfs push' to sync first)"),
            ),
        }
    }
}

fn refused(rel: &str, why: &str) -> (r: Miss)
    ensures
        r matches Miss::Failed(Error::Other(s)) && s@ == refusal(rel@, why@),
{
    Miss::Failed(Error::Other(concat3("cannot stub '", rel, why)))
}

/// Only what is as it was at the last sync is stubbed. `actual` is what the working
/// tree holds at the path.
pub fn verify_unchanged(target: &StubTarget, actual: ObjectHash) -> (r: Result<(), Error>)
    ensures
        match r {
            Ok(()) => actual == target.record.hash,
            Err(e) => actual != target.record.hash && (e matches Error::Other(s) && s@ == refusal(
                target.rel@,
                "': working tree differs from clone_root (run 'omemfs push' to save changes first)"@,
            )),
        },
{
    if actual == target.record.hash {
        return Ok(());
    }
    Err(
        Error::Other(
            concat3(
                "cannot stub '",
                target.rel.as_str(),
                "': working tree differs from clone_root (run 'omemfs push' to save changes first)",
            ),
        ),
    )
}

/// What a stub stands for can be brought back: its record names the object that the
/// entry names, with the entry's size, time and mode.
pub proof fn law_record_keeps_entry(rel: Seq<char>, found: Found, e: TreeEntry)
    requires
        record_of(rel, found, Some(e)) is Ok,
    ensures
        ({
            let record = record_of(rel, found, Some(e))->Ok_0;
            &&& e.hash_of() == Some(record.hash)
            &&& (record.target_type == StubTargetType::Tree <==> e is Tree)
            &&& e matches TreeEntry::Blob { size, mtime, mode, .. } ==> record.size == size
                && record.mtime == mtime && record.mode == mode
            &&& e matches TreeEntry::Tree { size, mtime, blob_count, .. } ==> record.size == size
                && record.mtime == mtime && record.blob_count == blob_count
        }),
{
}

// ---------------------------------------------------------------------------
// The run
// ---------------------------------------------------------------------------

/// What was seen of one path that is to be stubbed.
pub struct PathFacts {
    /// The path from the root.
    pub rel: String,
    pub found: Found,
    /// Whether a stub stands there already.
    pub stubbed: bool,
    /// Whether Git would see the stub.
    pub visible: bool,
    /// What the working tree holds there, once that was worked out.
    pub actual: Option<ObjectHash>,
}

/// What is stubbed and what is skipped.
pub struct StubPlan {
    /// The paths that are stubbed already.
    pub skipped: Vec<String>,
    pub targets: Vec<StubTarget>,
}

/// Why there is no plan yet, or none at all.
pub enum StubStop {
    /// The next path has to be looked at.
    Look,
    /// What the working tree holds at this path has to be worked out.
    Hash(usize),
    /// This object has to be read.
    Unread(ObjectHash),
    Failed(Error),
}

/// The value of a plan.
pub struct StubPlanView {
    pub skipped: Seq<Seq<char>>,
    pub targets: Seq<(Seq<char>, StubRecord)>,
}

impl View for StubPlan {
    type V = StubPlanView;

    open spec fn view(&self) -> StubPlanView {
        StubPlanView {
            skipped: text::views(self.skipped@),
            targets: Seq::new(
                self.targets@.len(),
                |i: int| (self.targets@[i].rel@, self.targets@[i].record),
            ),
        }
    }
}

/// The value of a stop.
pub enum StubStopView {
    Look,
    Hash(int),
    Unread(ObjectHash),
    Missing(ObjectHash),
    Refused(Seq<char>),
}

/// Whether a stop is the one that `v` says.
pub open spec fn stops_with(s: StubStop, v: StubStopView) -> bool {
    match v {
        StubStopView::Look => s is Look,
        StubStopView::Hash(i) => s matches StubStop::Hash(k) && k == i,
        StubStopView::Unread(h) => s == StubStop::Unread(h),
        StubStopView::Missing(h) => s matches StubStop::Failed(Error::ObjectNotFound(m)) && m@
            == h.hex(),
        StubStopView::Refused(m) => s matches StubStop::Failed(Error::Other(e)) && e@ == m,
    }
}

/// What is said of a path whose content is not that of the last sync.
pub open spec fn differs_text() -> Seq<char> {
    "': working tree differs from clone_root (run 'omemfs push' to save changes first)"@
}

/// What comes of the path with number `i`: the stub that takes its place, or nothing
/// if it is stubbed already.
pub open spec fn checked(given: Seq<char>, root: TreeNode, f: PathFacts, i: int) -> Result<
    Option<(Seq<char>, StubRecord)>,
    StubStopView,
> {
    match first_refusal(f.rel@, given, f.found, f.stubbed, f.visible) {
        Some(m) => Err(StubStopView::Refused(m)),
        None => if f.stubbed {
            Ok(None)
        } else {
            match synced_entry(root, f.rel@, f.found) {
                Err(Halt::Unread(h)) => Err(StubStopView::Unread(h)),
                Err(Halt::Missing(h)) => Err(StubStopView::Missing(h)),
                Ok(entry) => match record_of(f.rel@, f.found, entry) {
                    Err(m) => Err(StubStopView::Refused(m)),
                    Ok(record) => match f.actual {
                        None => Err(StubStopView::Hash(i)),
                        Some(a) => if a == record.hash {
                            Ok(Some((f.rel@, record)))
                        } else {
                            Err(StubStopView::Refused(refusal(f.rel@, differs_text())))
                        },
                    },
                },
            }
        },
    }
}

/// The plan for the first `n` paths. Each path is settled before the next one is
/// looked at.
pub open spec fn plan_upto(
    paths: Seq<Seq<char>>,
    root: TreeNode,
    facts: Seq<PathFacts>,
    n: nat,
) -> Result<StubPlanView, StubStopView>
    decreases n,
{
    if n == 0 {
        Ok(StubPlanView { skipped: seq![], targets: seq![] })
    } else {
        match plan_upto(paths, root, facts, (n - 1) as nat) {
            Err(s) => Err(s),
            Ok(plan) => if n > facts.len() {
                Err(StubStopView::Look)
            } else {
                match checked(paths[n - 1], root, facts[n - 1], n - 1) {
                    Err(s) => Err(s),
                    Ok(None) => Ok(
                        StubPlanView { skipped: plan.skipped.push(facts[n - 1].rel@), ..plan },
                    ),
                    Ok(Some(t)) => Ok(StubPlanView { targets: plan.targets.push(t), ..plan }),
                }
            },
        }
    }
}

/// What a run comes to: it wants a path, and a tree of the last sync.
pub open spec fn run_of(
    paths: Seq<Seq<char>>,
    root: Option<TreeNode>,
    facts: Seq<PathFacts>,
) -> Result<StubPlanView, StubStopView> {
    if paths.len() == 0 {
        Err(StubStopView::Refused("nothing specified, nothing stubbed"@))
    } else {
        match root {
            None => Err(
                StubStopView::Refused("no clone_root — repository has never been synced"@),
            ),
            Some(node) => plan_upto(paths, node, facts, paths.len()),
        }
    }
}

/// What a borrowed root is.
pub open spec fn root_of(root: Option<&TreeNode>) -> Option<TreeNode> {
    match root {
        Some(node) => Some(*node),
        None => None,
    }
}

/// Plans a run from what was seen of its paths so far. No path is stubbed unless all
/// of them can be.
#[verifier::loop_isolation(false)]
pub fn run(opts: &StubOptions, root: Option<&TreeNode>, facts: &Vec<PathFacts>) -> (r: Result<
    StubPlan,
    StubStop,
>)
    ensures
        match run_of(text::views(opts.paths@), root_of(root), facts@) {
            Ok(plan) => r matches Ok(p) && p@ == plan,
            Err(v) => r matches Err(s) && stops_with(s, v),
        },
{
    let ghost paths = text::views(opts.paths@);
    if opts.paths.len() == 0 {
        return Err(
            StubStop::Failed(Error::Other("nothing specified, nothing stubbed".to_owned())),
        );
    }
    let node: &TreeNode = match root {
        Some(node) => node,
        None => {
            return Err(
                StubStop::Failed(
                    Error::Other("no clone_root — repository has never been synced".to_owned()),
                ),
            );
        },
    };
    let mut plan = StubPlan { skipped: Vec::new(), targets: Vec::new() };
    let mut i: usize = 0;
    assert(plan@.skipped =~= seq![]);
    assert(plan@.targets =~= seq![]);
    while i < opts.paths.len()
        invariant
            i <= opts.paths@.len(),
            i <= facts@.len(),
            paths == text::views(opts.paths@),
            plan_upto(paths, *node, facts@, i as nat) == Ok::<StubPlanView, StubStopView>(plan@),
        decreases opts.paths.len() - i,
    {
        let ghost before = plan@;
        proof {
            if plan_upto(paths, *node, facts@, (i + 1) as nat) is Err {
                lemma_stop_stays(paths, *node, facts@, (i + 1) as nat, paths.len());
            }
        }
        if i >= facts.len() {
            return Err(StubStop::Look);
        }
        let f: &PathFacts = &facts[i];
        assert(paths[i as int] == opts.paths@[i as int]@);
        let check = match check_path(
            f.rel.as_str(),
            opts.paths[i].as_str(),
            f.found,
            f.stubbed,
            f.visible,
        ) {
            Ok(c) => c,
            Err(e) => {
                return Err(StubStop::Failed(e));
            },
        };
        match check {
            Check::Skip => {
                plan.skipped.push(f.rel.clone());
                proof {
                    assert(plan@.skipped =~= before.skipped.push(f.rel@));
                    assert(plan@.targets =~= before.targets);
                }
            },
            Check::LookUp => {
                let target = match find_target(node, f.rel.as_str(), f.found) {
                    Ok(t) => t,
                    Err(Miss::Unread(h)) => {
                        return Err(StubStop::Unread(h));
                    },
                    Err(Miss::Failed(e)) => {
                        return Err(StubStop::Failed(e));
                    },
                };
                let actual: ObjectHash = match f.actual {
                    Some(h) => h,
                    None => {
                        return Err(StubStop::Hash(i));
                    },
                };
                if let Err(e) = verify_unchanged(&target, actual) {
                    return Err(StubStop::Failed(e));
                }
                plan.targets.push(target);
                proof {
                    assert(plan@.skipped =~= before.skipped);
                    assert(plan@.targets =~= before.targets.push((target.rel@, target.record)));
                }
            },
        }
        i = i + 1;
    }
    Ok(plan)
}

proof fn lemma_stop_stays(
    paths: Seq<Seq<char>>,
    root: TreeNode,
    facts: Seq<PathFacts>,
    n: nat,
    m: nat,
)
    requires
        n <= m,
        plan_upto(paths, root, facts, n) is Err,
    ensures
        plan_upto(paths, root, facts, m) == plan_upto(paths, root, facts, n),
    decreases m,
{
    if n < m {
        lemma_stop_stays(paths, root, facts, n, (m - 1) as nat);
    }
}

/// Whether a target stands for a path: it names what the working tree holds there, and
/// that is what the tree of the last sync has there.
pub open spec fn stands_for(t: (Seq<char>, StubRecord), root: TreeNode, f: PathFacts) -> bool {
    &&& t.0 == f.rel@
    &&& f.actual == Some(t.1.hash)
    &&& synced_entry(root, f.rel@, f.found) matches Ok(Some(e)) && e.hash_of() == Some(t.1.hash)
}

/// A run stubs all that it was asked for or nothing: where there is a plan, every path
/// is stubbed already, or it holds what the tree of the last sync has there, and the
/// stub that takes its place names that content. So nothing is lost by a run.
pub proof fn law_only_synced_content_is_stubbed(
    paths: Seq<Seq<char>>,
    root: TreeNode,
    facts: Seq<PathFacts>,
    i: int,
)
    requires
        0 <= i < paths.len(),
        run_of(paths, Some(root), facts) is Ok,
    ensures
        i < facts.len(),
        ({
            let plan = run_of(paths, Some(root), facts)->Ok_0;
            if facts[i].stubbed {
                plan.skipped.contains(facts[i].rel@)
            } else {
                exists|k: int|
                    0 <= k < plan.targets.len() && stands_for(#[trigger] plan.targets[k], root, facts[i])
            }
        }),
        ({
            let plan = run_of(paths, Some(root), facts)->Ok_0;
            plan.skipped.len() + plan.targets.len() == paths.len()
        }),
{
    lemma_planned(paths, root, facts, i, paths.len());
    lemma_plan_size(paths, root, facts, paths.len());
}

proof fn lemma_plan_size(paths: Seq<Seq<char>>, root: TreeNode, facts: Seq<PathFacts>, n: nat)
    requires
        plan_upto(paths, root, facts, n) is Ok,
    ensures
        ({
            let plan = plan_upto(paths, root, facts, n)->Ok_0;
            plan.skipped.len() + plan.targets.len() == n
        }),
    decreases n,
{
    if n > 0 {
        lemma_plan_size(paths, root, facts, (n - 1) as nat);
    }
}

proof fn lemma_planned(
    paths: Seq<Seq<char>>,
    root: TreeNode,
    facts: Seq<PathFacts>,
    i: int,
    n: nat,
)
    requires
        0 <= i < n <= paths.len(),
        plan_upto(paths, root, facts, n) is Ok,
    ensures
        i < facts.len(),
        ({
            let plan = plan_upto(paths, root, facts, n)->Ok_0;
            if facts[i].stubbed {
                plan.skipped.contains(facts[i].rel@)
            } else {
                exists|k: int|
                    0 <= k < plan.targets.len() && stands_for(#[trigger] plan.targets[k], root, facts[i])
            }
        }),
    decreases n,
{
    let before = plan_upto(paths, root, facts, (n - 1) as nat)->Ok_0;
    let plan = plan_upto(paths, root, facts, n)->Ok_0;
    if i == n - 1 {
        if facts[i].stubbed {
            assert(plan.skipped[before.skipped.len() as int] == facts[i].rel@);
        } else {
            assert(stands_for(plan.targets[before.targets.len() as int], root, facts[i]));
        }
    } else {
        lemma_planned(paths, root, facts, i, (n - 1) as nat);
        if facts[i].stubbed {
            let k = choose|k: int|
                0 <= k < before.skipped.len() && before.skipped[k] == facts[i].rel@;
            assert(plan.skipped[k] == facts[i].rel@);
        } else {
            let k = choose|k: int|
                0 <= k < before.targets.len() && stands_for(#[trigger] before.targets[k], root, facts[i]);
            assert(plan.targets[k] == before.targets[k]);
        }
    }
}

/// Whether a path can be stubbed: it is there, Git would not see the stub, and what stands
/// there is of the kind and has the hash that the tree of the last sync has at the path.
pub open spec fn can_be_stubbed(root: TreeNode, f: PathFacts, e: TreeEntry) -> bool {
    &&& !f.stubbed && !f.visible
    &&& object::entry_at(root, text::components(f.rel@), 0) == Ok::<Option<TreeEntry>, Halt>(
        Some(e),
    )
    &&& f.found == Found::Dir && e is Tree || f.found == Found::File && e is Blob
    &&& f.actual is Some && f.actual == e.hash_of()
}

/// A path that can be stubbed is not refused, and the stub that takes its place names its
/// content.
pub proof fn law_what_can_be_stubbed_is(
    given: Seq<char>,
    root: TreeNode,
    f: PathFacts,
    i: int,
    e: TreeEntry,
)
    requires
        can_be_stubbed(root, f, e),
    ensures
        checked(given, root, f, i) matches Ok(Some(t)) && t.0 == f.rel@ && Some(t.1.hash)
            == f.actual && (t.1.target_type == StubTargetType::Tree <==> f.found == Found::Dir),
{
}

/// What stands on disk and differs from the tree of the last sync, or is not in it, or is
/// not there, or whose stub Git would see, is never stubbed.
pub proof fn law_nothing_else_is_stubbed(given: Seq<char>, root: TreeNode, f: PathFacts, i: int)
    requires
        checked(given, root, f, i) matches Ok(Some(_)),
    ensures
        exists|e: TreeEntry| #[trigger] can_be_stubbed(root, f, e),
{
    let e = synced_entry(root, f.rel@, f.found)->Ok_0->0;
    assert(can_be_stubbed(root, f, e));
}

/// A path that is a stub already is skipped, whatever else holds of it, and only such a path
/// is.
pub proof fn law_only_stubs_are_skipped(given: Seq<char>, root: TreeNode, f: PathFacts, i: int)
    ensures
        checked(given, root, f, i) matches Ok(None) <==> f.stubbed,
{
}

/// What is done to the working tree, for the target with a number.
#[derive(Clone, Copy, Debug, PartialEq, Eq, Structural)]
pub enum StubStep {
    /// Write the stub of a file beside it.
    WriteStub(usize),
    /// Remove a file.
    RemoveFile(usize),
    /// Remove all that a directory holds.
    EmptyDir(usize),
    /// Write the stub of a directory into it.
    WriteDirStub(usize),
}

/// What is done for the first `n` targets. The stub of a file is written before the
/// file is removed; a directory is emptied before its stub is written into it.
pub open spec fn steps_upto(targets: Seq<StubTarget>, n: nat) -> Seq<StubStep>
    decreases n,
{
    if n == 0 || n > targets.len() {
        seq![]
    } else {
        let i = (n - 1) as usize;
        let before = steps_upto(targets, (n - 1) as nat);
        match targets[n - 1].record.target_type {
            StubTargetType::Blob => before.push(StubStep::WriteStub(i)).push(StubStep::RemoveFile(i)),
            StubTargetType::Tree => before.push(StubStep::EmptyDir(i)).push(
                StubStep::WriteDirStub(i),
            ),
        }
    }
}

/// Two things are done for each target, in turn. For a file the stub is written first, so
/// that its content is recorded at all times; a directory is emptied first, so that its stub
/// is not removed with what it holds.
pub proof fn law_each_target_is_replaced(targets: Seq<StubTarget>, n: nat, i: int)
    requires
        0 <= i < n <= targets.len(),
        targets.len() <= usize::MAX,
    ensures
        steps_upto(targets, n).len() == 2 * n,
        ({
            let first = steps_upto(targets, n)[2 * i];
            let second = steps_upto(targets, n)[2 * i + 1];
            match targets[i].record.target_type {
                StubTargetType::Blob => first == StubStep::WriteStub(i as usize) && second
                    == StubStep::RemoveFile(i as usize),
                StubTargetType::Tree => first == StubStep::EmptyDir(i as usize) && second
                    == StubStep::WriteDirStub(i as usize),
            }
        }),
    decreases n,
{
    if n > 1 {
        law_each_target_is_replaced(targets, (n - 1) as nat, if i < n - 1 {
            i
        } else {
            0
        });
    } else {
        assert(steps_upto(targets, 0).len() == 0);
    }
}

/// What is done to the working tree: nothing in a dry run.
pub fn stub_steps(targets: &Vec<StubTarget>, dry_run: bool) -> (r: Vec<StubStep>)
    ensures
        r@ == if dry_run {
            seq![]
        } else {
            steps_upto(targets@, targets@.len())
        },
{
    let mut out: Vec<StubStep> = Vec::new();
    assert(out@ =~= seq![]);
    if dry_run {
        return out;
    }
    let mut i: usize = 0;
    while i < targets.len()
        invariant
            i <= targets@.len(),
            out@ == steps_upto(targets@, i as nat),
        decreases targets.len() - i,
    {
        match targets[i].record.target_type {
            StubTargetType::Blob => {
                out.push(StubStep::WriteStub(i));
                out.push(StubStep::RemoveFile(i));
            },
            StubTargetType::Tree => {
                out.push(StubStep::EmptyDir(i));
                out.push(StubStep::WriteDirStub(i));
            },
        }
        i = i + 1;
    }
    out
}

// ---------------------------------------------------------------------------
// What is said
// ---------------------------------------------------------------------------

/// The warning about a path that is stubbed already.
pub fn skip_warning(rel: &str) -> (r: String)
    ensures
        r@ == "warning: '"@ + rel@ + "' is already stubbed, skipping"@,
{
    concat3("warning: '", rel, "' is already stubbed, skipping")
}

/// The lines of a run that changes nothing or is only tried out.
pub open spec fn preview_lines(rels: Seq<Seq<char>>) -> Seq<Seq<char>> {
    rels.map_values(|r: Seq<char>| "  would stub: "@ + r).push(
        text::decimal(rels.len()) + " file(s) would be stubbed."@,
    )
}

/// The paths of targets.
pub open spec fn target_paths(ts: Seq<StubTarget>) -> Seq<Seq<char>> {
    ts.map_values(|t: StubTarget| t.rel@)
}

/// What is said of targets, and at the phase.
pub open spec fn report_of(ts: Seq<StubTarget>, dry_run: bool) -> (Seq<Seq<char>>, Seq<char>) {
    if ts.len() == 0 {
        (seq!["Nothing to stub."@], "0 files"@)
    } else if dry_run {
        (preview_lines(target_paths(ts)), text::decimal(ts.len()) + " files (dry run)"@)
    } else {
        (
            seq![text::decimal(ts.len()) + " file(s) stubbed."@],
            text::decimal(ts.len()) + " files"@,
        )
    }
}

/// The lines at the end of a run, and what stands at the phase.
pub fn stub_report(targets: &Vec<StubTarget>, dry_run: bool) -> (r: (Vec<String>, String))
    ensures
        (text::views(r.0@), r.1@) == report_of(targets@, dry_run),
{
    let mut out: Vec<String> = Vec::new();
    let n: usize = targets.len();
    if n == 0 {
        out.push("Nothing to stub.".to_owned());
        assert(text::views(out@) =~= seq!["Nothing to stub."@]);
        return (out, "0 files".to_owned());
    }
    let count = decimal_of(n as u64);
    if !dry_run {
        out.push(concat(count.as_str(), " file(s) stubbed."));
        assert(text::views(out@) =~= report_of(targets@, dry_run).0);
        return (out, concat(count.as_str(), " files"));
    }
    let ghost rels = target_paths(targets@);
    let ghost lines = rels.map_values(|r: Seq<char>| "  would stub: "@ + r);
    let mut i: usize = 0;
    assert(text::views(out@) =~= lines.take(0));
    while i < n
        invariant
            i <= n == targets@.len(),
            rels == target_paths(targets@),
            lines == rels.map_values(|r: Seq<char>| "  would stub: "@ + r),
            text::views(out@) == lines.take(i as int),
        decreases n - i,
    {
        let ghost before = text::views(out@);
        out.push(concat("  would stub: ", targets[i].rel.as_str()));
        proof {
            assert(rels[i as int] == targets@[i as int].rel@);
            assert(lines[i as int] == "  would stub: "@ + targets@[i as int].rel@);
            assert(text::views(out@) =~= before.push(lines[i as int]));
            assert(lines.take(i + 1) =~= lines.take(i as int).push(lines[i as int]));
        }
        i = i + 1;
    }
    assert(lines.take(i as int) =~= lines);
    out.push(concat(count.as_str(), " file(s) would be stubbed."));
    assert(text::views(out@) =~= preview_lines(rels));
    (out, concat(count.as_str(), " files (dry run)"))
}

} // verus!
