//! A push of some paths: what is found at each, what is to be done about it, and how
//! the changes are applied to the remote root and to the clone root.

use crate::collections::PathSet;
use crate::error::Error;
use crate::object::{Content, ObjectHash, Timestamp, TreeEntry, TreeNode};
use crate::text::{self, concat, concat3, path_components};
use vstd::prelude::*;
use vstd::string::*;

verus! {

// ---------------------------------------------------------------------------
// What is found
// ---------------------------------------------------------------------------

/// What one path of a scoped push turned out to be; `existing` is what the clone root
/// has there.
#[derive(Clone, Copy, Debug, PartialEq, Eq, Structural)]
pub enum PathState {
    /// A stub that stands for this object.
    Stub { hash: ObjectHash, existing: Option<ObjectHash> },
    /// Nothing stands at the path.
    Absent,
    /// What stands at the path hashes to this. `is_dir` tells whether it is a
    /// directory after it was read.
    Present { hash: ObjectHash, is_dir: bool, existing: Option<ObjectHash> },
    /// The path changed while it was read.
    Raced,
}

/// What a failed read of a path means: a race with a live file is tolerated, any
/// other failure is not.
pub fn after_read_failure(e: Error) -> (r: Result<PathState, Error>)
    ensures
        r == if e.live_path_race() {
            Ok::<PathState, Error>(PathState::Raced)
        } else {
            Err::<PathState, Error>(e)
        },
{
    if e.is_live_path_race() {
        Ok(PathState::Raced)
    } else {
        Err(e)
    }
}

/// One path that was looked at, with the entry of the stub, or that captured when the
/// file was read.
pub struct Look {
    pub rel: String,
    pub state: PathState,
    pub entry: Option<TreeEntry>,
}

/// What a scoped push does about one path.
#[derive(Clone, Copy, Debug, PartialEq, Eq, Structural)]
pub enum PathOutcome {
    /// The clone root already has it: nothing to push.
    Unchanged,
    /// It is left as it is on the remote, with a warning.
    Unstable,
    /// It is to be removed from the remote.
    Delete,
    /// It is to be put on the remote.
    Put { hash: ObjectHash, is_dir: bool },
}

/// What a scoped push does about one path. Missing content of a stub is never taken
/// for a deletion.
pub open spec fn path_outcome(state: PathState) -> PathOutcome {
    match state {
        PathState::Stub { hash, existing } => if existing == Some(hash) {
            PathOutcome::Unchanged
        } else {
            PathOutcome::Put { hash, is_dir: false }
        },
        PathState::Absent => PathOutcome::Delete,
        PathState::Present { hash, is_dir, existing } => if existing == Some(hash) {
            PathOutcome::Unchanged
        } else {
            PathOutcome::Put { hash, is_dir }
        },
        PathState::Raced => PathOutcome::Unstable,
    }
}

fn same_hash(a: Option<ObjectHash>, b: ObjectHash) -> (r: bool)
    ensures
        r == (a == Some(b)),
{
    match a {
        Some(h) => h == b,
        None => false,
    }
}

/// Decides what a scoped push does about one path.
pub fn scoped_path(state: PathState) -> (r: PathOutcome)
    ensures
        r == path_outcome(state),
{
    match state {
        PathState::Stub { hash, existing } => if same_hash(existing, hash) {
            PathOutcome::Unchanged
        } else {
            PathOutcome::Put { hash, is_dir: false }
        },
        PathState::Absent => PathOutcome::Delete,
        PathState::Present { hash, is_dir, existing } => if same_hash(existing, hash) {
            PathOutcome::Unchanged
        } else {
            PathOutcome::Put { hash, is_dir }
        },
        PathState::Raced => PathOutcome::Unstable,
    }
}

// ---------------------------------------------------------------------------
// The plan
// ---------------------------------------------------------------------------

/// What is put at a path.
pub enum PutItem {
    /// This entry.
    Entry(TreeEntry),
    /// The entry of the directory that was scanned, still to be made.
    Dir,
    /// A file of which nothing was captured.
    Lost,
}

/// An object that is put at a path.
pub struct Put {
    pub hash: ObjectHash,
    pub item: PutItem,
}

/// One path that a scoped push changes on the remote.
pub struct ScopedResult {
    pub rel: String,
    /// What is put there; `None` means that the path is removed.
    pub put: Option<Put>,
}

/// The change that a path brings, if any.
pub open spec fn result_of(look: Look) -> Option<ScopedResult> {
    match path_outcome(look.state) {
        PathOutcome::Unchanged => None,
        PathOutcome::Unstable => None,
        PathOutcome::Delete => Some(ScopedResult { rel: look.rel, put: None }),
        PathOutcome::Put { hash, is_dir } => Some(
            ScopedResult {
                rel: look.rel,
                put: Some(
                    Put {
                        hash,
                        item: match look.entry {
                            Some(e) => PutItem::Entry(e),
                            None => if is_dir {
                                PutItem::Dir
                            } else {
                                PutItem::Lost
                            },
                        },
                    },
                ),
            },
        ),
    }
}

/// The changes that the first `n` paths bring, in order.
pub open spec fn results_of(looks: Seq<Look>, n: nat) -> Seq<ScopedResult>
    decreases n,
{
    if n == 0 || n > looks.len() {
        seq![]
    } else {
        match result_of(looks[n - 1]) {
            Some(x) => results_of(looks, (n - 1) as nat).push(x),
            None => results_of(looks, (n - 1) as nat),
        }
    }
}

/// Those of the first `n` paths that changed while they were read.
pub open spec fn raced_of(looks: Seq<Look>, n: nat) -> Set<Seq<char>>
    decreases n,
{
    if n == 0 || n > looks.len() {
        Set::empty()
    } else if path_outcome(looks[n - 1].state) is Unstable {
        raced_of(looks, (n - 1) as nat).insert(looks[n - 1].rel@)
    } else {
        raced_of(looks, (n - 1) as nat)
    }
}

/// What a scoped push changes, and the paths that were left alone because they
/// changed while they were read.
pub struct ScopedPlan {
    pub results: Vec<ScopedResult>,
    pub unstable: PathSet,
}

/// Plans a scoped push from what was found at its paths. `unstable` are the paths
/// below them that changed while they were read.
pub fn plan_scoped(looks: Vec<Look>, unstable: PathSet) -> (r: ScopedPlan)
    requires
        unstable.wf(),
    ensures
        r.results@ == results_of(looks@, looks@.len()),
        r.unstable.wf(),
        r.unstable@ == unstable@.union(raced_of(looks@, looks@.len())),
{
    let ghost all = looks@;
    let mut rest = looks;
    let mut plan = ScopedPlan { results: Vec::new(), unstable };
    let ghost mut n: nat = 0;
    assert(rest@ =~= all.skip(0));
    assert(plan.results@ =~= results_of(all, 0));
    assert(plan.unstable@ =~= unstable@.union(raced_of(all, 0)));
    while rest.len() > 0
        invariant
            n <= all.len(),
            rest@ == all.skip(n as int),
            plan.results@ == results_of(all, n),
            plan.unstable.wf(),
            plan.unstable@ == unstable@.union(raced_of(all, n)),
        decreases rest.len(),
    {
        let look = rest.remove(0);
        proof {
            assert(look == all[n as int]);
            assert(rest@ =~= all.skip(n as int + 1));
            n = n + 1;
        }
        match scoped_path(look.state) {
            PathOutcome::Unchanged => {},
            PathOutcome::Unstable => {
                plan.unstable.insert(look.rel);
                assert(plan.unstable@ =~= unstable@.union(raced_of(all, n)));
            },
            PathOutcome::Delete => {
                plan.results.push(ScopedResult { rel: look.rel, put: None });
            },
            PathOutcome::Put { hash, is_dir } => {
                let item = match look.entry {
                    Some(e) => PutItem::Entry(e),
                    None => if is_dir {
                        PutItem::Dir
                    } else {
                        PutItem::Lost
                    },
                };
                plan.results.push(
                    ScopedResult { rel: look.rel, put: Some(Put { hash, item }) },
                );
            },
        }
    }
    plan
}

/// A path is skipped only where the clone root has what stands there or what its stub
/// stands for, directory or not. Otherwise what stands there is put, and a path at which
/// nothing stands is removed. Only a path that changed while it was read is left alone.
pub proof fn law_only_the_same_is_skipped(state: PathState)
    ensures
        path_outcome(state) is Unchanged <==> match state {
            PathState::Stub { hash, existing } => existing == Some(hash),
            PathState::Present { hash, existing, .. } => existing == Some(hash),
            _ => false,
        },
        path_outcome(state) is Delete <==> state is Absent,
        path_outcome(state) is Unstable <==> state is Raced,
        path_outcome(state) matches PathOutcome::Put { hash, is_dir } ==> match state {
            PathState::Stub { hash: h, .. } => h == hash && !is_dir,
            PathState::Present { hash: h, is_dir: d, .. } => h == hash && is_dir == d,
            _ => false,
        },
{
}

/// Whether a change is the one that a path at which something stands asks for: it puts
/// that object, by the entry that was captured, or as the directory that was scanned.
pub open spec fn puts(x: ScopedResult, look: Look, hash: ObjectHash, is_dir: bool) -> bool {
    &&& x.rel == look.rel
    &&& x.put matches Some(p)
    &&& p.hash == hash
    &&& match look.entry {
        Some(e) => p.item == PutItem::Entry(e),
        None => if is_dir {
            p.item is Dir
        } else {
            p.item is Lost
        },
    }
}

/// Every path is planned by what was found there. What the clone root does not have is
/// put, what is gone is removed, and both stand in the plan; what changed while it was
/// read is among the paths that are warned of.
pub proof fn law_plan_holds_every_change(looks: Seq<Look>, i: int)
    requires
        0 <= i < looks.len(),
    ensures
        match looks[i].state {
            PathState::Stub { hash, existing } => existing != Some(hash) ==> exists|j: int|
                0 <= j < results_of(looks, looks.len()).len() && puts(
                    #[trigger] results_of(looks, looks.len())[j],
                    looks[i],
                    hash,
                    false,
                ),
            PathState::Present { hash, is_dir, existing } => existing != Some(hash) ==> exists|
                j: int,
            |
                0 <= j < results_of(looks, looks.len()).len() && puts(
                    #[trigger] results_of(looks, looks.len())[j],
                    looks[i],
                    hash,
                    is_dir,
                ),
            PathState::Absent => exists|j: int|
                0 <= j < results_of(looks, looks.len()).len() && (#[trigger] results_of(
                    looks,
                    looks.len(),
                )[j]).rel == looks[i].rel && results_of(looks, looks.len())[j].put is None,
            PathState::Raced => raced_of(looks, looks.len()).contains(looks[i].rel@),
        },
{
    lemma_planned_upto(looks, i, looks.len());
    if let Some(x) = result_of(looks[i]) {
        let all = results_of(looks, looks.len());
        let j = choose|j: int| 0 <= j < all.len() && all[j] == x;
        assert(all[j].rel == looks[i].rel);
        match looks[i].state {
            PathState::Stub { hash, .. } => {
                assert(puts(all[j], looks[i], hash, false));
            },
            PathState::Present { hash, is_dir, .. } => {
                assert(puts(all[j], looks[i], hash, is_dir));
            },
            _ => {},
        }
    }
}

/// The plan holds nothing else: each of its changes belongs to a path that was looked at,
/// at which the clone root has something else than what was found.
pub proof fn law_plan_holds_only_changes(looks: Seq<Look>, n: nat, j: int) -> (i: int)
    requires
        n <= looks.len(),
        0 <= j < results_of(looks, n).len(),
    ensures
        0 <= i < n,
        match looks[i].state {
            PathState::Stub { hash, existing } => existing != Some(hash) && puts(
                results_of(looks, n)[j],
                looks[i],
                hash,
                false,
            ),
            PathState::Present { hash, is_dir, existing } => existing != Some(hash) && puts(
                results_of(looks, n)[j],
                looks[i],
                hash,
                is_dir,
            ),
            PathState::Absent => results_of(looks, n)[j].rel == looks[i].rel && results_of(
                looks,
                n,
            )[j].put is None,
            PathState::Raced => false,
        },
    decreases n,
{
    let before = results_of(looks, (n - 1) as nat);
    if j < before.len() {
        law_plan_holds_only_changes(looks, (n - 1) as nat, j)
    } else {
        n - 1
    }
}

/// Only paths that changed while they were read are warned of.
pub proof fn law_only_raced_paths_are_warned_of(looks: Seq<Look>, n: nat, path: Seq<char>)
    requires
        n <= looks.len(),
    ensures
        raced_of(looks, n).contains(path) <==> exists|i: int|
            0 <= i < n && (#[trigger] looks[i]).state is Raced && looks[i].rel@ == path,
    decreases n,
{
    if n > 0 {
        law_only_raced_paths_are_warned_of(looks, (n - 1) as nat, path);
        if looks[n - 1].state is Raced && looks[n - 1].rel@ == path {
            assert(raced_of(looks, n).contains(path));
        }
        if raced_of(looks, (n - 1) as nat).contains(path) {
            let i = choose|i: int|
                0 <= i < n - 1 && (#[trigger] looks[i]).state is Raced && looks[i].rel@ == path;
            assert(0 <= i < n && looks[i].state is Raced);
        }
    }
}

/// Each path ends up where it belongs: a change, a warning, or nothing at all where
/// the clone root has what is there. So a push of what was pushed does nothing.
pub proof fn law_every_path_is_planned(looks: Seq<Look>, i: int)
    requires
        0 <= i < looks.len(),
    ensures
        match result_of(looks[i]) {
            Some(x) => results_of(looks, looks.len()).contains(x),
            None => path_outcome(looks[i].state) is Unchanged || raced_of(
                looks,
                looks.len(),
            ).contains(looks[i].rel@),
        },
        looks[i].state matches PathState::Present { hash, existing, .. } && existing == Some(hash)
            ==> result_of(looks[i]) is None,
        looks[i].state matches PathState::Stub { hash, existing } && existing == Some(hash)
            ==> result_of(looks[i]) is None,
{
    lemma_planned_upto(looks, i, looks.len());
}

proof fn lemma_planned_upto(looks: Seq<Look>, i: int, n: nat)
    requires
        0 <= i < n <= looks.len(),
    ensures
        match result_of(looks[i]) {
            Some(x) => results_of(looks, n).contains(x),
            None => path_outcome(looks[i].state) is Unchanged || raced_of(looks, n).contains(
                looks[i].rel@,
            ),
        },
    decreases n,
{
    let before = results_of(looks, (n - 1) as nat);
    if i == n - 1 {
        if let Some(x) = result_of(looks[i]) {
            assert(before.push(x)[before.len() as int] == x);
        }
    } else {
        lemma_planned_upto(looks, i, (n - 1) as nat);
        if let Some(x) = result_of(looks[i]) {
            let k = choose|k: int| 0 <= k < before.len() && before[k] == x;
            assert(results_of(looks, n)[k] == x);
        }
    }
}

/// What a scoped push does, once every path is looked at.
pub enum ScopedPush {
    NothingToPush,
    /// A dry run: what would be done.
    Listing(Vec<String>),
    /// Apply the changes to the remote root one after the other.
    Proceed,
}

/// The line of a dry run about one path.
pub open spec fn would_line(x: ScopedResult) -> Seq<char> {
    match x.put {
        None => "Would delete "@ + x.rel@,
        Some(p) => "Would push "@ + x.rel@ + " → "@ + p.hash.short(),
    }
}

/// The lines of a dry run.
pub open spec fn would_lines(results: Seq<ScopedResult>) -> Seq<Seq<char>> {
    Seq::new(results.len(), |i: int| would_line(results[i]))
}

/// Decides what a scoped push does. Conflict helper files found below the paths
/// block it.
pub fn push_scoped(plan: &ScopedPlan, conflicts: &PathSet, dry_run: bool) -> (r: Result<
    ScopedPush,
    Error,
>)
    ensures
        r is Err <==> conflicts@ != Set::<Seq<char>>::empty(),
        r matches Err(e) ==> (e matches Error::Other(m) && m@ == "unresolved conflicts"@),
        r matches Ok(p) ==> {
            &&& p is NothingToPush <==> plan.results@.len() == 0
            &&& p is Listing <==> plan.results@.len() > 0 && dry_run
            &&& p matches ScopedPush::Listing(lines) ==> text::views(lines@) == would_lines(
                plan.results@,
            )
        },
{
    if !conflicts.is_empty() {
        return Err(Error::Other("unresolved conflicts".to_owned()));
    }
    let results = &plan.results;
    if results.len() == 0 {
        return Ok(ScopedPush::NothingToPush);
    }
    if !dry_run {
        return Ok(ScopedPush::Proceed);
    }
    let mut lines: Vec<String> = Vec::new();
    let mut i: usize = 0;
    while i < results.len()
        invariant
            i <= results@.len(),
            lines@.len() == i,
            forall|k: int| 0 <= k < i ==> (#[trigger] lines@[k])@ == would_line(results@[k]),
        decreases results.len() - i,
    {
        let line = match &results[i].put {
            None => concat("Would delete ", results[i].rel.as_str()),
            Some(p) => {
                let mut s = concat3("Would push ", results[i].rel.as_str(), " → ");
                s.append(p.hash.to_short().as_str());
                s
            },
        };
        lines.push(line);
        i = i + 1;
    }
    assert(text::views(lines@) =~= would_lines(results@));
    Ok(ScopedPush::Listing(lines))
}

// ---------------------------------------------------------------------------
// Applying the changes
// ---------------------------------------------------------------------------

/// The remote root and the clone root while the changes of a scoped push are
/// applied to them.
#[derive(Clone, Copy, Debug, PartialEq, Eq, Structural)]
pub struct Splices {
    pub remote: Option<ObjectHash>,
    pub clone: Option<ObjectHash>,
    pub any_change: bool,
}

/// What editing a tree gives, for each of the changes by its number: the tree without
/// the path, or nothing if the path is not in it; and the tree with the entry put in.
pub struct TreeEdits {
    pub remove: spec_fn(ObjectHash, int) -> Option<ObjectHash>,
    pub put: spec_fn(Option<ObjectHash>, int) -> ObjectHash,
}

/// What removing the path of change `i` from a tree gives.
pub open spec fn removal(root: Option<ObjectHash>, i: int, edits: TreeEdits) -> Option<ObjectHash> {
    match root {
        Some(h) => (edits.remove)(h, i),
        None => None,
    }
}

/// The clone root without the path of change `i`; it stays as it is if it does not
/// have the path.
pub open spec fn clone_without(s: Splices, i: int, edits: TreeEdits) -> Splices {
    match removal(s.clone, i, edits) {
        Some(h) => Splices { clone: Some(h), ..s },
        None => s,
    }
}

/// The roots after change `i`. A removal of what the remote does not have changes
/// nothing at all: in particular no root is taken to be empty, so that no other file
/// is lost.
pub open spec fn applied(s: Splices, removes: bool, i: int, edits: TreeEdits) -> Splices {
    if removes {
        match removal(s.remote, i, edits) {
            Some(h) => clone_without(
                Splices { remote: Some(h), clone: s.clone, any_change: true },
                i,
                edits,
            ),
            None => s,
        }
    } else {
        Splices {
            remote: Some((edits.put)(s.remote, i)),
            clone: Some((edits.put)(s.clone, i)),
            any_change: true,
        }
    }
}

/// The roots after the changes from `i` on.
pub open spec fn applied_from(s: Splices, results: Seq<ScopedResult>, i: int, edits: TreeEdits) -> Splices
    decreases results.len() - i,
{
    if i < 0 || i >= results.len() {
        s
    } else {
        applied_from(applied(s, results[i].put is None, i, edits), results, i + 1, edits)
    }
}

proof fn lemma_same_kinds(
    s: Splices,
    a: Seq<ScopedResult>,
    b: Seq<ScopedResult>,
    i: int,
    edits: TreeEdits,
)
    requires
        a.len() == b.len(),
        forall|k: int| 0 <= k < a.len() ==> ((#[trigger] a[k]).put is None <==> b[k].put is None),
    ensures
        applied_from(s, a, i, edits) == applied_from(s, b, i, edits),
    decreases a.len() - i,
{
    if 0 <= i < a.len() {
        lemma_same_kinds(applied(s, a[i].put is None, i, edits), a, b, i + 1, edits);
    }
}

/// The changes of a scoped push while they are applied, one after the other.
pub struct Splicing {
    pub results: Vec<ScopedResult>,
    pub at: usize,
    /// Whether the path at hand is removed from the remote root, and is to be removed
    /// from the clone root.
    pub half: bool,
    pub roots: Splices,
}

/// What is done next about the change at hand.
#[derive(Clone, Copy, Debug, PartialEq, Eq, Structural)]
pub enum SpliceStep {
    /// Remove its path from this tree, and answer with `removed_from_remote`.
    RemoveFromRemote(ObjectHash),
    /// Remove its path from this tree, and answer with `removed_from_clone`.
    RemoveFromClone(ObjectHash),
    /// There is no tree to remove it from: answer `removed_from_remote` with nothing.
    NoTree,
    /// Read what this directory holds in all, and answer with `read_meta`.
    ReadMeta(ObjectHash),
    /// Put its entry into both trees, and answer with `put`.
    Put,
    /// All changes are applied.
    Done,
}

impl Splicing {
    /// What holds of a run at every step.
    pub open spec fn wf(self) -> bool {
        &&& self.at <= self.results@.len()
        &&& self.half ==> self.at < self.results@.len() && self.results@[self.at as int].put is None
            && self.roots.clone is Some
    }

    /// The roots that the run ends with, if trees are edited as `edits` says.
    pub open spec fn settled(self, edits: TreeEdits) -> Splices {
        if self.half {
            applied_from(
                clone_without(self.roots, self.at as int, edits),
                self.results@,
                self.at + 1,
                edits,
            )
        } else {
            applied_from(self.roots, self.results@, self.at as int, edits)
        }
    }

    /// Before the first change.
    pub fn new(
        results: Vec<ScopedResult>,
        remote: Option<ObjectHash>,
        clone: Option<ObjectHash>,
    ) -> (r: Splicing)
        ensures
            r.wf(),
            r.results == results,
            r.at == 0,
            !r.half,
            r.roots == (Splices { remote, clone, any_change: false }),
            forall|edits: TreeEdits| #[trigger]
                r.settled(edits) == applied_from(
                    Splices { remote, clone, any_change: false },
                    results@,
                    0,
                    edits,
                ),
    {
        Splicing {
            results,
            at: 0,
            half: false,
            roots: Splices { remote, clone, any_change: false },
        }
    }

    /// What is done next. A file of which nothing was captured is an error.
    pub fn step(&self) -> (r: Result<SpliceStep, Error>)
        requires
            self.wf(),
        ensures
            self.at == self.results@.len() ==> r == Ok::<SpliceStep, Error>(SpliceStep::Done),
            self.at < self.results@.len() ==> match self.results@[self.at as int].put {
                None => r == Ok::<SpliceStep, Error>(
                    if self.half {
                        SpliceStep::RemoveFromClone(self.roots.clone->0)
                    } else {
                        match self.roots.remote {
                            Some(h) => SpliceStep::RemoveFromRemote(h),
                            None => SpliceStep::NoTree,
                        }
                    },
                ),
                Some(p) => match p.item {
                    PutItem::Entry(_) => r == Ok::<SpliceStep, Error>(SpliceStep::Put),
                    PutItem::Dir => r == Ok::<SpliceStep, Error>(SpliceStep::ReadMeta(p.hash)),
                    PutItem::Lost => r matches Err(Error::Other(m)) && m@
                        == "captured metadata missing for scoped file: "@
                        + self.results@[self.at as int].rel@,
                },
            },
            r == Ok::<SpliceStep, Error>(SpliceStep::Done) ==> forall|edits: TreeEdits| #[trigger]
                self.settled(edits) == self.roots,
    {
        if self.at == self.results.len() {
            return Ok(SpliceStep::Done);
        }
        let x: &ScopedResult = &self.results[self.at];
        match &x.put {
            None => {
                if self.half {
                    match self.roots.clone {
                        Some(h) => Ok(SpliceStep::RemoveFromClone(h)),
                        None => Ok(SpliceStep::NoTree),
                    }
                } else {
                    match self.roots.remote {
                        Some(h) => Ok(SpliceStep::RemoveFromRemote(h)),
                        None => Ok(SpliceStep::NoTree),
                    }
                }
            },
            Some(p) => match &p.item {
                PutItem::Entry(_) => Ok(SpliceStep::Put),
                PutItem::Dir => Ok(SpliceStep::ReadMeta(p.hash)),
                PutItem::Lost => Err(
                    Error::Other(
                        concat("captured metadata missing for scoped file: ", x.rel.as_str()),
                    ),
                ),
            },
        }
    }

    /// Takes up what removing the path from the remote root gave: the new root, or
    /// nothing if the path was not there. In that case both roots stay as they are,
    /// and the line that says so is given.
    pub fn removed_from_remote(&mut self, removed: Option<ObjectHash>) -> (r: Option<String>)
        requires
            old(self).wf(),
            !old(self).half,
            old(self).at < old(self).results@.len(),
            old(self).results@[old(self).at as int].put is None,
        ensures
            final(self).wf(),
            final(self).results == old(self).results,
            r is Some <==> removed is None,
            r matches Some(line) ==> line@ == note_text(old(self).results@[old(self).at as int].rel@),
            match removed {
                None => final(self).roots == old(self).roots && final(self).at == old(self).at + 1
                    && !final(self).half,
                Some(h) => {
                    &&& final(self).roots == (Splices {
                        remote: Some(h),
                        clone: old(self).roots.clone,
                        any_change: true,
                    })
                    &&& if old(self).roots.clone is Some {
                        final(self).half && final(self).at == old(self).at
                    } else {
                        !final(self).half && final(self).at == old(self).at + 1
                    }
                },
            },
            forall|edits: TreeEdits|
                removed == removal(old(self).roots.remote, old(self).at as int, edits)
                    ==> #[trigger] final(self).settled(edits) == old(self).settled(edits),
    {
        match removed {
            Some(h) => {
                self.roots.remote = Some(h);
                self.roots.any_change = true;
                if self.roots.clone.is_some() {
                    self.half = true;
                } else {
                    assert(self.at < self.results.len());
                    self.at = self.at + 1;
                }
                None
            },
            None => {
                let line = absent_note(self.results[self.at].rel.as_str());
                assert(self.at < self.results.len());
                self.at = self.at + 1;
                Some(line)
            },
        }
    }

    /// Takes up what removing the path from the clone root gave.
    pub fn removed_from_clone(&mut self, removed: Option<ObjectHash>)
        requires
            old(self).wf(),
            old(self).half,
        ensures
            final(self).wf(),
            final(self).results == old(self).results,
            final(self).at == old(self).at + 1,
            !final(self).half,
            final(self).roots == match removed {
                Some(h) => Splices { clone: Some(h), ..old(self).roots },
                None => old(self).roots,
            },
            forall|edits: TreeEdits|
                removed == removal(old(self).roots.clone, old(self).at as int, edits)
                    ==> #[trigger] final(self).settled(edits) == old(self).settled(edits),
    {
        if let Some(h) = removed {
            self.roots.clone = Some(h);
        }
        self.half = false;
        assert(self.at < self.results.len());
        self.at = self.at + 1;
    }

    /// Makes the entry of the directory at hand from what it holds in all.
    pub fn read_meta(&mut self, mtime: Option<Timestamp>, size: u64, blob_count: u64)
        requires
            old(self).wf(),
            old(self).at < old(self).results@.len(),
            old(self).results@[old(self).at as int].put matches Some(p) && p.item is Dir,
        ensures
            final(self).wf(),
            final(self).at == old(self).at,
            final(self).half == old(self).half,
            final(self).roots == old(self).roots,
            final(self).results@.len() == old(self).results@.len(),
            forall|k: int|
                0 <= k < old(self).results@.len() && k != old(self).at ==> final(self).results@[k]
                    == old(self).results@[k],
            ({
                let x = old(self).results@[old(self).at as int];
                let y = final(self).results@[old(self).at as int];
                &&& y.rel == x.rel
                &&& y.put matches Some(p)
                &&& p.hash == x.put->0.hash
                &&& p.item matches PutItem::Entry(TreeEntry::Tree {
                    name,
                    size: s,
                    mtime: t,
                    blob_count: b,
                    node,
                })
                &&& name@ == leaf_name(x.rel@)
                &&& s == size && t == mtime && b == blob_count
                &&& node.hash == x.put->0.hash && node.content is Unread
            }),
            forall|edits: TreeEdits| #[trigger]
                final(self).settled(edits) == old(self).settled(edits),
    {
        let ghost before = self.results@;
        let i: usize = self.at;
        let rel = self.results[i].rel.clone();
        let hash: ObjectHash = match &self.results[i].put {
            Some(p) => p.hash,
            None => {
                return;
            },
        };
        let entry = TreeEntry::Tree {
            name: leaf_of(rel.as_str()),
            size,
            mtime,
            blob_count,
            node: TreeNode { hash, content: Content::Unread },
        };
        let put = Some(Put { hash, item: PutItem::Entry(entry) });
        self.results.set(i, ScopedResult { rel, put });
        proof {
            let after = self.results@;
            assert forall|edits: TreeEdits| #[trigger]
                self.settled(edits) == old(self).settled(edits) by {
                lemma_same_kinds(self.roots, before, after, i as int, edits);
                lemma_same_kinds(
                    clone_without(self.roots, i as int, edits),
                    before,
                    after,
                    i + 1,
                    edits,
                );
            }
        }
    }

    /// Takes up the trees after the entry was put into both.
    pub fn put(&mut self, remote: ObjectHash, clone: ObjectHash)
        requires
            old(self).wf(),
            old(self).at < old(self).results@.len(),
            old(self).results@[old(self).at as int].put is Some,
        ensures
            final(self).wf(),
            final(self).results == old(self).results,
            final(self).at == old(self).at + 1,
            !final(self).half,
            final(self).roots == (Splices {
                remote: Some(remote),
                clone: Some(clone),
                any_change: true,
            }),
            forall|edits: TreeEdits|
                remote == (edits.put)(old(self).roots.remote, old(self).at as int) && clone == (
                edits.put)(old(self).roots.clone, old(self).at as int)
                    ==> #[trigger] final(self).settled(edits) == old(self).settled(edits),
    {
        self.roots = Splices { remote: Some(remote), clone: Some(clone), any_change: true };
        assert(self.at < self.results.len());
        self.at = self.at + 1;
    }
}

impl Splices {
    /// The roots to write: the remote root and the clone root. `None` means that
    /// every change turned out to be a removal of something already absent: nothing
    /// is uploaded or written.
    pub fn finish(self) -> (r: Result<Option<(ObjectHash, ObjectHash)>, Error>)
        ensures
            !self.any_change ==> r == Ok::<Option<(ObjectHash, ObjectHash)>, Error>(None),
            self.any_change && self.remote is Some && self.clone is Some ==> r == Ok::<
                Option<(ObjectHash, ObjectHash)>,
                Error,
            >(Some((self.remote->0, self.clone->0))),
            self.any_change && self.remote is None ==> (r matches Err(Error::Other(m)) && m@
                == "push resulted in empty remote tree"@),
            self.any_change && self.remote is Some && self.clone is None ==> (r matches Err(
                Error::Other(m),
            ) && m@ == "push resulted in empty clone root"@),
    {
        if !self.any_change {
            return Ok(None);
        }
        let remote = match self.remote {
            Some(h) => h,
            None => {
                return Err(Error::Other("push resulted in empty remote tree".to_owned()));
            },
        };
        match self.clone {
            Some(clone) => Ok(Some((remote, clone))),
            None => Err(Error::Other("push resulted in empty clone root".to_owned())),
        }
    }
}

/// A push that only removes paths which the remote does not have leaves both roots as
/// they are, and nothing is written.
pub proof fn law_absent_paths_change_nothing(
    s: Splices,
    results: Seq<ScopedResult>,
    from: int,
    edits: TreeEdits,
)
    requires
        0 <= from,
        forall|i: int|
            0 <= i < results.len() ==> (#[trigger] results[i]).put is None && removal(
                s.remote,
                i,
                edits,
            ) is None,
    ensures
        applied_from(s, results, from, edits) == s,
    decreases results.len() - from,
{
    if from < results.len() {
        assert(results[from].put is None);
        law_absent_paths_change_nothing(s, results, from + 1, edits);
    }
}

/// A push that puts something leaves both roots with a tree, and is written.
pub proof fn law_what_is_put_is_written(
    s: Splices,
    results: Seq<ScopedResult>,
    from: int,
    edits: TreeEdits,
)
    requires
        0 <= from,
        exists|i: int| from <= i < results.len() && (#[trigger] results[i]).put is Some,
    ensures
        ({
            let end = applied_from(s, results, from, edits);
            end.any_change && end.remote is Some && end.clone is Some
        }),
    decreases results.len() - from,
{
    let i = choose|i: int| from <= i < results.len() && (#[trigger] results[i]).put is Some;
    let next = applied(s, results[from].put is None, from, edits);
    if i == from {
        lemma_stays_written(next, results, from + 1, edits);
    } else {
        law_what_is_put_is_written(next, results, from + 1, edits);
    }
}

proof fn lemma_stays_written(
    s: Splices,
    results: Seq<ScopedResult>,
    from: int,
    edits: TreeEdits,
)
    requires
        0 <= from,
        s.any_change && s.remote is Some && s.clone is Some,
    ensures
        ({
            let end = applied_from(s, results, from, edits);
            end.any_change && end.remote is Some && end.clone is Some
        }),
    decreases results.len() - from,
{
    if from < results.len() {
        lemma_stays_written(
            applied(s, results[from].put is None, from, edits),
            results,
            from + 1,
            edits,
        );
    }
}

// ---------------------------------------------------------------------------
// What is said
// ---------------------------------------------------------------------------

/// The name of a path: its last component.
pub open spec fn leaf_name(rel: Seq<char>) -> Seq<char> {
    let cs = text::components(rel);
    if cs.len() > 0 {
        cs.last()
    } else {
        seq![]
    }
}

fn leaf_of(rel: &str) -> (r: String)
    ensures
        r@ == leaf_name(rel@),
{
    let comps = path_components(rel);
    assert(text::views(comps@).len() == comps@.len());
    if comps.len() == 0 {
        return String::new();
    }
    let r = comps[comps.len() - 1].clone();
    assert(text::views(comps@).last() == comps@[comps@.len() - 1]@);
    r
}

/// What is said of a path that was to be removed and is not there.
pub open spec fn note_text(rel: Seq<char>) -> Seq<char> {
    "note: '"@ + rel + "' is already absent on remote"@
}

/// What is said of a path that was to be removed and is not there.
pub fn absent_note(rel: &str) -> (r: String)
    ensures
        r@ == note_text(rel@),
{
    concat3("note: '", rel, "' is already absent on remote")
}

/// The summary of a scoped push: a single path is named, with what was done to it.
pub fn scoped_summary(results: &Vec<ScopedResult>, remote_name: &str) -> (r: String)
    ensures
        r@ == if results@.len() == 1 {
            (if results@[0].put is None {
                "Deleted "@ + results@[0].rel@ + " from "@
            } else {
                "Pushed "@ + results@[0].rel@ + " to "@
            }) + remote_name@ + "."@
        } else {
            "Pushed to "@ + remote_name@ + "."@
        },
{
    if results.len() == 1 {
        let mut s = if results[0].put.is_none() {
            concat3("Deleted ", results[0].rel.as_str(), " from ")
        } else {
            concat3("Pushed ", results[0].rel.as_str(), " to ")
        };
        s.append(remote_name);
        s.append(".");
        s
    } else {
        concat3("Pushed to ", remote_name, ".")
    }
}

} // verus!
