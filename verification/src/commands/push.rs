//! `push`: which paths are pushed, and what has to be uploaded.

pub mod refused;
pub mod reported;
pub mod scoped;

use crate::collections::{self, PathSet};
use crate::commands::conflict::{self, with_lead};
use crate::commands::pull::{self, requested_paths};
use crate::commands::transfer::{self, child_hashes, Next, ObjectContent, Walk};
use crate::error::Error;
use crate::object::{
    Content, ObjectHash, StubRecord, StubTargetType, Timestamp, TreeEntry, TreeNode,
};
use crate::text::{
    self, concat, concat3, decimal_of, join_first, path_components, split, starts_with, str_eq,
};
use crate::worktree::{DIR_STUB_NAME, STATE_DIR};
use vstd::prelude::*;
use vstd::string::*;

verus! {

/// What is said when a clone with sync history finds no index root.
pub const GUARD_MESSAGE: &'static str = "index root not found on remote\nThe remote appears empty, but this clone has sync history.\nPossible causes: wrong encryption key, wrong URL/prefix, or the remote was reset.";

/// Whether syncing is safe: the remote has an index root, or this clone has never
/// synced any content.
pub open spec fn sync_allowed(
    clone_root: Option<ObjectHash>,
    index_root_present: bool,
    empty_tree: ObjectHash,
) -> bool {
    index_root_present || clone_root is None || clone_root == Some(empty_tree)
}

/// Fails when the local clone has sync history (its clone root is present and not
/// the empty tree) but the origin index root is absent: an absent index root would
/// otherwise be taken for an empty remote and corrupt the clone.
pub fn post_clone_sync_guard(
    clone_root: Option<ObjectHash>,
    index_root_present: bool,
    empty_tree: ObjectHash,
) -> (r: Result<(), Error>)
    ensures
        r is Ok <==> sync_allowed(clone_root, index_root_present, empty_tree),
        r matches Err(e) ==> (e matches Error::Other(m) && m@ == GUARD_MESSAGE@),
{
    if index_root_present {
        return Ok(());
    }
    let never_synced = match clone_root {
        None => true,
        Some(h) => h == empty_tree,
    };
    if never_synced {
        Ok(())
    } else {
        Err(Error::Other(GUARD_MESSAGE.to_owned()))
    }
}

// ---------------------------------------------------------------------------
// Paths
// ---------------------------------------------------------------------------

/// Whether `path` lies within another path of the list.
pub open spec fn within_another(paths: Seq<Seq<char>>, path: Seq<char>) -> bool {
    exists|i: int| 0 <= i < paths.len() && text::has_prefix(path, #[trigger] paths[i].push('/'))
}

/// The paths of a list that lie within no other, each once.
pub open spec fn outermost_set(paths: Seq<Seq<char>>) -> Set<Seq<char>> {
    Set::new(|p: Seq<char>| paths.contains(p) && !within_another(paths, p))
}

/// The paths of a list that lie within no other, each once and in order.
pub open spec fn outermost(paths: Seq<Seq<char>>) -> Seq<Seq<char>> {
    collections::listing(outermost_set(paths))
}

/// Drops duplicates, and paths that lie within another path of the list. Paths
/// are relative to the repository root, with forward slashes.
pub fn deduplicate_paths(paths: Vec<String>) -> (r: Vec<String>)
    ensures
        text::views(r@) == outermost(text::views(paths@)),
        collections::is_listing(text::views(r@), outermost_set(text::views(paths@))),
{
    let mut kept = PathSet::new();
    let ghost all = text::views(paths@);
    let mut i: usize = 0;
    while i < paths.len()
        invariant
            i <= paths@.len(),
            all == text::views(paths@),
            kept.wf(),
            forall|p: Seq<char>|
                #[trigger] kept@.contains(p) <==> all.take(i as int).contains(p)
                    && !within_another(all, p),
        decreases paths.len() - i,
    {
        let path = &paths[i];
        let mut inner = false;
        let mut j: usize = 0;
        while j < paths.len() && !inner
            invariant
                i < paths@.len(),
                j <= paths@.len(),
                all == text::views(paths@),
                path@ == all[i as int],
                inner ==> within_another(all, path@),
                !inner ==> forall|k: int|
                    0 <= k < j ==> !text::has_prefix(path@, #[trigger] all[k].push('/')),
            decreases paths.len() - j,
        {
            let mut prefix = paths[j].clone();
            prefix.push('/');
            assert(prefix@ == all[j as int].push('/'));
            if starts_with(path.as_str(), prefix.as_str()) {
                inner = true;
            }
            j = j + 1;
        }
        if !inner {
            kept.insert(path.clone());
        }
        proof {
            assert(all.take(i + 1) =~= all.take(i as int).push(path@));
            assert forall|p: Seq<char>| all.take(i + 1).contains(p) <==> (p == path@ || all.take(
                i as int,
            ).contains(p)) by {
                let t = all.take(i as int);
                if t.contains(p) {
                    let k = choose|k: int| 0 <= k < t.len() && t[k] == p;
                    assert(t.push(path@)[k] == p);
                }
                assert(t.push(path@)[t.len() as int] == path@);
                if t.push(path@).contains(p) && p != path@ {
                    let k = choose|k: int| 0 <= k < t.push(path@).len() && t.push(path@)[k] == p;
                    assert(t[k] == p);
                }
            }
        }
        i = i + 1;
    }
    proof {
        assert(all.take(i as int) =~= all);
        assert(kept@ =~= outermost_set(all));
    }
    kept.sorted()
}

/// No path that is kept lies within another one that is kept.
pub proof fn law_kept_paths_are_apart(paths: Seq<Seq<char>>, a: Seq<char>, b: Seq<char>)
    requires
        outermost_set(paths).contains(a),
        outermost_set(paths).contains(b),
    ensures
        !text::has_prefix(b, a.push('/')),
{
    let i = choose|i: int| 0 <= i < paths.len() && paths[i] == a;
    if text::has_prefix(b, a.push('/')) {
        assert(text::has_prefix(b, paths[i].push('/')));
    }
}

/// Every path that was asked for is kept, or lies within one that is kept.
pub proof fn law_dropped_paths_are_covered(paths: Seq<Seq<char>>, p: Seq<char>)
    requires
        paths.contains(p),
    ensures
        exists|k: Seq<char>|
            #[trigger] outermost_set(paths).contains(k) && (k == p || text::has_prefix(p, k.push('/'))),
    decreases p.len(),
{
    if within_another(paths, p) {
        let i = choose|i: int|
            0 <= i < paths.len() && text::has_prefix(p, #[trigger] paths[i].push('/'));
        let q = paths[i];
        assert(paths.contains(q));
        law_dropped_paths_are_covered(paths, q);
        let k = choose|k: Seq<char>|
            #[trigger] outermost_set(paths).contains(k) && (k == q || text::has_prefix(q, k.push('/')));
        if k != q {
            assert(p.take(k.push('/').len() as int) =~= q.take(k.push('/').len() as int)) by {
                assert(p.take(q.push('/').len() as int) == q.push('/'));
                assert forall|j: int| 0 <= j < k.push('/').len() implies p[j] == q[j] by {
                    assert(p.take(q.push('/').len() as int)[j] == q.push('/')[j]);
                }
            }
            assert(text::has_prefix(p, k.push('/')));
        }
        assert(outermost_set(paths).contains(k) && (k == p || text::has_prefix(p, k.push('/'))));
    } else {
        assert(outermost_set(paths).contains(p));
    }
}

/// Whether `rel` refers to the repository's own state, which is never pushed.
pub open spec fn system_path(rel: Seq<char>) -> bool {
    text::split_from(rel, '/', 0)[0] == STATE_DIR@
}

/// Whether `rel` refers to the repository's own state, which is never pushed.
pub fn is_system_path(rel: &str) -> (r: bool)
    ensures
        r == system_path(rel@),
{
    let parts = split(rel, '/');
    assert(text::views(parts@)[0] == parts@[0]@);
    str_eq(parts[0].as_str(), STATE_DIR)
}

/// The first `n` components of a path, as a path.
pub open spec fn lead_path(rel: Seq<char>, n: int) -> Seq<char> {
    text::join_with(text::components(rel).take(n), "/"@)
}

/// Whether a path, or a directory above it, is ignored.
pub open spec fn ignored_path(rel: Seq<char>, ignored: Set<Seq<char>>) -> bool {
    exists|n: int| 1 <= n <= text::components(rel).len() && ignored.contains(#[trigger] lead_path(rel, n))
}

/// The path itself and the directories above it: what the ignore rules are asked
/// about before a path is pushed.
pub fn lead_paths(rel: &str) -> (r: Vec<String>)
    ensures
        text::views(r@) == Seq::new(text::components(rel@).len(), |i: int| lead_path(rel@, i + 1)),
{
    let comps = path_components(rel);
    let mut out: Vec<String> = Vec::new();
    let mut n: usize = 0;
    assert(comps@.len() == text::views(comps@).len());
    while n < comps.len()
        invariant
            n <= comps@.len(),
            text::views(comps@) == text::components(rel@),
            out@.len() == n,
            forall|k: int| 0 <= k < n ==> (#[trigger] out@[k])@ == lead_path(rel@, k + 1),
        decreases comps.len() - n,
    {
        n = n + 1;
        out.push(join_first(&comps, n, "/"));
    }
    assert(text::views(out@) =~= Seq::new(text::components(rel@).len(), |i: int| lead_path(rel@, i + 1)));
    out
}

/// Whether `rel` or a directory above it is ignored. `ignored` holds those of the
/// [`lead_paths`] that the ignore rules match.
pub fn is_scoped_path_ignored(ignored: &PathSet, rel: &str) -> (r: bool)
    ensures
        r == ignored_path(rel@, ignored@),
{
    let leads = lead_paths(rel);
    assert(text::views(leads@).len() == leads@.len());
    let mut i: usize = 0;
    while i < leads.len()
        invariant
            i <= leads@.len(),
            leads@.len() == text::components(rel@).len(),
            text::views(leads@) == Seq::new(text::components(rel@).len(), |k: int| lead_path(rel@, k + 1)),
            forall|n: int| 1 <= n <= i ==> !ignored@.contains(#[trigger] lead_path(rel@, n)),
        decreases leads.len() - i,
    {
        assert(text::views(leads@)[i as int] == leads@[i as int]@);
        if ignored.contains(leads[i].as_str()) {
            assert(ignored@.contains(lead_path(rel@, i + 1)));
            return true;
        }
        i = i + 1;
    }
    false
}

/// Why a path cannot be pushed.
pub open spec fn push_refusal(rel: Seq<char>, ignored: Set<Seq<char>>) -> Option<Seq<char>> {
    if system_path(rel) {
        Some("cannot push system path: "@ + rel)
    } else if ignored_path(rel, ignored) {
        Some("cannot push ignored path: "@ + rel)
    } else {
        None
    }
}

/// Checks the paths of a scoped push one after the other.
pub fn check_paths(rels: &Vec<String>, ignored: &PathSet) -> (r: Result<(), Error>)
    ensures
        match r {
            Ok(()) => forall|i: int|
                0 <= i < rels@.len() ==> push_refusal((#[trigger] rels@[i])@, ignored@) is None,
            Err(e) => exists|i: int|
                0 <= i < rels@.len() && push_refusal((#[trigger] rels@[i])@, ignored@) is Some && (
                forall|k: int|
                    0 <= k < i ==> push_refusal((#[trigger] rels@[k])@, ignored@) is None) && (
                e matches Error::Other(m) && push_refusal(rels@[i]@, ignored@) == Some(m@)),
        },
{
    let mut i: usize = 0;
    while i < rels.len()
        invariant
            i <= rels@.len(),
            forall|k: int| 0 <= k < i ==> push_refusal((#[trigger] rels@[k])@, ignored@) is None,
        decreases rels.len() - i,
    {
        let rel = rels[i].as_str();
        if is_system_path(rel) {
            assert(push_refusal(rels@[i as int]@, ignored@) is Some);
            return Err(Error::Other(concat("cannot push system path: ", rel)));
        }
        if is_scoped_path_ignored(ignored, rel) {
            assert(push_refusal(rels@[i as int]@, ignored@) is Some);
            return Err(Error::Other(concat("cannot push ignored path: ", rel)));
        }
        i = i + 1;
    }
    Ok(())
}

pub struct PushOptions {
    pub work_dir: String,
    pub current_dir: String,
    pub paths: Vec<String>,
    pub dry_run: bool,
    pub with_backup: bool,
}

/// What `push` works on: the paths to normalise against the current directory.
pub fn run(opts: &PushOptions) -> (r: Vec<String>)
    ensures
        text::views(r@) == pull::requested(text::views(opts.paths@), opts.current_dir@),
{
    requested_paths(&opts.paths, &opts.current_dir)
}

// ---------------------------------------------------------------------------
// Full push
// ---------------------------------------------------------------------------

/// What a push of the whole tree does.
#[derive(Clone, Copy, Debug, PartialEq, Eq, Structural)]
pub enum FullPush {
    NothingToPush,
    /// A dry run: the root that would be pushed.
    WouldPush(ObjectHash),
    /// Upload what is missing below this root, then make it the remote root and
    /// the clone root.
    Push(ObjectHash),
}

/// What a push of the whole tree does when no conflict blocks it.
pub open spec fn full_push(clone_root: Option<ObjectHash>, new_root: ObjectHash, dry_run: bool) -> FullPush {
    if clone_root == Some(new_root) {
        FullPush::NothingToPush
    } else if dry_run {
        FullPush::WouldPush(new_root)
    } else {
        FullPush::Push(new_root)
    }
}

/// Decides what a push of the whole tree does. Conflict helper files found by the
/// scan block it.
pub fn push_full(
    clone_root: Option<ObjectHash>,
    new_root: ObjectHash,
    conflicts_found: bool,
    dry_run: bool,
) -> (r: Result<FullPush, Error>)
    ensures
        r is Err <==> conflicts_found,
        r matches Err(e) ==> (e matches Error::Other(m) && m@ == "unresolved conflicts"@),
        r matches Ok(p) ==> p == full_push(clone_root, new_root, dry_run),
{
    if conflicts_found {
        return Err(Error::Other("unresolved conflicts".to_owned()));
    }
    let same = match clone_root {
        Some(h) => h == new_root,
        None => false,
    };
    if same {
        Ok(FullPush::NothingToPush)
    } else if dry_run {
        Ok(FullPush::WouldPush(new_root))
    } else {
        Ok(FullPush::Push(new_root))
    }
}

/// A push makes its root the clone root, so pushing the same tree again does
/// nothing.
pub proof fn law_push_settles(clone_root: Option<ObjectHash>, root: ObjectHash, again: bool)
    ensures
        full_push(clone_root, root, false) matches FullPush::Push(pushed) ==> full_push(
            Some(pushed),
            root,
            again,
        ) is NothingToPush,
{
}

// ---------------------------------------------------------------------------
// Scoped push
// ---------------------------------------------------------------------------

/// What is known of a scoped path that may be a stub.
pub struct StubFacts {
    /// Whether anything stands at the path.
    pub exists: bool,
    /// Whether a directory stands at the path.
    pub is_dir: bool,
    /// The file stub beside the path, where there is one that can be read.
    pub file_stub: Option<StubRecord>,
    /// The stub inside the directory, where there is one that can be read.
    pub dir_stub: Option<StubRecord>,
    /// The names in the directory, where it can be read.
    pub names: Option<Vec<String>>,
}

/// Whether a directory holds nothing but its stub marker.
pub open spec fn only_marker(names: Option<Vec<String>>) -> bool {
    names matches Some(v) && forall|i: int|
        0 <= i < v@.len() ==> (#[trigger] v@[i])@ == DIR_STUB_NAME@
}

/// Whether a path is a stubbed file: the stub is there and the file is not.
pub open spec fn is_file_stub(facts: StubFacts) -> bool {
    !facts.exists && (facts.file_stub matches Some(rec) && rec.target_type == StubTargetType::Blob)
}

/// Whether a path is a fully stubbed directory: it holds nothing but its stub.
pub open spec fn is_dir_stub(facts: StubFacts) -> bool {
    facts.is_dir && only_marker(facts.names) && (facts.dir_stub matches Some(rec)
        && rec.target_type == StubTargetType::Tree)
}

/// The name of a path: what stands behind its last `/`.
pub open spec fn leaf_of(rel: Seq<char>) -> Seq<char> {
    text::split_from(rel, '/', 0).last()
}

/// If the scoped path `rel` is itself a stub, the entry that it stands for. A stub
/// means that content exists without being on disk: pushing it keeps what it
/// records, and never takes the missing file for a deletion.
pub fn resolve_scoped_stub(rel: &str, facts: StubFacts) -> (r: Option<TreeEntry>)
    ensures
        r is Some <==> is_file_stub(facts) || is_dir_stub(facts),
        is_file_stub(facts) ==> {
            let rec = facts.file_stub->0;
            r->0 matches TreeEntry::Blob { name, hash, size, mtime, mode } && name@ == leaf_of(rel@)
                && hash == rec.hash && size == rec.size && mtime == rec.mtime && mode == rec.mode
        },
        !is_file_stub(facts) && is_dir_stub(facts) ==> {
            let rec = facts.dir_stub->0;
            r->0 matches TreeEntry::Tree { name, size, mtime, blob_count, node } && name@ == leaf_of(
                rel@,
            ) && node.hash == rec.hash && node.content is Unread && size == rec.size && mtime
                == rec.mtime && blob_count == rec.blob_count
        },
{
    let parts = split(rel, '/');
    let leaf = parts[parts.len() - 1].clone();
    assert(leaf@ == leaf_of(rel@)) by {
        assert(text::views(parts@).last() == parts@[parts@.len() - 1]@);
    }
    if !facts.exists {
        if let Some(rec) = facts.file_stub {
            if rec.target_type == StubTargetType::Blob {
                return Some(
                    TreeEntry::Blob {
                        name: leaf,
                        hash: rec.hash,
                        size: rec.size,
                        mtime: rec.mtime,
                        mode: rec.mode,
                    },
                );
            }
        }
    }
    if facts.is_dir && holds_only_marker(&facts.names) {
        if let Some(rec) = facts.dir_stub {
            if rec.target_type == StubTargetType::Tree {
                return Some(
                    TreeEntry::Tree {
                        name: leaf,
                        size: rec.size,
                        mtime: rec.mtime,
                        blob_count: rec.blob_count,
                        node: TreeNode { hash: rec.hash, content: Content::Unread },
                    },
                );
            }
        }
    }
    None
}

#[verifier::loop_isolation(false)]
fn holds_only_marker(names: &Option<Vec<String>>) -> (r: bool)
    ensures
        r == only_marker(*names),
{
    match names {
        None => false,
        Some(v) => {
            let mut i: usize = 0;
            while i < v.len()
                invariant
                    i <= v@.len(),
                    forall|k: int| 0 <= k < i ==> (#[trigger] v@[k])@ == DIR_STUB_NAME@,
                decreases v.len() - i,
            {
                if !str_eq(v[i].as_str(), DIR_STUB_NAME) {
                    assert(v@[i as int]@ != DIR_STUB_NAME@);
                    return false;
                }
                i = i + 1;
            }
            true
        },
    }
}

/// The line that names the new remote root.
pub fn root_line(root: ObjectHash) -> (r: String)
    ensures
        r@ == "Remote root: "@ + root.short(),
{
    concat("Remote root: ", root.to_short().as_str())
}

// ---------------------------------------------------------------------------
// Reports
// ---------------------------------------------------------------------------

/// What is shown when conflict helper files block a push, after the error itself.
pub fn report_unresolved_conflicts(paths: &PathSet) -> (r: Vec<String>)
    requires
        paths.wf(),
    ensures
        text::views(r@) == seq!["The following conflict helper files were found:"@] + conflict::lead_each(
            "  "@,
            collections::listing(paths@),
        ),
{
    let sorted = paths.sorted();
    let mut lines: Vec<String> = Vec::new();
    lines.push("The following conflict helper files were found:".to_owned());
    let mut rest = with_lead("  ", &sorted);
    let ghost tail = text::views(rest@);
    lines.append(&mut rest);
    assert(text::views(lines@) =~= seq!["The following conflict helper files were found:"@] + tail);
    lines
}

/// What is shown of paths that changed while they were pushed; nothing if there
/// are none.
pub open spec fn unstable_lines(ps: Seq<Seq<char>>) -> Seq<Seq<char>> {
    if ps.len() == 0 {
        seq![]
    } else {
        seq![
            "warning: "@ + text::decimal(ps.len()) + " actively changing path"@ + (if ps.len() == 1 {
                " was"@
            } else {
                "s were"@
            })
                + " not updated; previous remote contents were preserved when available:"@,
        ] + conflict::lead_each("  "@, ps)
    }
}

/// What is shown of paths that changed while they were pushed.
pub fn report_unstable_paths(paths: &PathSet) -> (r: Vec<String>)
    requires
        paths.wf(),
    ensures
        text::views(r@) == unstable_lines(collections::listing(paths@)),
{
    let sorted = paths.sorted();
    assert(text::views(sorted@).len() == sorted@.len());
    let mut lines: Vec<String> = Vec::new();
    if sorted.len() == 0 {
        assert(text::views(lines@) =~= seq![]);
        return lines;
    }
    let mut first = concat3(
        "warning: ",
        decimal_of(sorted.len() as u64).as_str(),
        " actively changing path",
    );
    first.append(
        if sorted.len() == 1 {
            " was"
        } else {
            "s were"
        },
    );
    first.append(" not updated; previous remote contents were preserved when available:");
    lines.push(first);
    let mut rest = with_lead("  ", &sorted);
    let ghost tail = text::views(rest@);
    lines.append(&mut rest);
    assert(text::views(lines@) =~= seq![first@] + tail);
    lines
}

/// Why a push to the backup remote did not happen. None of these is fatal.
pub enum BackupFailure {
    Config(String),
    NotConfigured,
    Store(String),
    RootPointer(String),
    Writer(String),
    Upload(String),
    IndexRoot(String),
}

/// The warnings about a push to the backup remote that did not happen.
pub open spec fn backup_lines(f: BackupFailure) -> Seq<Seq<char>> {
    match f {
        BackupFailure::Config(e) => seq!["warning: could not read config for backup push: "@ + e@],
        BackupFailure::NotConfigured => seq![
            "warning: --with-backup specified but no 'backup' remote configured"@,
            "  Run 'omemfs config add-backup' to set one up."@,
        ],
        BackupFailure::Store(e) => seq!["warning: could not open backup remote: "@ + e@],
        BackupFailure::RootPointer(e) => seq![
            "warning: could not resolve backup remote root pointer: "@ + e@,
        ],
        BackupFailure::Writer(e) => seq!["warning: could not open backup pack writer: "@ + e@],
        BackupFailure::Upload(e) => seq!["warning: backup upload failed: "@ + e@],
        BackupFailure::IndexRoot(e) => seq!["warning: backup INDEX_ROOT update failed: "@ + e@],
    }
}

/// The warnings about a push to the backup remote that did not happen.
pub fn backup_warnings(failure: &BackupFailure) -> (r: Vec<String>)
    ensures
        text::views(r@) == backup_lines(*failure),
{
    let mut lines: Vec<String> = Vec::new();
    match failure {
        BackupFailure::Config(e) => {
            lines.push(concat("warning: could not read config for backup push: ", e.as_str()));
        },
        BackupFailure::NotConfigured => {
            lines.push(
                "warning: --with-backup specified but no 'backup' remote configured".to_owned(),
            );
            lines.push("  Run 'omemfs config add-backup' to set one up.".to_owned());
        },
        BackupFailure::Store(e) => {
            lines.push(concat("warning: could not open backup remote: ", e.as_str()));
        },
        BackupFailure::RootPointer(e) => {
            lines.push(
                concat("warning: could not resolve backup remote root pointer: ", e.as_str()),
            );
        },
        BackupFailure::Writer(e) => {
            lines.push(concat("warning: could not open backup pack writer: ", e.as_str()));
        },
        BackupFailure::Upload(e) => {
            lines.push(concat("warning: backup upload failed: ", e.as_str()));
        },
        BackupFailure::IndexRoot(e) => {
            lines.push(concat("warning: backup INDEX_ROOT update failed: ", e.as_str()));
        },
    }
    assert(text::views(lines@) =~= backup_lines(*failure));
    lines
}

// ---------------------------------------------------------------------------
// Transfers
// ---------------------------------------------------------------------------

/// A transfer of all that some objects reach from one store to another, shared by
/// the workers that carry it out.
pub struct Transfer {
    walk: Walk,
    /// Whether what an object refers to is checked although the destination has it.
    traverse_existing: bool,
    copied: Ghost<Set<ObjectHash>>,
    found: Ghost<Set<ObjectHash>>,
    read: Ghost<Set<ObjectHash>>,
}

/// What a worker of a transfer tells.
#[allow(inconsistent_fields)]
pub enum TransferEvent<'a> {
    /// It is ready for another object.
    Ready,
    /// Whether the destination has the object.
    Looked { hash: ObjectHash, exists: bool },
    /// What was read back of an object that the destination has; nothing if that
    /// failed.
    ReadBack { hash: ObjectHash, content: Option<&'a ObjectContent> },
    /// The object was read from the source and written to the destination.
    Copied { hash: ObjectHash, content: &'a ObjectContent },
    /// The object could not be dealt with.
    Failed { hash: ObjectHash, error: Error },
}

/// What a worker of a transfer does next.
#[derive(Clone, Copy, Debug, PartialEq, Eq, Structural)]
pub enum TransferStep {
    /// Look whether the destination has this object.
    Look(ObjectHash),
    /// Read this object back from the destination.
    ReadBack(ObjectHash),
    /// Copy this object from the source to the destination.
    Copy(ObjectHash),
    /// Ask for another object.
    Again,
    /// Wait until another worker has told something.
    Wait,
    /// Stop: all is transferred, or something failed.
    Done,
}

impl Transfer {
    /// The objects that were copied.
    pub closed spec fn copied(self) -> Set<ObjectHash> {
        self.copied@
    }

    /// The objects that the destination had.
    pub closed spec fn found(self) -> Set<ObjectHash> {
        self.found@
    }

    /// Those of them that were read back.
    pub closed spec fn read_back(self) -> Set<ObjectHash> {
        self.read@
    }

    /// Whether existing objects are traversed.
    pub closed spec fn traverses(self) -> bool {
        self.traverse_existing
    }

    /// The walk over the objects.
    pub closed spec fn walk(self) -> Walk {
        self.walk
    }

    /// Whether the transfer is over without a failure.
    pub open spec fn succeeded(self) -> bool {
        self.walk().failure() is None && self.walk().open_items() == 0
    }

    /// What holds of a transfer at every step: an object that is done was copied, or
    /// the destination had it.
    pub closed spec fn wf(self) -> bool {
        &&& self.walk.wf()
        &&& self.copied@.disjoint(self.found@)
        &&& self.read@.subset_of(self.found@)
        &&& self.walk.reported().dom() == self.copied@.union(self.found@)
    }

    /// A transfer of all that `roots` reach.
    pub fn new(roots: &Vec<ObjectHash>, traverse_existing: bool) -> (r: Transfer)
        ensures
            r.wf(),
            r.traverses() == traverse_existing,
            r.copied() == Set::<ObjectHash>::empty(),
            r.found() == Set::<ObjectHash>::empty(),
            r.read_back() == Set::<ObjectHash>::empty(),
            r.walk().start() == roots@,
            r.walk().waiting() == roots@,
            r.walk().claimed() == Set::<ObjectHash>::empty(),
            r.walk().failure() is None,
    {
        let r = Transfer {
            walk: Walk::new(roots),
            traverse_existing,
            copied: Ghost(Set::empty()),
            found: Ghost(Set::empty()),
            read: Ghost(Set::empty()),
        };
        assert(r.walk.reported().dom() =~= r.copied@.union(r.found@));
        r
    }

    /// The outcome: the first failure, if there was one.
    pub fn outcome(self) -> (r: Result<(), Error>)
        ensures
            match self.walk().failure() {
                Some(e) => r == Err::<(), Error>(e),
                None => r is Ok,
            },
    {
        self.walk.outcome()
    }
}

/// The objects that what was read of an object refers to; none if nothing was read.
pub open spec fn refers_to(content: Option<&ObjectContent>) -> Seq<ObjectHash> {
    match content {
        Some(c) => transfer::children(*c),
        None => seq![],
    }
}

/// The object that an event is about.
pub open spec fn event_hash(event: TransferEvent) -> Option<ObjectHash> {
    match event {
        TransferEvent::Ready => None,
        TransferEvent::Looked { hash, .. } => Some(hash),
        TransferEvent::ReadBack { hash, .. } => Some(hash),
        TransferEvent::Copied { hash, .. } => Some(hash),
        TransferEvent::Failed { hash, .. } => Some(hash),
    }
}

/// Whether an event can come: workers tell of objects that they were given.
pub open spec fn can_come(t: Transfer, event: TransferEvent) -> bool {
    event_hash(event) matches Some(h) ==> t.walk().in_flight().contains(h)
}

/// Whether a transfer went on from `a` to `b` by an object that is done: what it
/// refers to waits, and nothing else changed.
pub open spec fn went_on(a: Transfer, b: Transfer, h: ObjectHash, next: Seq<ObjectHash>) -> bool {
    &&& b.walk().reported() == a.walk().reported().insert(h, next)
    &&& b.walk().waiting() == a.walk().waiting() + next
    &&& b.walk().in_flight() == a.walk().in_flight().remove(h)
    &&& b.walk().claimed() == a.walk().claimed()
    &&& b.walk().failure() == a.walk().failure()
}

/// Whether a transfer goes from `a` to `b` with `step` when `event` is told. An object
/// that the destination lacks is copied. One that it has is left with all that it
/// refers to, unless existing objects are traversed: then it is read back, and what it
/// refers to is looked at too.
pub open spec fn transferred(a: Transfer, b: Transfer, event: TransferEvent, step: TransferStep) -> bool {
    &&& b.traverses() == a.traverses()
    &&& b.walk().start() == a.walk().start()
    &&& match event {
        TransferEvent::Ready => {
            let rest = transfer::unclaimed(a.walk().waiting(), a.walk().claimed());
            &&& b.copied() == a.copied() && b.found() == a.found() && b.read_back() == a.read_back()
            &&& b.walk().reported() == a.walk().reported()
            &&& b.walk().failure() == a.walk().failure()
            &&& if a.walk().failure() is Some {
                step == TransferStep::Done && b.walk() == a.walk()
            } else if rest.len() > 0 {
                &&& step == TransferStep::Look(rest[0])
                &&& !a.walk().claimed().contains(rest[0])
                &&& b.walk().waiting() == rest.drop_first()
                &&& b.walk().claimed() == a.walk().claimed().insert(rest[0])
                &&& b.walk().in_flight() == a.walk().in_flight().insert(rest[0])
            } else {
                &&& step == if a.walk().in_flight() == Set::<ObjectHash>::empty() {
                    TransferStep::Done
                } else {
                    TransferStep::Wait
                }
                &&& b.walk().waiting() == rest
                &&& b.walk().claimed() == a.walk().claimed()
                &&& b.walk().in_flight() == a.walk().in_flight()
            }
        },
        TransferEvent::Looked { hash, exists } => if !exists {
            step == TransferStep::Copy(hash) && b == a
        } else if a.traverses() {
            step == TransferStep::ReadBack(hash) && b == a
        } else {
            &&& step == TransferStep::Again
            &&& b.copied() == a.copied()
            &&& b.found() == a.found().insert(hash)
            &&& b.read_back() == a.read_back()
            &&& went_on(a, b, hash, seq![])
        },
        TransferEvent::ReadBack { hash, content } => {
            &&& step == TransferStep::Again
            &&& b.copied() == a.copied()
            &&& b.found() == a.found().insert(hash)
            &&& b.read_back() == if content is Some {
                a.read_back().insert(hash)
            } else {
                a.read_back()
            }
            &&& went_on(a, b, hash, refers_to(content))
        },
        TransferEvent::Copied { hash, content } => {
            &&& step == TransferStep::Again
            &&& b.copied() == a.copied().insert(hash)
            &&& b.found() == a.found()
            &&& b.read_back() == a.read_back()
            &&& went_on(a, b, hash, transfer::children(*content))
        },
        TransferEvent::Failed { hash, error } => {
            &&& step == TransferStep::Done
            &&& b.copied() == a.copied() && b.found() == a.found() && b.read_back() == a.read_back()
            &&& b.walk().reported() == a.walk().reported()
            &&& b.walk().waiting() == a.walk().waiting()
            &&& b.walk().claimed() == a.walk().claimed()
            &&& b.walk().in_flight() == a.walk().in_flight().remove(hash)
            &&& b.walk().failure() == match a.walk().failure() {
                Some(first) => Some(first),
                None => Some(error),
            }
        },
    }
}

/// Takes up what a worker of a transfer tells, and says what that worker does next.
pub fn transfer_objects(t: &mut Transfer, event: TransferEvent) -> (r: TransferStep)
    requires
        old(t).wf(),
        can_come(*old(t), event),
    ensures
        final(t).wf(),
        transferred(*old(t), *final(t), event, r),
{
    match event {
        TransferEvent::Ready => match t.walk.next() {
            Next::Process(h) => TransferStep::Look(h),
            Next::Wait => TransferStep::Wait,
            Next::Done => TransferStep::Done,
        },
        TransferEvent::Looked { hash, exists } => {
            if !exists {
                return TransferStep::Copy(hash);
            }
            if t.traverse_existing {
                return TransferStep::ReadBack(hash);
            }
            found_there(t, hash, None);
            TransferStep::Again
        },
        TransferEvent::ReadBack { hash, content } => {
            found_there(t, hash, content);
            TransferStep::Again
        },
        TransferEvent::Copied { hash, content } => {
            proof {
                t.walk.law_claims();
            }
            t.walk.complete(hash, &child_hashes(content));
            t.copied = Ghost(t.copied@.insert(hash));
            assert(t.walk.reported().dom() =~= t.copied@.union(t.found@));
            TransferStep::Again
        },
        TransferEvent::Failed { hash, error } => {
            t.walk.record_error(hash, error);
            TransferStep::Done
        },
    }
}

/// Takes up that the destination has an object, and what was read back of it.
fn found_there(t: &mut Transfer, hash: ObjectHash, content: Option<&ObjectContent>)
    requires
        old(t).wf(),
        old(t).walk().in_flight().contains(hash),
    ensures
        final(t).wf(),
        final(t).traverses() == old(t).traverses(),
        final(t).walk().start() == old(t).walk().start(),
        final(t).copied() == old(t).copied(),
        final(t).found() == old(t).found().insert(hash),
        final(t).read_back() == if content is Some {
            old(t).read_back().insert(hash)
        } else {
            old(t).read_back()
        },
        went_on(*old(t), *final(t), hash, refers_to(content)),
{
    proof {
        t.walk.law_claims();
    }
    let next = match content {
        Some(c) => child_hashes(c),
        None => Vec::new(),
    };
    assert(next@ =~= refers_to(content));
    t.walk.complete(hash, &next);
    t.found = Ghost(t.found@.insert(hash));
    t.read = Ghost(
        if content is Some {
            t.read@.insert(hash)
        } else {
            t.read@
        },
    );
    assert(t.walk.reported().dom() =~= t.copied@.union(t.found@));
}

/// Whether each object of `path` refers to the next one.
pub open spec fn linked(links: spec_fn(ObjectHash) -> Seq<ObjectHash>, path: Seq<ObjectHash>) -> bool {
    forall|i: int| 0 <= i < path.len() - 1 ==> links(#[trigger] path[i]).contains(path[i + 1])
}

/// After a transfer without a failure, the destination has all that the roots reach:
/// each such object was copied or was there before, provided that the objects that
/// were there before came with all that they refer to.
pub proof fn law_transfer_is_complete(
    t: Transfer,
    links: spec_fn(ObjectHash) -> Seq<ObjectHash>,
    before: Set<ObjectHash>,
    path: Seq<ObjectHash>,
)
    requires
        t.wf(),
        t.succeeded(),
        t.found().subset_of(before),
        forall|h: ObjectHash| #[trigger]
            t.copied().contains(h) ==> t.walk().reported()[h] == links(h),
        forall|h: ObjectHash, i: int|
            before.contains(h) && 0 <= i < links(h).len() ==> before.contains(
                #[trigger] links(h)[i],
            ),
        path.len() > 0,
        t.walk().start().contains(path[0]),
        linked(links, path),
    ensures
        t.copied().contains(path.last()) || before.contains(path.last()),
{
    lemma_copied_or_there(t, links, before, path);
}

proof fn lemma_copied_or_there(
    t: Transfer,
    links: spec_fn(ObjectHash) -> Seq<ObjectHash>,
    before: Set<ObjectHash>,
    path: Seq<ObjectHash>,
)
    requires
        t.wf(),
        t.succeeded(),
        t.found().subset_of(before),
        forall|h: ObjectHash| #[trigger]
            t.copied().contains(h) ==> t.walk().reported()[h] == links(h),
        forall|h: ObjectHash, i: int|
            before.contains(h) && 0 <= i < links(h).len() ==> before.contains(
                #[trigger] links(h)[i],
            ),
        path.len() > 0,
        t.walk().start().contains(path[0]),
        linked(links, path),
    ensures
        before.contains(path.last()) || forall|i: int|
            0 <= i < path.len() ==> t.copied().contains(#[trigger] path[i]),
    decreases path.len(),
{
    if path.len() > 1 {
        let init = path.drop_last();
        assert forall|i: int| 0 <= i < init.len() - 1 implies links(#[trigger] init[i]).contains(
            init[i + 1],
        ) by {
            assert(links(path[i]).contains(path[i + 1]));
        }
        lemma_copied_or_there(t, links, before, init);
        let p = path[path.len() - 2];
        assert(links(p).contains(path[path.len() - 2 + 1]));
        if before.contains(init.last()) {
            let k = choose|k: int| 0 <= k < links(p).len() && #[trigger] links(p)[k] == path.last();
            assert(before.contains(links(p)[k]));
        } else {
            assert forall|i: int| 0 <= i < path.len() - 1 implies t.walk.reported().dom().contains(
                #[trigger] path[i],
            ) && t.walk.reported()[path[i]].contains(path[i + 1]) by {
                assert(t.copied().contains(init[i]));
                assert(links(path[i]).contains(path[i + 1]));
            }
            t.walk.law_walk_is_complete(path);
            assert forall|i: int| 0 <= i < path.len() && !before.contains(
                path.last(),
            ) implies t.copied().contains(#[trigger] path[i]) by {
                if i < path.len() - 1 {
                    assert(t.copied().contains(init[i]));
                }
            }
        }
    } else {
        t.walk.law_walk_is_complete(path);
    }
}

/// Where existing objects are traversed and each could be read back, nothing is asked
/// of the destination: an object missing below one that was there is found and
/// copied.
pub proof fn law_traversal_fills_gaps(
    t: Transfer,
    links: spec_fn(ObjectHash) -> Seq<ObjectHash>,
    path: Seq<ObjectHash>,
)
    requires
        t.wf(),
        t.succeeded(),
        t.read_back() == t.found(),
        forall|h: ObjectHash|
            t.copied().contains(h) || t.read_back().contains(h) ==> #[trigger] t.walk().reported()[h]
                == links(h),
        path.len() > 0,
        t.walk().start().contains(path[0]),
        linked(links, path),
    ensures
        t.copied().contains(path.last()) || t.found().contains(path.last()),
{
    lemma_reported_along(t, links, path, path.len());
}

proof fn lemma_reported_along(
    t: Transfer,
    links: spec_fn(ObjectHash) -> Seq<ObjectHash>,
    path: Seq<ObjectHash>,
    n: nat,
)
    requires
        t.wf(),
        t.succeeded(),
        forall|h: ObjectHash| #[trigger]
            t.walk().reported().dom().contains(h) ==> t.walk().reported()[h] == links(h),
        0 < n <= path.len(),
        t.walk().start().contains(path[0]),
        linked(links, path),
    ensures
        forall|i: int| 0 <= i < n ==> t.walk().reported().dom().contains(#[trigger] path[i]),
    decreases n,
{
    if n > 1 {
        lemma_reported_along(t, links, path, (n - 1) as nat);
    }
    let lead = path.take(n as int);
    assert forall|i: int| 0 <= i < lead.len() - 1 implies t.walk().reported().dom().contains(
        #[trigger] lead[i],
    ) && t.walk().reported()[lead[i]].contains(lead[i + 1]) by {
        assert(t.walk().reported().dom().contains(path[i]));
        assert(links(path[i]).contains(path[i + 1]));
    }
    t.walk.law_walk_is_complete(lead);
    assert(lead.last() == path[n - 1]);
}

/// The worker count of a transfer between two stores: the larger of theirs, so that
/// the cloud side drives parallelism in either direction.
pub fn transfer_workers(src: usize, dst: usize) -> (r: usize)
    ensures
        r == if src >= dst { src } else { dst },
{
    if src >= dst {
        src
    } else {
        dst
    }
}

/// An upload: a transfer to a remote that leaves what is there, with counts of what
/// was uploaded and of what was there.
pub struct Upload {
    transfer: Transfer,
    uploaded: usize,
    cached: usize,
}

impl Upload {
    /// The transfer.
    pub closed spec fn transfer(self) -> Transfer {
        self.transfer
    }

    /// The counts are those of the objects, and existing objects are left alone.
    pub closed spec fn wf(self) -> bool {
        &&& self.transfer.wf()
        &&& !self.transfer.traverses()
        &&& self.transfer.copied().finite() && self.uploaded == self.transfer.copied().len()
        &&& self.transfer.found().finite() && self.cached == self.transfer.found().len()
    }

    /// An upload of all that `root` reaches.
    pub fn new(root: ObjectHash) -> (r: Upload)
        ensures
            r.wf(),
            r.transfer().walk().start() == seq![root],
            r.transfer().walk().waiting() == seq![root],
            r.transfer().copied() == Set::<ObjectHash>::empty(),
            r.transfer().found() == Set::<ObjectHash>::empty(),
    {
        let mut roots: Vec<ObjectHash> = Vec::new();
        roots.push(root);
        assert(roots@ =~= seq![root]);
        Upload { transfer: Transfer::new(&roots, false), uploaded: 0, cached: 0 }
    }

    /// The outcome: the first failure, if there was one.
    pub fn outcome(self) -> (r: Result<(), Error>)
        ensures
            match self.transfer().walk().failure() {
                Some(e) => r == Err::<(), Error>(e),
                None => r is Ok,
            },
    {
        self.transfer.outcome()
    }
}

/// The line about one object of an upload.
pub open spec fn upload_detail(verb: Seq<char>, h: ObjectHash, uploaded: nat, cached: nat) -> Seq<char> {
    verb + h.short() + " ("@ + text::decimal(uploaded) + " uploaded, "@ + text::decimal(cached)
        + " cached)"@
}

/// The line that an event of an upload brings, after it was taken up.
pub open spec fn detail_of(event: TransferEvent, after: Transfer) -> Option<Seq<char>> {
    match event {
        TransferEvent::Looked { hash, exists: true } => Some(
            upload_detail("cached "@, hash, after.copied().len(), after.found().len()),
        ),
        TransferEvent::Copied { hash, .. } => Some(
            upload_detail("upload "@, hash, after.copied().len(), after.found().len()),
        ),
        _ => None,
    }
}

/// Takes up what a worker of an upload tells, and says what that worker does next.
pub fn upload_missing(u: &mut Upload, event: TransferEvent) -> (r: TransferStep)
    requires
        old(u).wf(),
        can_come(old(u).transfer(), event),
        !(event is ReadBack),
    ensures
        final(u).wf(),
        transferred(old(u).transfer(), final(u).transfer(), event, r),
{
    let (step, _) = upload_missing_with_progress(u, event);
    step
}

/// Takes up what a worker of an upload tells, and says what that worker does next,
/// with a line about the object that is done.
pub fn upload_missing_with_progress(u: &mut Upload, event: TransferEvent) -> (r: (
    TransferStep,
    Option<String>,
))
    requires
        old(u).wf(),
        can_come(old(u).transfer(), event),
        !(event is ReadBack),
    ensures
        final(u).wf(),
        transferred(old(u).transfer(), final(u).transfer(), event, r.0),
        match r.1 {
            Some(line) => detail_of(event, final(u).transfer()) == Some(line@),
            None => detail_of(event, final(u).transfer()) is None,
        },
{
    proof {
        lemma_counts_fit(u.transfer);
        let t = u.transfer;
        if let Some(h) = event_hash(event) {
            t.walk.law_claims();
            assert(!t.copied().contains(h) && !t.found().contains(h));
        }
    }
    let done: Option<(&str, ObjectHash)> = match &event {
        TransferEvent::Looked { hash, exists } => if *exists {
            u.cached = u.cached + 1;
            Some(("cached ", *hash))
        } else {
            None
        },
        TransferEvent::Copied { hash, .. } => {
            u.uploaded = u.uploaded + 1;
            Some(("upload ", *hash))
        },
        _ => None,
    };
    let step = transfer_objects(&mut u.transfer, event);
    let line = match done {
        Some((verb, hash)) => {
            let mut s = concat3(verb, hash.to_short().as_str(), " (");
            s.append(decimal_of(u.uploaded as u64).as_str());
            s.append(" uploaded, ");
            s.append(decimal_of(u.cached as u64).as_str());
            s.append(" cached)");
            Some(s)
        },
        None => None,
    };
    (step, line)
}

/// While an object is in flight, fewer objects are done than memory can hold.
proof fn lemma_counts_fit(t: Transfer)
    requires
        t.wf(),
        t.copied().finite(),
        t.found().finite(),
    ensures
        t.walk().in_flight().len() > 0 ==> t.copied().len() < usize::MAX && t.found().len()
            < usize::MAX,
{
    t.walk.law_claims();
    t.walk.law_outstanding();
    let busy = t.walk.in_flight();
    if busy.len() > 0 {
        let h = busy.choose();
        assert(busy.contains(h));
        let all = t.walk.claimed();
        vstd::set_lib::lemma_len_subset(t.copied(), all.remove(h));
        vstd::set_lib::lemma_len_subset(t.found(), all.remove(h));
    }
}

} // verus!
