//! `pull`: what changed on the remote, what conflicts with local changes, and
//! what has to be done to the working tree.

pub mod leaves;
pub mod listed;
pub mod written;

use crate::collections::{self, text_le, PathMap, PathSet};
use crate::commands::conflict::{ConflictMeta, SideMeta};
use crate::commands::push::{deduplicate_paths, post_clone_sync_guard, GUARD_MESSAGE};
use crate::error::Error;
use crate::object::{
    self, blob_stub, find_last, get_entry, navigate, navigate_entry, tree_stub, Content, Halt,
    ObjectHash, StubRecord, StubTargetType, Timestamp, TreeEntry, TreeNode,
};
use crate::text::{
    self, chars_of, concat, concat3, copy_strings, decimal_of, join_path, opt_copy, opt_eq,
    path_components, str_eq, string_of,
};
use crate::worktree::DIR_STUB_NAME;
use vstd::prelude::*;
use vstd::string::*;

verus! {

// ---------------------------------------------------------------------------
// Diff
// ---------------------------------------------------------------------------

/// How a path differs between two trees.
pub enum DiffEntry {
    Added { hash: ObjectHash, size: u64, mtime: Option<Timestamp>, mode: Option<String> },
    Modified { hash: ObjectHash, size: u64, mtime: Option<Timestamp>, mode: Option<String> },
    Deleted,
    AddedEmptyDir,
    /// A newly-added tree whose aggregate size meets the stub threshold.
    /// The entire subtree is represented by a single directory stub instead
    /// of individual blob entries.
    AddedTree { hash: ObjectHash, size: u64, mtime: Option<Timestamp>, blob_count: u64 },
    /// A symlink added or modified (target changed) on the remote. Symlinks
    /// are always materialised, never stubbed. `was_present` distinguishes an
    /// added symlink (false) from a modified one (true) for the diff label only.
    Symlink { target: String, mtime: Option<Timestamp>, was_present: bool },
}

/// Whether a listing has a directory named `.git`.
pub open spec fn has_git_dir(es: Seq<TreeEntry>) -> bool {
    exists|i: int|
        0 <= i < es.len() && (#[trigger] es[i]) is Tree && es[i].name_text() == ".git"@
}

/// Whether a tree is the root of a Git repository. A tree that is not there is none.
pub open spec fn git_root(node: TreeNode) -> Result<bool, Halt> {
    match node.content {
        Content::Unread => Err(Halt::Unread(node.hash)),
        Content::Missing => Ok(false),
        Content::Entries(es) => Ok(has_git_dir(es@)),
    }
}

/// Whether stubs are not allowed below a directory: it is `.git`, or the root of
/// a Git repository, or inside one.
pub open spec fn git_context(in_git: bool, name: Seq<char>, node: TreeNode) -> Result<bool, Halt> {
    if in_git || name == ".git"@ {
        Ok(true)
    } else {
        git_root(node)
    }
}

/// How a file of the target differs from what the base has under its name.
pub open spec fn blob_change(
    base: Option<TreeEntry>,
    hash: ObjectHash,
    size: u64,
    mtime: Option<Timestamp>,
    mode: Option<String>,
) -> Option<DiffEntry> {
    match base {
        Some(TreeEntry::Blob { hash: base_hash, mode: base_mode, .. }) => if base_hash == hash
            && text::opt_view(base_mode) == text::opt_view(mode) {
            None
        } else {
            Some(DiffEntry::Modified { hash, size, mtime, mode })
        },
        Some(_) => Some(DiffEntry::Modified { hash, size, mtime, mode }),
        None => Some(DiffEntry::Added { hash, size, mtime, mode }),
    }
}

/// How a symlink of the target differs from what the base has under its name.
pub open spec fn link_change(
    base: Option<TreeEntry>,
    target: String,
    mtime: Option<Timestamp>,
) -> Option<DiffEntry> {
    match base {
        Some(TreeEntry::Symlink { target: base_target, .. }) => if base_target@ == target@ {
            None
        } else {
            Some(DiffEntry::Symlink { target, mtime, was_present: true })
        },
        Some(_) => Some(DiffEntry::Symlink { target, mtime, was_present: true }),
        None => Some(DiffEntry::Symlink { target, mtime, was_present: false }),
    }
}

/// The directory that the base has under a name.
pub open spec fn base_dir(base: Option<TreeEntry>) -> Option<TreeNode> {
    match base {
        Some(TreeEntry::Tree { node, .. }) => Some(node),
        _ => None,
    }
}

/// `acc` with a change recorded at `path`, if there is one.
pub open spec fn recorded(
    acc: Map<Seq<char>, DiffEntry>,
    path: Seq<char>,
    change: Option<DiffEntry>,
) -> Map<Seq<char>, DiffEntry> {
    match change {
        Some(c) => acc.insert(path, c),
        None => acc,
    }
}

/// `acc` with the difference between two trees recorded under `prefix`. Equal
/// hashes mean equal trees, which are not looked into.
pub open spec fn diff_tree(
    base: Option<TreeNode>,
    target: TreeNode,
    prefix: Seq<char>,
    acc: Map<Seq<char>, DiffEntry>,
    threshold: u64,
    in_git: bool,
) -> Result<Map<Seq<char>, DiffEntry>, Halt>
    decreases target, 0nat,
{
    if base is Some && base->0.hash == target.hash {
        Ok(acc)
    } else {
        match target.content {
            Content::Unread => Err(Halt::Unread(target.hash)),
            Content::Missing => Err(Halt::Missing(target.hash)),
            Content::Entries(tes) => match base_listing(base) {
                Err(h) => Err(h),
                Ok(bes) => match diff_listing(
                    bes,
                    tes@,
                    tes@.len(),
                    prefix,
                    acc,
                    threshold,
                    in_git,
                ) {
                    Err(h) => Err(h),
                    Ok(m) => diff_gone(bes, object::names(tes@), bes.len(), prefix, m),
                },
            },
        }
    }
}

/// The entries of the base; an absent base has none.
pub open spec fn base_listing(base: Option<TreeNode>) -> Result<Seq<TreeEntry>, Halt> {
    match base {
        Some(b) => b.listing(),
        None => Ok(seq![]),
    }
}

/// `acc` with what the first `n` target entries change, recorded under `prefix`.
pub open spec fn diff_listing(
    bes: Seq<TreeEntry>,
    tes: Seq<TreeEntry>,
    n: nat,
    prefix: Seq<char>,
    acc: Map<Seq<char>, DiffEntry>,
    threshold: u64,
    in_git: bool,
) -> Result<Map<Seq<char>, DiffEntry>, Halt>
    decreases tes, n,
{
    if n == 0 || n > tes.len() {
        Ok(acc)
    } else {
        match diff_listing(bes, tes, (n - 1) as nat, prefix, acc, threshold, in_git) {
            Err(h) => Err(h),
            Ok(m) => {
                let e = tes[n - 1];
                let base = object::entry_named(bes, e.name_text());
                let path = text::joined(prefix, e.name_text());
                match e {
                    TreeEntry::Blob { hash, size, mtime, mode, .. } => Ok(
                        recorded(m, path, blob_change(base, hash, size, mtime, mode)),
                    ),
                    TreeEntry::Symlink { target, mtime, .. } => Ok(
                        recorded(m, path, link_change(base, target, mtime)),
                    ),
                    TreeEntry::Tree { size, mtime, blob_count, node, .. } => match git_context(
                        in_git,
                        e.name_text(),
                        node,
                    ) {
                        Err(h) => Err(h),
                        Ok(git) => if base_dir(base) is None && threshold > 0 && size >= threshold
                            && !git {
                            Ok(
                                m.insert(
                                    path,
                                    DiffEntry::AddedTree {
                                        hash: node.hash,
                                        size,
                                        mtime,
                                        blob_count,
                                    },
                                ),
                            )
                        } else {
                            match diff_tree(base_dir(base), node, path, m, threshold, git) {
                                Err(h) => Err(h),
                                Ok(after) => if base_dir(base) is None && after.dom().len()
                                    == m.dom().len() {
                                    Ok(after.insert(path, DiffEntry::AddedEmptyDir))
                                } else {
                                    Ok(after)
                                },
                            }
                        },
                    },
                }
            },
        }
    }
}

/// `acc` with the first `n` base entries that the target no longer names
/// recorded as deleted. Of base entries with the same name the last one counts.
pub open spec fn diff_gone(
    bes: Seq<TreeEntry>,
    kept: Seq<Seq<char>>,
    n: nat,
    prefix: Seq<char>,
    acc: Map<Seq<char>, DiffEntry>,
) -> Result<Map<Seq<char>, DiffEntry>, Halt>
    decreases n,
{
    if n == 0 || n > bes.len() {
        Ok(acc)
    } else {
        match diff_gone(bes, kept, (n - 1) as nat, prefix, acc) {
            Err(h) => Err(h),
            Ok(m) => {
                let e = bes[n - 1];
                if object::last_named(bes, e.name_text()) == Some(n - 1) && !kept.contains(e.name_text()) {
                    gone_entry(e, prefix, m)
                } else {
                    Ok(m)
                }
            },
        }
    }
}

/// `acc` with a deleted entry recorded: a file or symlink at its path, a
/// directory by all that it holds.
pub open spec fn gone_entry(
    e: TreeEntry,
    prefix: Seq<char>,
    acc: Map<Seq<char>, DiffEntry>,
) -> Result<Map<Seq<char>, DiffEntry>, Halt>
    decreases e, 0nat,
{
    let path = text::joined(prefix, e.name_text());
    match e {
        TreeEntry::Tree { node, .. } => gone_tree(node, path, acc),
        _ => Ok(acc.insert(path, DiffEntry::Deleted)),
    }
}

/// `acc` with all files and symlinks of a deleted tree recorded under `prefix`.
pub open spec fn gone_tree(
    node: TreeNode,
    prefix: Seq<char>,
    acc: Map<Seq<char>, DiffEntry>,
) -> Result<Map<Seq<char>, DiffEntry>, Halt>
    decreases node, 0nat,
{
    match node.content {
        Content::Unread => Err(Halt::Unread(node.hash)),
        Content::Missing => Err(Halt::Missing(node.hash)),
        Content::Entries(es) => gone_listing(es@, es@.len(), prefix, acc),
    }
}

/// `acc` with the first `n` entries of a deleted tree recorded under `prefix`.
pub open spec fn gone_listing(
    es: Seq<TreeEntry>,
    n: nat,
    prefix: Seq<char>,
    acc: Map<Seq<char>, DiffEntry>,
) -> Result<Map<Seq<char>, DiffEntry>, Halt>
    decreases es, n,
{
    if n == 0 || n > es.len() {
        Ok(acc)
    } else {
        match gone_listing(es, (n - 1) as nat, prefix, acc) {
            Err(h) => Err(h),
            Ok(m) => gone_entry(es[n - 1], prefix, m),
        }
    }
}

/// Whether a tree is the root of a Git repository: it has a directory `.git`,
/// so that stubs inside it are not allowed.
#[verifier::loop_isolation(false)]
fn tree_contains_git_dir(node: &TreeNode) -> (r: Result<bool, Halt>)
    ensures
        r == git_root(*node),
{
    match &node.content {
        Content::Unread => Err(Halt::Unread(node.hash)),
        Content::Missing => Ok(false),
        Content::Entries(es) => {
            let mut i: usize = 0;
            while i < es.len()
                invariant
                    i <= es@.len(),
                    forall|k: int|
                        0 <= k < i ==> !((#[trigger] es@[k]) is Tree && es@[k].name_text()
                            == ".git"@),
                decreases es.len() - i,
            {
                if let TreeEntry::Tree { name, .. } = &es[i] {
                    if str_eq(name.as_str(), ".git") {
                        assert(has_git_dir(es@));
                        return Ok(true);
                    }
                }
                i = i + 1;
            }
            Ok(false)
        },
    }
}

fn diff_blob(
    base: Option<&TreeEntry>,
    hash: ObjectHash,
    size: u64,
    mtime: Option<Timestamp>,
    mode: &Option<String>,
) -> (r: Option<DiffEntry>)
    ensures
        r == blob_change(
            match base {
                Some(e) => Some(*e),
                None => None,
            },
            hash,
            size,
            mtime,
            *mode,
        ),
{
    match base {
        Some(TreeEntry::Blob { hash: base_hash, mode: base_mode, .. }) => if *base_hash == hash
            && opt_eq(base_mode, mode) {
            None
        } else {
            Some(DiffEntry::Modified { hash, size, mtime, mode: opt_copy(mode) })
        },
        Some(_) => Some(DiffEntry::Modified { hash, size, mtime, mode: opt_copy(mode) }),
        None => Some(DiffEntry::Added { hash, size, mtime, mode: opt_copy(mode) }),
    }
}

fn diff_link(base: Option<&TreeEntry>, target: &String, mtime: Option<Timestamp>) -> (r: Option<
    DiffEntry,
>)
    ensures
        r == link_change(
            match base {
                Some(e) => Some(*e),
                None => None,
            },
            *target,
            mtime,
        ),
{
    match base {
        Some(TreeEntry::Symlink { target: base_target, .. }) => if *base_target == *target {
            None
        } else {
            Some(DiffEntry::Symlink { target: target.clone(), mtime, was_present: true })
        },
        Some(_) => Some(DiffEntry::Symlink { target: target.clone(), mtime, was_present: true }),
        None => Some(DiffEntry::Symlink { target: target.clone(), mtime, was_present: false }),
    }
}

fn record(result: &mut PathMap<DiffEntry>, path: String, change: Option<DiffEntry>)
    requires
        old(result).wf(),
    ensures
        final(result).wf(),
        final(result)@ == recorded(old(result)@, path@, change),
{
    if let Some(c) = change {
        result.insert(path, c);
    }
}

/// The reference behind an optional base.
pub open spec fn deref_base(base: Option<&TreeNode>) -> Option<TreeNode> {
    match base {
        Some(b) => Some(*b),
        None => None,
    }
}

/// Records under `prefix` how `target` differs from `base`.
#[verifier::loop_isolation(false)]
#[verifier::rlimit(40)]
fn diff_recursive(
    base: Option<&TreeNode>,
    target: &TreeNode,
    prefix: &str,
    result: &mut PathMap<DiffEntry>,
    stub_threshold: u64,
    in_git_ctx: bool,
) -> (r: Result<(), Halt>)
    requires
        old(result).wf(),
    ensures
        final(result).wf(),
        match r {
            Ok(()) => diff_tree(
                deref_base(base),
                *target,
                prefix@,
                old(result)@,
                stub_threshold,
                in_git_ctx,
            ) == Ok::<Map<Seq<char>, DiffEntry>, Halt>(final(result)@),
            Err(h) => diff_tree(
                deref_base(base),
                *target,
                prefix@,
                old(result)@,
                stub_threshold,
                in_git_ctx,
            ) == Err::<Map<Seq<char>, DiffEntry>, Halt>(h),
        },
    decreases target,
{
    if let Some(b) = base {
        if b.hash == target.hash {
            return Ok(());
        }
    }
    let tes = match target.entries() {
        Ok(es) => es,
        Err(h) => {
            return Err(h);
        },
    };
    let none: Vec<TreeEntry> = Vec::new();
    let bes: &Vec<TreeEntry> = match base {
        Some(b) => match b.entries() {
            Ok(es) => es,
            Err(h) => {
                return Err(h);
            },
        },
        None => &none,
    };
    let ghost acc = result@;
    let ghost whole = diff_tree(
        deref_base(base),
        *target,
        prefix@,
        acc,
        stub_threshold,
        in_git_ctx,
    );
    assert(base_listing(deref_base(base)) == Ok::<Seq<TreeEntry>, Halt>(bes@)) by {
        assert(none@ =~= seq![]);
    }
    let mut i: usize = 0;
    while i < tes.len()
        invariant
            target.content == Content::Entries(*tes),
            i <= tes@.len(),
            result.wf(),
            diff_listing(bes@, tes@, i as nat, prefix@, acc, stub_threshold, in_git_ctx) == Ok::<
                Map<Seq<char>, DiffEntry>,
                Halt,
            >(result@),
            whole == match diff_listing(
                bes@,
                tes@,
                tes@.len(),
                prefix@,
                acc,
                stub_threshold,
                in_git_ctx,
            ) {
                Err(h) => Err(h),
                Ok(m) => diff_gone(bes@, object::names(tes@), bes@.len(), prefix@, m),
            },
        decreases tes.len() - i,
    {
        let ghost next = diff_listing(
            bes@,
            tes@,
            (i + 1) as nat,
            prefix@,
            acc,
            stub_threshold,
            in_git_ctx,
        );
        let entry = &tes[i];
        let base_entry = get_entry(bes, entry.name().as_str());
        let path = join_path(prefix, entry.name().as_str());
        match entry {
            TreeEntry::Blob { hash, size, mtime, mode, .. } => {
                record(result, path, diff_blob(base_entry, *hash, *size, *mtime, mode));
            },
            TreeEntry::Symlink { target, mtime, .. } => {
                record(result, path, diff_link(base_entry, target, *mtime));
            },
            TreeEntry::Tree { name, size, mtime, blob_count, node } => {
                let base_node = match base_entry {
                    Some(TreeEntry::Tree { node, .. }) => Some(node),
                    _ => None,
                };
                let mut git = in_git_ctx || str_eq(name.as_str(), ".git");
                if !git {
                    match tree_contains_git_dir(node) {
                        Ok(b) => {
                            git = b;
                        },
                        Err(h) => {
                            proof {
                                lemma_diff_listing_halts(
                                    bes@,
                                    tes@,
                                    (i + 1) as nat,
                                    tes@.len(),
                                    prefix@,
                                    acc,
                                    stub_threshold,
                                    in_git_ctx,
                                    h,
                                );
                            }
                            return Err(h);
                        },
                    }
                }
                if base_node.is_none() && stub_threshold > 0 && *size >= stub_threshold && !git {
                    result.insert(
                        path,
                        DiffEntry::AddedTree {
                            hash: node.hash,
                            size: *size,
                            mtime: *mtime,
                            blob_count: *blob_count,
                        },
                    );
                } else {
                    let before: usize = result.len();
                    match diff_recursive(base_node, node, path.as_str(), result, stub_threshold, git) {
                        Ok(()) => {},
                        Err(h) => {
                            proof {
                                lemma_diff_listing_halts(
                                    bes@,
                                    tes@,
                                    (i + 1) as nat,
                                    tes@.len(),
                                    prefix@,
                                    acc,
                                    stub_threshold,
                                    in_git_ctx,
                                    h,
                                );
                            }
                            return Err(h);
                        },
                    }
                    if base_node.is_none() && result.len() == before {
                        result.insert(path, DiffEntry::AddedEmptyDir);
                    }
                }
            },
        }
        assert(next == Ok::<Map<Seq<char>, DiffEntry>, Halt>(result@));
        i = i + 1;
    }
    let ghost after_target = result@;
    let ghost kept = object::names(tes@);
    let mut j: usize = 0;
    while j < bes.len()
        invariant
            j <= bes@.len(),
            result.wf(),
            kept == object::names(tes@),
            diff_gone(bes@, kept, j as nat, prefix@, after_target) == Ok::<
                Map<Seq<char>, DiffEntry>,
                Halt,
            >(result@),
            whole == diff_gone(bes@, kept, bes@.len(), prefix@, after_target),
        decreases bes.len() - j,
    {
        let entry = &bes[j];
        let name = entry.name();
        let counts = match find_last(bes, name.as_str()) {
            Some(k) => k == j,
            None => false,
        };
        if counts && !has_name(tes, name.as_str()) {
            match mark_deleted_entry(entry, prefix, result) {
                Ok(()) => {},
                Err(h) => {
                    proof {
                        lemma_diff_gone_halts(
                            bes@,
                            kept,
                            (j + 1) as nat,
                            bes@.len(),
                            prefix@,
                            after_target,
                            h,
                        );
                    }
                    return Err(h);
                },
            }
        }
        j = j + 1;
    }
    Ok(())
}

/// Whether some entry has this name.
fn has_name(es: &Vec<TreeEntry>, name: &str) -> (r: bool)
    ensures
        r == object::names(es@).contains(name@),
{
    let mut i: usize = 0;
    while i < es.len()
        invariant
            i <= es@.len(),
            forall|k: int| 0 <= k < i ==> (#[trigger] object::names(es@)[k]) != name@,
        decreases es.len() - i,
    {
        if str_eq(es[i].name().as_str(), name) {
            assert(object::names(es@)[i as int] == name@);
            return true;
        }
        i = i + 1;
    }
    false
}

proof fn lemma_diff_listing_halts(
    bes: Seq<TreeEntry>,
    tes: Seq<TreeEntry>,
    a: nat,
    b: nat,
    prefix: Seq<char>,
    acc: Map<Seq<char>, DiffEntry>,
    threshold: u64,
    in_git: bool,
    h: Halt,
)
    requires
        a <= b <= tes.len(),
        diff_listing(bes, tes, a, prefix, acc, threshold, in_git) == Err::<
            Map<Seq<char>, DiffEntry>,
            Halt,
        >(h),
    ensures
        diff_listing(bes, tes, b, prefix, acc, threshold, in_git) == Err::<
            Map<Seq<char>, DiffEntry>,
            Halt,
        >(h),
    decreases b - a,
{
    if a < b {
        lemma_diff_listing_halts(bes, tes, a, (b - 1) as nat, prefix, acc, threshold, in_git, h);
    }
}

proof fn lemma_diff_gone_halts(
    bes: Seq<TreeEntry>,
    kept: Seq<Seq<char>>,
    a: nat,
    b: nat,
    prefix: Seq<char>,
    acc: Map<Seq<char>, DiffEntry>,
    h: Halt,
)
    requires
        a <= b <= bes.len(),
        diff_gone(bes, kept, a, prefix, acc) == Err::<Map<Seq<char>, DiffEntry>, Halt>(h),
    ensures
        diff_gone(bes, kept, b, prefix, acc) == Err::<Map<Seq<char>, DiffEntry>, Halt>(h),
    decreases b - a,
{
    if a < b {
        lemma_diff_gone_halts(bes, kept, a, (b - 1) as nat, prefix, acc, h);
    }
}

proof fn lemma_gone_listing_halts(
    es: Seq<TreeEntry>,
    a: nat,
    b: nat,
    prefix: Seq<char>,
    acc: Map<Seq<char>, DiffEntry>,
    h: Halt,
)
    requires
        a <= b <= es.len(),
        gone_listing(es, a, prefix, acc) == Err::<Map<Seq<char>, DiffEntry>, Halt>(h),
    ensures
        gone_listing(es, b, prefix, acc) == Err::<Map<Seq<char>, DiffEntry>, Halt>(h),
    decreases b - a,
{
    if a < b {
        lemma_gone_listing_halts(es, a, (b - 1) as nat, prefix, acc, h);
    }
}

/// Records a deleted entry.
fn mark_deleted_entry(entry: &TreeEntry, prefix: &str, result: &mut PathMap<DiffEntry>) -> (r:
    Result<(), Halt>)
    requires
        old(result).wf(),
    ensures
        final(result).wf(),
        match r {
            Ok(()) => gone_entry(*entry, prefix@, old(result)@) == Ok::<
                Map<Seq<char>, DiffEntry>,
                Halt,
            >(final(result)@),
            Err(h) => gone_entry(*entry, prefix@, old(result)@) == Err::<
                Map<Seq<char>, DiffEntry>,
                Halt,
            >(h),
        },
    decreases entry,
{
    let path = join_path(prefix, entry.name().as_str());
    match entry {
        TreeEntry::Tree { node, .. } => mark_deleted_tree(node, path.as_str(), result),
        _ => {
            result.insert(path, DiffEntry::Deleted);
            Ok(())
        },
    }
}

/// Records every file and symlink of a deleted tree under `prefix`.
#[verifier::loop_isolation(false)]
pub fn mark_deleted_tree(node: &TreeNode, prefix: &str, result: &mut PathMap<DiffEntry>) -> (r:
    Result<(), Halt>)
    requires
        old(result).wf(),
    ensures
        final(result).wf(),
        match r {
            Ok(()) => gone_tree(*node, prefix@, old(result)@) == Ok::<
                Map<Seq<char>, DiffEntry>,
                Halt,
            >(final(result)@),
            Err(h) => gone_tree(*node, prefix@, old(result)@) == Err::<
                Map<Seq<char>, DiffEntry>,
                Halt,
            >(h),
        },
    decreases node,
{
    let es = match node.entries() {
        Ok(es) => es,
        Err(h) => {
            return Err(h);
        },
    };
    let ghost acc = result@;
    let mut i: usize = 0;
    while i < es.len()
        invariant
            node.content == Content::Entries(*es),
            i <= es@.len(),
            result.wf(),
            gone_listing(es@, i as nat, prefix@, acc) == Ok::<Map<Seq<char>, DiffEntry>, Halt>(
                result@,
            ),
            gone_tree(*node, prefix@, acc) == gone_listing(es@, es@.len(), prefix@, acc),
        decreases es.len() - i,
    {
        match mark_deleted_entry(&es[i], prefix, result) {
            Ok(()) => {},
            Err(h) => {
                proof {
                    lemma_gone_listing_halts(es@, (i + 1) as nat, es@.len(), prefix@, acc, h);
                }
                return Err(h);
            },
        }
        i = i + 1;
    }
    Ok(())
}

/// Computes how `target` differs from `base`, by path relative to the two. An
/// absent target has no difference.
///
/// When `stub_threshold > 0`, newly-added directories whose size is at or above
/// the threshold are reported as one [`DiffEntry::AddedTree`].
pub fn diff_trees(base: Option<&TreeNode>, target: Option<&TreeNode>, stub_threshold: u64) -> (r:
    Result<PathMap<DiffEntry>, Halt>)
    ensures
        match r {
            Ok(m) => m.wf() && diff_spec(deref_base(base), deref_base(target), stub_threshold)
                == Ok::<Map<Seq<char>, DiffEntry>, Halt>(m@),
            Err(h) => diff_spec(deref_base(base), deref_base(target), stub_threshold) == Err::<
                Map<Seq<char>, DiffEntry>,
                Halt,
            >(h),
        },
{
    let mut result: PathMap<DiffEntry> = PathMap::new();
    if let Some(t) = target {
        match diff_recursive(base, t, "", &mut result, stub_threshold, false) {
            Ok(()) => {},
            Err(h) => {
                return Err(h);
            },
        }
    }
    Ok(result)
}

/// How `target` differs from `base`, by path.
pub open spec fn diff_spec(base: Option<TreeNode>, target: Option<TreeNode>, threshold: u64) -> Result<
    Map<Seq<char>, DiffEntry>,
    Halt,
> {
    match target {
        Some(t) => diff_tree(base, t, ""@, Map::empty(), threshold, false),
        None => Ok(Map::empty()),
    }
}

// ---------------------------------------------------------------------------
// Labels and copies
// ---------------------------------------------------------------------------

impl DiffEntry {
    pub open spec fn label_text(self) -> Seq<char> {
        match self {
            DiffEntry::Added { .. } => "added"@,
            DiffEntry::Modified { .. } => "modified"@,
            DiffEntry::Deleted => "deleted"@,
            DiffEntry::AddedEmptyDir => "added"@,
            DiffEntry::AddedTree { .. } => "added"@,
            DiffEntry::Symlink { was_present, .. } => if was_present {
                "modified"@
            } else {
                "added"@
            },
        }
    }

    /// How the change is called.
    pub fn label(&self) -> (r: &'static str)
        ensures
            r@ == self.label_text(),
    {
        match self {
            DiffEntry::Added { .. } => "added",
            DiffEntry::Modified { .. } => "modified",
            DiffEntry::Deleted => "deleted",
            DiffEntry::AddedEmptyDir => "added",
            DiffEntry::AddedTree { .. } => "added",
            DiffEntry::Symlink { was_present, .. } => if *was_present {
                "modified"
            } else {
                "added"
            },
        }
    }

    /// A copy of the change.
    pub fn copy(&self) -> (r: DiffEntry)
        ensures
            r == *self,
    {
        match self {
            DiffEntry::Added { hash, size, mtime, mode } => DiffEntry::Added {
                hash: *hash,
                size: *size,
                mtime: *mtime,
                mode: opt_copy(mode),
            },
            DiffEntry::Modified { hash, size, mtime, mode } => DiffEntry::Modified {
                hash: *hash,
                size: *size,
                mtime: *mtime,
                mode: opt_copy(mode),
            },
            DiffEntry::Deleted => DiffEntry::Deleted,
            DiffEntry::AddedEmptyDir => DiffEntry::AddedEmptyDir,
            DiffEntry::AddedTree { hash, size, mtime, blob_count } => DiffEntry::AddedTree {
                hash: *hash,
                size: *size,
                mtime: *mtime,
                blob_count: *blob_count,
            },
            DiffEntry::Symlink { target, mtime, was_present } => DiffEntry::Symlink {
                target: target.clone(),
                mtime: *mtime,
                was_present: *was_present,
            },
        }
    }
}

/// The colors of a change.
#[derive(Clone, Copy, Debug, PartialEq, Eq, Structural)]
pub enum LabelStyle {
    Added,
    Modified,
    Deleted,
    Meta,
}

/// The color in which a label is shown.
pub open spec fn style_of(label: Seq<char>) -> LabelStyle {
    if label == "added"@ {
        LabelStyle::Added
    } else if label == "modified"@ {
        LabelStyle::Modified
    } else if label == "deleted"@ {
        LabelStyle::Deleted
    } else {
        LabelStyle::Meta
    }
}

/// The color in which a label is shown.
pub fn label_style(label: &str) -> (r: LabelStyle)
    ensures
        r == style_of(label@),
{
    if str_eq(label, "added") {
        LabelStyle::Added
    } else if str_eq(label, "modified") {
        LabelStyle::Modified
    } else if str_eq(label, "deleted") {
        LabelStyle::Deleted
    } else {
        LabelStyle::Meta
    }
}

/// The line about one change; `label` is the label as it is shown, colored or not.
pub fn paint_diff_entry(label: &str, path: &str) -> (r: String)
    ensures
        r@ == label@ + ": "@ + path@,
{
    concat3(label, ": ", path)
}

// ---------------------------------------------------------------------------
// Conflicts
// ---------------------------------------------------------------------------

/// The content that a change brings in as a file.
pub open spec fn new_content(e: DiffEntry) -> Option<ObjectHash> {
    match e {
        DiffEntry::Added { hash, .. } => Some(hash),
        DiffEntry::Modified { hash, .. } => Some(hash),
        _ => None,
    }
}

/// Whether two changes lead to the same content.
pub open spec fn same_outcome(a: DiffEntry, b: DiffEntry) -> bool {
    ||| new_content(a) is Some && new_content(a) == new_content(b)
    ||| a is Deleted && b is Deleted
    ||| a is AddedEmptyDir && b is AddedEmptyDir
    ||| a is Symlink && b is Symlink && a->target@ == b->target@
}

/// Whether two changes lead to the same content.
pub fn same_content(a: &DiffEntry, b: &DiffEntry) -> (r: bool)
    ensures
        r == same_outcome(*a, *b),
{
    match (a, b) {
        (DiffEntry::Added { hash: x, .. }, DiffEntry::Added { hash: y, .. }) => *x == *y,
        (DiffEntry::Added { hash: x, .. }, DiffEntry::Modified { hash: y, .. }) => *x == *y,
        (DiffEntry::Modified { hash: x, .. }, DiffEntry::Added { hash: y, .. }) => *x == *y,
        (DiffEntry::Modified { hash: x, .. }, DiffEntry::Modified { hash: y, .. }) => *x == *y,
        (DiffEntry::Deleted, DiffEntry::Deleted) => true,
        (DiffEntry::AddedEmptyDir, DiffEntry::AddedEmptyDir) => true,
        (DiffEntry::Symlink { target: x, .. }, DiffEntry::Symlink { target: y, .. }) => *x == *y,
        _ => false,
    }
}

/// Whether a path was changed on both sides, to different content.
pub open spec fn conflicting(
    remote: Map<Seq<char>, DiffEntry>,
    local: Map<Seq<char>, DiffEntry>,
    path: Seq<char>,
) -> bool {
    remote.dom().contains(path) && local.dom().contains(path) && !same_outcome(
        remote[path],
        local[path],
    )
}

/// The remote changes that do not conflict with local ones.
pub open spec fn clean_part(
    remote: Map<Seq<char>, DiffEntry>,
    local: Map<Seq<char>, DiffEntry>,
) -> Map<Seq<char>, DiffEntry> {
    remote.restrict(
        Set::new(|p: Seq<char>| remote.dom().contains(p) && !conflicting(remote, local, p)),
    )
}

/// The paths that conflict.
pub open spec fn conflict_set(
    remote: Map<Seq<char>, DiffEntry>,
    local: Map<Seq<char>, DiffEntry>,
) -> Set<Seq<char>> {
    Set::new(|p: Seq<char>| conflicting(remote, local, p))
}

/// Splits the remote changes into those that can be applied and the paths that
/// conflict, in order. A path changed to the same content on both sides is no
/// conflict: the remote change, with its metadata, is applied.
pub fn classify_conflicts(remote_diff: &PathMap<DiffEntry>, local_diff: &PathMap<DiffEntry>) -> (r:
    (PathMap<DiffEntry>, Vec<String>))
    requires
        remote_diff.wf(),
        local_diff.wf(),
    ensures
        r.0.wf(),
        r.0@ == clean_part(remote_diff@, local_diff@),
        text::views(r.1@) == collections::listing(conflict_set(remote_diff@, local_diff@)),
        collections::is_listing(text::views(r.1@), conflict_set(remote_diff@, local_diff@)),
{
    let mut clean: PathMap<DiffEntry> = PathMap::new();
    let mut conflicts = PathSet::new();
    let n: usize = remote_diff.len();
    let ghost items = remote_diff.items();
    let ghost remote = remote_diff@;
    let ghost local = local_diff@;
    proof {
        remote_diff.lemma_items();
    }
    let mut i: usize = 0;
    while i < n
        invariant
            remote_diff.wf(),
            local_diff.wf(),
            clean.wf(),
            conflicts.wf(),
            items == remote_diff.items(),
            n == items.len(),
            i <= n,
            remote == remote_diff@,
            local == local_diff@,
            forall|k: int|
                0 <= k < items.len() ==> remote.dom().contains((#[trigger] items[k]).0@)
                    && remote[items[k].0@] == items[k].1,
            forall|p: Seq<char>|
                clean@.dom().contains(p) <==> !conflicting(remote, local, p) && collections::keyed(
                    items,
                    i as int,
                    p,
                ),
            forall|p: Seq<char>| clean@.dom().contains(p) ==> clean@[p] == remote[p],
            forall|p: Seq<char>|
                conflicts@.contains(p) <==> conflicting(remote, local, p) && collections::keyed(
                    items,
                    i as int,
                    p,
                ),
        decreases n - i,
    {
        let path = remote_diff.key(i);
        let change = remote_diff.value(i);
        let clash = match local_diff.get(path.as_str()) {
            Some(mine) => !same_content(change, mine),
            None => false,
        };
        assert(items[i as int].0@ == path@);
        assert(clash == conflicting(remote, local, path@));
        let ghost clean0 = clean@;
        let ghost conf0 = conflicts@;
        if clash {
            conflicts.insert(path.clone());
        } else {
            clean.insert(path.clone(), change.copy());
        }
        proof {
            assert forall|p: Seq<char>| #[trigger] collections::keyed(items, i + 1, p) <==> (p == path@ || collections::keyed(
                items,
                i as int,
                p,
            )) by {
                if collections::keyed(items, i as int, p) {
                    let k = choose|k: int| 0 <= k < i && (#[trigger] items[k]).0@ == p;
                    assert(items[k].0@ == p && 0 <= k < i + 1);
                }
            }
        }
        i = i + 1;
    }
    proof {
        remote_diff.lemma_items();
        assert(clean@ =~= clean_part(remote, local));
        assert(conflicts@ =~= conflict_set(remote, local));
    }
    (clean, conflicts.sorted())
}

/// Every remote change is either applied or a conflict, never both, and what is
/// applied is the remote change itself.
pub proof fn law_conflicts_partition(
    remote: Map<Seq<char>, DiffEntry>,
    local: Map<Seq<char>, DiffEntry>,
    path: Seq<char>,
)
    ensures
        remote.dom().contains(path) <==> (clean_part(remote, local).dom().contains(path)
            || conflict_set(remote, local).contains(path)),
        !(clean_part(remote, local).dom().contains(path) && conflict_set(remote, local).contains(
            path,
        )),
        clean_part(remote, local).dom().contains(path) ==> clean_part(remote, local)[path]
            == remote[path],
{
}

/// Without conflicts every remote change is applied.
pub proof fn law_no_conflict_applies_all(
    remote: Map<Seq<char>, DiffEntry>,
    local: Map<Seq<char>, DiffEntry>,
)
    requires
        conflict_set(remote, local) == Set::<Seq<char>>::empty(),
    ensures
        clean_part(remote, local) == remote,
{
    assert forall|p: Seq<char>| !conflicting(remote, local, p) by {
        assert(!conflict_set(remote, local).contains(p));
    }
    assert(clean_part(remote, local) =~= remote);
}

/// Conflicts are mutual: a path conflicts whichever side is called remote.
pub proof fn law_conflict_symmetric(
    a: Map<Seq<char>, DiffEntry>,
    b: Map<Seq<char>, DiffEntry>,
    path: Seq<char>,
)
    ensures
        conflicting(a, b, path) == conflicting(b, a, path),
{
}

/// A working tree without local changes never conflicts.
pub proof fn law_clean_tree_never_conflicts(remote: Map<Seq<char>, DiffEntry>)
    ensures
        conflict_set(remote, Map::empty()) == Set::<Seq<char>>::empty(),
{
    assert(conflict_set(remote, Map::empty()) =~= Set::<Seq<char>>::empty());
}

// ---------------------------------------------------------------------------
// Conflict helper files
// ---------------------------------------------------------------------------

/// The metadata of the two sides of a conflict that can be restored later: that
/// of a file in the base tree, and that of an added or modified remote file.
pub open spec fn meta_of(base: Option<TreeEntry>, remote: Option<DiffEntry>) -> ConflictMeta {
    ConflictMeta {
        base: match base {
            Some(TreeEntry::Blob { mtime, mode, .. }) => Some(SideMeta { mtime, mode }),
            _ => None,
        },
        remote: match remote {
            Some(DiffEntry::Added { mtime, mode, .. }) => Some(SideMeta { mtime, mode }),
            Some(DiffEntry::Modified { mtime, mode, .. }) => Some(SideMeta { mtime, mode }),
            _ => None,
        },
    }
}

/// The value behind an optional reference.
pub open spec fn deref_entry(e: Option<&TreeEntry>) -> Option<TreeEntry> {
    match e {
        Some(x) => Some(*x),
        None => None,
    }
}

/// The value behind an optional reference.
pub open spec fn deref_change(e: Option<&DiffEntry>) -> Option<DiffEntry> {
    match e {
        Some(x) => Some(*x),
        None => None,
    }
}

/// The metadata sidecar of one conflicting path.
pub fn build_conflict_meta(base_entry: Option<&TreeEntry>, remote_entry: Option<&DiffEntry>) -> (r:
    ConflictMeta)
    ensures
        r == meta_of(deref_entry(base_entry), deref_change(remote_entry)),
{
    let base = match base_entry {
        Some(TreeEntry::Blob { mtime, mode, .. }) => Some(
            SideMeta { mtime: *mtime, mode: opt_copy(mode) },
        ),
        _ => None,
    };
    let remote = match remote_entry {
        Some(DiffEntry::Added { mtime, mode, .. }) => Some(
            SideMeta { mtime: *mtime, mode: opt_copy(mode) },
        ),
        Some(DiffEntry::Modified { mtime, mode, .. }) => Some(
            SideMeta { mtime: *mtime, mode: opt_copy(mode) },
        ),
        _ => None,
    };
    ConflictMeta { base, remote }
}

/// The file content that a remote change brings, to be kept as a helper file.
pub fn entry_source(entry: &DiffEntry) -> (r: Option<ObjectHash>)
    ensures
        r == new_content(*entry),
{
    match entry {
        DiffEntry::Added { hash, .. } => Some(*hash),
        DiffEntry::Modified { hash, .. } => Some(*hash),
        _ => None,
    }
}

/// The content of the base side at `path`: what the base tree has there, if there
/// is a base tree.
pub fn base_root_source(base_root: Option<&TreeNode>, path: &str) -> (r: Result<
    Option<ObjectHash>,
    Halt,
>)
    ensures
        r == match base_root {
            None => Ok(None),
            Some(node) => object::hash_at(*node, text::components(path@)),
        },
{
    match base_root {
        None => Ok(None),
        Some(node) => {
            let comps = path_components(path);
            navigate(node, &comps)
        },
    }
}

/// The helper files of one conflicting path: the content of each side that has
/// one, and the metadata sidecar.
pub struct ConflictFiles {
    pub base: Option<ObjectHash>,
    /// Whether the working-tree file is copied.
    pub local: bool,
    pub remote: Option<ObjectHash>,
    pub meta: ConflictMeta,
}

/// The entry of the base tree at a path.
pub open spec fn base_entry_at(base_root: Option<TreeNode>, path: Seq<char>) -> Result<
    Option<TreeEntry>,
    Halt,
> {
    match base_root {
        None => Ok(None),
        Some(node) => object::entry_at(node, text::components(path), 0),
    }
}

/// Determines the helper files of one conflicting path. `local_is_file` tells
/// whether a regular file stands there in the working tree.
pub fn write_conflict_for_path(
    path: &str,
    base_root: Option<&TreeNode>,
    remote_diff: &PathMap<DiffEntry>,
    local_is_file: bool,
) -> (r: Result<ConflictFiles, Halt>)
    requires
        remote_diff.wf(),
        text::components(path@).len() > 0,
    ensures
        ({
            let entry = base_entry_at(deref_base(base_root), path@);
            let remote = if remote_diff@.dom().contains(path@) {
                Some(remote_diff@[path@])
            } else {
                None
            };
            match r {
                Err(h) => entry == Err::<Option<TreeEntry>, Halt>(h),
                Ok(f) => {
                    &&& entry is Ok
                    &&& f.base == match entry->Ok_0 {
                        Some(e) => e.hash_of(),
                        None => None,
                    }
                    &&& f.local == local_is_file
                    &&& f.remote == match remote {
                        Some(e) => new_content(e),
                        None => None,
                    }
                    &&& f.meta == meta_of(entry->Ok_0, remote)
                },
            }
        }),
{
    let base = match base_root_source(base_root, path) {
        Ok(b) => b,
        Err(h) => {
            return Err(h);
        },
    };
    let change = remote_diff.get(path);
    let remote = match change {
        Some(e) => entry_source(e),
        None => None,
    };
    let entry = match base_root {
        None => None,
        Some(node) => {
            let comps = path_components(path);
            match navigate_entry(node, &comps, 0) {
                Ok(e) => e,
                Err(h) => {
                    return Err(h);
                },
            }
        },
    };
    let meta = build_conflict_meta(entry, change);
    Ok(ConflictFiles { base, local: local_is_file, remote, meta })
}

// ---------------------------------------------------------------------------
// Full pull
// ---------------------------------------------------------------------------

/// What the two sync anchors say before anything is compared.
#[derive(Clone, Copy, Debug, PartialEq, Eq, Structural)]
pub enum PullStart {
    UpToDate,
    /// Compare with this remote root.
    Compare(ObjectHash),
}

/// Decides from the sync anchors whether there is anything to compare.
/// `remote_root` is what the remote's index root points to.
pub fn pull_start(
    clone_root: Option<ObjectHash>,
    index_root_present: bool,
    remote_root: Option<ObjectHash>,
    empty_tree: ObjectHash,
) -> (r: Result<PullStart, Error>)
    ensures
        r is Err <==> !crate::commands::push::sync_allowed(clone_root, index_root_present, empty_tree),
        r matches Err(e) ==> (e matches Error::Other(m) && m@ == GUARD_MESSAGE@),
        r matches Ok(s) ==> s == match remote_root {
            None => PullStart::UpToDate,
            Some(h) => if clone_root == Some(h) {
                PullStart::UpToDate
            } else {
                PullStart::Compare(h)
            },
        },
{
    match post_clone_sync_guard(clone_root, index_root_present, empty_tree) {
        Ok(()) => {},
        Err(e) => {
            return Err(e);
        },
    }
    match remote_root {
        None => Ok(PullStart::UpToDate),
        Some(h) => {
            let same = match clone_root {
                Some(c) => c == h,
                None => false,
            };
            if same {
                Ok(PullStart::UpToDate)
            } else {
                Ok(PullStart::Compare(h))
            }
        },
    }
}

/// One changed path, as it is listed.
pub struct ChangeLine {
    pub label: &'static str,
    pub path: String,
}

/// The listing of a diff: the label and the path of each change, in order.
pub open spec fn change_lines(diff: Map<Seq<char>, DiffEntry>) -> Seq<(Seq<char>, Seq<char>)> {
    let ps = collections::listing(diff.dom());
    Seq::new(ps.len(), |i: int| (diff[ps[i]].label_text(), ps[i]))
}

/// What a list of changed paths says.
pub open spec fn change_views(lines: Seq<ChangeLine>) -> Seq<(Seq<char>, Seq<char>)> {
    Seq::new(lines.len(), |i: int| (lines[i].label@, lines[i].path@))
}

/// Appends the listing of a diff.
pub fn list_changes(diff: &PathMap<DiffEntry>, out: &mut Vec<ChangeLine>)
    requires
        diff.wf(),
    ensures
        change_views(final(out)@) == change_views(old(out)@) + change_lines(diff@),
{
    let paths = diff.sorted_keys();
    let ghost before = change_views(out@);
    let ghost ps = collections::listing(diff@.dom());
    let ghost all = change_lines(diff@);
    assert(paths@.len() == text::views(paths@).len());
    let mut i: usize = 0;
    assert(change_views(out@) =~= before + all.take(0));
    while i < paths.len()
        invariant
            diff.wf(),
            i <= paths@.len(),
            ps == collections::listing(diff@.dom()),
            ps == text::views(paths@),
            collections::is_listing(ps, diff@.dom()),
            all == change_lines(diff@),
            change_views(out@) == before + all.take(i as int),
        decreases paths.len() - i,
    {
        assert(ps[i as int] == paths@[i as int]@);
        assert(ps.contains(ps[i as int]));
        match diff.get(paths[i].as_str()) {
            Some(change) => {
                let ghost prev = out@;
                out.push(ChangeLine { label: change.label(), path: paths[i].clone() });
                assert(change_views(out@) =~= change_views(prev).push(all[i as int]));
                assert(all.take(i + 1) =~= all.take(i as int).push(all[i as int]));
                assert(change_views(out@) =~= before + all.take(i + 1));
            },
            None => {
                assert(false);
            },
        }
        i = i + 1;
    }
    assert(all.take(i as int) =~= all);
}

/// What a pull does, once both diffs are known.
pub enum PullPlan {
    /// Nothing changed for the working tree; the clone root moves to the remote root.
    UpToDate,
    /// A dry run: the changes are listed and nothing else happens.
    Listing(Vec<ChangeLine>),
    /// There are conflicts: helper files are written for these paths, and nothing
    /// is applied.
    Conflicts(Vec<String>),
    /// The changes to apply; the clone root then moves to the remote root.
    Apply(PathMap<DiffEntry>),
}

/// Decides what a pull of the whole tree does. If any path conflicts, nothing is
/// applied; without conflicts every remote change is.
pub fn pull_full(
    remote_diff: &PathMap<DiffEntry>,
    local_diff: &PathMap<DiffEntry>,
    dry_run: bool,
) -> (r: PullPlan)
    requires
        remote_diff.wf(),
        local_diff.wf(),
    ensures
        r is UpToDate <==> remote_diff@ == Map::<Seq<char>, DiffEntry>::empty(),
        r is Listing <==> remote_diff@ != Map::<Seq<char>, DiffEntry>::empty() && dry_run,
        r is Conflicts <==> remote_diff@ != Map::<Seq<char>, DiffEntry>::empty() && !dry_run
            && conflict_set(remote_diff@, local_diff@) != Set::<Seq<char>>::empty(),
        r matches PullPlan::Listing(lines) ==> change_views(lines@) == change_lines(remote_diff@),
        r matches PullPlan::Conflicts(paths) ==> text::views(paths@) == collections::listing(
            conflict_set(remote_diff@, local_diff@),
        ),
        r matches PullPlan::Apply(m) ==> m.wf() && m@ == remote_diff@,
{
    if remote_diff.is_empty() {
        return PullPlan::UpToDate;
    }
    if dry_run {
        let mut lines: Vec<ChangeLine> = Vec::new();
        list_changes(remote_diff, &mut lines);
        assert(change_views(lines@) =~= change_lines(remote_diff@));
        return PullPlan::Listing(lines);
    }
    let (clean, conflicts) = classify_conflicts(remote_diff, local_diff);
    let ghost set = conflict_set(remote_diff@, local_diff@);
    if conflicts.len() > 0 {
        assert(text::views(conflicts@).contains(conflicts@[0]@)) by {
            assert(text::views(conflicts@)[0] == conflicts@[0]@);
        }
        assert(set.contains(conflicts@[0]@));
        PullPlan::Conflicts(conflicts)
    } else {
        proof {
            assert forall|p: Seq<char>| !set.contains(p) by {
                if set.contains(p) {
                    assert(text::views(conflicts@).contains(p));
                }
            }
            assert(set =~= Set::<Seq<char>>::empty());
            law_no_conflict_applies_all(remote_diff@, local_diff@);
        }
        PullPlan::Apply(clean)
    }
}

/// What a pull of the whole tree reports once the changes are applied.
pub struct PullReport {
    pub header: String,
    pub changes: Vec<ChangeLine>,
    pub updated: String,
    /// Paths with local changes that the pull left alone.
    pub preserved: Vec<String>,
}

/// The paths that were changed locally and not on the remote.
pub open spec fn preserved_set(
    remote: Map<Seq<char>, DiffEntry>,
    local: Map<Seq<char>, DiffEntry>,
) -> Set<Seq<char>> {
    local.dom().difference(remote.dom())
}

fn preserved_paths(remote_diff: &PathMap<DiffEntry>, local_diff: &PathMap<DiffEntry>) -> (r: Vec<
    String,
>)
    requires
        remote_diff.wf(),
        local_diff.wf(),
    ensures
        text::views(r@) == collections::listing(preserved_set(remote_diff@, local_diff@)),
{
    let mut kept = PathSet::new();
    let n: usize = local_diff.len();
    let ghost items = local_diff.items();
    let mut i: usize = 0;
    while i < n
        invariant
            remote_diff.wf(),
            kept.wf(),
            items == local_diff.items(),
            n == items.len(),
            i <= n,
            forall|p: Seq<char>|
                #[trigger] kept@.contains(p) <==> collections::keyed(items, i as int, p)
                    && !remote_diff@.dom().contains(p),
        decreases n - i,
    {
        let path = local_diff.key(i);
        assert(items[i as int].0@ == path@);
        if !remote_diff.contains_key(path.as_str()) {
            kept.insert(path.clone());
        }
        proof {
            assert forall|p: Seq<char>| #[trigger] collections::keyed(items, i + 1, p) <==> (p == path@ || collections::keyed(
                items,
                i as int,
                p,
            )) by {
                if collections::keyed(items, i as int, p) {
                    let k = choose|k: int| 0 <= k < i && (#[trigger] items[k]).0@ == p;
                    assert(items[k].0@ == p && 0 <= k < i + 1);
                }
            }
        }
        i = i + 1;
    }
    proof {
        local_diff.lemma_items();
        assert(kept@ =~= preserved_set(remote_diff@, local_diff@));
    }
    kept.sorted()
}

/// The report of a pull of the whole tree; `changed` paths were updated.
pub fn pull_report(
    remote_name: &str,
    remote_diff: &PathMap<DiffEntry>,
    local_diff: &PathMap<DiffEntry>,
    changed: usize,
) -> (r: PullReport)
    requires
        remote_diff.wf(),
        local_diff.wf(),
    ensures
        r.header@ == "Pulling from "@ + remote_name@ + " ..."@,
        change_views(r.changes@) == change_lines(remote_diff@),
        r.updated@ == text::decimal(changed as nat) + " path(s) updated."@,
        text::views(r.preserved@) == collections::listing(preserved_set(remote_diff@, local_diff@)),
{
    let mut changes: Vec<ChangeLine> = Vec::new();
    list_changes(remote_diff, &mut changes);
    assert(change_views(changes@) =~= change_lines(remote_diff@));
    PullReport {
        header: concat3("Pulling from ", remote_name, " ..."),
        changes,
        updated: concat(decimal_of(changed as u64).as_str(), " path(s) updated."),
        preserved: preserved_paths(remote_diff, local_diff),
    }
}

// ---------------------------------------------------------------------------
// Path-scoped pull
// ---------------------------------------------------------------------------

/// The paths that a pull without arguments works on: the current directory.
pub struct PullOptions {
    pub work_dir: String,
    pub current_dir: String,
    pub paths: Vec<String>,
    pub dry_run: bool,
    pub stub_threshold: u64,
}

/// The paths that a command works on: those given, or the current directory.
pub open spec fn requested(paths: Seq<Seq<char>>, current_dir: Seq<char>) -> Seq<Seq<char>> {
    if paths.len() == 0 {
        seq![current_dir]
    } else {
        paths
    }
}

/// The paths that a command works on: those given, or the current directory.
pub fn requested_paths(paths: &Vec<String>, current_dir: &String) -> (r: Vec<String>)
    ensures
        text::views(r@) == requested(text::views(paths@), current_dir@),
{
    assert(text::views(paths@).len() == paths@.len());
    if paths.len() == 0 {
        let mut v: Vec<String> = Vec::new();
        v.push(current_dir.clone());
        assert(text::views(v@) =~= seq![current_dir@]);
        v
    } else {
        copy_strings(paths)
    }
}

/// What `pull` works on: the paths to normalise against the current directory.
pub fn run(opts: &PullOptions) -> (r: Vec<String>)
    ensures
        text::views(r@) == requested(text::views(opts.paths@), opts.current_dir@),
{
    requested_paths(&opts.paths, &opts.current_dir)
}

/// Whether the I/O of a command is recorded: it succeeded and was no dry run.
pub fn records_io(succeeded: bool, dry_run: bool) -> (r: bool)
    ensures
        r == (succeeded && !dry_run),
{
    succeeded && !dry_run
}

/// What a set of normalised paths asks for: the whole tree if one of them is the
/// root, else the paths, none of which lies within another.
pub enum Scope {
    Whole,
    Paths(Vec<String>),
}

/// Determines the scope of a command from its normalised paths.
pub fn scope_of(rels: Vec<String>) -> (r: Scope)
    ensures
        r is Whole <==> exists|i: int| 0 <= i < rels@.len() && (#[trigger] rels@[i])@.len() == 0,
        r matches Scope::Paths(ps) ==> text::views(ps@) == crate::commands::push::outermost(text::views(rels@)),
{
    let mut i: usize = 0;
    while i < rels.len()
        invariant
            i <= rels@.len(),
            forall|k: int| 0 <= k < i ==> (#[trigger] rels@[k])@.len() > 0,
        decreases rels.len() - i,
    {
        if rels[i].as_str().is_empty() {
            assert(rels@[i as int]@.len() == 0);
            return Scope::Whole;
        }
        i = i + 1;
    }
    Scope::Paths(deduplicate_paths(rels))
}

/// The hash of an optional tree.
pub open spec fn root_hash(node: Option<TreeNode>) -> Option<ObjectHash> {
    match node {
        Some(n) => Some(n.hash),
        None => None,
    }
}

/// What changed on the remote below one path, relative to that path. A newly
/// added directory without anything in it is a change of the path itself.
pub open spec fn scoped_diff(clone: Option<TreeNode>, remote: Option<TreeNode>, threshold: u64) -> Result<
    Map<Seq<char>, DiffEntry>,
    Halt,
> {
    if root_hash(clone) == root_hash(remote) {
        Ok(Map::empty())
    } else {
        match remote {
            Some(t) => match diff_tree(clone, t, ""@, Map::empty(), threshold, false) {
                Err(h) => Err(h),
                Ok(m) => if m == Map::<Seq<char>, DiffEntry>::empty() && clone is None {
                    Ok(m.insert(""@, DiffEntry::AddedEmptyDir))
                } else {
                    Ok(m)
                },
            },
            None => match clone {
                Some(c) => gone_tree(c, ""@, Map::empty()),
                None => Ok(Map::empty()),
            },
        }
    }
}

/// What changed on the remote below one path. Nothing is read where the hashes
/// are equal.
pub fn scoped_change(clone: Option<&TreeNode>, remote: Option<&TreeNode>, stub_threshold: u64) -> (r:
    Result<PathMap<DiffEntry>, Halt>)
    ensures
        match r {
            Ok(m) => m.wf() && scoped_diff(deref_base(clone), deref_base(remote), stub_threshold)
                == Ok::<Map<Seq<char>, DiffEntry>, Halt>(m@),
            Err(h) => scoped_diff(deref_base(clone), deref_base(remote), stub_threshold) == Err::<
                Map<Seq<char>, DiffEntry>,
                Halt,
            >(h),
        },
{
    let unchanged = match (clone, remote) {
        (Some(c), Some(t)) => c.hash == t.hash,
        (None, None) => true,
        _ => false,
    };
    let mut result: PathMap<DiffEntry> = PathMap::new();
    if unchanged {
        return Ok(result);
    }
    match remote {
        Some(t) => {
            match diff_recursive(clone, t, "", &mut result, stub_threshold, false) {
                Ok(()) => {},
                Err(h) => {
                    return Err(h);
                },
            }
            if result.is_empty() && clone.is_none() {
                result.insert("".to_owned(), DiffEntry::AddedEmptyDir);
            }
            Ok(result)
        },
        None => {
            if let Some(c) = clone {
                match mark_deleted_tree(c, "", &mut result) {
                    Ok(()) => {},
                    Err(h) => {
                        return Err(h);
                    },
                }
            }
            Ok(result)
        },
    }
}

/// The changes below one path of a scoped pull.
pub struct PathDiff {
    /// The path, relative to the repository root.
    pub rel: String,
    /// The remote changes, relative to the path.
    pub remote_diff: PathMap<DiffEntry>,
    /// The local changes, relative to the path.
    pub local_diff: PathMap<DiffEntry>,
    /// What the remote has at the path.
    pub remote_hash: Option<ObjectHash>,
}

impl PathDiff {
    pub open spec fn wf(self) -> bool {
        self.remote_diff.wf() && self.local_diff.wf()
    }

    pub open spec fn conflicts(self) -> Set<Seq<char>> {
        conflict_set(self.remote_diff@, self.local_diff@)
    }
}

/// A path in conflict.
pub struct OwnedConflict {
    /// The path, relative to the scope it was found in.
    pub path: String,
    /// The index of that scope.
    pub owner: usize,
}

/// What a scoped pull does, once the diffs of all paths are known.
pub enum ScopedPlan {
    UpToDate,
    Listing(Vec<ChangeLine>),
    /// There are conflicts: nothing is applied below any of the paths.
    Conflicts(Vec<OwnedConflict>),
    /// The remote changes below each path are applied.
    Apply,
}

/// The listing of the changes below the first `n` paths.
pub open spec fn scoped_lines(pds: Seq<PathDiff>, n: nat) -> Seq<(Seq<char>, Seq<char>)>
    decreases n,
{
    if n == 0 || n > pds.len() {
        seq![]
    } else {
        scoped_lines(pds, (n - 1) as nat) + change_lines(pds[n - 1].remote_diff@)
    }
}

/// A conflict: its path, and the index of the scope it was found in.
pub open spec fn owned_views(cs: Seq<OwnedConflict>) -> Seq<(Seq<char>, nat)> {
    cs.map_values(|c: OwnedConflict| (c.path@, c.owner as nat))
}

/// Whether a conflict comes before another: by path, and of two scopes with a conflict
/// at the same path the first.
pub open spec fn listed_before(a: (Seq<char>, nat), b: (Seq<char>, nat)) -> bool {
    collections::lex_le(a.0, b.0) && (a.0 == b.0 ==> a.1 < b.1)
}

pub open spec fn listed_in_order(cs: Seq<(Seq<char>, nat)>) -> bool {
    forall|i: int, j: int|
        0 <= i < j < cs.len() ==> listed_before(#[trigger] cs[i], #[trigger] cs[j])
}

/// Whether the `k`-th scope has a conflict at the path.
pub open spec fn conflict_of(pds: Seq<PathDiff>, path: Seq<char>, k: nat) -> bool {
    k < pds.len() && pds[k as int].conflicts().contains(path)
}

/// Whether no scope has a conflict.
pub open spec fn conflict_free(pds: Seq<PathDiff>) -> bool {
    forall|path: Seq<char>, k: nat| !#[trigger] conflict_of(pds, path, k)
}

/// Lists the changes below every path.
pub fn list_scoped(pds: &Vec<PathDiff>) -> (r: Vec<ChangeLine>)
    requires
        forall|i: int| 0 <= i < pds@.len() ==> (#[trigger] pds@[i]).wf(),
    ensures
        change_views(r@) == scoped_lines(pds@, pds@.len()),
{
    let mut lines: Vec<ChangeLine> = Vec::new();
    let mut i: usize = 0;
    assert(change_views(lines@) =~= scoped_lines(pds@, 0));
    while i < pds.len()
        invariant
            i <= pds@.len(),
            forall|k: int| 0 <= k < pds@.len() ==> (#[trigger] pds@[k]).wf(),
            change_views(lines@) == scoped_lines(pds@, i as nat),
        decreases pds.len() - i,
    {
        assert(pds@[i as int].wf());
        list_changes(&pds[i].remote_diff, &mut lines);
        i = i + 1;
    }
    lines
}

/// Decides what a pull of several paths does. If any path below any of them
/// conflicts, nothing is applied.
#[verifier::loop_isolation(false)]
pub fn pull_scoped(pds: &Vec<PathDiff>, dry_run: bool) -> (r: ScopedPlan)
    requires
        forall|i: int| 0 <= i < pds@.len() ==> (#[trigger] pds@[i]).wf(),
    ensures
        r is UpToDate <==> pds@.len() == 0,
        r is Listing <==> pds@.len() > 0 && dry_run,
        r is Apply <==> pds@.len() > 0 && !dry_run && conflict_free(pds@),
        r matches ScopedPlan::Listing(lines) ==> change_views(lines@) == scoped_lines(
            pds@,
            pds@.len(),
        ),
        r matches ScopedPlan::Conflicts(cs) ==> listed_in_order(owned_views(cs@)) && forall|
            path: Seq<char>,
            k: nat,
        | #[trigger]
            owned_views(cs@).contains((path, k)) <==> conflict_of(pds@, path, k),
{
    if pds.len() == 0 {
        return ScopedPlan::UpToDate;
    }
    if dry_run {
        return ScopedPlan::Listing(list_scoped(pds));
    }
    let mut out: Vec<OwnedConflict> = Vec::new();
    let mut i: usize = 0;
    while i < pds.len()
        invariant
            i <= pds@.len(),
            listed_in_order(owned_views(out@)),
            forall|path: Seq<char>, k: nat| #[trigger]
                owned_views(out@).contains((path, k)) <==> k < i && conflict_of(pds@, path, k),
        decreases pds.len() - i,
    {
        assert(pds@[i as int].wf());
        let (_clean, conflicts) = classify_conflicts(&pds[i].remote_diff, &pds[i].local_diff);
        let ghost own = text::views(conflicts@);
        let mut j: usize = 0;
        while j < conflicts.len()
            invariant
                j <= conflicts@.len(),
                own == text::views(conflicts@),
                own.no_duplicates(),
                listed_in_order(owned_views(out@)),
                forall|path: Seq<char>, k: nat| #[trigger]
                    owned_views(out@).contains((path, k)) <==> (k < i && conflict_of(
                        pds@,
                        path,
                        k,
                    )) || (k == i && own.take(j as int).contains(path)),
            decreases conflicts.len() - j,
        {
            let ghost path = own[j as int];
            proof {
                assert forall|p: Seq<char>| #[trigger] own.take(j + 1).contains(p) <==> own.take(
                    j as int,
                ).contains(p) || p == path by {
                    if own.take(j as int).contains(p) {
                        let shorter = own.take(j as int);
                        let x = choose|x: int| 0 <= x < shorter.len() && shorter[x] == p;
                        assert(own.take(j + 1)[x] == p);
                    }
                    if own.take(j + 1).contains(p) && p != path {
                        let longer = own.take(j + 1);
                        let x = choose|x: int| 0 <= x < longer.len() && longer[x] == p;
                        assert(own.take(j as int)[x] == p);
                    }
                    assert(own.take(j + 1)[j as int] == path);
                }
                assert(!own.take(j as int).contains(path));
            }
            list_conflict(&mut out, &conflicts[j], i);
            j = j + 1;
        }
        assert(own.take(j as int) =~= own);
        i = i + 1;
    }
    if out.len() == 0 {
        assert forall|path: Seq<char>, k: nat| !#[trigger] conflict_of(pds@, path, k) by {
            assert(!owned_views(out@).contains((path, k)));
        }
        return ScopedPlan::Apply;
    }
    proof {
        let (path, k) = owned_views(out@)[0];
        assert(owned_views(out@).contains((path, k)));
        assert(conflict_of(pds@, path, k));
    }
    ScopedPlan::Conflicts(out)
}

/// Puts a conflict of the `owner`-th scope in its place among those of the scopes
/// before it and of its own.
fn list_conflict(out: &mut Vec<OwnedConflict>, path: &String, owner: usize)
    requires
        listed_in_order(owned_views(old(out)@)),
        forall|k: nat| #[trigger]
            owned_views(old(out)@).contains((path@, k)) ==> k < owner,
    ensures
        listed_in_order(owned_views(final(out)@)),
        forall|x: (Seq<char>, nat)| #[trigger]
            owned_views(final(out)@).contains(x) <==> owned_views(old(out)@).contains(x) || x == (
                path@,
                owner as nat,
            ),
{
    let ghost s = owned_views(out@);
    let mut at: usize = out.len();
    while at > 0 && !text_le(out[at - 1].path.as_str(), path.as_str())
        invariant
            at <= out@.len(),
            *out == *old(out),
            s == owned_views(out@),
            forall|k: int| at <= k < s.len() ==> !collections::lex_le((#[trigger] s[k]).0, path@),
        decreases at,
    {
        assert(s[at - 1].0 == out@[at - 1].path@);
        at = at - 1;
    }
    let ghost x = (path@, owner as nat);
    out.insert(at, OwnedConflict { path: path.clone(), owner });
    proof {
        let t = s.insert(at as int, x);
        assert(owned_views(out@) =~= t);
        if at > 0 {
            assert(s[at - 1].0 == old(out)@[at - 1].path@);
        }
        assert forall|i: int, j: int| 0 <= i < j < t.len() implies listed_before(
            #[trigger] t[i],
            #[trigger] t[j],
        ) by {
            let a = if i < at {
                i
            } else {
                i - 1
            };
            let b = if j < at {
                j
            } else {
                j - 1
            };
            if i == at {
                assert(t[j] == s[b]);
                collections::lemma_lex_total(s[b].0, x.0);
            } else if j == at {
                assert(t[i] == s[a]);
                if a < at - 1 {
                    assert(listed_before(s[a], s[at - 1]));
                    collections::lemma_lex_transitive(s[a].0, s[at - 1].0, x.0);
                }
                if s[a].0 == x.0 {
                    assert(s.contains((x.0, s[a].1)));
                }
            } else {
                assert(t[i] == s[a] && t[j] == s[b]);
            }
        }
        assert forall|y: (Seq<char>, nat)| #[trigger] t.contains(y) <==> s.contains(y) || y
            == x by {
            if s.contains(y) {
                let i = choose|i: int| 0 <= i < s.len() && s[i] == y;
                assert(t[if i < at {
                    i
                } else {
                    i + 1
                }] == y);
            }
            if t.contains(y) && y != x {
                let i = choose|i: int| 0 <= i < t.len() && t[i] == y;
                assert(s[if i < at {
                    i
                } else {
                    i - 1
                }] == y);
            }
            assert(t[at as int] == x);
        }
    }
}

/// The first line of a scoped pull's report: the path is named if it is the only one.
pub fn scoped_header(remote_name: &str, pds: &Vec<PathDiff>) -> (r: String)
    ensures
        r@ == if pds@.len() == 1 {
            "Pulling "@ + pds@[0].rel@ + " from "@ + remote_name@ + " ..."@
        } else {
            "Pulling from "@ + remote_name@ + " ..."@
        },
{
    if pds.len() == 1 {
        let mut s = concat3("Pulling ", pds[0].rel.as_str(), " from ");
        s.append(remote_name);
        s.append(" ...");
        s
    } else {
        concat3("Pulling from ", remote_name, " ...")
    }
}

/// How the clone root changes after one path was pulled.
pub enum CloneRootEdit {
    /// Remove the path from this tree.
    Remove(ObjectHash),
    /// Put this entry at the path.
    Splice(TreeEntry),
}

/// Determines how the clone root changes after `components` was pulled. `size`,
/// `mtime` and `blob_count` describe the pulled tree `new_hash`.
pub fn splice_into_clone_root(
    base_root: Option<ObjectHash>,
    components: &Vec<String>,
    new_hash: Option<ObjectHash>,
    mtime: Option<Timestamp>,
    size: u64,
    blob_count: u64,
) -> (r: Result<CloneRootEdit, Error>)
    requires
        components@.len() > 0,
    ensures
        r is Err <==> new_hash is None && base_root is None,
        r matches Err(e) ==> (e matches Error::Other(m) && m@ == "no base root to remove from"@),
        r matches Ok(CloneRootEdit::Remove(h)) ==> new_hash is None && base_root == Some(h),
        r matches Ok(CloneRootEdit::Splice(e)) ==> new_hash is Some && (e matches TreeEntry::Tree {
            name,
            size: s,
            mtime: t,
            blob_count: b,
            node,
        } && name == components@.last() && s == size && t == mtime && b == blob_count
            && node.hash == new_hash->0 && node.content is Unread),
{
    match new_hash {
        None => match base_root {
            None => Err(Error::Other("no base root to remove from".to_owned())),
            Some(h) => Ok(CloneRootEdit::Remove(h)),
        },
        Some(h) => {
            let leaf = components[components.len() - 1].clone();
            Ok(
                CloneRootEdit::Splice(
                    TreeEntry::Tree {
                        name: leaf,
                        size,
                        mtime,
                        blob_count,
                        node: TreeNode { hash: h, content: Content::Unread },
                    },
                ),
            )
        },
    }
}

/// The clone root after a removal: it is an error if nothing was removed.
pub fn removed_root(result: Option<ObjectHash>) -> (r: Result<ObjectHash, Error>)
    ensures
        r is Ok <==> result is Some,
        r matches Ok(h) ==> result == Some(h),
        r matches Err(e) ==> (e matches Error::Other(m) && m@ == "entry not found in clone_root"@),
{
    match result {
        Some(h) => Ok(h),
        None => Err(Error::Other("entry not found in clone_root".to_owned())),
    }
}

// ---------------------------------------------------------------------------
// Applying changes
// ---------------------------------------------------------------------------

/// What is known of a path when a change is applied to it.
pub struct PathFacts {
    /// Whether anything stands at the path.
    pub exists: bool,
    /// Whether a file stub stands for the path.
    pub stub_exists: bool,
    /// Whether the file stub of the path would be visible to Git.
    pub stub_visible: bool,
    /// Whether the path has a child `.git`.
    pub has_git_child: bool,
    /// Whether the directory stub of the path would be visible to Git.
    pub dir_stub_visible: bool,
    /// Whether the object of the change is in the local cache.
    pub in_cache: bool,
}

/// One thing to do at a path.
pub enum Action {
    /// Write the file stub.
    WriteStub(StubRecord),
    /// Remove the file stub, where there is one.
    RemoveStub,
    /// Remove the file.
    RemoveFile,
    /// Write the file with this content and metadata, and remove its stub.
    Materialise { hash: ObjectHash, mtime: Option<Timestamp>, mode: Option<String> },
    /// Create the directory.
    CreateDir,
    /// Write the symlink in place of whatever stands there.
    WriteLink { target: String, mtime: Option<Timestamp> },
    /// Write the whole directory.
    MaterialiseTree(ObjectHash),
    /// Write the directory stub.
    WriteDirStub(StubRecord),
}

/// Whether an object is so large that a stub may stand for it.
pub open spec fn stubbable(size: u64, threshold: u64) -> bool {
    threshold > 0 && size >= threshold
}

/// Whether a directory must be written out: its stub would be visible to Git.
pub open spec fn no_dir_stub(facts: PathFacts) -> bool {
    facts.has_git_child || facts.dir_stub_visible
}

/// What a change does at its path.
pub open spec fn actions_of(change: DiffEntry, threshold: u64, facts: PathFacts) -> Seq<Action> {
    match change {
        DiffEntry::Added { hash, size, mtime, mode } => if stubbable(size, threshold)
            && !facts.stub_visible {
            let stub = Action::WriteStub(
                StubRecord {
                    target_type: StubTargetType::Blob,
                    hash,
                    size,
                    mtime,
                    mode,
                    blob_count: 0,
                },
            );
            if facts.exists {
                seq![stub, Action::RemoveFile]
            } else {
                seq![stub]
            }
        } else {
            seq![Action::Materialise { hash, mtime, mode }]
        },
        DiffEntry::Modified { hash, size, mtime, mode } => if facts.stub_exists && !facts.exists {
            seq![
                Action::WriteStub(
                    StubRecord {
                        target_type: StubTargetType::Blob,
                        hash,
                        size,
                        mtime,
                        mode,
                        blob_count: 0,
                    },
                ),
            ]
        } else {
            seq![Action::Materialise { hash, mtime, mode }]
        },
        DiffEntry::AddedEmptyDir => seq![Action::CreateDir],
        DiffEntry::Symlink { target, mtime, .. } => seq![
            Action::RemoveStub,
            Action::WriteLink { target, mtime },
        ],
        DiffEntry::Deleted => if facts.exists {
            seq![Action::RemoveFile, Action::RemoveStub]
        } else {
            seq![Action::RemoveStub]
        },
        DiffEntry::AddedTree { hash, size, mtime, blob_count } => if no_dir_stub(facts) {
            seq![Action::MaterialiseTree(hash)]
        } else {
            seq![
                Action::CreateDir,
                Action::WriteDirStub(
                    StubRecord {
                        target_type: StubTargetType::Tree,
                        hash,
                        size,
                        mtime,
                        mode: None,
                        blob_count,
                    },
                ),
            ]
        },
    }
}

/// Whether a change counts as an update: a deletion does so only where there was
/// a file.
pub open spec fn counts(change: DiffEntry, facts: PathFacts) -> bool {
    change is Deleted ==> facts.exists
}

/// The object that has to be fetched before a change is applied. An added file
/// that may be stubbed is fetched only when it is written.
pub open spec fn fetch_of(change: DiffEntry, threshold: u64, facts: PathFacts) -> Option<
    ObjectHash,
> {
    if facts.in_cache {
        None
    } else {
        match change {
            DiffEntry::Added { hash, size, .. } => if stubbable(size, threshold) {
                None
            } else {
                Some(hash)
            },
            DiffEntry::Modified { hash, .. } => if facts.stub_exists && !facts.exists {
                None
            } else {
                Some(hash)
            },
            DiffEntry::AddedTree { hash, .. } => if no_dir_stub(facts) {
                Some(hash)
            } else {
                None
            },
            _ => None,
        }
    }
}

/// The object that has to be fetched before a change is applied.
pub fn pending_fetch(change: &DiffEntry, stub_threshold: u64, facts: &PathFacts) -> (r: Option<
    ObjectHash,
>)
    ensures
        r == fetch_of(*change, stub_threshold, *facts),
{
    if facts.in_cache {
        return None;
    }
    match change {
        DiffEntry::Added { hash, size, .. } => if stub_threshold > 0 && *size >= stub_threshold {
            None
        } else {
            Some(*hash)
        },
        DiffEntry::Modified { hash, .. } => if facts.stub_exists && !facts.exists {
            None
        } else {
            Some(*hash)
        },
        DiffEntry::AddedTree { hash, .. } => if facts.has_git_child || facts.dir_stub_visible {
            Some(*hash)
        } else {
            None
        },
        _ => None,
    }
}

/// A stub is never written where Git would see it.
pub proof fn law_no_visible_stub(change: DiffEntry, threshold: u64, facts: PathFacts, i: int)
    requires
        0 <= i < actions_of(change, threshold, facts).len(),
        change is Added || change is AddedTree,
    ensures
        actions_of(change, threshold, facts)[i] is WriteStub ==> !facts.stub_visible,
        actions_of(change, threshold, facts)[i] is WriteDirStub ==> !facts.dir_stub_visible
            && !facts.has_git_child,
{
}

/// With threshold zero no file and no directory is stubbed anew.
pub proof fn law_threshold_zero_materialises(change: DiffEntry, facts: PathFacts, i: int)
    requires
        0 <= i < actions_of(change, 0, facts).len(),
        change is Added,
    ensures
        actions_of(change, 0, facts)[i] is Materialise,
{
}

/// What stands at a path: a file or symlink, and the stub of a file beside it.
pub struct Place {
    pub leaf: Option<leaves::Leaf>,
    pub stub: Option<StubRecord>,
}

impl Place {
    /// What the path holds: what stands there, or else what the stub stands for.
    pub open spec fn held(self) -> Option<leaves::Leaf> {
        match self.leaf {
            Some(l) => Some(l),
            None => match self.stub {
                Some(r) => Some(leaves::Leaf::File { hash: r.hash, mode: text::opt_view(r.mode) }),
                None => None,
            },
        }
    }

    /// Whether this is what is known of the path.
    pub open spec fn fits(self, facts: PathFacts) -> bool {
        (self.leaf is Some <==> facts.exists) && (self.stub is Some <==> facts.stub_exists)
    }
}

/// What stands at a path once an action was carried out there.
pub open spec fn placed(p: Place, a: Action) -> Place {
    match a {
        Action::WriteStub(r) => Place { stub: Some(r), ..p },
        Action::RemoveStub => Place { stub: None, ..p },
        Action::RemoveFile => Place { leaf: None, ..p },
        Action::Materialise { hash, mode, .. } => Place {
            leaf: Some(leaves::Leaf::File { hash, mode: text::opt_view(mode) }),
            stub: None,
        },
        Action::WriteLink { target, .. } => Place {
            leaf: Some(leaves::Leaf::Link { target: target@ }),
            ..p
        },
        _ => p,
    }
}

/// What stands at a path once actions were carried out there, one after the other.
pub open spec fn placed_all(p: Place, acts: Seq<Action>) -> Place
    decreases acts.len(),
{
    if acts.len() == 0 {
        p
    } else {
        placed(placed_all(p, acts.drop_last()), acts.last())
    }
}

proof fn lemma_placed_one(p: Place, a: Action)
    ensures
        placed_all(p, seq![a]) == placed(p, a),
{
    reveal_with_fuel(placed_all, 2);
    assert(seq![a].drop_last() =~= Seq::<Action>::empty());
}

proof fn lemma_placed_two(p: Place, a: Action, b: Action)
    ensures
        placed_all(p, seq![a, b]) == placed(placed(p, a), b),
{
    lemma_placed_one(p, a);
    assert(seq![a, b].drop_last() =~= seq![a]);
}

/// Carrying out the actions for a change leaves at the path what the change names: the
/// content and mode of an added or modified file, as a file or as a stub and never as
/// both, the target of a symlink, or nothing where it was deleted. A new directory leaves
/// the path as it was.
pub proof fn law_actions_carry_out_change(
    change: DiffEntry,
    threshold: u64,
    facts: PathFacts,
    before: Place,
)
    requires
        before.fits(facts),
    ensures
        ({
            let after = placed_all(before, actions_of(change, threshold, facts));
            &&& after.held() == match change {
                DiffEntry::Added { hash, mode, .. } => Some(
                    leaves::Leaf::File { hash, mode: text::opt_view(mode) },
                ),
                DiffEntry::Modified { hash, mode, .. } => Some(
                    leaves::Leaf::File { hash, mode: text::opt_view(mode) },
                ),
                DiffEntry::Symlink { target, .. } => Some(leaves::Leaf::Link { target: target@ }),
                DiffEntry::Deleted => None,
                _ => before.held(),
            }
            &&& after.held() == leaves::outcome(Some(change), before.held())
            &&& change is Added || change is Modified || change is Symlink || change is Deleted
                ==> after.leaf is None || after.stub is None
        }),
{
    let acts = actions_of(change, threshold, facts);
    if acts.len() == 1 {
        assert(acts =~= seq![acts[0]]);
        lemma_placed_one(before, acts[0]);
    } else if acts.len() == 2 {
        assert(acts =~= seq![acts[0], acts[1]]);
        lemma_placed_two(before, acts[0], acts[1]);
    }
}

/// How many of the actions write the content of a file: the file itself, or its stub.
pub open spec fn content_writes(acts: Seq<Action>) -> nat
    decreases acts.len(),
{
    if acts.len() == 0 {
        0
    } else {
        content_writes(acts.drop_last()) + if acts.last() is Materialise || acts.last() is WriteStub {
            1nat
        } else {
            0
        }
    }
}

/// An added or modified file is written exactly once, with the content and metadata that
/// the change names. It is written as a stub exactly where it is added, large enough and
/// its stub hidden from Git, or modified and a stub already.
pub proof fn law_file_is_written_once(change: DiffEntry, threshold: u64, facts: PathFacts)
    ensures
        change is Added || change is Modified ==> content_writes(
            actions_of(change, threshold, facts),
        ) == 1,
        change matches DiffEntry::Added { hash, size, mtime, mode } ==> {
            let acts = actions_of(change, threshold, facts);
            if threshold > 0 && size >= threshold && !facts.stub_visible {
                acts.contains(
                    Action::WriteStub(
                        StubRecord {
                            target_type: StubTargetType::Blob,
                            hash,
                            size,
                            mtime,
                            mode,
                            blob_count: 0,
                        },
                    ),
                )
            } else {
                acts.contains(Action::Materialise { hash, mtime, mode })
            }
        },
        change matches DiffEntry::Modified { hash, size, mtime, mode } ==> {
            let acts = actions_of(change, threshold, facts);
            if facts.stub_exists && !facts.exists {
                acts.contains(
                    Action::WriteStub(
                        StubRecord {
                            target_type: StubTargetType::Blob,
                            hash,
                            size,
                            mtime,
                            mode,
                            blob_count: 0,
                        },
                    ),
                )
            } else {
                acts.contains(Action::Materialise { hash, mtime, mode })
            }
        },
{
    reveal_with_fuel(content_writes, 3);
    let acts = actions_of(change, threshold, facts);
    if acts.len() == 1 {
        assert(acts.drop_last() =~= Seq::<Action>::empty());
        assert(acts[0] == acts.last());
    } else if acts.len() == 2 {
        assert(acts.drop_last() =~= seq![acts[0]]);
        assert(seq![acts[0]].drop_last() =~= Seq::<Action>::empty());
        assert(acts[0] == seq![acts[0]].last());
    }
}

/// A symlink is written with its target and time, a deleted path loses its file and its
/// stub, a new empty directory is made, and a new large directory is made and stubbed by
/// its hash, size, time and number of files, or written out whole where Git would see the
/// stub.
pub proof fn law_other_changes_are_carried_out(
    change: DiffEntry,
    threshold: u64,
    facts: PathFacts,
)
    ensures
        ({
            let acts = actions_of(change, threshold, facts);
            match change {
                DiffEntry::Symlink { target, mtime, .. } => acts.contains(
                    Action::WriteLink { target, mtime },
                ) && acts.contains(Action::RemoveStub),
                DiffEntry::Deleted => acts.contains(Action::RemoveStub) && (acts.contains(
                    Action::RemoveFile,
                ) <==> facts.exists),
                DiffEntry::AddedEmptyDir => acts == seq![Action::CreateDir],
                DiffEntry::AddedTree { hash, size, mtime, blob_count } => if facts.has_git_child
                    || facts.dir_stub_visible {
                    acts == seq![Action::MaterialiseTree(hash)]
                } else {
                    acts.contains(Action::CreateDir) && acts.contains(
                        Action::WriteDirStub(
                            StubRecord {
                                target_type: StubTargetType::Tree,
                                hash,
                                size,
                                mtime,
                                mode: None,
                                blob_count,
                            },
                        ),
                    )
                },
                _ => true,
            }
        }),
{
    let acts = actions_of(change, threshold, facts);
    if acts.len() > 0 {
        assert(acts.contains(acts[0]));
    }
    if acts.len() > 1 {
        assert(acts.contains(acts[1]));
    }
}

/// Whether an action writes out this object.
pub open spec fn writes_out(a: Action, h: ObjectHash) -> bool {
    match a {
        Action::Materialise { hash, .. } => hash == h,
        Action::MaterialiseTree(hash) => hash == h,
        _ => false,
    }
}

/// What is written out was fetched or is in the cache, except an added file that is large
/// enough for a stub, which is fetched when it is written; and nothing else is fetched.
pub proof fn law_what_is_written_is_fetched(change: DiffEntry, threshold: u64, facts: PathFacts)
    ensures
        fetch_of(change, threshold, facts) matches Some(h) ==> !facts.in_cache && exists|i: int|
            0 <= i < actions_of(change, threshold, facts).len() && writes_out(
                #[trigger] actions_of(change, threshold, facts)[i],
                h,
            ),
        !facts.in_cache ==> forall|i: int, h: ObjectHash|
            0 <= i < actions_of(change, threshold, facts).len() && #[trigger] writes_out(
                actions_of(change, threshold, facts)[i],
                h,
            ) ==> fetch_of(change, threshold, facts) == Some(h) || (change matches DiffEntry::Added {
                size,
                ..
            } && threshold > 0 && size >= threshold),
{
    if let Some(h) = fetch_of(change, threshold, facts) {
        assert(writes_out(actions_of(change, threshold, facts)[0], h));
    }
}

/// Every change counts as one update, except the deletion of what was not there.
pub proof fn law_updates_are_counted(change: DiffEntry, facts: PathFacts)
    ensures
        !(change is Deleted) ==> counts(change, facts),
        change is Deleted ==> counts(change, facts) == facts.exists,
{
}

/// A pull merges three ways on disk. Where neither a conflict nor a stub of a new
/// directory is at a path, carrying out the actions for what the remote changed there
/// leaves what the remote has, if the remote changed it since the last sync, and what the
/// working tree had otherwise.
pub proof fn law_pull_merges_on_disk(
    clone: Option<TreeNode>,
    remote: TreeNode,
    working: TreeNode,
    threshold: u64,
    facts: PathFacts,
    before: Place,
    k: Seq<char>,
)
    requires
        leaves::comparable_at(clone, remote, seq![], k),
        leaves::comparable_at(clone, working, seq![], k),
        diff_spec(clone, Some(remote), threshold) is Ok,
        diff_spec(clone, Some(working), 0) is Ok,
        conflict_set(
            diff_spec(clone, Some(remote), threshold)->Ok_0,
            diff_spec(clone, Some(working), 0)->Ok_0,
        ) == Set::<Seq<char>>::empty(),
        threshold > 0 ==> !leaves::covered(diff_spec(clone, Some(remote), threshold)->Ok_0, k),
        before.fits(facts),
        before.held() == leaves::leaf_at(working, seq![], k),
    ensures
        ({
            let base = leaves::base_leaf(clone, seq![], k);
            let theirs = leaves::leaf_at(remote, seq![], k);
            let ours = leaves::leaf_at(working, seq![], k);
            let after = match leaves::change_at(
                diff_spec(clone, Some(remote), threshold)->Ok_0,
                k,
            ) {
                Some(change) => placed_all(before, actions_of(change, threshold, facts)),
                None => before,
            };
            after.held() == if theirs != base {
                theirs
            } else {
                ours
            }
        }),
{
    leaves::law_three_way_merge(clone, remote, working, threshold, k);
    if let Some(change) = leaves::change_at(
        diff_spec(clone, Some(remote), threshold)->Ok_0,
        k,
    ) {
        law_actions_carry_out_change(change, threshold, facts, before);
    }
}

/// The state of applying changes.
pub struct Applied {
    /// How many paths were updated.
    pub changed: usize,
    /// The directories in which paths were deleted.
    pub deleted_dirs: PathSet,
}

/// The directory of a path: what stands before its last `/`.
pub open spec fn parent_of(path: Seq<char>) -> Seq<char>
    decreases path.len(),
{
    if path.len() == 0 {
        path
    } else if path.last() == '/' {
        path.drop_last()
    } else {
        parent_of(path.drop_last())
    }
}

/// The directory of a path: what stands before its last `/`.
pub fn parent_path(path: &str) -> (r: String)
    ensures
        r@ == parent_of(path@),
{
    let chars = chars_of(path);
    let mut n: usize = chars.len();
    assert(chars@.take(n as int) =~= path@);
    while n > 0
        invariant
            n <= chars@.len(),
            chars@ == path@,
            parent_of(path@) == parent_of(chars@.take(n as int)),
        decreases n,
    {
        assert(chars@.take(n as int).drop_last() =~= chars@.take(n - 1));
        if chars[n - 1] == '/' {
            assert(chars@.take(n - 1) =~= chars@.subrange(0, n - 1));
            return string_of(&chars, 0, n - 1);
        }
        n = n - 1;
    }
    let r = String::new();
    assert(r@ =~= chars@.take(0));
    r
}

/// Applies one change at `work_rel`, a path relative to the repository root:
/// says what to do there, and keeps account of it.
pub fn apply_diff(
    state: &mut Applied,
    work_rel: &str,
    change: &DiffEntry,
    stub_threshold: u64,
    facts: &PathFacts,
) -> (r: Vec<Action>)
    requires
        old(state).changed < usize::MAX,
        old(state).deleted_dirs.wf(),
    ensures
        final(state).deleted_dirs.wf(),
        r@ == actions_of(*change, stub_threshold, *facts),
        final(state).changed == old(state).changed + (if counts(*change, *facts) {
            1int
        } else {
            0int
        }),
        final(state).deleted_dirs@ == if *change is Deleted {
            old(state).deleted_dirs@.insert(parent_of(work_rel@))
        } else {
            old(state).deleted_dirs@
        },
{
    let mut acts: Vec<Action> = Vec::new();
    let mut counted = true;
    match change {
        DiffEntry::Added { hash, size, mtime, mode } => {
            if stub_threshold > 0 && *size >= stub_threshold && !facts.stub_visible {
                acts.push(Action::WriteStub(blob_stub(*hash, *size, *mtime, mode)));
                if facts.exists {
                    acts.push(Action::RemoveFile);
                }
            } else {
                acts.push(
                    Action::Materialise { hash: *hash, mtime: *mtime, mode: opt_copy(mode) },
                );
            }
        },
        DiffEntry::Modified { hash, size, mtime, mode } => {
            if facts.stub_exists && !facts.exists {
                acts.push(Action::WriteStub(blob_stub(*hash, *size, *mtime, mode)));
            } else {
                acts.push(
                    Action::Materialise { hash: *hash, mtime: *mtime, mode: opt_copy(mode) },
                );
            }
        },
        DiffEntry::AddedEmptyDir => {
            acts.push(Action::CreateDir);
        },
        DiffEntry::Symlink { target, mtime, .. } => {
            acts.push(Action::RemoveStub);
            acts.push(Action::WriteLink { target: target.clone(), mtime: *mtime });
        },
        DiffEntry::Deleted => {
            if facts.exists {
                acts.push(Action::RemoveFile);
            } else {
                counted = false;
            }
            acts.push(Action::RemoveStub);
            state.deleted_dirs.insert(parent_path(work_rel));
        },
        DiffEntry::AddedTree { hash, size, mtime, blob_count } => {
            if facts.has_git_child || facts.dir_stub_visible {
                acts.push(Action::MaterialiseTree(*hash));
            } else {
                acts.push(Action::CreateDir);
                acts.push(Action::WriteDirStub(tree_stub(*hash, *size, *mtime, *blob_count)));
            }
        },
    }
    if counted {
        state.changed = state.changed + 1;
    }
    assert(acts@ =~= actions_of(*change, stub_threshold, *facts));
    acts
}

/// Whether `dir` is `path` or one of the directories above it, the root excepted.
pub open spec fn above_or_at(dir: Seq<char>, path: Seq<char>) -> bool {
    dir.len() > 0 && (dir == path || text::has_prefix(path, dir.push('/')))
}

/// The directories to look at after deletions: each one in which something was
/// deleted, and all above it.
pub open spec fn cleanup_set(dirs: Set<Seq<char>>) -> Set<Seq<char>> {
    Set::new(|d: Seq<char>| exists|p: Seq<char>| #[trigger] dirs.contains(p) && above_or_at(d, p))
}

/// How deep a path lies: the number of its separators.
pub open spec fn depth_of(path: Seq<char>) -> nat
    decreases path.len(),
{
    if path.len() == 0 {
        0
    } else {
        depth_of(path.drop_last()) + (if path.last() == '/' {
            1nat
        } else {
            0nat
        })
    }
}

proof fn lemma_depth_bound(path: Seq<char>)
    ensures
        depth_of(path) <= path.len(),
    decreases path.len(),
{
    if path.len() > 0 {
        lemma_depth_bound(path.drop_last());
    }
}

fn depth(path: &str) -> (r: usize)
    ensures
        r == depth_of(path@),
{
    let chars = chars_of(path);
    let mut n: usize = 0;
    let mut i: usize = 0;
    assert(chars@.take(0) =~= seq![]);
    while i < chars.len()
        invariant
            i <= chars@.len(),
            n <= i,
            n == depth_of(chars@.take(i as int)),
        decreases chars.len() - i,
    {
        assert(chars@.take(i + 1).drop_last() =~= chars@.take(i as int));
        if chars[i] == '/' {
            n = n + 1;
        }
        i = i + 1;
    }
    assert(chars@.take(i as int) =~= path@);
    n
}

/// Whether `dir` is a directory above `path`, of fewer than `n` characters.
spec fn dir_within(path: Seq<char>, dir: Seq<char>, n: int) -> bool {
    0 < dir.len() < n && text::has_prefix(path, dir.push('/'))
}

/// Adds a directory and all above it.
fn add_above(path: &String, result: &mut PathSet)
    requires
        old(result).wf(),
    ensures
        final(result).wf(),
        forall|d: Seq<char>|
            final(result)@.contains(d) <==> old(result)@.contains(d) || above_or_at(d, path@),
{
    let chars = chars_of(path.as_str());
    let mut i: usize = 0;
    let ghost start = result@;
    while i < chars.len()
        invariant
            i <= chars@.len(),
            chars@ == path@,
            result.wf(),
            forall|d: Seq<char>|
                #[trigger] result@.contains(d) <==> start.contains(d) || dir_within(
                    path@,
                    d,
                    i as int,
                ),
        decreases chars.len() - i,
    {
        let ghost before = result@;
        if chars[i] == '/' && i > 0 {
            let dir = string_of(&chars, 0, i);
            assert(path@.take(i + 1) =~= dir@.push('/'));
            result.insert(dir);
            assert forall|d: Seq<char>| #[trigger] result@.contains(d) <==> start.contains(d)
                || dir_within(path@, d, i + 1) by {
                if dir_within(path@, d, i + 1) && d.len() == i {
                    assert(d =~= d.push('/').drop_last());
                    assert(dir@ =~= dir@.push('/').drop_last());
                }
            }
        } else {
            assert forall|d: Seq<char>| #[trigger] result@.contains(d) <==> start.contains(d)
                || dir_within(path@, d, i + 1) by {
                if dir_within(path@, d, i + 1) && d.len() == i {
                    assert(path@.take(i + 1)[i as int] == d.push('/')[i as int]);
                }
            }
        }
        i = i + 1;
    }
    if chars.len() > 0 {
        result.insert(path.clone());
    }
    assert forall|d: Seq<char>| result@.contains(d) <==> start.contains(d) || above_or_at(
        d,
        path@,
    ) by {
        assert(dir_within(path@, d, i as int) <==> d.len() > 0 && text::has_prefix(path@, d.push('/')));
    }
}

/// The directories to look at after deletions, the deepest first.
pub fn cleanup_dirs(dirs: &PathSet) -> (r: Vec<String>)
    requires
        dirs.wf(),
    ensures
        text::views(r@).no_duplicates(),
        forall|d: Seq<char>| text::views(r@).contains(d) <==> cleanup_set(dirs@).contains(d),
        forall|i: int, j: int|
            0 <= i <= j < r@.len() ==> depth_of((#[trigger] r@[i])@) >= depth_of(
                (#[trigger] r@[j])@,
            ),
{
    let sources = dirs.sorted();
    let mut all = PathSet::new();
    let mut i: usize = 0;
    while i < sources.len()
        invariant
            i <= sources@.len(),
            all.wf(),
            forall|d: Seq<char>|
                #[trigger] all@.contains(d) <==> exists|k: int|
                    0 <= k < i && above_or_at(d, (#[trigger] sources@[k])@),
        decreases sources.len() - i,
    {
        add_above(&sources[i], &mut all);
        proof {
            assert forall|d: Seq<char>| #[trigger] all@.contains(d) <==> exists|k: int|
                0 <= k < i + 1 && above_or_at(d, (#[trigger] sources@[k])@) by {
                if exists|k: int| 0 <= k < i && above_or_at(d, (#[trigger] sources@[k])@) {
                    let k = choose|k: int| 0 <= k < i && above_or_at(d, (#[trigger] sources@[k])@);
                    assert(above_or_at(d, sources@[k]@) && 0 <= k < i + 1);
                }
                if above_or_at(d, sources@[i as int]@) {
                    assert(above_or_at(d, sources@[i as int]@) && 0 <= i < i + 1);
                }
            }
        }
        i = i + 1;
    }
    proof {
        assert forall|d: Seq<char>| all@.contains(d) == cleanup_set(dirs@).contains(d) by {
            if all@.contains(d) {
                let k = choose|k: int|
                    0 <= k < sources@.len() && above_or_at(d, (#[trigger] sources@[k])@);
                assert(text::views(sources@)[k] == sources@[k]@);
                assert(text::views(sources@).contains(sources@[k]@));
                assert(dirs@.contains(sources@[k]@));
            }
            if cleanup_set(dirs@).contains(d) {
                let p = choose|p: Seq<char>| #[trigger] dirs@.contains(p) && above_or_at(d, p);
                assert(text::views(sources@).contains(p));
                let k = choose|k: int| 0 <= k < text::views(sources@).len() && text::views(sources@)[k] == p;
                assert(above_or_at(d, sources@[k]@));
            }
        }
    }
    let list = all.sorted();
    deepest_first(list)
}

/// The paths of a list without duplicates, the deepest first.
#[verifier::rlimit(40)]
fn deepest_first(list: Vec<String>) -> (r: Vec<String>)
    requires
        text::views(list@).no_duplicates(),
    ensures
        text::views(r@).no_duplicates(),
        forall|d: Seq<char>| text::views(r@).contains(d) <==> text::views(list@).contains(d),
        forall|i: int, j: int|
            0 <= i <= j < r@.len() ==> depth_of((#[trigger] r@[i])@) >= depth_of(
                (#[trigger] r@[j])@,
            ),
{
    let mut out: Vec<String> = Vec::new();
    let mut n: usize = 0;
    while n < list.len()
        invariant
            n <= list@.len(),
            out@.len() == n,
            text::views(list@).no_duplicates(),
            text::views(out@).no_duplicates(),
            forall|d: Seq<char>|
                #[trigger] text::views(out@).contains(d) <==> exists|k: int|
                    0 <= k < n && (#[trigger] list@[k])@ == d,
            forall|i: int, j: int|
                0 <= i <= j < out@.len() ==> depth_of((#[trigger] out@[i])@) >= depth_of(
                    (#[trigger] out@[j])@,
                ),
        decreases list.len() - n,
    {
        let d: usize = depth(list[n].as_str());
        let mut at: usize = out.len();
        while at > 0 && depth(out[at - 1].as_str()) < d
            invariant
                at <= out@.len(),
                forall|k: int| at <= k < out@.len() ==> depth_of((#[trigger] out@[k])@) < d,
            decreases at,
        {
            at = at - 1;
        }
        let ghost before = out@;
        let ghost new = list@[n as int];
        out.insert(at, list[n].clone());
        proof {
            assert(out@ =~= before.insert(at as int, new));
            assert(!text::views(before).contains(new@)) by {
                if text::views(before).contains(new@) {
                    let k = choose|k: int| 0 <= k < n && (#[trigger] list@[k])@ == new@;
                    assert(text::views(list@)[k] == text::views(list@)[n as int]);
                }
            }
            assert forall|a: int| 0 <= a < out@.len() implies #[trigger] out@[a] == (if a < at {
                before[a]
            } else if a == at {
                new
            } else {
                before[a - 1]
            }) by {}
            assert forall|a: int, b: int| 0 <= a < out@.len() && 0 <= b < out@.len() && a
                != b implies text::views(out@)[a] != text::views(out@)[b] by {
                let pa = if a < at { a } else { a - 1 };
                let pb = if b < at { b } else { b - 1 };
                if a == at {
                    assert(text::views(before)[pb] == text::views(out@)[b]);
                    assert(text::views(before).contains(text::views(out@)[b]));
                } else if b == at {
                    assert(text::views(before)[pa] == text::views(out@)[a]);
                    assert(text::views(before).contains(text::views(out@)[a]));
                } else {
                    assert(text::views(before)[pa] != text::views(before)[pb]);
                }
            }
            assert forall|x: Seq<char>| #[trigger] text::views(out@).contains(x) <==> exists|k: int|
                0 <= k < n + 1 && (#[trigger] list@[k])@ == x by {
                if text::views(out@).contains(x) {
                    let a = choose|a: int| 0 <= a < text::views(out@).len() && text::views(out@)[a] == x;
                    if a == at {
                        assert(list@[n as int]@ == x);
                    } else {
                        let pa = if a < at { a } else { a - 1 };
                        assert(text::views(before)[pa] == x);
                        assert(text::views(before).contains(x));
                        let k = choose|k: int| 0 <= k < n && (#[trigger] list@[k])@ == x;
                        assert(list@[k]@ == x);
                    }
                }
                if exists|k: int| 0 <= k < n + 1 && (#[trigger] list@[k])@ == x {
                    let k = choose|k: int| 0 <= k < n + 1 && (#[trigger] list@[k])@ == x;
                    if k == n {
                        assert(text::views(out@)[at as int] == x);
                    } else {
                        assert(text::views(before).contains(x));
                        let a = choose|a: int| 0 <= a < text::views(before).len() && text::views(before)[a] == x;
                        if a < at {
                            assert(text::views(out@)[a] == x);
                        } else {
                            assert(text::views(out@)[a + 1] == x);
                        }
                    }
                }
            }
            assert forall|a: int, b: int| 0 <= a <= b < out@.len() implies depth_of(
                (#[trigger] out@[a])@,
            ) >= depth_of((#[trigger] out@[b])@) by {
                if a < at && b == at {
                    assert(depth_of(before[a]@) >= depth_of(before[at - 1]@));
                }
                if a < at && b > at {
                    assert(depth_of(before[a]@) >= depth_of(before[b - 1]@));
                }
                if a > at {
                    assert(depth_of(before[a - 1]@) >= depth_of(before[b - 1]@));
                }
                if b < at {
                    assert(depth_of(before[a]@) >= depth_of(before[b]@));
                }
                if a == at && b > at {
                    assert(depth_of(before[b - 1]@) < d);
                }
            }
        }
        n = n + 1;
    }
    proof {
        assert forall|x: Seq<char>| text::views(out@).contains(x) <==> text::views(list@).contains(x) by {
            if text::views(out@).contains(x) {
                let k = choose|k: int| 0 <= k < list@.len() && (#[trigger] list@[k])@ == x;
                assert(text::views(list@)[k] == x);
            }
            if text::views(list@).contains(x) {
                let k = choose|k: int| 0 <= k < text::views(list@).len() && text::views(list@)[k] == x;
                assert(list@[k]@ == x);
            }
        }
    }
    out
}

/// Whether a directory stub is removed after deletions: only the marker is left
/// in the directory. `listing` is what the directory holds, if it can be read.
#[verifier::loop_isolation(false)]
pub fn marker_is_stale(marker_is_file: bool, listing: Option<&Vec<String>>) -> (r: bool)
    ensures
        r == (marker_is_file && (listing matches Some(names) && forall|i: int|
            0 <= i < names@.len() ==> (#[trigger] names@[i])@ == DIR_STUB_NAME@)),
{
    if !marker_is_file {
        return false;
    }
    match listing {
        Some(names) => {
            let mut i: usize = 0;
            while i < names.len()
                invariant
                    i <= names@.len(),
                    forall|k: int| 0 <= k < i ==> (#[trigger] names@[k])@ == DIR_STUB_NAME@,
                decreases names.len() - i,
            {
                if !str_eq(names[i].as_str(), DIR_STUB_NAME) {
                    assert(names@[i as int]@ != DIR_STUB_NAME@);
                    return false;
                }
                i = i + 1;
            }
            true
        },
        None => false,
    }
}

/// Whether a directory is removed after deletions: it is empty.
pub fn prunes_dir(listing: Option<&Vec<String>>) -> (r: bool)
    ensures
        r == (listing matches Some(names) && names@.len() == 0),
{
    match listing {
        Some(names) => names.len() == 0,
        None => false,
    }
}

/// What is shown when conflicts stop a pull. `heading` and `paths` are the heading
/// and the paths in conflict as they are shown, colored or not.
pub fn print_conflict_result(heading: &str, paths: &Vec<String>) -> (r: Vec<String>)
    ensures
        text::views(r@) == seq![heading@] + Seq::new(paths@.len(), |i: int| "  conflict: "@ + paths@[i]@)
            + seq![
            "\nResolve conflicts and push:"@,
            "  omemfs push           (after resolving conflicts)"@,
            "  omemfs restore <path> (discard local changes)"@,
        ],
{
    let mut out: Vec<String> = Vec::new();
    out.push(heading.to_owned());
    let mut i: usize = 0;
    while i < paths.len()
        invariant
            i <= paths@.len(),
            out@.len() == i + 1,
            out@[0]@ == heading@,
            forall|k: int| 0 <= k < i ==> (#[trigger] out@[k + 1])@ == "  conflict: "@ + paths@[k]@,
        decreases paths.len() - i,
    {
        out.push(concat("  conflict: ", paths[i].as_str()));
        i = i + 1;
    }
    out.push("\nResolve conflicts and push:".to_owned());
    out.push("  omemfs push           (after resolving conflicts)".to_owned());
    out.push("  omemfs restore <path> (discard local changes)".to_owned());
    let ghost want = seq![heading@] + Seq::new(
        paths@.len(),
        |k: int| "  conflict: "@ + paths@[k]@,
    ) + seq![
        "\nResolve conflicts and push:"@,
        "  omemfs push           (after resolving conflicts)"@,
        "  omemfs restore <path> (discard local changes)"@,
    ];
    assert forall|k: int| 0 <= k < want.len() implies text::views(out@)[k] == #[trigger] want[k] by {
        if 1 <= k <= paths@.len() {
            assert(out@[(k - 1) + 1]@ == "  conflict: "@ + paths@[k - 1]@);
        }
    }
    assert(text::views(out@) =~= want);
    out
}

// ---------------------------------------------------------------------------
// The part of the clone root that is on disk
// ---------------------------------------------------------------------------

/// `acc` with the files and symlinks of a tree, by path, going down only into
/// the directories `dirs`.
pub open spec fn flat_tree(
    node: TreeNode,
    prefix: Seq<char>,
    dirs: Set<Seq<char>>,
    acc: Map<Seq<char>, TreeEntry>,
) -> Result<Map<Seq<char>, TreeEntry>, Halt>
    decreases node, 0nat,
{
    match node.content {
        Content::Unread => Err(Halt::Unread(node.hash)),
        Content::Missing => Err(Halt::Missing(node.hash)),
        Content::Entries(es) => flat_listing(es@, es@.len(), prefix, dirs, acc),
    }
}

/// The same for the first `n` entries of a tree.
pub open spec fn flat_listing(
    es: Seq<TreeEntry>,
    n: nat,
    prefix: Seq<char>,
    dirs: Set<Seq<char>>,
    acc: Map<Seq<char>, TreeEntry>,
) -> Result<Map<Seq<char>, TreeEntry>, Halt>
    decreases es, n,
{
    if n == 0 || n > es.len() {
        Ok(acc)
    } else {
        match flat_listing(es, (n - 1) as nat, prefix, dirs, acc) {
            Err(h) => Err(h),
            Ok(m) => {
                let e = es[n - 1];
                let path = text::joined(prefix, e.name_text());
                match e {
                    TreeEntry::Tree { node, .. } => if dirs.contains(path) {
                        flat_tree(node, path, dirs, m)
                    } else {
                        Ok(m)
                    },
                    _ => Ok(m.insert(path, e)),
                }
            },
        }
    }
}

proof fn lemma_flat_listing_halts(
    es: Seq<TreeEntry>,
    a: nat,
    b: nat,
    prefix: Seq<char>,
    dirs: Set<Seq<char>>,
    acc: Map<Seq<char>, TreeEntry>,
    h: Halt,
)
    requires
        a <= b <= es.len(),
        flat_listing(es, a, prefix, dirs, acc) == Err::<Map<Seq<char>, TreeEntry>, Halt>(h),
    ensures
        flat_listing(es, b, prefix, dirs, acc) == Err::<Map<Seq<char>, TreeEntry>, Halt>(h),
    decreases b - a,
{
    if a < b {
        lemma_flat_listing_halts(es, a, (b - 1) as nat, prefix, dirs, acc, h);
    }
}

#[verifier::loop_isolation(false)]
fn flatten_present_into(
    node: &TreeNode,
    prefix: &str,
    dirs: &PathSet,
    out: &mut PathMap<TreeEntry>,
) -> (r: Result<(), Halt>)
    requires
        old(out).wf(),
    ensures
        final(out).wf(),
        match r {
            Ok(()) => flat_tree(*node, prefix@, dirs@, old(out)@) == Ok::<
                Map<Seq<char>, TreeEntry>,
                Halt,
            >(final(out)@),
            Err(h) => flat_tree(*node, prefix@, dirs@, old(out)@) == Err::<
                Map<Seq<char>, TreeEntry>,
                Halt,
            >(h),
        },
    decreases node,
{
    let es = match node.entries() {
        Ok(es) => es,
        Err(h) => {
            return Err(h);
        },
    };
    let ghost acc = out@;
    let mut i: usize = 0;
    while i < es.len()
        invariant
            i <= es@.len(),
            out.wf(),
            flat_listing(es@, i as nat, prefix@, dirs@, acc) == Ok::<
                Map<Seq<char>, TreeEntry>,
                Halt,
            >(out@),
        decreases es.len() - i,
    {
        let entry = &es[i];
        let path = join_path(prefix, entry.name().as_str());
        match entry {
            TreeEntry::Tree { node: sub, .. } => {
                if dirs.contains(path.as_str()) {
                    match flatten_present_into(sub, path.as_str(), dirs, out) {
                        Ok(()) => {},
                        Err(h) => {
                            proof {
                                lemma_flat_listing_halts(
                                    es@,
                                    (i + 1) as nat,
                                    es@.len(),
                                    prefix@,
                                    dirs@,
                                    acc,
                                    h,
                                );
                            }
                            return Err(h);
                        },
                    }
                }
            },
            _ => {
                out.insert(path, entry.copy_leaf());
            },
        }
        i = i + 1;
    }
    Ok(())
}

/// The files and symlinks of the clone root, by path, as far as they lie in
/// directories that are on disk. What is not on disk is never read.
pub fn flatten_clone_root_present(root: &TreeNode, dirs: &PathSet) -> (r: Result<
    PathMap<TreeEntry>,
    Halt,
>)
    ensures
        match r {
            Ok(m) => m.wf() && flat_tree(*root, ""@, dirs@, Map::empty()) == Ok::<
                Map<Seq<char>, TreeEntry>,
                Halt,
            >(m@),
            Err(h) => flat_tree(*root, ""@, dirs@, Map::empty()) == Err::<
                Map<Seq<char>, TreeEntry>,
                Halt,
            >(h),
        },
{
    let mut map: PathMap<TreeEntry> = PathMap::new();
    match flatten_present_into(root, "", dirs, &mut map) {
        Ok(()) => Ok(map),
        Err(h) => Err(h),
    }
}

// ---------------------------------------------------------------------------
// Writing out a directory
// ---------------------------------------------------------------------------

/// One step of writing out a directory.
#[allow(inconsistent_fields)]
pub enum Step {
    CreateDir { path: String },
    WriteFile { path: String, hash: ObjectHash, mtime: Option<Timestamp>, mode: Option<String> },
    WriteLink { path: String, target: String, mtime: Option<Timestamp> },
    SetDirTime { path: String, mtime: Timestamp },
}

/// What a step says.
#[allow(inconsistent_fields)]
pub enum StepView {
    CreateDir { path: Seq<char> },
    WriteFile { path: Seq<char>, hash: ObjectHash, mtime: Option<Timestamp>, mode: Option<String> },
    WriteLink { path: Seq<char>, target: String, mtime: Option<Timestamp> },
    SetDirTime { path: Seq<char>, mtime: Timestamp },
}

impl View for Step {
    type V = StepView;

    open spec fn view(&self) -> StepView {
        match *self {
            Step::CreateDir { path } => StepView::CreateDir { path: path@ },
            Step::WriteFile { path, hash, mtime, mode } => StepView::WriteFile {
                path: path@,
                hash,
                mtime,
                mode,
            },
            Step::WriteLink { path, target, mtime } => StepView::WriteLink {
                path: path@,
                target,
                mtime,
            },
            Step::SetDirTime { path, mtime } => StepView::SetDirTime { path: path@, mtime },
        }
    }
}

/// What a list of steps says.
pub open spec fn step_views(steps: Seq<Step>) -> Seq<StepView> {
    Seq::new(steps.len(), |i: int| steps[i]@)
}

/// The steps that write out a tree at `dir`, behind `acc`.
pub open spec fn write_tree(node: TreeNode, dir: Seq<char>, acc: Seq<StepView>) -> Result<
    Seq<StepView>,
    Halt,
>
    decreases node, 0nat,
{
    match node.content {
        Content::Unread => Err(Halt::Unread(node.hash)),
        Content::Missing => Err(Halt::Missing(node.hash)),
        Content::Entries(es) => write_listing(
            es@,
            es@.len(),
            dir,
            acc.push(StepView::CreateDir { path: dir }),
        ),
    }
}

/// The steps that write out the first `n` entries of a tree, behind `acc`. The
/// time of a directory is set once all that it holds is written.
pub open spec fn write_listing(
    es: Seq<TreeEntry>,
    n: nat,
    dir: Seq<char>,
    acc: Seq<StepView>,
) -> Result<Seq<StepView>, Halt>
    decreases es, n,
{
    if n == 0 || n > es.len() {
        Ok(acc)
    } else {
        match write_listing(es, (n - 1) as nat, dir, acc) {
            Err(h) => Err(h),
            Ok(steps) => {
                let e = es[n - 1];
                let path = text::joined(dir, e.name_text());
                match e {
                    TreeEntry::Blob { hash, mtime, mode, .. } => Ok(
                        steps.push(StepView::WriteFile { path, hash, mtime, mode }),
                    ),
                    TreeEntry::Symlink { target, mtime, .. } => Ok(
                        steps.push(StepView::WriteLink { path, target, mtime }),
                    ),
                    TreeEntry::Tree { mtime, node, .. } => match write_tree(node, path, steps) {
                        Err(h) => Err(h),
                        Ok(more) => match mtime {
                            Some(t) => Ok(more.push(StepView::SetDirTime { path, mtime: t })),
                            None => Ok(more),
                        },
                    },
                }
            },
        }
    }
}

proof fn lemma_write_listing_halts(
    es: Seq<TreeEntry>,
    a: nat,
    b: nat,
    dir: Seq<char>,
    acc: Seq<StepView>,
    h: Halt,
)
    requires
        a <= b <= es.len(),
        write_listing(es, a, dir, acc) == Err::<Seq<StepView>, Halt>(h),
    ensures
        write_listing(es, b, dir, acc) == Err::<Seq<StepView>, Halt>(h),
    decreases b - a,
{
    if a < b {
        lemma_write_listing_halts(es, a, (b - 1) as nat, dir, acc, h);
    }
}

fn push_step(steps: &mut Vec<Step>, step: Step)
    ensures
        step_views(final(steps)@) == step_views(old(steps)@).push(step@),
{
    let ghost before = step_views(steps@);
    steps.push(step);
    assert(step_views(steps@) =~= before.push(step@));
}

/// Appends the steps that write out a whole directory at `dir`: used where a
/// directory stub would be visible to Git.
#[verifier::loop_isolation(false)]
pub fn materialise_tree(node: &TreeNode, dir: &str, steps: &mut Vec<Step>) -> (r: Result<(), Halt>)
    ensures
        match r {
            Ok(()) => write_tree(*node, dir@, step_views(old(steps)@)) == Ok::<
                Seq<StepView>,
                Halt,
            >(step_views(final(steps)@)),
            Err(h) => write_tree(*node, dir@, step_views(old(steps)@)) == Err::<
                Seq<StepView>,
                Halt,
            >(h),
        },
    decreases node,
{
    let es = match node.entries() {
        Ok(es) => es,
        Err(h) => {
            return Err(h);
        },
    };
    push_step(steps, Step::CreateDir { path: dir.to_owned() });
    let ghost acc = step_views(steps@);
    let mut i: usize = 0;
    while i < es.len()
        invariant
            i <= es@.len(),
            write_listing(es@, i as nat, dir@, acc) == Ok::<Seq<StepView>, Halt>(
                step_views(steps@),
            ),
        decreases es.len() - i,
    {
        let entry = &es[i];
        let path = join_path(dir, entry.name().as_str());
        match entry {
            TreeEntry::Blob { hash, mtime, mode, .. } => {
                push_step(
                    steps,
                    Step::WriteFile { path, hash: *hash, mtime: *mtime, mode: opt_copy(mode) },
                );
            },
            TreeEntry::Symlink { target, mtime, .. } => {
                push_step(steps, Step::WriteLink { path, target: target.clone(), mtime: *mtime });
            },
            TreeEntry::Tree { mtime, node: sub, .. } => {
                match materialise_tree(sub, path.as_str(), steps) {
                    Ok(()) => {},
                    Err(h) => {
                        proof {
                            lemma_write_listing_halts(
                                es@,
                                (i + 1) as nat,
                                es@.len(),
                                dir@,
                                acc,
                                h,
                            );
                        }
                        return Err(h);
                    },
                }
                if let Some(t) = mtime {
                    push_step(steps, Step::SetDirTime { path, mtime: *t });
                }
            },
        }
        i = i + 1;
    }
    Ok(())
}

} // verus!
