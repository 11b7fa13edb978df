//! Filling a working tree: what is written out, and what is stubbed.

use crate::commands::pull::{self, leaves, leaves::Leaf};
use crate::error::Error;
use crate::object::{
    blob_stub, tree_stub, Content, Halt, ObjectHash, StubRecord, StubTargetType, Timestamp,
    TreeEntry, TreeNode,
};
use crate::text::{self, concat, join_path, opt_copy, str_eq};
use crate::worktree::{self, DiskEntry, DiskKind};
use vstd::prelude::*;

verus! {

/// One step of filling a working tree.
#[allow(inconsistent_fields)]
pub enum CloneStep {
    CreateDir { path: String },
    /// Something is there already and stays.
    Skip { path: String },
    WriteFile { path: String, hash: ObjectHash, mtime: Option<Timestamp>, mode: Option<String> },
    StubFile { path: String, record: StubRecord },
    /// The directory is made, with a stub in it.
    StubDir { path: String, record: StubRecord },
    WriteLink { path: String, target: String, mtime: Option<Timestamp> },
    SetDirTime { path: String, mtime: Timestamp },
}

/// The value of a step.
#[allow(inconsistent_fields)]
pub enum CloneStepView {
    CreateDir { path: Seq<char> },
    Skip { path: Seq<char> },
    WriteFile { path: Seq<char>, hash: ObjectHash, mtime: Option<Timestamp>, mode: Option<String> },
    StubFile { path: Seq<char>, record: StubRecord },
    StubDir { path: Seq<char>, record: StubRecord },
    WriteLink { path: Seq<char>, target: String, mtime: Option<Timestamp> },
    SetDirTime { path: Seq<char>, mtime: Timestamp },
}

impl View for CloneStep {
    type V = CloneStepView;

    open spec fn view(&self) -> CloneStepView {
        match *self {
            CloneStep::CreateDir { path } => CloneStepView::CreateDir { path: path@ },
            CloneStep::Skip { path } => CloneStepView::Skip { path: path@ },
            CloneStep::WriteFile { path, hash, mtime, mode } => CloneStepView::WriteFile {
                path: path@,
                hash,
                mtime,
                mode,
            },
            CloneStep::StubFile { path, record } => CloneStepView::StubFile { path: path@, record },
            CloneStep::StubDir { path, record } => CloneStepView::StubDir { path: path@, record },
            CloneStep::WriteLink { path, target, mtime } => CloneStepView::WriteLink {
                path: path@,
                target,
                mtime,
            },
            CloneStep::SetDirTime { path, mtime } => CloneStepView::SetDirTime {
                path: path@,
                mtime,
            },
        }
    }
}

/// The values of a list of steps.
pub open spec fn clone_views(steps: Seq<CloneStep>) -> Seq<CloneStepView> {
    Seq::new(steps.len(), |i: int| steps[i]@)
}

/// How a tree is written out.
#[derive(Clone, Copy)]
pub struct Mode {
    /// Entries of at least this size are stubbed; zero stubs nothing.
    pub threshold: u64,
    /// What is there already is left alone.
    pub force: bool,
}

/// What stands under a name in a directory on disk. What a link leads to is listed in
/// its place; a link that leads nowhere is not listed.
pub open spec fn on_disk(disk: Option<Seq<DiskEntry>>, name: Seq<char>) -> Option<DiskEntry> {
    match disk {
        None => None,
        Some(es) => match worktree::first_named(es, name, 0) {
            Some(i) => if i < es.len() {
                Some(es[i as int])
            } else {
                None
            },
            None => None,
        },
    }
}

/// What stands in the way of an entry.
pub open spec fn in_the_way(disk: Option<Seq<DiskEntry>>, name: Seq<char>, m: Mode) -> Option<
    DiskEntry,
> {
    if m.force {
        on_disk(disk, name)
    } else {
        None
    }
}

/// The listing of a directory on disk, where it is one.
pub open spec fn below(disk: Option<Seq<DiskEntry>>, name: Seq<char>) -> Option<Seq<DiskEntry>> {
    match on_disk(disk, name) {
        Some(e) => match e.kind {
            DiskKind::Dir(sub) => Some(sub@),
            _ => None,
        },
        None => None,
    }
}

/// Whether an entry of this size is stubbed.
pub open spec fn is_stubbed(size: u64, m: Mode, in_git: bool) -> bool {
    m.threshold > 0 && size >= m.threshold && !in_git
}

/// The steps that fill the directory `dir` with a tree, behind `acc`.
pub open spec fn clone_tree(
    node: TreeNode,
    dir: Seq<char>,
    disk: Option<Seq<DiskEntry>>,
    m: Mode,
    in_git: bool,
    acc: Seq<CloneStepView>,
) -> Result<Seq<CloneStepView>, Halt>
    decreases node, 0nat,
{
    match node.content {
        Content::Unread => Err(Halt::Unread(node.hash)),
        Content::Missing => Err(Halt::Missing(node.hash)),
        Content::Entries(es) => clone_listing(
            es@,
            es@.len(),
            dir,
            disk,
            m,
            in_git || pull::has_git_dir(es@),
            acc.push(CloneStepView::CreateDir { path: dir }),
        ),
    }
}

/// The steps for the first `n` entries of a tree, behind `acc`. A stubbed entry is
/// made from what its parent says of it alone. Inside a Git repository nothing is
/// stubbed.
pub open spec fn clone_listing(
    es: Seq<TreeEntry>,
    n: nat,
    dir: Seq<char>,
    disk: Option<Seq<DiskEntry>>,
    m: Mode,
    in_git: bool,
    acc: Seq<CloneStepView>,
) -> Result<Seq<CloneStepView>, Halt>
    decreases es, n,
{
    if n == 0 || n > es.len() {
        Ok(acc)
    } else {
        match clone_listing(es, (n - 1) as nat, dir, disk, m, in_git, acc) {
            Err(h) => Err(h),
            Ok(steps) => {
                let e = es[n - 1];
                let name = e.name_text();
                let path = text::joined(dir, name);
                match e {
                    TreeEntry::Blob { hash, size, mtime, mode, .. } => Ok(
                        steps.push(
                            if in_the_way(disk, name, m) is Some {
                                CloneStepView::Skip { path }
                            } else if is_stubbed(size, m, in_git) {
                                CloneStepView::StubFile {
                                    path,
                                    record: StubRecord {
                                        target_type: StubTargetType::Blob,
                                        hash,
                                        size,
                                        mtime,
                                        mode,
                                        blob_count: 0,
                                    },
                                }
                            } else {
                                CloneStepView::WriteFile { path, hash, mtime, mode }
                            },
                        ),
                    ),
                    TreeEntry::Tree { size, mtime, blob_count, node, .. } => if (in_the_way(
                        disk,
                        name,
                        m,
                    ) matches Some(there) && !(there.kind is Dir)) {
                        Ok(steps.push(CloneStepView::Skip { path }))
                    } else if is_stubbed(size, m, in_git) {
                        Ok(
                            steps.push(
                                CloneStepView::StubDir {
                                    path,
                                    record: StubRecord {
                                        target_type: StubTargetType::Tree,
                                        hash: node.hash,
                                        size,
                                        mtime,
                                        mode: None,
                                        blob_count,
                                    },
                                },
                            ),
                        )
                    } else {
                        match clone_tree(
                            node,
                            path,
                            below(disk, name),
                            m,
                            in_git || name == ".git"@,
                            steps,
                        ) {
                            Err(h) => Err(h),
                            Ok(more) => match mtime {
                                Some(t) => Ok(
                                    more.push(CloneStepView::SetDirTime { path, mtime: t }),
                                ),
                                None => Ok(more),
                            },
                        }
                    },
                    TreeEntry::Symlink { target, mtime, .. } => Ok(
                        steps.push(CloneStepView::WriteLink { path, target, mtime }),
                    ),
                }
            },
        }
    }
}

proof fn lemma_clone_listing_halts(
    es: Seq<TreeEntry>,
    a: nat,
    b: nat,
    dir: Seq<char>,
    disk: Option<Seq<DiskEntry>>,
    m: Mode,
    in_git: bool,
    acc: Seq<CloneStepView>,
    h: Halt,
)
    requires
        a <= b <= es.len(),
        clone_listing(es, a, dir, disk, m, in_git, acc) == Err::<Seq<CloneStepView>, Halt>(h),
    ensures
        clone_listing(es, b, dir, disk, m, in_git, acc) == Err::<Seq<CloneStepView>, Halt>(h),
    decreases b - a,
{
    if a < b {
        lemma_clone_listing_halts(es, a, (b - 1) as nat, dir, disk, m, in_git, acc, h);
    }
}

fn push_step(steps: &mut Vec<CloneStep>, step: CloneStep)
    ensures
        clone_views(final(steps)@) == clone_views(old(steps)@).push(step@),
{
    let ghost before = clone_views(steps@);
    steps.push(step);
    assert(clone_views(steps@) =~= before.push(step@));
}

/// The listing of a directory, where there is one.
pub open spec fn listing_of(disk: Option<&Vec<DiskEntry>>) -> Option<Seq<DiskEntry>> {
    match disk {
        Some(es) => Some(es@),
        None => None,
    }
}

fn find_on_disk<'a>(disk: Option<&'a Vec<DiskEntry>>, name: &str) -> (r: Option<&'a DiskEntry>)
    ensures
        match r {
            Some(e) => on_disk(listing_of(disk), name@) == Some(*e),
            None => on_disk(listing_of(disk), name@) is None,
        },
{
    match disk {
        None => None,
        Some(es) => {
            let mut i: usize = 0;
            while i < es.len()
                invariant
                    i <= es@.len(),
                    disk == Some(es),
                    worktree::first_named(es@, name@, 0) == worktree::first_named(
                        es@,
                        name@,
                        i as nat,
                    ),
                decreases es.len() - i,
            {
                if str_eq(es[i].name.as_str(), name) {
                    return Some(&es[i]);
                }
                i = i + 1;
            }
            None
        },
    }
}

fn has_git_entry(es: &Vec<TreeEntry>) -> (r: bool)
    ensures
        r == pull::has_git_dir(es@),
{
    let mut i: usize = 0;
    while i < es.len()
        invariant
            i <= es@.len(),
            forall|k: int|
                0 <= k < i ==> !((#[trigger] es@[k]) is Tree && es@[k].name_text() == ".git"@),
        decreases es.len() - i,
    {
        if let TreeEntry::Tree { name, .. } = &es[i] {
            if str_eq(name.as_str(), ".git") {
                assert(es@[i as int] is Tree && es@[i as int].name_text() == ".git"@);
                return true;
            }
        }
        i = i + 1;
    }
    false
}

/// Appends the steps that fill the directory `dir` with a tree. `disk` is what the
/// directory holds before.
#[verifier::loop_isolation(false)]
#[verifier::rlimit(40)]
pub fn expand_or_stub(
    node: &TreeNode,
    dir: &str,
    disk: Option<&Vec<DiskEntry>>,
    m: Mode,
    in_git_worktree: bool,
    steps: &mut Vec<CloneStep>,
) -> (r: Result<(), Halt>)
    ensures
        clone_tree(
            *node,
            dir@,
            listing_of(disk),
            m,
            in_git_worktree,
            clone_views(old(steps)@),
        ) == match r {
            Ok(()) => Ok::<Seq<CloneStepView>, Halt>(clone_views(final(steps)@)),
            Err(h) => Err::<Seq<CloneStepView>, Halt>(h),
        },
    decreases node,
{
    let es = match node.entries() {
        Ok(es) => es,
        Err(h) => {
            return Err(h);
        },
    };
    push_step(steps, CloneStep::CreateDir { path: dir.to_owned() });
    let in_git: bool = in_git_worktree || has_git_entry(es);
    let ghost acc = clone_views(steps@);
    let ghost ds = listing_of(disk);
    let mut i: usize = 0;
    while i < es.len()
        invariant
            i <= es@.len(),
            clone_listing(es@, i as nat, dir@, ds, m, in_git, acc) == Ok::<
                Seq<CloneStepView>,
                Halt,
            >(clone_views(steps@)),
        decreases es.len() - i,
    {
        let entry = &es[i];
        let path = join_path(dir, entry.name().as_str());
        let there: Option<&DiskEntry> = find_on_disk(disk, entry.name().as_str());
        match entry {
            TreeEntry::Blob { hash, size, mtime, mode, .. } => {
                if m.force && there.is_some() {
                    push_step(steps, CloneStep::Skip { path });
                } else if m.threshold > 0 && *size >= m.threshold && !in_git {
                    push_step(
                        steps,
                        CloneStep::StubFile { path, record: blob_stub(*hash, *size, *mtime, mode) },
                    );
                } else {
                    push_step(
                        steps,
                        CloneStep::WriteFile {
                            path,
                            hash: *hash,
                            mtime: *mtime,
                            mode: opt_copy(mode),
                        },
                    );
                }
            },
            TreeEntry::Tree { name, size, mtime, blob_count, node: sub } => {
                let sub_disk: Option<&Vec<DiskEntry>> = match there {
                    Some(e) => match &e.kind {
                        DiskKind::Dir(l) => Some(l),
                        _ => None,
                    },
                    None => None,
                };
                if m.force && there.is_some() && sub_disk.is_none() {
                    push_step(steps, CloneStep::Skip { path });
                } else if m.threshold > 0 && *size >= m.threshold && !in_git {
                    push_step(
                        steps,
                        CloneStep::StubDir {
                            path,
                            record: tree_stub(sub.hash, *size, *mtime, *blob_count),
                        },
                    );
                } else {
                    let child_in_git: bool = in_git || str_eq(name.as_str(), ".git");
                    match expand_or_stub(sub, path.as_str(), sub_disk, m, child_in_git, steps) {
                        Ok(()) => {},
                        Err(h) => {
                            proof {
                                lemma_clone_listing_halts(
                                    es@,
                                    (i + 1) as nat,
                                    es@.len(),
                                    dir@,
                                    ds,
                                    m,
                                    in_git,
                                    acc,
                                    h,
                                );
                            }
                            return Err(h);
                        },
                    }
                    if let Some(t) = mtime {
                        push_step(steps, CloneStep::SetDirTime { path, mtime: *t });
                    }
                }
            },
            TreeEntry::Symlink { target, mtime, .. } => {
                push_step(
                    steps,
                    CloneStep::WriteLink { path, target: target.clone(), mtime: *mtime },
                );
            },
        }
        i = i + 1;
    }
    Ok(())
}

/// Whether a file has to be fetched before it is written: it is not in the cache. One
/// that the remote does not have either is an error.
pub fn blob_fetch(in_cache: bool, on_remote: bool, hash: ObjectHash) -> (r: Result<bool, Error>)
    ensures
        match r {
            Ok(fetch) => (in_cache || on_remote) && fetch == !in_cache,
            Err(e) => !in_cache && !on_remote && (e matches Error::Other(s) && s@
                == "blob not found in cache or remote: "@ + hash.short()),
        },
{
    if in_cache {
        return Ok(false);
    }
    if on_remote {
        return Ok(true);
    }
    Err(Error::Other(concat("blob not found in cache or remote: ", hash.to_short().as_str())))
}

// ---------------------------------------------------------------------------
// Counting
// ---------------------------------------------------------------------------

/// What a step counts as.
#[derive(Clone, Copy, Debug, PartialEq, Eq, Structural)]
pub enum Kind {
    Expanded,
    Stubbed,
    Skipped,
}

/// Whether a step counts as `k`.
pub open spec fn counts_as(s: CloneStepView, k: Kind) -> bool {
    match k {
        Kind::Expanded => s is WriteFile,
        Kind::Stubbed => s is StubFile || s is StubDir,
        Kind::Skipped => s is Skip,
    }
}

/// How many steps count as `k`.
pub open spec fn count_of(steps: Seq<CloneStepView>, k: Kind) -> nat
    decreases steps.len(),
{
    if steps.len() == 0 {
        0
    } else {
        count_of(steps.drop_last(), k) + if counts_as(steps.last(), k) {
            1nat
        } else {
            0
        }
    }
}

/// How many steps count as `k`.
pub fn count_steps(steps: &Vec<CloneStep>, k: Kind) -> (r: usize)
    ensures
        r == count_of(clone_views(steps@), k),
{
    let ghost all = clone_views(steps@);
    let n: usize = steps.len();
    let mut count: usize = 0;
    let mut i: usize = 0;
    while i < n
        invariant
            i <= n == steps@.len(),
            all == clone_views(steps@),
            count <= i,
            count == count_of(all.take(i as int), k),
        decreases n - i,
    {
        proof {
            assert(all.take(i + 1).drop_last() =~= all.take(i as int));
            assert(all.take(i + 1).last() == steps@[i as int]@);
        }
        let hit: bool = match (&steps[i], k) {
            (CloneStep::WriteFile { .. }, Kind::Expanded) => true,
            (CloneStep::StubFile { .. }, Kind::Stubbed) => true,
            (CloneStep::StubDir { .. }, Kind::Stubbed) => true,
            (CloneStep::Skip { .. }, Kind::Skipped) => true,
            _ => false,
        };
        if hit {
            count = count + 1;
        }
        i = i + 1;
    }
    assert(all.take(i as int) =~= all);
    count
}

proof fn lemma_count_push(steps: Seq<CloneStepView>, s: CloneStepView, k: Kind)
    ensures
        count_of(steps.push(s), k) == count_of(steps, k) + if counts_as(s, k) {
            1nat
        } else {
            0
        },
{
    assert(steps.push(s).drop_last() =~= steps);
}

/// With a threshold of zero nothing is stubbed, and below a directory of a Git
/// repository that is written out nothing is stubbed either.
pub proof fn law_never_stubs(
    node: TreeNode,
    dir: Seq<char>,
    disk: Option<Seq<DiskEntry>>,
    m: Mode,
    in_git: bool,
    acc: Seq<CloneStepView>,
)
    requires
        m.threshold == 0 || in_git,
        clone_tree(node, dir, disk, m, in_git, acc) is Ok,
    ensures
        count_of(clone_tree(node, dir, disk, m, in_git, acc)->Ok_0, Kind::Stubbed) == count_of(
            acc,
            Kind::Stubbed,
        ),
    decreases node, 0nat,
{
    if let Content::Entries(es) = node.content {
        let start = acc.push(CloneStepView::CreateDir { path: dir });
        lemma_count_push(acc, CloneStepView::CreateDir { path: dir }, Kind::Stubbed);
        lemma_listing_never_stubs(
            es@,
            es@.len(),
            dir,
            disk,
            m,
            in_git || pull::has_git_dir(es@),
            start,
        );
    }
}

proof fn lemma_listing_never_stubs(
    es: Seq<TreeEntry>,
    n: nat,
    dir: Seq<char>,
    disk: Option<Seq<DiskEntry>>,
    m: Mode,
    in_git: bool,
    acc: Seq<CloneStepView>,
)
    requires
        m.threshold == 0 || in_git,
        n <= es.len(),
        clone_listing(es, n, dir, disk, m, in_git, acc) is Ok,
    ensures
        count_of(clone_listing(es, n, dir, disk, m, in_git, acc)->Ok_0, Kind::Stubbed) == count_of(
            acc,
            Kind::Stubbed,
        ),
    decreases es, n,
{
    if n > 0 {
        lemma_listing_never_stubs(es, (n - 1) as nat, dir, disk, m, in_git, acc);
        let steps = clone_listing(es, (n - 1) as nat, dir, disk, m, in_git, acc)->Ok_0;
        let all = clone_listing(es, n, dir, disk, m, in_git, acc)->Ok_0;
        let e = es[n - 1];
        let path = text::joined(dir, e.name_text());
        if let TreeEntry::Tree { mtime, node, .. } = e {
            if !(in_the_way(disk, e.name_text(), m) matches Some(there) && !(there.kind is Dir)) {
                let git = in_git || e.name_text() == ".git"@;
                let sub = below(disk, e.name_text());
                law_never_stubs(node, path, sub, m, git, steps);
                let more = clone_tree(node, path, sub, m, git, steps)->Ok_0;
                if let Some(t) = mtime {
                    lemma_count_push(
                        more,
                        CloneStepView::SetDirTime { path, mtime: t },
                        Kind::Stubbed,
                    );
                }
            } else {
                lemma_count_push(steps, all.last(), Kind::Stubbed);
            }
        } else {
            lemma_count_push(steps, all.last(), Kind::Stubbed);
        }
    }
}

/// Without force nothing is skipped.
pub proof fn law_never_skips(
    node: TreeNode,
    dir: Seq<char>,
    disk: Option<Seq<DiskEntry>>,
    m: Mode,
    in_git: bool,
    acc: Seq<CloneStepView>,
)
    requires
        !m.force,
        clone_tree(node, dir, disk, m, in_git, acc) is Ok,
    ensures
        count_of(clone_tree(node, dir, disk, m, in_git, acc)->Ok_0, Kind::Skipped) == count_of(
            acc,
            Kind::Skipped,
        ),
    decreases node, 0nat,
{
    if let Content::Entries(es) = node.content {
        let start = acc.push(CloneStepView::CreateDir { path: dir });
        lemma_count_push(acc, CloneStepView::CreateDir { path: dir }, Kind::Skipped);
        lemma_listing_never_skips(
            es@,
            es@.len(),
            dir,
            disk,
            m,
            in_git || pull::has_git_dir(es@),
            start,
        );
    }
}

proof fn lemma_listing_never_skips(
    es: Seq<TreeEntry>,
    n: nat,
    dir: Seq<char>,
    disk: Option<Seq<DiskEntry>>,
    m: Mode,
    in_git: bool,
    acc: Seq<CloneStepView>,
)
    requires
        !m.force,
        n <= es.len(),
        clone_listing(es, n, dir, disk, m, in_git, acc) is Ok,
    ensures
        count_of(clone_listing(es, n, dir, disk, m, in_git, acc)->Ok_0, Kind::Skipped) == count_of(
            acc,
            Kind::Skipped,
        ),
    decreases es, n,
{
    if n > 0 {
        lemma_listing_never_skips(es, (n - 1) as nat, dir, disk, m, in_git, acc);
        let steps = clone_listing(es, (n - 1) as nat, dir, disk, m, in_git, acc)->Ok_0;
        let all = clone_listing(es, n, dir, disk, m, in_git, acc)->Ok_0;
        let e = es[n - 1];
        let path = text::joined(dir, e.name_text());
        if let TreeEntry::Tree { size, mtime, node, .. } = e {
            if !is_stubbed(size, m, in_git) {
                let git = in_git || e.name_text() == ".git"@;
                let sub = below(disk, e.name_text());
                law_never_skips(node, path, sub, m, git, steps);
                let more = clone_tree(node, path, sub, m, git, steps)->Ok_0;
                if let Some(t) = mtime {
                    lemma_count_push(
                        more,
                        CloneStepView::SetDirTime { path, mtime: t },
                        Kind::Skipped,
                    );
                }
            } else {
                lemma_count_push(steps, all.last(), Kind::Skipped);
            }
        } else {
            lemma_count_push(steps, all.last(), Kind::Skipped);
        }
    }
}

/// A directory that is stubbed needs nothing of what it holds: whatever is known of
/// its contents, one step makes the stub.
pub proof fn law_stub_reads_nothing(
    es: Seq<TreeEntry>,
    i: int,
    dir: Seq<char>,
    m: Mode,
    acc: Seq<CloneStepView>,
)
    requires
        0 <= i < es.len(),
        !m.force,
        clone_listing(es, i as nat, dir, None, m, false, acc) is Ok,
        es[i] matches TreeEntry::Tree { size, .. } && is_stubbed(size, m, false),
    ensures
        ({
            let before = clone_listing(es, i as nat, dir, None, m, false, acc)->Ok_0;
            let after = clone_listing(es, (i + 1) as nat, dir, None, m, false, acc);
            after is Ok && after->Ok_0.len() == before.len() + 1 && after->Ok_0.last() is StubDir
        }),
{
}

// ---------------------------------------------------------------------------
// Completeness
// ---------------------------------------------------------------------------

/// Whether a step puts a leaf of the tree `root` at `top` in place: it writes it, leaves a
/// stub of it, or leaves a stub of a directory of the tree that holds it.
pub open spec fn step_shows(
    s: CloneStepView,
    root: TreeNode,
    top: Seq<char>,
    k: Seq<char>,
    l: Leaf,
) -> bool {
    match s {
        CloneStepView::WriteFile { path, hash, mode, .. } => path == k && l == (Leaf::File {
            hash,
            mode: text::opt_view(mode),
        }),
        CloneStepView::StubFile { path, record } => path == k && l == (Leaf::File {
            hash: record.hash,
            mode: text::opt_view(record.mode),
        }),
        CloneStepView::WriteLink { path, target, .. } => path == k && l == (Leaf::Link {
            target: target@,
        }),
        CloneStepView::StubDir { path, record } => holds_leaf(root, top, path, record.hash, k, l),
        _ => false,
    }
}

/// Whether the tree `root` at `top` has a directory with this hash at `path`, and that
/// directory has the leaf at the path `k` below it.
pub open spec fn holds_leaf(
    root: TreeNode,
    top: Seq<char>,
    path: Seq<char>,
    hash: ObjectHash,
    k: Seq<char>,
    l: Leaf,
) -> bool {
    leaves::under(path, k) && exists|d: TreeNode| #[trigger]
        leaves::has_dir(root, top, path, d) && d.hash == hash && leaves::leaf_at(d, path, k)
            == Some(l)
}

/// Whether a step leaves what is on disk at the path of a leaf or above it.
pub open spec fn step_skips(s: CloneStepView, k: Seq<char>) -> bool {
    s matches CloneStepView::Skip { path } && (path == k || leaves::under(path, k))
}

/// Whether some step puts a leaf in place or, where that is allowed, leaves what is on
/// disk there.
pub open spec fn shown(
    steps: Seq<CloneStepView>,
    root: TreeNode,
    top: Seq<char>,
    k: Seq<char>,
    l: Leaf,
    may_skip: bool,
) -> bool {
    exists|i: int|
        0 <= i < steps.len() && (step_shows(#[trigger] steps[i], root, top, k, l) || may_skip
            && step_skips(steps[i], k))
}

/// A further step keeps what is in place.
pub proof fn lemma_shown_push(
    steps: Seq<CloneStepView>,
    s: CloneStepView,
    root: TreeNode,
    top: Seq<char>,
    k: Seq<char>,
    l: Leaf,
    may_skip: bool,
)
    ensures
        shown(steps, root, top, k, l, may_skip) ==> shown(
            steps.push(s),
            root,
            top,
            k,
            l,
            may_skip,
        ),
        step_shows(s, root, top, k, l) || may_skip && step_skips(s, k) ==> shown(
            steps.push(s),
            root,
            top,
            k,
            l,
            may_skip,
        ),
{
    if shown(steps, root, top, k, l, may_skip) {
        let i = choose|i: int|
            0 <= i < steps.len() && (step_shows(#[trigger] steps[i], root, top, k, l) || may_skip
                && step_skips(steps[i], k));
        assert(steps.push(s)[i] == steps[i]);
    }
    assert(steps.push(s)[steps.len() as int] == s);
}

/// What a directory of a tree has lies below it, and a stub of the directory stands for it.
pub proof fn lemma_stub_holds(
    root: TreeNode,
    top: Seq<char>,
    path: Seq<char>,
    node: TreeNode,
    k: Seq<char>,
    l: Leaf,
)
    requires
        leaves::has_dir(root, top, path, node),
        leaves::leaf_at(node, path, k) == Some(l),
    ensures
        holds_leaf(root, top, path, node.hash, k, l),
{
    if path.len() > 0 {
        leaves::lemma_leaf_under(node, path, k);
    }
}

/// A clone is complete: every file and symlink of the tree is written or stubbed with the
/// content and mode that the tree gives it, or lies in a directory of the tree whose hash a
/// stub names. With force, it may also be that something stands on disk at the path or
/// above it, and is left there.
pub proof fn law_clone_is_complete(
    node: TreeNode,
    dir: Seq<char>,
    disk: Option<Seq<DiskEntry>>,
    m: Mode,
    in_git: bool,
    acc: Seq<CloneStepView>,
    k: Seq<char>,
    l: Leaf,
)
    requires
        clone_tree(node, dir, disk, m, in_git, acc) is Ok,
        leaves::leaf_at(node, dir, k) == Some(l),
    ensures
        shown(
            clone_tree(node, dir, disk, m, in_git, acc)->Ok_0,
            node,
            dir,
            k,
            l,
            m.force,
        ),
{
    lemma_tree_complete(node, dir, node, dir, disk, m, in_git, acc, k, l);
}

proof fn lemma_tree_complete(
    root: TreeNode,
    top: Seq<char>,
    node: TreeNode,
    dir: Seq<char>,
    disk: Option<Seq<DiskEntry>>,
    m: Mode,
    in_git: bool,
    acc: Seq<CloneStepView>,
    k: Seq<char>,
    l: Leaf,
)
    requires
        leaves::reaches_dir(root, top, dir, node),
        clone_tree(node, dir, disk, m, in_git, acc) is Ok,
        leaves::leaf_at(node, dir, k) == Some(l) || shown(acc, root, top, k, l, m.force),
    ensures
        shown(
            clone_tree(node, dir, disk, m, in_git, acc)->Ok_0,
            root,
            top,
            k,
            l,
            m.force,
        ),
    decreases node, 0nat,
{
    if let Content::Entries(es) = node.content {
        let start = acc.push(CloneStepView::CreateDir { path: dir });
        lemma_shown_push(
            acc,
            CloneStepView::CreateDir { path: dir },
            root,
            top,
            k,
            l,
            m.force,
        );
        lemma_listing_complete(
            root,
            top,
            node,
            es@,
            es@.len(),
            dir,
            disk,
            m,
            in_git || pull::has_git_dir(es@),
            start,
            k,
            l,
        );
    }
}

proof fn lemma_listing_complete(
    root: TreeNode,
    top: Seq<char>,
    own_node: TreeNode,
    es: Seq<TreeEntry>,
    n: nat,
    dir: Seq<char>,
    disk: Option<Seq<DiskEntry>>,
    m: Mode,
    in_git: bool,
    acc: Seq<CloneStepView>,
    k: Seq<char>,
    l: Leaf,
)
    requires
        leaves::reaches_dir(root, top, dir, own_node),
        own_node.content matches Content::Entries(v) && v@ == es,
        n <= es.len(),
        clone_listing(es, n, dir, disk, m, in_git, acc) is Ok,
        leaves::leaf_in(es, n, dir, k) == Some(l) || shown(acc, root, top, k, l, m.force),
    ensures
        shown(
            clone_listing(es, n, dir, disk, m, in_git, acc)->Ok_0,
            root,
            top,
            k,
            l,
            m.force,
        ),
    decreases es, n,
{
    if n > 0 {
        let steps = clone_listing(es, (n - 1) as nat, dir, disk, m, in_git, acc)->Ok_0;
        let all = clone_listing(es, n, dir, disk, m, in_git, acc)->Ok_0;
        let e = es[n - 1];
        let path = text::joined(dir, e.name_text());
        let own = leaves::entry_leaf(e, dir, k);
        if shown(acc, root, top, k, l, m.force) || own is None {
            lemma_listing_complete(
                root,
                top,
                own_node,
                es,
                (n - 1) as nat,
                dir,
                disk,
                m,
                in_git,
                acc,
                k,
                l,
            );
        }
        match e {
            TreeEntry::Tree { size, mtime, node, .. } => {
                leaves::lemma_dir_of_dir(root, top, dir, own_node, es, n - 1);
                if (in_the_way(disk, e.name_text(), m) matches Some(there) && !(there.kind is Dir)) {
                    if own == Some(l) {
                        lemma_stub_holds(root, top, path, node, k, l);
                    }
                    lemma_shown_push(steps, all.last(), root, top, k, l, m.force);
                } else if is_stubbed(size, m, in_git) {
                    if own == Some(l) {
                        lemma_stub_holds(root, top, path, node, k, l);
                    }
                    lemma_shown_push(steps, all.last(), root, top, k, l, m.force);
                } else {
                    let git = in_git || e.name_text() == ".git"@;
                    let sub = below(disk, e.name_text());
                    lemma_tree_complete(root, top, node, path, sub, m, git, steps, k, l);
                    let more = clone_tree(node, path, sub, m, git, steps)->Ok_0;
                    if let Some(t) = mtime {
                        lemma_shown_push(
                            more,
                            CloneStepView::SetDirTime { path, mtime: t },
                            root,
                            top,
                            k,
                            l,
                            m.force,
                        );
                    }
                }
            },
            _ => {
                lemma_shown_push(steps, all.last(), root, top, k, l, m.force);
            },
        }
    }
}

} // verus!
