//! What a clone does with each entry.

use super::populate::{self, CloneStepView, Kind, Mode};
use crate::commands::pull;
use crate::object::{Content, StubRecord, TreeEntry, TreeNode};
use crate::text;
use crate::worktree::DiskEntry;
use vstd::prelude::*;

verus! {

spec fn goes_on(a: Seq<CloneStepView>, b: Seq<CloneStepView>) -> bool {
    a.len() <= b.len() && forall|i: int| 0 <= i < a.len() ==> #[trigger] b[i] == a[i]
}

proof fn lemma_tree_goes_on(
    node: TreeNode,
    dir: Seq<char>,
    disk: Option<Seq<DiskEntry>>,
    m: Mode,
    in_git: bool,
    acc: Seq<CloneStepView>,
)
    requires
        populate::clone_tree(node, dir, disk, m, in_git, acc) is Ok,
    ensures
        goes_on(acc, populate::clone_tree(node, dir, disk, m, in_git, acc)->Ok_0),
    decreases node, 0nat,
{
    if let Content::Entries(es) = node.content {
        let start = acc.push(CloneStepView::CreateDir { path: dir });
        lemma_listing_goes_on(
            es@,
            es@.len(),
            dir,
            disk,
            m,
            in_git || pull::has_git_dir(es@),
            start,
        );
        let r = populate::clone_tree(node, dir, disk, m, in_git, acc)->Ok_0;
        assert forall|i: int| 0 <= i < acc.len() implies #[trigger] r[i] == acc[i] by {
            assert(start[i] == acc[i]);
        }
    }
}

proof fn lemma_listing_goes_on(
    es: Seq<TreeEntry>,
    n: nat,
    dir: Seq<char>,
    disk: Option<Seq<DiskEntry>>,
    m: Mode,
    in_git: bool,
    acc: Seq<CloneStepView>,
)
    requires
        populate::clone_listing(es, n, dir, disk, m, in_git, acc) is Ok,
    ensures
        goes_on(acc, populate::clone_listing(es, n, dir, disk, m, in_git, acc)->Ok_0),
    decreases es, n,
{
    if n > 0 && n <= es.len() {
        lemma_listing_goes_on(es, (n - 1) as nat, dir, disk, m, in_git, acc);
        lemma_entry_goes_on(es, n, dir, disk, m, in_git, acc);
        let prev = populate::clone_listing(es, (n - 1) as nat, dir, disk, m, in_git, acc)->Ok_0;
        let r = populate::clone_listing(es, n, dir, disk, m, in_git, acc)->Ok_0;
        assert forall|i: int| 0 <= i < acc.len() implies #[trigger] r[i] == acc[i] by {
            assert(prev[i] == acc[i]);
        }
    }
}

proof fn lemma_entry_goes_on(
    es: Seq<TreeEntry>,
    n: nat,
    dir: Seq<char>,
    disk: Option<Seq<DiskEntry>>,
    m: Mode,
    in_git: bool,
    acc: Seq<CloneStepView>,
)
    requires
        0 < n <= es.len(),
        populate::clone_listing(es, n, dir, disk, m, in_git, acc) is Ok,
    ensures
        goes_on(
            populate::clone_listing(es, (n - 1) as nat, dir, disk, m, in_git, acc)->Ok_0,
            populate::clone_listing(es, n, dir, disk, m, in_git, acc)->Ok_0,
        ),
    decreases es[n - 1], 1nat,
{
    let prev = populate::clone_listing(es, (n - 1) as nat, dir, disk, m, in_git, acc)->Ok_0;
    let r = populate::clone_listing(es, n, dir, disk, m, in_git, acc)->Ok_0;
    let e = es[n - 1];
    let name = e.name_text();
    let path = text::joined(dir, name);
    if let TreeEntry::Tree { size, mtime, node, .. } = e {
        if !(populate::in_the_way(disk, name, m) matches Some(there) && !(there.kind is Dir))
            && !populate::is_stubbed(size, m, in_git) {
            let below = populate::below(disk, name);
            let git = in_git || name == ".git"@;
            lemma_tree_goes_on(node, path, below, m, git, prev);
            let more = populate::clone_tree(node, path, below, m, git, prev)->Ok_0;
            assert forall|i: int| 0 <= i < prev.len() implies #[trigger] r[i] == prev[i] by {
                assert(more[i] == prev[i]);
            }
        }
    }
}

/// Whether something stands under a name in a directory on disk.
pub open spec fn stands(disk: Option<Seq<DiskEntry>>, name: Seq<char>) -> bool {
    disk matches Some(es) && exists|i: int| 0 <= i < es.len() && (#[trigger] es[i]).name@ == name
}

proof fn lemma_stands(es: Seq<DiskEntry>, name: Seq<char>, from: nat)
    ensures
        crate::worktree::first_named(es, name, from) is Some <==> exists|i: int|
            from <= i < es.len() && (#[trigger] es[i]).name@ == name,
        crate::worktree::first_named(es, name, from) matches Some(i) ==> from <= i < es.len()
            && es[i as int].name@ == name,
    decreases es.len() - from,
{
    if from < es.len() && es[from as int].name@ != name {
        lemma_stands(es, name, from + 1);
    }
}

proof fn lemma_in_the_way(disk: Option<Seq<DiskEntry>>, name: Seq<char>, m: Mode)
    ensures
        populate::in_the_way(disk, name, m) is Some <==> m.force && stands(disk, name),
{
    if let Some(es) = disk {
        lemma_stands(es, name, 0);
    }
}

/// Whether a stub says all that the tree records of a file.
pub open spec fn records(r: StubRecord, e: TreeEntry) -> bool {
    match e {
        TreeEntry::Blob { hash, size, mtime, mode, .. } => r.hash == hash && r.size == size
            && r.mtime == mtime && r.mode == mode,
        TreeEntry::Tree { size, mtime, blob_count, node, .. } => r.hash == node.hash && r.size
            == size && r.mtime == mtime && r.blob_count == blob_count,
        TreeEntry::Symlink { .. } => false,
    }
}

/// Whether a step does what is to be done with an entry at a path: with force, what stands
/// there is left alone; else it is a stub from the threshold on, but not in a Git repository,
/// and written out below it. A directory that is written out is made.
pub open spec fn does(
    s: CloneStepView,
    e: TreeEntry,
    path: Seq<char>,
    threshold: u64,
    in_git: bool,
    left_alone: bool,
) -> bool {
    match e {
        TreeEntry::Blob { hash, size, mtime, mode, .. } => if left_alone {
            s == (CloneStepView::Skip { path })
        } else if threshold > 0 && size >= threshold && !in_git {
            s matches CloneStepView::StubFile { path: p, record } && p == path && records(record, e)
        } else {
            s == (CloneStepView::WriteFile { path, hash, mtime, mode })
        },
        TreeEntry::Symlink { target, mtime, .. } => s == (CloneStepView::WriteLink {
            path,
            target,
            mtime,
        }),
        TreeEntry::Tree { size, .. } => if left_alone {
            s == (CloneStepView::Skip { path })
        } else if threshold > 0 && size >= threshold && !in_git {
            s matches CloneStepView::StubDir { path: p, record } && p == path && records(record, e)
        } else {
            s == (CloneStepView::CreateDir { path })
        },
    }
}

/// Whether the steps from `from` on do what is to be done with an entry.
pub open spec fn is_done(
    steps: Seq<CloneStepView>,
    from: int,
    e: TreeEntry,
    path: Seq<char>,
    threshold: u64,
    in_git: bool,
    left_alone: bool,
) -> bool {
    exists|j: int|
        from <= j < steps.len() && does(
            #[trigger] steps[j],
            e,
            path,
            threshold,
            in_git,
            left_alone,
        )
}

/// Whether an entry is left alone: with force, where something stands under its name on disk,
/// a directory for a directory aside.
pub open spec fn is_left_alone(disk: Option<Seq<DiskEntry>>, e: TreeEntry, force: bool) -> bool {
    force && stands(disk, e.name_text()) && (e is Tree ==> !(populate::on_disk(
        disk,
        e.name_text(),
    )->0.kind is Dir))
}

/// Each entry of a directory is dealt with in its place.
pub proof fn law_each_entry_is_dealt_with(
    es: Seq<TreeEntry>,
    n: nat,
    dir: Seq<char>,
    disk: Option<Seq<DiskEntry>>,
    m: Mode,
    in_git: bool,
    acc: Seq<CloneStepView>,
    i: int,
)
    requires
        0 <= i < n <= es.len(),
        populate::clone_listing(es, n, dir, disk, m, in_git, acc) is Ok,
    ensures
        is_done(
            populate::clone_listing(es, n, dir, disk, m, in_git, acc)->Ok_0,
            acc.len() as int,
            es[i],
            text::joined(dir, es[i].name_text()),
            m.threshold,
            in_git,
            is_left_alone(disk, es[i], m.force),
        ),
    decreases n,
{
    let r = populate::clone_listing(es, n, dir, disk, m, in_git, acc)->Ok_0;
    let prev = populate::clone_listing(es, (n - 1) as nat, dir, disk, m, in_git, acc)->Ok_0;
    let path = text::joined(dir, es[i].name_text());
    let alone = is_left_alone(disk, es[i], m.force);
    lemma_entry_goes_on(es, n, dir, disk, m, in_git, acc);
    lemma_listing_goes_on(es, (n - 1) as nat, dir, disk, m, in_git, acc);
    if i < n - 1 {
        law_each_entry_is_dealt_with(es, (n - 1) as nat, dir, disk, m, in_git, acc, i);
        let j = choose|j: int|
            acc.len() <= j < prev.len() && does(
                #[trigger] prev[j],
                es[i],
                path,
                m.threshold,
                in_git,
                alone,
            );
        assert(r[j] == prev[j]);
    } else {
        let e = es[i];
        let at = prev.len() as int;
        lemma_in_the_way(disk, e.name_text(), m);
        if let TreeEntry::Tree { size, node, .. } = e {
            if !alone && !populate::is_stubbed(size, m, in_git) {
                let below = populate::below(disk, e.name_text());
                let git = in_git || e.name_text() == ".git"@;
                let more = populate::clone_tree(node, path, below, m, git, prev)->Ok_0;
                if let Content::Entries(inner) = node.content {
                    let start = prev.push(CloneStepView::CreateDir { path });
                    lemma_listing_goes_on(
                        inner@,
                        inner@.len(),
                        path,
                        below,
                        m,
                        git || pull::has_git_dir(inner@),
                        start,
                    );
                    assert(more[at] == start[at]);
                    assert(r[at] == more[at]);
                }
            }
        }
        assert(does(r[at], e, path, m.threshold, in_git, alone));
    }
}

/// A tree that is written out is made first, and then each of its entries is dealt with; in a
/// Git repository, and below one, without stubs.
pub proof fn law_tree_is_dealt_with(
    node: TreeNode,
    dir: Seq<char>,
    disk: Option<Seq<DiskEntry>>,
    m: Mode,
    in_git: bool,
    acc: Seq<CloneStepView>,
    i: int,
)
    requires
        populate::clone_tree(node, dir, disk, m, in_git, acc) is Ok,
        node.content matches Content::Entries(es) && 0 <= i < es@.len(),
    ensures
        ({
            let es = node.content->Entries_0@;
            let r = populate::clone_tree(node, dir, disk, m, in_git, acc)->Ok_0;
            let git = in_git || exists|j: int|
                0 <= j < es.len() && (#[trigger] es[j]) is Tree && es[j].name_text() == ".git"@;
            &&& r.len() > acc.len() && r[acc.len() as int] == (CloneStepView::CreateDir {
                path: dir,
            })
            &&& is_done(
                r,
                acc.len() as int,
                es[i],
                text::joined(dir, es[i].name_text()),
                m.threshold,
                git,
                is_left_alone(disk, es[i], m.force),
            )
        }),
{
    let es = node.content->Entries_0@;
    let start = acc.push(CloneStepView::CreateDir { path: dir });
    let git = in_git || pull::has_git_dir(es);
    lemma_listing_goes_on(es, es.len(), dir, disk, m, git, start);
    law_each_entry_is_dealt_with(es, es.len(), dir, disk, m, git, start, i);
    let r = populate::clone_tree(node, dir, disk, m, in_git, acc)->Ok_0;
    assert(r[acc.len() as int] == start[acc.len() as int]);
    let path = text::joined(dir, es[i].name_text());
    let alone = is_left_alone(disk, es[i], m.force);
    let j = choose|j: int|
        start.len() <= j < r.len() && does(#[trigger] r[j], es[i], path, m.threshold, git, alone);
    assert(does(r[j], es[i], path, m.threshold, git, alone));
}

// ---------------------------------------------------------------------------
// Numbers
// ---------------------------------------------------------------------------

/// What is counted as expanded is each file that is written, as stubbed each stub, and as
/// skipped each path that stays as it is; the numbers of two parts add up.
pub proof fn law_steps_are_counted(a: Seq<CloneStepView>, b: Seq<CloneStepView>, k: Kind)
    ensures
        populate::count_of(a + b, k) == populate::count_of(a, k) + populate::count_of(b, k),
        forall|s: CloneStepView| #[trigger]
            populate::count_of(seq![s], Kind::Expanded) == if s is WriteFile {
                1nat
            } else {
                0
            },
        forall|s: CloneStepView| #[trigger]
            populate::count_of(seq![s], Kind::Stubbed) == if s is StubFile || s is StubDir {
                1nat
            } else {
                0
            },
        forall|s: CloneStepView| #[trigger]
            populate::count_of(seq![s], Kind::Skipped) == if s is Skip {
                1nat
            } else {
                0
            },
    decreases b.len(),
{
    assert forall|s: CloneStepView, kind: Kind| #[trigger]
        populate::count_of(seq![s], kind) == if populate::counts_as(s, kind) {
            1nat
        } else {
            0
        } by {
        reveal_with_fuel(populate::count_of, 2);
        assert(seq![s].drop_last() =~= seq![]);
        assert(seq![s].last() == s);
    }
    if b.len() == 0 {
        assert(a + b =~= a);
    } else {
        law_steps_are_counted(a, b.drop_last(), k);
        assert((a + b).drop_last() =~= a + b.drop_last());
        assert((a + b).last() == b.last());
    }
}

} // verus!
