//! What conflicts, scoped changes and written directories have to do with the trees.

use super::leaves::{self, Leaf};
use super::{Action, DiffEntry, PathFacts, StepView};
use crate::object::{Content, TreeEntry, TreeNode};
use crate::text;
use vstd::prelude::*;

verus! {

// ---------------------------------------------------------------------------
// Conflicts
// ---------------------------------------------------------------------------

/// Whether a change says what stands at its path afterwards.
pub open spec fn is_definite(change: DiffEntry) -> bool {
    change is Added || change is Modified || change is Deleted || change is Symlink
}

/// Two sides conflict at a path exactly where both changed it and what stands there after
/// the one change has another content than what stands there after the other. A mode or a
/// time alone makes no conflict.
pub proof fn law_conflicts_are_different_contents(
    remote: Map<Seq<char>, DiffEntry>,
    local: Map<Seq<char>, DiffEntry>,
    k: Seq<char>,
    before: Option<Leaf>,
)
    requires
        leaves::change_at(remote, k) matches Some(c) ==> is_definite(c),
        leaves::change_at(local, k) matches Some(c) ==> is_definite(c),
    ensures
        super::conflict_set(remote, local).contains(k) <==> leaves::change_at(remote, k) is Some
            && leaves::change_at(local, k) is Some && !leaves::same_text(
            leaves::outcome(leaves::change_at(remote, k), before),
            leaves::outcome(leaves::change_at(local, k), before),
        ),
{
}

/// A new directory conflicts with a local change of its path, unless both made an empty
/// directory there.
pub proof fn law_new_directories_conflict(
    remote: Map<Seq<char>, DiffEntry>,
    local: Map<Seq<char>, DiffEntry>,
    k: Seq<char>,
)
    requires
        leaves::change_at(remote, k) matches Some(c) && !is_definite(c),
        leaves::change_at(local, k) is Some,
    ensures
        super::conflict_set(remote, local).contains(k) <==> !(remote[k] is AddedEmptyDir
            && local[k] is AddedEmptyDir),
{
}

/// The helper file and the recorded metadata of the remote side of a conflict are what
/// applying the remote change would have written.
pub proof fn law_remote_side_is_what_would_be_applied(
    change: DiffEntry,
    base: Option<TreeEntry>,
    facts: PathFacts,
    i: int,
)
    requires
        0 <= i < super::actions_of(change, 0, facts).len(),
        super::actions_of(change, 0, facts)[i] is Materialise,
    ensures
        super::actions_of(change, 0, facts)[i] matches Action::Materialise { hash, mtime, mode }
            && super::new_content(change) == Some(hash) && (super::meta_of(base, Some(change)).remote matches Some(
        s) && s.mtime == mtime && s.mode == mode),
{
}

// ---------------------------------------------------------------------------
// Scoped changes
// ---------------------------------------------------------------------------

proof fn lemma_all_gone(
    es: Seq<TreeEntry>,
    n: nat,
    acc: Map<Seq<char>, DiffEntry>,
    k: Seq<char>,
)
    requires
        n <= es.len(),
        leaves::well_named(es),
        super::gone_listing(es, n, seq![], acc) is Ok,
    ensures
        ({
            let m = super::gone_listing(es, n, seq![], acc)->Ok_0;
            &&& leaves::gone_at(acc, m, k)
            &&& leaves::leaf_in(es, n, seq![], k) is None ==> leaves::change_at(m, k)
                == leaves::change_at(acc, k)
            &&& leaves::leaf_in(es, n, seq![], k) is Some ==> leaves::change_at(m, k) == Some(
                DiffEntry::Deleted,
            )
        }),
    decreases n,
{
    if n > 0 {
        lemma_all_gone(es, (n - 1) as nat, acc, k);
        let m = super::gone_listing(es, (n - 1) as nat, seq![], acc)->Ok_0;
        leaves::lemma_gone_entry(es[n - 1], seq![], m, k);
    }
}

/// What changed on the remote below a path leads from what the clone root has there to what
/// the remote has, whether the path is there on both sides or on one only.
pub proof fn law_scoped_changes_apply(
    clone: Option<TreeNode>,
    remote: Option<TreeNode>,
    threshold: u64,
    k: Seq<char>,
)
    requires
        remote matches Some(t) ==> leaves::comparable_at(clone, t, seq![], k),
        remote is None && clone is Some ==> (clone->0.content matches Content::Entries(es)
            && leaves::well_named(es@)),
        super::scoped_diff(clone, remote, threshold) is Ok,
        k.len() > 0,
    ensures
        ({
            let m = super::scoped_diff(clone, remote, threshold)->Ok_0;
            ||| threshold > 0 && leaves::covered(m, k)
            ||| leaves::outcome(leaves::change_at(m, k), leaves::base_leaf(clone, seq![], k))
                == leaves::base_leaf(remote, seq![], k)
        }),
{
    let m = super::scoped_diff(clone, remote, threshold)->Ok_0;
    reveal_strlit("");
    assert(""@ =~= Seq::<char>::empty());
    if super::root_hash(clone) != super::root_hash(remote) {
        match remote {
            Some(t) => {
                leaves::law_diff_applies(clone, t, threshold, k);
                let d = super::diff_spec(clone, remote, threshold)->Ok_0;
                if threshold > 0 && leaves::covered(d, k) {
                    let p = choose|p: Seq<char>| #[trigger]
                        leaves::stub_at(d, p) && leaves::at_or_above(p, k);
                    assert(leaves::stub_at(m, p));
                }
            },
            None => {
                if let Some(c) = clone {
                    if let Content::Entries(es) = c.content {
                        lemma_all_gone(es@, es@.len(), Map::empty(), k);
                    }
                }
            },
        }
    }
}

/// A path that is new on the remote is never left without a change: an empty directory is
/// one of its own.
pub proof fn law_new_path_is_a_change(remote: TreeNode, threshold: u64)
    requires
        super::scoped_diff(None, Some(remote), threshold) is Ok,
    ensures
        super::scoped_diff(None, Some(remote), threshold)->Ok_0 != Map::<
            Seq<char>,
            DiffEntry,
        >::empty(),
{
    let m = super::scoped_diff(None, Some(remote), threshold)->Ok_0;
    let d = super::diff_tree(None, remote, ""@, Map::empty(), threshold, false)->Ok_0;
    if d == Map::<Seq<char>, DiffEntry>::empty() {
        assert(m.dom().contains(""@));
    }
}

// ---------------------------------------------------------------------------
// Written directories
// ---------------------------------------------------------------------------

/// Whether a tree at `prefix` has the file or symlink `l` at the path `k`.
pub open spec fn has_leaf(node: TreeNode, prefix: Seq<char>, k: Seq<char>, l: Leaf) -> bool
    decreases node, 0nat,
{
    match node.content {
        Content::Entries(es) => exists|i: int|
            0 <= i < es@.len() && entry_has_leaf(#[trigger] es@[i], prefix, k, l),
        _ => false,
    }
}

/// Whether an entry of a tree, in the directory `prefix`, has the file or symlink `l` at the
/// path `k`.
pub open spec fn entry_has_leaf(e: TreeEntry, prefix: Seq<char>, k: Seq<char>, l: Leaf) -> bool
    decreases e, 0nat,
{
    let path = text::joined(prefix, e.name_text());
    match e {
        TreeEntry::Blob { hash, mode, .. } => k == path && l == (Leaf::File {
            hash,
            mode: text::opt_view(mode),
        }),
        TreeEntry::Symlink { target, .. } => k == path && l == (Leaf::Link { target: target@ }),
        TreeEntry::Tree { node, .. } => has_leaf(node, path, k, l),
    }
}

/// Whether a step writes a file or symlink.
pub open spec fn writes(s: StepView, k: Seq<char>, l: Leaf) -> bool {
    match s {
        StepView::WriteFile { path, hash, mode, .. } => path == k && l == (Leaf::File {
            hash,
            mode: text::opt_view(mode),
        }),
        StepView::WriteLink { path, target, .. } => path == k && l == (Leaf::Link {
            target: target@,
        }),
        _ => false,
    }
}

/// Whether a step makes a directory.
pub open spec fn makes(s: StepView, k: Seq<char>) -> bool {
    s matches StepView::CreateDir { path } && path == k
}

/// Whether the steps from `from` on write a file or symlink.
pub open spec fn written_from(steps: Seq<StepView>, from: int, k: Seq<char>, l: Leaf) -> bool {
    exists|i: int| from <= i < steps.len() && writes(#[trigger] steps[i], k, l)
}

/// Whether the steps from `from` on make a directory.
pub open spec fn made_from(steps: Seq<StepView>, from: int, k: Seq<char>) -> bool {
    exists|i: int| from <= i < steps.len() && makes(#[trigger] steps[i], k)
}

/// Whether a tree at `prefix` is, or has, a directory at the path `k`.
pub open spec fn is_dir(node: TreeNode, prefix: Seq<char>, k: Seq<char>) -> bool {
    k == prefix || exists|d: TreeNode| #[trigger] leaves::has_dir(node, prefix, k, d)
}

spec fn goes_on(a: Seq<StepView>, b: Seq<StepView>) -> bool {
    a.len() <= b.len() && forall|i: int| 0 <= i < a.len() ==> #[trigger] b[i] == a[i]
}

proof fn lemma_write_tree(
    node: TreeNode,
    dir: Seq<char>,
    acc: Seq<StepView>,
    k: Seq<char>,
    l: Leaf,
)
    requires
        super::write_tree(node, dir, acc) is Ok,
    ensures
        ({
            let steps = super::write_tree(node, dir, acc)->Ok_0;
            &&& goes_on(acc, steps)
            &&& written_from(steps, acc.len() as int, k, l) <==> has_leaf(node, dir, k, l)
            &&& made_from(steps, acc.len() as int, k) <==> is_dir(node, dir, k)
        }),
    decreases node, 1nat,
{
    let steps = super::write_tree(node, dir, acc)->Ok_0;
    if let Content::Entries(es) = node.content {
        let first = acc.push(StepView::CreateDir { path: dir });
        lemma_write_listing(es@, es@.len(), dir, first, k, l);
        assert(steps[acc.len() as int] == first[acc.len() as int]);
        if written_from(steps, acc.len() as int, k, l) {
            let i = choose|i: int|
                acc.len() <= i < steps.len() && writes(#[trigger] steps[i], k, l);
            assert(i >= first.len());
            assert(written_from(steps, first.len() as int, k, l));
        }
        if written_from(steps, first.len() as int, k, l) {
            let i = choose|i: int|
                first.len() <= i < steps.len() && writes(#[trigger] steps[i], k, l);
            assert(written_from(steps, acc.len() as int, k, l));
        }
        if made_from(steps, acc.len() as int, k) && k != dir {
            let i = choose|i: int| acc.len() <= i < steps.len() && makes(#[trigger] steps[i], k);
            assert(i >= first.len());
            assert(made_from(steps, first.len() as int, k));
            let j = choose|j: int|
                0 <= j < es@.len() && exists|d: TreeNode| #[trigger]
                    leaves::entry_has_dir(#[trigger] es@[j], dir, k, d);
            let d = choose|d: TreeNode| #[trigger] leaves::entry_has_dir(es@[j], dir, k, d);
            assert(leaves::entry_has_dir(es@[j], dir, k, d));
            assert(leaves::has_dir(node, dir, k, d));
        }
        if k == dir {
            assert(makes(steps[acc.len() as int], k));
        } else if is_dir(node, dir, k) {
            let d = choose|d: TreeNode| #[trigger] leaves::has_dir(node, dir, k, d);
            let j = choose|j: int|
                0 <= j < es@.len() && leaves::entry_has_dir(#[trigger] es@[j], dir, k, d);
            assert(leaves::entry_has_dir(es@[j], dir, k, d));
            let i = choose|i: int| first.len() <= i < steps.len() && makes(#[trigger] steps[i], k);
            assert(makes(steps[i], k));
        }
    }
}

proof fn lemma_write_listing(
    es: Seq<TreeEntry>,
    n: nat,
    dir: Seq<char>,
    acc: Seq<StepView>,
    k: Seq<char>,
    l: Leaf,
)
    requires
        n <= es.len(),
        super::write_listing(es, n, dir, acc) is Ok,
    ensures
        ({
            let steps = super::write_listing(es, n, dir, acc)->Ok_0;
            &&& goes_on(acc, steps)
            &&& written_from(steps, acc.len() as int, k, l) <==> exists|i: int|
                0 <= i < n && entry_has_leaf(#[trigger] es[i], dir, k, l)
            &&& made_from(steps, acc.len() as int, k) <==> exists|i: int|
                0 <= i < n && exists|d: TreeNode| #[trigger]
                    leaves::entry_has_dir(#[trigger] es[i], dir, k, d)
        }),
    decreases es, n,
{
    let steps = super::write_listing(es, n, dir, acc)->Ok_0;
    if n > 0 {
        lemma_write_listing(es, (n - 1) as nat, dir, acc, k, l);
        let prev = super::write_listing(es, (n - 1) as nat, dir, acc)->Ok_0;
        let e = es[n - 1];
        let path = text::joined(dir, e.name_text());
        if let TreeEntry::Tree { mtime, node, .. } = e {
            lemma_write_tree(node, path, prev, k, l);
            let more = super::write_tree(node, path, prev)->Ok_0;
            assert(goes_on(more, steps));
            assert(steps.len() > more.len() ==> !writes(steps[more.len() as int], k, l) && !makes(
                steps[more.len() as int],
                k,
            ));
            if k == path {
                assert(leaves::entry_has_dir(e, dir, k, node));
            }
            if exists|d: TreeNode| #[trigger] leaves::has_dir(node, path, k, d) {
                let d = choose|d: TreeNode| #[trigger] leaves::has_dir(node, path, k, d);
                assert(leaves::entry_has_dir(e, dir, k, d));
            }
            if exists|d: TreeNode| #[trigger] leaves::entry_has_dir(e, dir, k, d) {
                let d = choose|d: TreeNode| #[trigger] leaves::entry_has_dir(e, dir, k, d);
                assert(is_dir(node, path, k)) by {
                    if k != path {
                        assert(leaves::has_dir(node, path, k, d));
                    }
                }
            }
            lemma_parts(prev, more, steps, acc.len() as int, k, l);
        } else {
            assert forall|d: TreeNode| !#[trigger] leaves::entry_has_dir(e, dir, k, d) by {}
            assert(steps == prev.push(steps[prev.len() as int]));
            assert(writes(steps[prev.len() as int], k, l) <==> entry_has_leaf(e, dir, k, l));
            assert(!makes(steps[prev.len() as int], k));
            lemma_parts(prev, steps, steps, acc.len() as int, k, l);
            if entry_has_leaf(e, dir, k, l) {
                assert(written_from(steps, prev.len() as int, k, l));
            }
        }
        assert(entry_has_leaf(es[n - 1], dir, k, l) <==> written_from(
            steps,
            prev.len() as int,
            k,
            l,
        ));
        if exists|i: int| 0 <= i < n && entry_has_leaf(#[trigger] es[i], dir, k, l) {
            let i = choose|i: int| 0 <= i < n && entry_has_leaf(#[trigger] es[i], dir, k, l);
            if i < n - 1 {
                assert(written_from(prev, acc.len() as int, k, l));
            }
        }
        if written_from(prev, acc.len() as int, k, l) {
            let i = choose|i: int| 0 <= i < n - 1 && entry_has_leaf(#[trigger] es[i], dir, k, l);
            assert(entry_has_leaf(es[i], dir, k, l));
        }
        if exists|i: int|
            0 <= i < n && exists|d: TreeNode| #[trigger]
                leaves::entry_has_dir(#[trigger] es[i], dir, k, d) {
            let i = choose|i: int|
                0 <= i < n && exists|d: TreeNode| #[trigger]
                    leaves::entry_has_dir(#[trigger] es[i], dir, k, d);
            if i < n - 1 {
                assert(made_from(prev, acc.len() as int, k));
            }
        }
        if made_from(prev, acc.len() as int, k) {
            let i = choose|i: int|
                0 <= i < n - 1 && exists|d: TreeNode| #[trigger]
                    leaves::entry_has_dir(#[trigger] es[i], dir, k, d);
            let d = choose|d: TreeNode| #[trigger] leaves::entry_has_dir(es[i], dir, k, d);
            assert(leaves::entry_has_dir(es[i], dir, k, d));
        }
    }
}

/// What is written or made in a run of steps is so in its first part or in its second.
proof fn lemma_parts(
    prev: Seq<StepView>,
    more: Seq<StepView>,
    steps: Seq<StepView>,
    from: int,
    k: Seq<char>,
    l: Leaf,
)
    requires
        0 <= from <= prev.len(),
        goes_on(prev, more),
        goes_on(more, steps),
        forall|i: int|
            more.len() <= i < steps.len() ==> !writes(#[trigger] steps[i], k, l) && !makes(
                steps[i],
                k,
            ),
    ensures
        written_from(steps, from, k, l) <==> written_from(prev, from, k, l) || written_from(
            more,
            prev.len() as int,
            k,
            l,
        ),
        written_from(steps, prev.len() as int, k, l) == written_from(more, prev.len() as int, k, l),
        made_from(steps, from, k) <==> made_from(prev, from, k) || made_from(
            more,
            prev.len() as int,
            k,
        ),
        goes_on(prev, steps),
{
    assert forall|i: int| 0 <= i < prev.len() implies #[trigger] steps[i] == prev[i] by {
        assert(more[i] == prev[i]);
    }
    if written_from(steps, from, k, l) {
        let i = choose|i: int| from <= i < steps.len() && writes(#[trigger] steps[i], k, l);
        if i < prev.len() {
            assert(writes(prev[i], k, l));
        } else {
            assert(writes(more[i], k, l));
        }
    }
    if written_from(prev, from, k, l) {
        let i = choose|i: int| from <= i < prev.len() && writes(#[trigger] prev[i], k, l);
        assert(writes(steps[i], k, l));
    }
    if written_from(more, prev.len() as int, k, l) {
        let i = choose|i: int| prev.len() <= i < more.len() && writes(#[trigger] more[i], k, l);
        assert(writes(steps[i], k, l));
    }
    if written_from(steps, prev.len() as int, k, l) {
        let i = choose|i: int| prev.len() <= i < steps.len() && writes(#[trigger] steps[i], k, l);
        assert(writes(more[i], k, l));
    }
    if made_from(steps, from, k) {
        let i = choose|i: int| from <= i < steps.len() && makes(#[trigger] steps[i], k);
        if i < prev.len() {
            assert(makes(prev[i], k));
        } else {
            assert(makes(more[i], k));
        }
    }
    if made_from(prev, from, k) {
        let i = choose|i: int| from <= i < prev.len() && makes(#[trigger] prev[i], k);
        assert(makes(steps[i], k));
    }
    if made_from(more, prev.len() as int, k) {
        let i = choose|i: int| prev.len() <= i < more.len() && makes(#[trigger] more[i], k);
        assert(makes(steps[i], k));
    }
}

/// Writing out a directory writes every file and symlink that it has, with its content and
/// mode, makes every directory, and nothing else.
pub proof fn law_directory_is_written_out(
    node: TreeNode,
    dir: Seq<char>,
    acc: Seq<StepView>,
    k: Seq<char>,
    l: Leaf,
)
    requires
        super::write_tree(node, dir, acc) is Ok,
    ensures
        ({
            let steps = super::write_tree(node, dir, acc)->Ok_0;
            &&& steps.len() >= acc.len() && steps.take(acc.len() as int) == acc
            &&& written_from(steps, acc.len() as int, k, l) <==> has_leaf(node, dir, k, l)
            &&& made_from(steps, acc.len() as int, k) <==> is_dir(node, dir, k)
        }),
{
    lemma_write_tree(node, dir, acc, k, l);
    let steps = super::write_tree(node, dir, acc)->Ok_0;
    assert(steps.take(acc.len() as int) =~= acc);
}

// ---------------------------------------------------------------------------
// Directories of paths
// ---------------------------------------------------------------------------

/// The directory of a path is the one that its last name was joined to.
pub proof fn law_parent_of_joined(dir: Seq<char>, name: Seq<char>)
    requires
        !name.contains('/'),
    ensures
        super::parent_of(text::joined(dir, name)) == dir,
    decreases name.len(),
{
    if name.len() > 0 {
        let shorter = name.drop_last();
        assert(!shorter.contains('/')) by {
            if shorter.contains('/') {
                let i = choose|i: int| 0 <= i < shorter.len() && shorter[i] == '/';
                assert(name[i] == '/');
            }
        }
        law_parent_of_joined(dir, shorter);
        assert(name.last() != '/') by {
            assert(name.contains(name[name.len() - 1]));
        }
        assert(text::joined(dir, name).drop_last() =~= text::joined(dir, shorter));
        assert(text::joined(dir, name).last() == name.last());
    } else {
        if dir.len() > 0 {
            assert(text::joined(dir, name) =~= dir.push('/'));
            assert(dir.push('/').drop_last() =~= dir);
        } else {
            assert(text::joined(dir, name) =~= dir);
        }
    }
}

proof fn lemma_depth_of_sum(a: Seq<char>, b: Seq<char>)
    ensures
        super::depth_of(a + b) == super::depth_of(a) + super::depth_of(b),
    decreases b.len(),
{
    if b.len() > 0 {
        lemma_depth_of_sum(a, b.drop_last());
        assert((a + b).drop_last() =~= a + b.drop_last());
    } else {
        assert(a + b =~= a);
    }
}

/// A directory below another is the deeper of the two, so that it is looked at first.
pub proof fn law_below_is_deeper(dir: Seq<char>, k: Seq<char>)
    requires
        text::has_prefix(k, dir.push('/')),
    ensures
        super::depth_of(k) > super::depth_of(dir),
{
    let rest = k.skip(dir.len() as int + 1);
    assert(k =~= dir.push('/') + rest);
    lemma_depth_of_sum(dir.push('/'), rest);
    assert(dir.push('/').drop_last() =~= dir);
}

// ---------------------------------------------------------------------------
// What of the clone root is on disk
// ---------------------------------------------------------------------------

/// The files and symlinks of the clone root that are looked at are there in it, each under
/// its own path, and everything that stands in its root itself is looked at.
pub proof fn law_flat_tree_is_of_the_tree(
    es: Seq<TreeEntry>,
    n: nat,
    prefix: Seq<char>,
    dirs: Set<Seq<char>>,
    acc: Map<Seq<char>, TreeEntry>,
    k: Seq<char>,
)
    requires
        n <= es.len(),
        super::flat_listing(es, n, prefix, dirs, acc) is Ok,
    ensures
        ({
            let m = super::flat_listing(es, n, prefix, dirs, acc)->Ok_0;
            &&& m.dom().contains(k) <==> acc.dom().contains(k) || exists|i: int|
                0 <= i < n && on_disk(#[trigger] es[i], prefix, dirs, k)
            &&& m.dom().contains(k) && !(m[k] is Tree) ==> acc.dom().contains(k) && m[k] == acc[k]
                || exists|i: int|
                0 <= i < n && entry_has_leaf(#[trigger] es[i], prefix, k, leaf_of(m[k]))
        }),
    decreases es, n,
{
    if n > 0 {
        law_flat_tree_is_of_the_tree(es, (n - 1) as nat, prefix, dirs, acc, k);
        let prev = super::flat_listing(es, (n - 1) as nat, prefix, dirs, acc)->Ok_0;
        let m = super::flat_listing(es, n, prefix, dirs, acc)->Ok_0;
        let e = es[n - 1];
        let path = text::joined(prefix, e.name_text());
        if let TreeEntry::Tree { node, .. } = e {
            if dirs.contains(path) {
                let below = super::flat_tree(node, path, dirs, prev);
                assert(below == super::flat_listing(es, n, prefix, dirs, acc));
                if let Content::Entries(inner) = node.content {
                    assert(below == super::flat_listing(
                        inner@,
                        inner@.len(),
                        path,
                        dirs,
                        prev,
                    ));
                    law_flat_tree_is_of_the_tree(inner@, inner@.len(), path, dirs, prev, k);
                    if exists|j: int|
                        0 <= j < inner@.len() && on_disk(#[trigger] inner@[j], path, dirs, k) {
                        assert(on_disk(e, prefix, dirs, k));
                    }
                    if exists|j: int|
                        0 <= j < inner@.len() && entry_has_leaf(
                            #[trigger] inner@[j],
                            path,
                            k,
                            leaf_of(m[k]),
                        ) {
                        assert(entry_has_leaf(e, prefix, k, leaf_of(m[k])));
                    }
                }
            }
        }
        if on_disk(e, prefix, dirs, k) {
            assert(on_disk(es[n - 1], prefix, dirs, k));
        }
        if exists|i: int| 0 <= i < n - 1 && on_disk(#[trigger] es[i], prefix, dirs, k) {
            let i = choose|i: int| 0 <= i < n - 1 && on_disk(#[trigger] es[i], prefix, dirs, k);
            assert(on_disk(es[i], prefix, dirs, k));
        }
        if m.dom().contains(k) && !(m[k] is Tree) {
            if entry_has_leaf(e, prefix, k, leaf_of(m[k])) {
                assert(entry_has_leaf(es[n - 1], prefix, k, leaf_of(m[k])));
            } else {
                assert(prev.dom().contains(k) && prev[k] == m[k]);
                if exists|i: int|
                    0 <= i < n - 1 && entry_has_leaf(#[trigger] es[i], prefix, k, leaf_of(m[k])) {
                    let i = choose|i: int|
                        0 <= i < n - 1 && entry_has_leaf(
                            #[trigger] es[i],
                            prefix,
                            k,
                            leaf_of(m[k]),
                        );
                    assert(entry_has_leaf(es[i], prefix, k, leaf_of(m[k])));
                }
            }
        }
    }
}

/// The file or symlink of an entry.
pub open spec fn leaf_of(e: TreeEntry) -> Leaf {
    match e {
        TreeEntry::Blob { hash, mode, .. } => Leaf::File { hash, mode: text::opt_view(mode) },
        TreeEntry::Symlink { target, .. } => Leaf::Link { target: target@ },
        TreeEntry::Tree { node, .. } => Leaf::File { hash: node.hash, mode: None },
    }
}

/// Whether an entry has a file or symlink at a path, in directories that are all on disk.
pub open spec fn on_disk(e: TreeEntry, prefix: Seq<char>, dirs: Set<Seq<char>>, k: Seq<char>) -> bool
    decreases e, 0nat,
{
    let path = text::joined(prefix, e.name_text());
    match e {
        TreeEntry::Tree { node, .. } => dirs.contains(path) && (
        node.content matches Content::Entries(es) && exists|i: int|
            0 <= i < es@.len() && on_disk(#[trigger] es@[i], path, dirs, k)),
        _ => k == path,
    }
}

} // verus!
