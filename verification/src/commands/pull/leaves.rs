//! The files and symlinks of a tree by path, and what a diff does to them.

use super::DiffEntry;
use crate::object::{self, Content, Halt, ObjectHash, TreeEntry, TreeNode};
use crate::text;
use vstd::prelude::*;

verus! {

/// What stands at a path that is no directory.
#[verifier::ext_equal]
pub enum Leaf {
    File { hash: ObjectHash, mode: Option<Seq<char>> },
    Link { target: Seq<char> },
}

/// What an entry of a tree, in the directory `prefix`, has at the path `k`.
pub open spec fn entry_leaf(e: TreeEntry, prefix: Seq<char>, k: Seq<char>) -> Option<Leaf>
    decreases e, 0nat,
{
    let path = text::joined(prefix, e.name_text());
    match e {
        TreeEntry::Blob { hash, mode, .. } => if k == path {
            Some(Leaf::File { hash, mode: text::opt_view(mode) })
        } else {
            None
        },
        TreeEntry::Symlink { target, .. } => if k == path {
            Some(Leaf::Link { target: target@ })
        } else {
            None
        },
        TreeEntry::Tree { node, .. } => leaf_at(node, path, k),
    }
}

/// What a tree at `prefix` has at the path `k`.
pub open spec fn leaf_at(node: TreeNode, prefix: Seq<char>, k: Seq<char>) -> Option<Leaf>
    decreases node, 0nat,
{
    match node.content {
        Content::Entries(es) => leaf_in(es@, es@.len(), prefix, k),
        _ => None,
    }
}

/// What the first `n` entries of a tree at `prefix` have at the path `k`.
pub open spec fn leaf_in(es: Seq<TreeEntry>, n: nat, prefix: Seq<char>, k: Seq<char>) -> Option<Leaf>
    decreases es, n,
{
    if n == 0 || n > es.len() {
        None
    } else {
        match entry_leaf(es[n - 1], prefix, k) {
            Some(l) => Some(l),
            None => leaf_in(es, (n - 1) as nat, prefix, k),
        }
    }
}

/// The directory that an entry of a tree, in the directory `prefix`, has at the path `k`.
pub open spec fn entry_dir(e: TreeEntry, prefix: Seq<char>, k: Seq<char>) -> Option<TreeNode>
    decreases e, 0nat,
{
    let path = text::joined(prefix, e.name_text());
    match e {
        TreeEntry::Tree { node, .. } => if k == path {
            Some(node)
        } else {
            dir_at(node, path, k)
        },
        _ => None,
    }
}

/// The directory that a tree at `prefix` has at the path `k`.
pub open spec fn dir_at(node: TreeNode, prefix: Seq<char>, k: Seq<char>) -> Option<TreeNode>
    decreases node, 0nat,
{
    match node.content {
        Content::Entries(es) => dir_in(es@, es@.len(), prefix, k),
        _ => None,
    }
}

/// The directory that the first `n` entries of a tree at `prefix` have at the path `k`.
pub open spec fn dir_in(es: Seq<TreeEntry>, n: nat, prefix: Seq<char>, k: Seq<char>) -> Option<
    TreeNode,
>
    decreases es, n,
{
    if n == 0 || n > es.len() {
        None
    } else {
        match entry_dir(es[n - 1], prefix, k) {
            Some(d) => Some(d),
            None => dir_in(es, (n - 1) as nat, prefix, k),
        }
    }
}

/// Whether a tree at `prefix` has the directory `d` at the path `p`.
pub open spec fn has_dir(node: TreeNode, prefix: Seq<char>, p: Seq<char>, d: TreeNode) -> bool
    decreases node, 0nat,
{
    match node.content {
        Content::Entries(es) => exists|i: int|
            0 <= i < es@.len() && entry_has_dir(#[trigger] es@[i], prefix, p, d),
        _ => false,
    }
}

/// Whether an entry of a tree, in the directory `prefix`, has the directory `d` at the
/// path `p`.
pub open spec fn entry_has_dir(e: TreeEntry, prefix: Seq<char>, p: Seq<char>, d: TreeNode) -> bool
    decreases e, 0nat,
{
    let path = text::joined(prefix, e.name_text());
    match e {
        TreeEntry::Tree { node, .. } => p == path && d == node || has_dir(node, path, p, d),
        _ => false,
    }
}

/// Whether `d` at the path `p` is the tree at `prefix` itself or a directory of it.
pub open spec fn reaches_dir(
    node: TreeNode,
    prefix: Seq<char>,
    p: Seq<char>,
    d: TreeNode,
) -> bool {
    p == prefix && d == node || has_dir(node, prefix, p, d)
}

/// A directory of a directory of a tree is a directory of the tree.
pub proof fn lemma_dir_of_dir(
    root: TreeNode,
    prefix: Seq<char>,
    p: Seq<char>,
    d: TreeNode,
    es: Seq<TreeEntry>,
    i: int,
)
    requires
        reaches_dir(root, prefix, p, d),
        d.content matches Content::Entries(v) && v@ == es,
        0 <= i < es.len(),
        es[i] is Tree,
    ensures
        has_dir(root, prefix, text::joined(p, es[i].name_text()), es[i]->node),
    decreases root,
{
    let path = text::joined(p, es[i].name_text());
    let sub = es[i]->node;
    assert(entry_has_dir(es[i], p, path, sub));
    assert(has_dir(d, p, path, sub));
    if !(p == prefix && d == root) {
        if let Content::Entries(res) = root.content {
            let j = choose|j: int|
                0 <= j < res@.len() && entry_has_dir(#[trigger] res@[j], prefix, p, d);
            if let TreeEntry::Tree { node, .. } = res@[j] {
                let at = text::joined(prefix, res@[j].name_text());
                lemma_dir_of_dir(node, at, p, d, es, i);
                assert(entry_has_dir(res@[j], prefix, path, sub));
            }
        }
    }
}

/// What an optional tree has at the path `k`.
pub open spec fn base_leaf(base: Option<TreeNode>, prefix: Seq<char>, k: Seq<char>) -> Option<Leaf> {
    match base {
        Some(b) => leaf_at(b, prefix, k),
        None => None,
    }
}

/// What stands at a path once a change was applied to what stood there.
pub open spec fn outcome(change: Option<DiffEntry>, before: Option<Leaf>) -> Option<Leaf> {
    match change {
        Some(DiffEntry::Added { hash, mode, .. }) => Some(
            Leaf::File { hash, mode: text::opt_view(mode) },
        ),
        Some(DiffEntry::Modified { hash, mode, .. }) => Some(
            Leaf::File { hash, mode: text::opt_view(mode) },
        ),
        Some(DiffEntry::Symlink { target, .. }) => Some(Leaf::Link { target: target@ }),
        Some(DiffEntry::Deleted) => None,
        _ => before,
    }
}

/// Whether a change leads from what stood at a path to what stands there now, and is
/// there for a difference only. A new empty directory makes none.
pub open spec fn settles(
    change: Option<DiffEntry>,
    before: Option<Leaf>,
    after: Option<Leaf>,
) -> bool {
    &&& outcome(change, before) == after
    &&& before == after ==> change is None || change->0 is AddedEmptyDir
}

/// The change that a diff has for a path.
pub open spec fn change_at(m: Map<Seq<char>, DiffEntry>, k: Seq<char>) -> Option<DiffEntry> {
    if m.dom().contains(k) {
        Some(m[k])
    } else {
        None
    }
}

// ---------------------------------------------------------------------------
// Well-named trees
// ---------------------------------------------------------------------------

/// Whether every name is a proper one and no two are the same.
pub open spec fn well_named(es: Seq<TreeEntry>) -> bool {
    &&& forall|i: int|
        0 <= i < es.len() ==> (#[trigger] es[i]).name_text().len() > 0
            && !es[i].name_text().contains('/')
    &&& forall|i: int, j: int|
        0 <= i < j < es.len() ==> (#[trigger] es[i]).name_text() != (
        #[trigger] es[j]).name_text()
}

/// Whether two trees at `prefix` can be compared at the path `k`. In the directories on
/// the way to it all names are proper, and trees with equal hashes have the same there.
/// Where a name on the way stood for a file and stands for a directory now, the path lies
/// below it; where it stood for a directory and stands for a file now, the directory had
/// nothing at the path.
pub open spec fn comparable_at(
    base: Option<TreeNode>,
    target: TreeNode,
    prefix: Seq<char>,
    k: Seq<char>,
) -> bool
    decreases target, 0nat,
{
    if base is Some && base->0.hash == target.hash {
        leaf_at(base->0, prefix, k) == leaf_at(target, prefix, k)
    } else {
        match (target.content, super::base_listing(base)) {
            (Content::Entries(tes), Ok(bes)) => {
                &&& well_named(tes@)
                &&& well_named(bes)
                &&& forall|i: int|
                    0 <= i < tes@.len() && in_region(
                        prefix,
                        (#[trigger] tes@[i]).name_text(),
                        k,
                    ) ==> entry_comparable_at(
                        object::entry_named(bes, tes@[i].name_text()),
                        tes@[i],
                        prefix,
                        k,
                    )
            },
            _ => true,
        }
    }
}

/// Whether an entry of a directory at `prefix` can be compared, at the path `k`, with what
/// the base has under its name.
pub open spec fn entry_comparable_at(
    base: Option<TreeEntry>,
    e: TreeEntry,
    prefix: Seq<char>,
    k: Seq<char>,
) -> bool
    decreases e, 0nat,
{
    let path = text::joined(prefix, e.name_text());
    match (base, e) {
        (None, TreeEntry::Tree { node, .. }) => comparable_at(None, node, path, k),
        (Some(TreeEntry::Tree { node: b, .. }), TreeEntry::Tree { node, .. }) => comparable_at(
            Some(b),
            node,
            path,
            k,
        ),
        (Some(_), TreeEntry::Tree { node, .. }) => k != path && comparable_at(None, node, path, k),
        (Some(TreeEntry::Tree { node: b, .. }), _) => leaf_at(b, path, k) is None,
        _ => true,
    }
}

// ---------------------------------------------------------------------------
// Regions
// ---------------------------------------------------------------------------

/// Whether a path lies below a directory.
pub open spec fn under(prefix: Seq<char>, k: Seq<char>) -> bool {
    prefix.len() == 0 || text::has_prefix(k, prefix.push('/'))
}

/// Whether a path is that of an entry, or lies below it.
pub open spec fn in_region(prefix: Seq<char>, name: Seq<char>, k: Seq<char>) -> bool {
    k == text::joined(prefix, name) || under(text::joined(prefix, name), k)
}

pub proof fn lemma_region_under(prefix: Seq<char>, name: Seq<char>, k: Seq<char>)
    requires
        name.len() > 0,
        in_region(prefix, name, k),
    ensures
        under(prefix, k),
{
    let path = text::joined(prefix, name);
    if prefix.len() > 0 {
        assert(path.take(prefix.push('/').len() as int) =~= prefix.push('/'));
        if k != path {
            let long = path.push('/');
            assert(k.take(long.len() as int) == long);
            assert(k.take(prefix.push('/').len() as int) =~= long.take(
                prefix.push('/').len() as int,
            ));
            assert(long.take(prefix.push('/').len() as int) =~= prefix.push('/'));
        }
    }
}

pub proof fn lemma_deeper_under(prefix: Seq<char>, name: Seq<char>, k: Seq<char>)
    requires
        prefix.len() > 0,
        in_region(prefix, name, k),
    ensures
        under(prefix, k),
        k != prefix,
{
    let path = text::joined(prefix, name);
    let short = prefix.push('/');
    assert(path.take(short.len() as int) =~= short);
    if k != path {
        let long = path.push('/');
        assert(k.take(long.len() as int) == long);
        assert(k.take(short.len() as int) =~= long.take(short.len() as int));
        assert(long.take(short.len() as int) =~= short);
    }
}

/// What stands behind `prefix/`.
spec fn tail_of(prefix: Seq<char>, k: Seq<char>) -> Seq<char> {
    if prefix.len() == 0 {
        k
    } else {
        k.skip((prefix.len() + 1) as int)
    }
}

proof fn lemma_region_tail(prefix: Seq<char>, name: Seq<char>, k: Seq<char>)
    requires
        name.len() > 0,
        in_region(prefix, name, k),
    ensures
        ({
            let t = tail_of(prefix, k);
            &&& name.len() <= t.len()
            &&& t.take(name.len() as int) == name
            &&& t.len() > name.len() ==> t[name.len() as int] == '/'
        }),
{
    let path = text::joined(prefix, name);
    let t = tail_of(prefix, k);
    if k == path {
        assert(t =~= name);
        assert(t.take(name.len() as int) =~= name);
    } else {
        let long = path.push('/');
        assert(k.take(long.len() as int) == long);
        assert forall|i: int| 0 <= i < long.len() implies k[i] == long[i] by {
            assert(k.take(long.len() as int)[i] == k[i]);
        }
        assert(t.take(name.len() as int) =~= name);
    }
}

/// Two names without slashes have no path in common.
pub proof fn lemma_regions_disjoint(prefix: Seq<char>, a: Seq<char>, b: Seq<char>, k: Seq<char>)
    requires
        a.len() > 0,
        b.len() > 0,
        !a.contains('/'),
        !b.contains('/'),
        in_region(prefix, a, k),
        in_region(prefix, b, k),
    ensures
        a == b,
{
    lemma_region_tail(prefix, a, k);
    lemma_region_tail(prefix, b, k);
    let t = tail_of(prefix, k);
    if a.len() < b.len() {
        assert(b[a.len() as int] == t.take(b.len() as int)[a.len() as int]);
        assert(b.contains('/'));
    } else if b.len() < a.len() {
        assert(a[b.len() as int] == t.take(a.len() as int)[b.len() as int]);
        assert(a.contains('/'));
    }
}

/// Whether a path is `p` or lies below it.
pub open spec fn at_or_above(p: Seq<char>, k: Seq<char>) -> bool {
    p == k || text::has_prefix(k, p.push('/'))
}

pub proof fn lemma_at_or_above_twice(p: Seq<char>, q: Seq<char>, k: Seq<char>)
    requires
        at_or_above(p, q),
        at_or_above(q, k),
    ensures
        at_or_above(p, k),
{
    if p != q && q != k {
        let short = p.push('/');
        let long = q.push('/');
        assert(k.take(short.len() as int) =~= long.take(short.len() as int));
        assert(long.take(short.len() as int) =~= q.take(short.len() as int));
    }
}

/// What lies below a path of a region lies in the region.
pub proof fn lemma_region_down(prefix: Seq<char>, name: Seq<char>, p: Seq<char>, k: Seq<char>)
    requires
        text::joined(prefix, name).len() > 0,
        in_region(prefix, name, p),
        at_or_above(p, k),
    ensures
        in_region(prefix, name, k),
{
    lemma_at_or_above_twice(text::joined(prefix, name), p, k);
}

/// What an entry has lies in its region.
pub proof fn lemma_entry_leaf_region(e: TreeEntry, prefix: Seq<char>, k: Seq<char>)
    requires
        e.name_text().len() > 0 || prefix.len() > 0,
        entry_leaf(e, prefix, k) is Some,
    ensures
        in_region(prefix, e.name_text(), k),
    decreases e, 1nat,
{
    if let TreeEntry::Tree { node, .. } = e {
        lemma_leaf_under(node, text::joined(prefix, e.name_text()), k);
    }
}

/// What a tree has lies below its path.
pub proof fn lemma_leaf_under(node: TreeNode, prefix: Seq<char>, k: Seq<char>)
    requires
        prefix.len() > 0,
        leaf_at(node, prefix, k) is Some,
    ensures
        under(prefix, k),
        k != prefix,
    decreases node, 1nat,
{
    if let Content::Entries(es) = node.content {
        lemma_leaf_in_under(es@, es@.len(), prefix, k);
    }
}

proof fn lemma_leaf_in_under(es: Seq<TreeEntry>, n: nat, prefix: Seq<char>, k: Seq<char>)
    requires
        prefix.len() > 0,
        n <= es.len(),
        leaf_in(es, n, prefix, k) is Some,
    ensures
        under(prefix, k),
        k != prefix,
    decreases es, n,
{
    if n > 0 {
        if entry_leaf(es[n - 1], prefix, k) is Some {
            lemma_entry_leaf_region(es[n - 1], prefix, k);
            lemma_deeper_under(prefix, es[n - 1].name_text(), k);
        } else {
            lemma_leaf_in_under(es, (n - 1) as nat, prefix, k);
        }
    }
}

/// In a well-named tree only the entry whose region a path is in has anything there.
pub proof fn lemma_leaf_in_region(
    es: Seq<TreeEntry>,
    n: nat,
    prefix: Seq<char>,
    i: int,
    k: Seq<char>,
)
    requires
        well_named(es),
        0 <= i < es.len(),
        n <= es.len(),
        in_region(prefix, es[i].name_text(), k),
    ensures
        leaf_in(es, n, prefix, k) == if i < n {
            entry_leaf(es[i], prefix, k)
        } else {
            None
        },
    decreases n,
{
    if n > 0 {
        lemma_leaf_in_region(es, (n - 1) as nat, prefix, i, k);
        if i != n - 1 && entry_leaf(es[n - 1], prefix, k) is Some {
            lemma_entry_leaf_region(es[n - 1], prefix, k);
            lemma_regions_disjoint(prefix, es[i].name_text(), es[n - 1].name_text(), k);
            if i < n - 1 {
                assert(es[i].name_text() != es[n - 1].name_text());
            } else {
                assert(es[n - 1].name_text() != es[i].name_text());
            }
        }
    }
}

/// Outside of all regions a well-named tree has nothing.
pub proof fn lemma_leaf_in_none(es: Seq<TreeEntry>, n: nat, prefix: Seq<char>, k: Seq<char>)
    requires
        well_named(es),
        n <= es.len(),
        forall|i: int| 0 <= i < es.len() ==> !in_region(prefix, (#[trigger] es[i]).name_text(), k),
    ensures
        leaf_in(es, n, prefix, k) is None,
    decreases n,
{
    if n > 0 {
        lemma_leaf_in_none(es, (n - 1) as nat, prefix, k);
        if entry_leaf(es[n - 1], prefix, k) is Some {
            lemma_entry_leaf_region(es[n - 1], prefix, k);
        }
    }
}

/// Where a listing has nothing, none of its entries has anything.
pub proof fn lemma_leaf_in_parts(es: Seq<TreeEntry>, n: nat, prefix: Seq<char>, k: Seq<char>)
    requires
        n <= es.len(),
        leaf_in(es, n, prefix, k) is None,
    ensures
        forall|i: int| 0 <= i < n ==> entry_leaf(#[trigger] es[i], prefix, k) is None,
    decreases n,
{
    if n > 0 {
        lemma_leaf_in_parts(es, (n - 1) as nat, prefix, k);
    }
}

/// A directory of an entry lies in its region.
pub proof fn lemma_entry_dir_region(e: TreeEntry, prefix: Seq<char>, k: Seq<char>)
    requires
        e.name_text().len() > 0 || prefix.len() > 0,
        entry_dir(e, prefix, k) is Some,
    ensures
        in_region(prefix, e.name_text(), k),
    decreases e, 1nat,
{
    if let TreeEntry::Tree { node, .. } = e {
        let path = text::joined(prefix, e.name_text());
        if k != path {
            if let Content::Entries(es) = node.content {
                lemma_dir_in_under(es@, es@.len(), path, k);
            }
        }
    }
}

proof fn lemma_dir_in_under(es: Seq<TreeEntry>, n: nat, prefix: Seq<char>, k: Seq<char>)
    requires
        prefix.len() > 0,
        n <= es.len(),
        dir_in(es, n, prefix, k) is Some,
    ensures
        under(prefix, k),
    decreases es, n,
{
    if n > 0 {
        if entry_dir(es[n - 1], prefix, k) is Some {
            lemma_entry_dir_region(es[n - 1], prefix, k);
            lemma_deeper_under(prefix, es[n - 1].name_text(), k);
        } else {
            lemma_dir_in_under(es, (n - 1) as nat, prefix, k);
        }
    }
}

/// In a well-named tree only the entry whose region a path is in has a directory there.
pub proof fn lemma_dir_in_region(es: Seq<TreeEntry>, n: nat, prefix: Seq<char>, i: int, k: Seq<char>)
    requires
        well_named(es),
        0 <= i < es.len(),
        n <= es.len(),
        in_region(prefix, es[i].name_text(), k),
    ensures
        dir_in(es, n, prefix, k) == if i < n {
            entry_dir(es[i], prefix, k)
        } else {
            None
        },
    decreases n,
{
    if n > 0 {
        lemma_dir_in_region(es, (n - 1) as nat, prefix, i, k);
        if i != n - 1 && entry_dir(es[n - 1], prefix, k) is Some {
            lemma_entry_dir_region(es[n - 1], prefix, k);
            lemma_regions_disjoint(prefix, es[i].name_text(), es[n - 1].name_text(), k);
            if i < n - 1 {
                assert(es[i].name_text() != es[n - 1].name_text());
            } else {
                assert(es[n - 1].name_text() != es[i].name_text());
            }
        }
    }
}

// ---------------------------------------------------------------------------
// Deletions
// ---------------------------------------------------------------------------

/// What recording deletions does at a path: nothing, or it is deleted now.
pub open spec fn gone_at(
    before: Map<Seq<char>, DiffEntry>,
    after: Map<Seq<char>, DiffEntry>,
    k: Seq<char>,
) -> bool {
    change_at(after, k) == change_at(before, k) || change_at(after, k) == Some(DiffEntry::Deleted)
}

pub proof fn lemma_gone_entry(
    e: TreeEntry,
    prefix: Seq<char>,
    acc: Map<Seq<char>, DiffEntry>,
    k: Seq<char>,
)
    requires
        e.name_text().len() > 0 || prefix.len() > 0,
        super::gone_entry(e, prefix, acc) is Ok,
    ensures
        gone_at(acc, super::gone_entry(e, prefix, acc)->Ok_0, k),
        entry_leaf(e, prefix, k) is None ==> change_at(
            super::gone_entry(e, prefix, acc)->Ok_0,
            k,
        ) == change_at(acc, k),
        entry_leaf(e, prefix, k) is Some ==> change_at(
            super::gone_entry(e, prefix, acc)->Ok_0,
            k,
        ) == Some(DiffEntry::Deleted),
    decreases e, 1nat,
{
    if let TreeEntry::Tree { node, .. } = e {
        lemma_gone_tree(node, text::joined(prefix, e.name_text()), acc, k);
    }
}

proof fn lemma_gone_tree(
    node: TreeNode,
    prefix: Seq<char>,
    acc: Map<Seq<char>, DiffEntry>,
    k: Seq<char>,
)
    requires
        prefix.len() > 0,
        super::gone_tree(node, prefix, acc) is Ok,
    ensures
        gone_at(acc, super::gone_tree(node, prefix, acc)->Ok_0, k),
        leaf_at(node, prefix, k) is None ==> change_at(
            super::gone_tree(node, prefix, acc)->Ok_0,
            k,
        ) == change_at(acc, k),
        leaf_at(node, prefix, k) is Some ==> change_at(
            super::gone_tree(node, prefix, acc)->Ok_0,
            k,
        ) == Some(DiffEntry::Deleted),
    decreases node, 1nat,
{
    if let Content::Entries(es) = node.content {
        lemma_gone_listing(es@, es@.len(), prefix, acc, k);
    }
}

proof fn lemma_gone_listing(
    es: Seq<TreeEntry>,
    n: nat,
    prefix: Seq<char>,
    acc: Map<Seq<char>, DiffEntry>,
    k: Seq<char>,
)
    requires
        prefix.len() > 0,
        n <= es.len(),
        super::gone_listing(es, n, prefix, acc) is Ok,
    ensures
        gone_at(acc, super::gone_listing(es, n, prefix, acc)->Ok_0, k),
        leaf_in(es, n, prefix, k) is None ==> change_at(
            super::gone_listing(es, n, prefix, acc)->Ok_0,
            k,
        ) == change_at(acc, k),
        leaf_in(es, n, prefix, k) is Some ==> change_at(
            super::gone_listing(es, n, prefix, acc)->Ok_0,
            k,
        ) == Some(DiffEntry::Deleted),
    decreases es, n,
{
    if n > 0 {
        lemma_gone_listing(es, (n - 1) as nat, prefix, acc, k);
        let m = super::gone_listing(es, (n - 1) as nat, prefix, acc)->Ok_0;
        let e = es[n - 1];
        lemma_gone_entry(e, prefix, m, k);
    }
}

/// Whether the entry `j` of the base is gone: the target does not name it.
spec fn is_gone(bes: Seq<TreeEntry>, kept: Seq<Seq<char>>, j: int) -> bool {
    object::last_named(bes, bes[j].name_text()) == Some(j) && !kept.contains(bes[j].name_text())
}

proof fn lemma_diff_gone(
    bes: Seq<TreeEntry>,
    kept: Seq<Seq<char>>,
    n: nat,
    prefix: Seq<char>,
    acc: Map<Seq<char>, DiffEntry>,
    k: Seq<char>,
)
    requires
        well_named(bes) || prefix.len() > 0,
        n <= bes.len(),
        super::diff_gone(bes, kept, n, prefix, acc) is Ok,
    ensures
        ({
            let m = super::diff_gone(bes, kept, n, prefix, acc)->Ok_0;
            &&& gone_at(acc, m, k)
            &&& (forall|j: int|
                0 <= j < n && is_gone(bes, kept, j) ==> entry_leaf(
                    #[trigger] bes[j],
                    prefix,
                    k,
                ) is None) ==> change_at(m, k) == change_at(acc, k)
            &&& forall|j: int|
                0 <= j < n && is_gone(bes, kept, j) && entry_leaf(
                    #[trigger] bes[j],
                    prefix,
                    k,
                ) is Some ==> change_at(m, k) == Some(DiffEntry::Deleted)
        }),
    decreases n,
{
    if n > 0 {
        lemma_diff_gone(bes, kept, (n - 1) as nat, prefix, acc, k);
        let m = super::diff_gone(bes, kept, (n - 1) as nat, prefix, acc)->Ok_0;
        let after = super::diff_gone(bes, kept, n, prefix, acc)->Ok_0;
        let e = bes[n - 1];
        if is_gone(bes, kept, n - 1) {
            lemma_gone_entry(e, prefix, m, k);
        }
        assert forall|j: int|
            0 <= j < n && is_gone(bes, kept, j) && entry_leaf(
                #[trigger] bes[j],
                prefix,
                k,
            ) is Some implies change_at(after, k) == Some(DiffEntry::Deleted) by {
            if j < n - 1 {
                assert(change_at(m, k) == Some(DiffEntry::Deleted));
            }
        }
    }
}

// ---------------------------------------------------------------------------
// The diff at one path
// ---------------------------------------------------------------------------

/// Whether a diff has a stub of a new directory at a path.
pub open spec fn stub_at(m: Map<Seq<char>, DiffEntry>, p: Seq<char>) -> bool {
    change_at(m, p) matches Some(DiffEntry::AddedTree { .. })
}

/// Whether a diff has a stub of a new directory at a path or above it.
pub open spec fn covered(m: Map<Seq<char>, DiffEntry>, k: Seq<char>) -> bool {
    exists|p: Seq<char>| #[trigger] stub_at(m, p) && at_or_above(p, k)
}

/// Whether there is such a stub below a directory.
spec fn covered_below(m: Map<Seq<char>, DiffEntry>, prefix: Seq<char>, k: Seq<char>) -> bool {
    exists|p: Seq<char>| #[trigger] stub_at(m, p) && under(prefix, p) && at_or_above(p, k)
}

/// Whether there is such a stub in the region of a name.
spec fn covered_in(
    m: Map<Seq<char>, DiffEntry>,
    prefix: Seq<char>,
    name: Seq<char>,
    k: Seq<char>,
) -> bool {
    exists|p: Seq<char>| #[trigger]
        stub_at(m, p) && in_region(prefix, name, p) && at_or_above(p, k)
}

/// What a diff says of a path: it settles it, or there is a stub for it, and nothing else.
spec fn told(
    change: Option<DiffEntry>,
    stubbed: bool,
    before: Option<Leaf>,
    after: Option<Leaf>,
) -> bool {
    settles(change, before, after) || stubbed && (change is None || change->0 is AddedTree)
}

/// Whether a listing has nothing at a path or below it.
spec fn bare_in(bes: Seq<TreeEntry>, prefix: Seq<char>, p: Seq<char>) -> bool {
    forall|k: Seq<char>| #[trigger] at_or_above(p, k) ==> leaf_in(bes, bes.len(), prefix, k) is None
}

/// Whether an optional tree has nothing at a path or below it.
pub open spec fn bare_at(base: Option<TreeNode>, prefix: Seq<char>, p: Seq<char>) -> bool {
    forall|k: Seq<char>| #[trigger] at_or_above(p, k) ==> base_leaf(base, prefix, k) is None
}

/// Whether a stub, if there is one, stands for this directory.
spec fn names_dir(change: Option<DiffEntry>, dir: Option<TreeNode>) -> bool {
    change matches Some(DiffEntry::AddedTree { hash, .. }) ==> dir is Some && dir->0.hash == hash
}

/// What the base has in the region of a name is what its entry of that name has.
pub proof fn lemma_base_in_region(
    bes: Seq<TreeEntry>,
    name: Seq<char>,
    prefix: Seq<char>,
    k: Seq<char>,
)
    requires
        well_named(bes),
        name.len() > 0,
        !name.contains('/'),
        in_region(prefix, name, k),
    ensures
        leaf_in(bes, bes.len(), prefix, k) == match object::entry_named(bes, name) {
            Some(b) => entry_leaf(b, prefix, k),
            None => None,
        },
{
    object::lemma_last_named(bes, name);
    match object::last_named(bes, name) {
        Some(j) => {
            lemma_leaf_in_region(bes, bes.len(), prefix, j, k);
        },
        None => {
            assert forall|j: int| 0 <= j < bes.len() implies !in_region(
                prefix,
                (#[trigger] bes[j]).name_text(),
                k,
            ) by {
                if in_region(prefix, bes[j].name_text(), k) {
                    lemma_regions_disjoint(prefix, name, bes[j].name_text(), k);
                }
            }
            lemma_leaf_in_none(bes, bes.len(), prefix, k);
        },
    }
}

/// Whether what `leaves` says at a path and below it is what the directory there has.
spec fn held_by(
    leaves: spec_fn(Seq<char>) -> Option<Leaf>,
    dir: Option<TreeNode>,
    p: Seq<char>,
) -> bool {
    dir is Some && forall|k: Seq<char>| #[trigger]
        at_or_above(p, k) ==> leaves(k) == leaf_at(dir->0, p, k)
}

/// The diff with one more entry.
spec fn entry_diff(
    bes: Seq<TreeEntry>,
    e: TreeEntry,
    prefix: Seq<char>,
    m0: Map<Seq<char>, DiffEntry>,
    threshold: u64,
    in_git: bool,
) -> Result<Map<Seq<char>, DiffEntry>, Halt> {
    let base = object::entry_named(bes, e.name_text());
    let path = text::joined(prefix, e.name_text());
    match e {
        TreeEntry::Blob { hash, size, mtime, mode, .. } => Ok(
            super::recorded(m0, path, super::blob_change(base, hash, size, mtime, mode)),
        ),
        TreeEntry::Symlink { target, mtime, .. } => Ok(
            super::recorded(m0, path, super::link_change(base, target, mtime)),
        ),
        TreeEntry::Tree { size, mtime, blob_count, node, .. } => match super::git_context(
            in_git,
            e.name_text(),
            node,
        ) {
            Err(h) => Err(h),
            Ok(git) => if super::base_dir(base) is None && threshold > 0 && size >= threshold
                && !git {
                Ok(
                    m0.insert(
                        path,
                        DiffEntry::AddedTree { hash: node.hash, size, mtime, blob_count },
                    ),
                )
            } else {
                match super::diff_tree(super::base_dir(base), node, path, m0, threshold, git) {
                    Err(h) => Err(h),
                    Ok(after) => if super::base_dir(base) is None && after.dom().len()
                        == m0.dom().len() {
                        Ok(after.insert(path, DiffEntry::AddedEmptyDir))
                    } else {
                        Ok(after)
                    },
                }
            },
        },
    }
}

/// An entry leaves what is outside of its region as it was.
proof fn lemma_entry_frame(
    bes: Seq<TreeEntry>,
    e: TreeEntry,
    prefix: Seq<char>,
    m0: Map<Seq<char>, DiffEntry>,
    threshold: u64,
    in_git: bool,
    k: Seq<char>,
)
    requires
        e.name_text().len() > 0 || prefix.len() > 0,
        entry_diff(bes, e, prefix, m0, threshold, in_git) is Ok,
        !in_region(prefix, e.name_text(), k),
    ensures
        change_at(entry_diff(bes, e, prefix, m0, threshold, in_git)->Ok_0, k) == change_at(m0, k),
    decreases e, 1nat,
{
    if let TreeEntry::Tree { node, .. } = e {
        let base = super::base_dir(object::entry_named(bes, e.name_text()));
        let path = text::joined(prefix, e.name_text());
        let git = super::git_context(in_git, e.name_text(), node)->Ok_0;
        if super::diff_tree(base, node, path, m0, threshold, git) is Ok {
            lemma_tree_frame(base, node, path, m0, threshold, git, k);
        }
    }
}

/// The comparison of two directories leaves what is outside of them as it was.
proof fn lemma_tree_frame(
    base: Option<TreeNode>,
    target: TreeNode,
    prefix: Seq<char>,
    acc: Map<Seq<char>, DiffEntry>,
    threshold: u64,
    in_git: bool,
    k: Seq<char>,
)
    requires
        prefix.len() > 0,
        super::diff_tree(base, target, prefix, acc, threshold, in_git) is Ok,
        !under(prefix, k),
    ensures
        change_at(super::diff_tree(base, target, prefix, acc, threshold, in_git)->Ok_0, k)
            == change_at(acc, k),
    decreases target, 1nat,
{
    if !(base is Some && base->0.hash == target.hash) {
        if let Content::Entries(tes) = target.content {
            let bes = super::base_listing(base)->Ok_0;
            let kept = object::names(tes@);
            let m1 = super::diff_listing(
                bes,
                tes@,
                tes@.len(),
                prefix,
                acc,
                threshold,
                in_git,
            )->Ok_0;
            lemma_listing_frame(bes, tes@, tes@.len(), prefix, acc, threshold, in_git, k);
            lemma_diff_gone(bes, kept, bes.len(), prefix, m1, k);
            assert forall|j: int| 0 <= j < bes.len() && is_gone(bes, kept, j) implies entry_leaf(
                #[trigger] bes[j],
                prefix,
                k,
            ) is None by {
                if entry_leaf(bes[j], prefix, k) is Some {
                    lemma_entry_leaf_region(bes[j], prefix, k);
                    lemma_deeper_under(prefix, bes[j].name_text(), k);
                }
            }
        }
    }
}

proof fn lemma_listing_frame(
    bes: Seq<TreeEntry>,
    tes: Seq<TreeEntry>,
    n: nat,
    prefix: Seq<char>,
    acc: Map<Seq<char>, DiffEntry>,
    threshold: u64,
    in_git: bool,
    k: Seq<char>,
)
    requires
        prefix.len() > 0,
        n <= tes.len(),
        super::diff_listing(bes, tes, n, prefix, acc, threshold, in_git) is Ok,
        !under(prefix, k),
    ensures
        change_at(super::diff_listing(bes, tes, n, prefix, acc, threshold, in_git)->Ok_0, k)
            == change_at(acc, k),
    decreases tes, n,
{
    if n > 0 {
        lemma_listing_frame(bes, tes, (n - 1) as nat, prefix, acc, threshold, in_git, k);
        let m0 = super::diff_listing(
            bes,
            tes,
            (n - 1) as nat,
            prefix,
            acc,
            threshold,
            in_git,
        )->Ok_0;
        let e = tes[n - 1];
        if in_region(prefix, e.name_text(), k) {
            lemma_deeper_under(prefix, e.name_text(), k);
        }
        lemma_entry_frame(bes, e, prefix, m0, threshold, in_git, k);
    }
}

/// The change of an entry that is no directory gives what the target has.
proof fn lemma_leaf_change(base: Option<TreeEntry>, e: TreeEntry, prefix: Seq<char>, k: Seq<char>)
    requires
        !(e is Tree),
        base matches Some(b) ==> b.name_text() == e.name_text(),
        base matches Some(TreeEntry::Tree { node, .. }) ==> leaf_at(
            node,
            text::joined(prefix, e.name_text()),
            k,
        ) is None,
    ensures
        ({
            let path = text::joined(prefix, e.name_text());
            let change = match e {
                TreeEntry::Blob { hash, size, mtime, mode, .. } => super::blob_change(
                    base,
                    hash,
                    size,
                    mtime,
                    mode,
                ),
                TreeEntry::Symlink { target, mtime, .. } => super::link_change(base, target, mtime),
                _ => None,
            };
            let before = match base {
                Some(b) => entry_leaf(b, prefix, k),
                None => None,
            };
            settles(
                if k == path {
                    change
                } else {
                    None
                },
                before,
                entry_leaf(e, prefix, k),
            )
        }),
{
}

/// What the diff says in the region of an entry, once it was compared.
proof fn lemma_entry_step(
    bes: Seq<TreeEntry>,
    e: TreeEntry,
    prefix: Seq<char>,
    m0: Map<Seq<char>, DiffEntry>,
    threshold: u64,
    in_git: bool,
    k: Seq<char>,
)
    requires
        well_named(bes),
        e.name_text().len() > 0,
        !e.name_text().contains('/'),
        entry_diff(bes, e, prefix, m0, threshold, in_git) is Ok,
        in_region(prefix, e.name_text(), k),
        change_at(m0, k) is None,
        entry_comparable_at(object::entry_named(bes, e.name_text()), e, prefix, k),
    ensures
        ({
            let m = entry_diff(bes, e, prefix, m0, threshold, in_git)->Ok_0;
            let stubbed = threshold > 0 && covered_in(m, prefix, e.name_text(), k);
            &&& told(
                change_at(m, k),
                stubbed,
                leaf_in(bes, bes.len(), prefix, k),
                entry_leaf(e, prefix, k),
            )
            &&& names_dir(change_at(m, k), entry_dir(e, prefix, k))
            &&& stub_at(m, k) ==> bare_in(bes, prefix, k) && held_by(
                |j: Seq<char>| entry_leaf(e, prefix, j),
                entry_dir(e, prefix, k),
                k,
            )
        }),
    decreases e, 2nat,
{
    let name = e.name_text();
    let base = object::entry_named(bes, name);
    let path = text::joined(prefix, name);
    let m = entry_diff(bes, e, prefix, m0, threshold, in_git)->Ok_0;
    object::lemma_last_named(bes, name);
    lemma_base_in_region(bes, name, prefix, k);
    match e {
        TreeEntry::Tree { size, node, .. } => {
            let git = super::git_context(in_git, name, node)->Ok_0;
            let dir = super::base_dir(base);
            assert(!under(path, path));
            if dir is None && threshold > 0 && size >= threshold && !git {
                assert(stub_at(m, path));
                assert(at_or_above(path, k));
                assert(covered_in(m, prefix, name, k));
                if k == path {
                    assert(base is None);
                    assert forall|j: Seq<char>| #[trigger] at_or_above(k, j) implies leaf_in(
                        bes,
                        bes.len(),
                        prefix,
                        j,
                    ) is None by {
                        lemma_region_down(prefix, name, k, j);
                        lemma_base_in_region(bes, name, prefix, j);
                    }
                    assert(held_by(
                        |j: Seq<char>| entry_leaf(e, prefix, j),
                        entry_dir(e, prefix, k),
                        k,
                    ));
                }
            } else {
                let after = super::diff_tree(dir, node, path, m0, threshold, git)->Ok_0;
                if k == path {
                    lemma_tree_frame(dir, node, path, m0, threshold, git, k);
                    if leaf_at(node, path, k) is Some {
                        lemma_leaf_under(node, path, k);
                    }
                    if let Some(TreeEntry::Tree { node: b, .. }) = base {
                        if leaf_at(b, path, k) is Some {
                            lemma_leaf_under(b, path, k);
                        }
                    }
                } else {
                    lemma_diff_tree(dir, node, path, m0, threshold, git, k);
                    assert(change_at(m, k) == change_at(after, k));
                    if covered_below(after, path, k) {
                        let p = choose|p: Seq<char>| #[trigger]
                            stub_at(after, p) && under(path, p) && at_or_above(p, k);
                        assert(p != path);
                        assert(stub_at(m, p));
                        assert(covered_in(m, prefix, name, k));
                    }
                    if stub_at(m, k) {
                        assert forall|j: Seq<char>| #[trigger] at_or_above(k, j) implies leaf_in(
                            bes,
                            bes.len(),
                            prefix,
                            j,
                        ) is None by {
                            lemma_region_down(prefix, name, k, j);
                            lemma_base_in_region(bes, name, prefix, j);
                            assert(base_leaf(dir, path, j) is None);
                            if j == path {
                                lemma_at_or_above_twice(path, k, j);
                                assert(k.len() > path.len());
                            }
                        }
                        let inner = |j: Seq<char>| leaf_at(node, path, j);
                        let own = |j: Seq<char>| entry_leaf(e, prefix, j);
                        let found = entry_dir(e, prefix, k);
                        assert(held_by(inner, found, k));
                        assert forall|j: Seq<char>| #[trigger] at_or_above(k, j) implies own(j)
                            == leaf_at(found->0, k, j) by {
                            assert(inner(j) == leaf_at(found->0, k, j));
                        }
                        assert(held_by(own, found, k));
                    }
                }
            }
        },
        _ => {
            lemma_leaf_change(base, e, prefix, k);
        },
    }
}

/// Where a listing has been compared, the diff tells what the target has; elsewhere it
/// is as it was.
spec fn listing_done(
    bes: Seq<TreeEntry>,
    tes: Seq<TreeEntry>,
    n: nat,
    prefix: Seq<char>,
    acc: Map<Seq<char>, DiffEntry>,
    m: Map<Seq<char>, DiffEntry>,
    threshold: u64,
    k: Seq<char>,
) -> bool {
    &&& (forall|i: int| 0 <= i < n ==> !in_region(prefix, (#[trigger] tes[i]).name_text(), k))
        ==> change_at(m, k) == change_at(acc, k)
    &&& forall|i: int|
        0 <= i < n && in_region(prefix, (#[trigger] tes[i]).name_text(), k) ==> {
            &&& told(
                change_at(m, k),
                threshold > 0 && covered_in(m, prefix, tes[i].name_text(), k),
                leaf_in(bes, bes.len(), prefix, k),
                leaf_in(tes, tes.len(), prefix, k),
            )
            &&& names_dir(change_at(m, k), dir_in(tes, tes.len(), prefix, k))
            &&& stub_at(m, k) ==> bare_in(bes, prefix, k) && held_by(
                |j: Seq<char>| leaf_in(tes, tes.len(), prefix, j),
                dir_in(tes, tes.len(), prefix, k),
                k,
            )
        }
}

/// A stub in the region of one entry outlives the comparison of another.
proof fn lemma_stub_stays(
    bes: Seq<TreeEntry>,
    e: TreeEntry,
    name: Seq<char>,
    prefix: Seq<char>,
    m0: Map<Seq<char>, DiffEntry>,
    threshold: u64,
    in_git: bool,
    k: Seq<char>,
)
    requires
        e.name_text().len() > 0,
        entry_diff(bes, e, prefix, m0, threshold, in_git) is Ok,
        !in_region(prefix, e.name_text(), k),
        covered_in(m0, prefix, name, k),
    ensures
        covered_in(entry_diff(bes, e, prefix, m0, threshold, in_git)->Ok_0, prefix, name, k),
{
    let p = choose|p: Seq<char>| #[trigger]
        stub_at(m0, p) && in_region(prefix, name, p) && at_or_above(p, k);
    if in_region(prefix, e.name_text(), p) {
        lemma_region_down(prefix, e.name_text(), p, k);
    }
    lemma_entry_frame(bes, e, prefix, m0, threshold, in_git, p);
    assert(stub_at(entry_diff(bes, e, prefix, m0, threshold, in_git)->Ok_0, p));
}

proof fn lemma_diff_listing(
    bes: Seq<TreeEntry>,
    tes: Seq<TreeEntry>,
    n: nat,
    prefix: Seq<char>,
    acc: Map<Seq<char>, DiffEntry>,
    threshold: u64,
    in_git: bool,
    k: Seq<char>,
)
    requires
        n <= tes.len(),
        well_named(bes),
        well_named(tes),
        forall|i: int|
            0 <= i < tes.len() && in_region(prefix, (#[trigger] tes[i]).name_text(), k)
                ==> entry_comparable_at(
                object::entry_named(bes, tes[i].name_text()),
                tes[i],
                prefix,
                k,
            ),
        under(prefix, k) ==> change_at(acc, k) is None,
        super::diff_listing(bes, tes, n, prefix, acc, threshold, in_git) is Ok,
    ensures
        listing_done(
            bes,
            tes,
            n,
            prefix,
            acc,
            super::diff_listing(bes, tes, n, prefix, acc, threshold, in_git)->Ok_0,
            threshold,
            k,
        ),
    decreases tes, n,
{
    if n > 0 {
        lemma_diff_listing(bes, tes, (n - 1) as nat, prefix, acc, threshold, in_git, k);
        let m0 = super::diff_listing(
            bes,
            tes,
            (n - 1) as nat,
            prefix,
            acc,
            threshold,
            in_git,
        )->Ok_0;
        let m = super::diff_listing(bes, tes, n, prefix, acc, threshold, in_git)->Ok_0;
        let e = tes[n - 1];
        let name = e.name_text();
        assert(entry_diff(bes, e, prefix, m0, threshold, in_git) == Ok::<
            Map<Seq<char>, DiffEntry>,
            Halt,
        >(m));
        if in_region(prefix, name, k) {
            // Nothing was recorded here so far.
            assert forall|i: int| 0 <= i < n - 1 implies !in_region(
                prefix,
                (#[trigger] tes[i]).name_text(),
                k,
            ) by {
                if in_region(prefix, tes[i].name_text(), k) {
                    lemma_regions_disjoint(prefix, name, tes[i].name_text(), k);
                    assert(tes[i].name_text() != tes[n - 1].name_text());
                }
            }
            lemma_region_under(prefix, name, k);
            lemma_leaf_in_region(tes, tes.len(), prefix, n - 1, k);
            lemma_dir_in_region(tes, tes.len(), prefix, n - 1, k);
            lemma_entry_step(bes, e, prefix, m0, threshold, in_git, k);
            if stub_at(m, k) {
                let all = |j: Seq<char>| leaf_in(tes, tes.len(), prefix, j);
                let own = |j: Seq<char>| entry_leaf(e, prefix, j);
                let dir = dir_in(tes, tes.len(), prefix, k);
                assert(held_by(own, dir, k));
                assert forall|j: Seq<char>| #[trigger] at_or_above(k, j) implies all(j) == leaf_at(
                    dir->0,
                    k,
                    j,
                ) by {
                    lemma_region_down(prefix, name, k, j);
                    lemma_leaf_in_region(tes, tes.len(), prefix, n - 1, j);
                    assert(own(j) == leaf_at(dir->0, k, j));
                }
                assert(held_by(all, dir, k));
            }
        } else {
            lemma_entry_frame(bes, e, prefix, m0, threshold, in_git, k);
            assert forall|i: int|
                0 <= i < n && in_region(prefix, (#[trigger] tes[i]).name_text(), k) implies {
                &&& told(
                    change_at(m, k),
                    threshold > 0 && covered_in(m, prefix, tes[i].name_text(), k),
                    leaf_in(bes, bes.len(), prefix, k),
                    leaf_in(tes, tes.len(), prefix, k),
                )
                &&& names_dir(change_at(m, k), dir_in(tes, tes.len(), prefix, k))
                &&& stub_at(m, k) ==> bare_in(bes, prefix, k) && held_by(
                    |j: Seq<char>| leaf_in(tes, tes.len(), prefix, j),
                    dir_in(tes, tes.len(), prefix, k),
                    k,
                )
            } by {
                assert(i < n - 1);
                if covered_in(m0, prefix, tes[i].name_text(), k) {
                    lemma_stub_stays(
                        bes,
                        e,
                        tes[i].name_text(),
                        prefix,
                        m0,
                        threshold,
                        in_git,
                        k,
                    );
                }
            }
            if forall|i: int| 0 <= i < n ==> !in_region(prefix, (#[trigger] tes[i]).name_text(), k) {
                assert(change_at(m, k) == change_at(m0, k));
            }
        }
    }
}

/// What a comparison of two trees at `prefix` tells of a path below it.
spec fn tree_done(
    base: Option<TreeNode>,
    target: TreeNode,
    prefix: Seq<char>,
    m: Map<Seq<char>, DiffEntry>,
    threshold: u64,
    k: Seq<char>,
) -> bool {
    &&& told(
        change_at(m, k),
        threshold > 0 && covered_below(m, prefix, k),
        base_leaf(base, prefix, k),
        leaf_at(target, prefix, k),
    )
    &&& names_dir(change_at(m, k), dir_at(target, prefix, k))
    &&& stub_at(m, k) ==> bare_at(base, prefix, k) && held_by(
        |j: Seq<char>| leaf_at(target, prefix, j),
        dir_at(target, prefix, k),
        k,
    )
}

proof fn lemma_diff_tree(
    base: Option<TreeNode>,
    target: TreeNode,
    prefix: Seq<char>,
    acc: Map<Seq<char>, DiffEntry>,
    threshold: u64,
    in_git: bool,
    k: Seq<char>,
)
    requires
        comparable_at(base, target, prefix, k),
        under(prefix, k),
        change_at(acc, k) is None,
        super::diff_tree(base, target, prefix, acc, threshold, in_git) is Ok,
    ensures
        tree_done(
            base,
            target,
            prefix,
            super::diff_tree(base, target, prefix, acc, threshold, in_git)->Ok_0,
            threshold,
            k,
        ),
    decreases target, 1nat,
{
    let m = super::diff_tree(base, target, prefix, acc, threshold, in_git)->Ok_0;
    if !(base is Some && base->0.hash == target.hash) {
        if let Content::Entries(tes) = target.content {
            let bes = super::base_listing(base)->Ok_0;
            let m1 = super::diff_listing(
                bes,
                tes@,
                tes@.len(),
                prefix,
                acc,
                threshold,
                in_git,
            )->Ok_0;
            lemma_diff_listing(bes, tes@, tes@.len(), prefix, acc, threshold, in_git, k);
            assert forall|j: Seq<char>| #[trigger]
                leaf_in(bes, bes.len(), prefix, j) == base_leaf(base, prefix, j) by {}
            lemma_tree_at(bes, tes@, prefix, acc, m1, m, threshold, k);
            if stub_at(m, k) {
                assert forall|j: Seq<char>| #[trigger] at_or_above(k, j) implies base_leaf(
                    base,
                    prefix,
                    j,
                ) is None by {
                    assert(leaf_in(bes, bes.len(), prefix, j) is None);
                }
                let listed = |j: Seq<char>| leaf_in(tes@, tes@.len(), prefix, j);
                let all = |j: Seq<char>| leaf_at(target, prefix, j);
                let dir = dir_at(target, prefix, k);
                assert(held_by(listed, dir, k));
                assert forall|j: Seq<char>| #[trigger] at_or_above(k, j) implies all(j) == leaf_at(
                    dir->0,
                    k,
                    j,
                ) by {
                    assert(listed(j) == leaf_at(dir->0, k, j));
                }
                assert(held_by(all, dir, k));
            }
        }
    }
}

/// In the region of a name that the target has, the pass over what is gone changes
/// nothing.
proof fn lemma_kept_stays(
    bes: Seq<TreeEntry>,
    tes: Seq<TreeEntry>,
    i: int,
    prefix: Seq<char>,
    m1: Map<Seq<char>, DiffEntry>,
    k: Seq<char>,
)
    requires
        well_named(bes),
        well_named(tes),
        0 <= i < tes.len(),
        in_region(prefix, tes[i].name_text(), k),
        super::diff_gone(bes, object::names(tes), bes.len(), prefix, m1) is Ok,
    ensures
        change_at(super::diff_gone(bes, object::names(tes), bes.len(), prefix, m1)->Ok_0, k)
            == change_at(m1, k),
{
    let kept = object::names(tes);
    assert(kept[i] == tes[i].name_text());
    lemma_diff_gone(bes, kept, bes.len(), prefix, m1, k);
    assert forall|j: int| 0 <= j < bes.len() && is_gone(bes, kept, j) implies entry_leaf(
        #[trigger] bes[j],
        prefix,
        k,
    ) is None by {
        if entry_leaf(bes[j], prefix, k) is Some {
            lemma_entry_leaf_region(bes[j], prefix, k);
            lemma_regions_disjoint(prefix, tes[i].name_text(), bes[j].name_text(), k);
            assert(kept.contains(bes[j].name_text()));
        }
    }
}

/// Puts the two passes over a directory together, at one path.
proof fn lemma_tree_at(
    bes: Seq<TreeEntry>,
    tes: Seq<TreeEntry>,
    prefix: Seq<char>,
    acc: Map<Seq<char>, DiffEntry>,
    m1: Map<Seq<char>, DiffEntry>,
    m: Map<Seq<char>, DiffEntry>,
    threshold: u64,
    k: Seq<char>,
)
    requires
        well_named(bes),
        well_named(tes),
        change_at(acc, k) is None,
        listing_done(bes, tes, tes.len(), prefix, acc, m1, threshold, k),
        super::diff_gone(bes, object::names(tes), bes.len(), prefix, m1) == Ok::<
            Map<Seq<char>, DiffEntry>,
            Halt,
        >(m),
    ensures
        told(
            change_at(m, k),
            threshold > 0 && covered_below(m, prefix, k),
            leaf_in(bes, bes.len(), prefix, k),
            leaf_in(tes, tes.len(), prefix, k),
        ),
        names_dir(change_at(m, k), dir_in(tes, tes.len(), prefix, k)),
        stub_at(m, k) ==> bare_in(bes, prefix, k) && held_by(
            |j: Seq<char>| leaf_in(tes, tes.len(), prefix, j),
            dir_in(tes, tes.len(), prefix, k),
            k,
        ),
{
    let kept = object::names(tes);
    if exists|i: int| 0 <= i < tes.len() && in_region(prefix, (#[trigger] tes[i]).name_text(), k) {
        let i = choose|i: int|
            0 <= i < tes.len() && in_region(prefix, (#[trigger] tes[i]).name_text(), k);
        let name = tes[i].name_text();
        lemma_kept_stays(bes, tes, i, prefix, m1, k);
        if covered_in(m1, prefix, name, k) {
            let p = choose|p: Seq<char>| #[trigger]
                stub_at(m1, p) && in_region(prefix, name, p) && at_or_above(p, k);
            lemma_kept_stays(bes, tes, i, prefix, m1, p);
            lemma_region_under(prefix, name, p);
            assert(stub_at(m, p));
            assert(covered_below(m, prefix, k));
        }
    } else {
        lemma_diff_gone(bes, kept, bes.len(), prefix, m1, k);
        lemma_leaf_in_none(tes, tes.len(), prefix, k);
        assert(change_at(m1, k) == change_at(acc, k));
        if leaf_in(bes, bes.len(), prefix, k) is None {
            lemma_leaf_in_parts(bes, bes.len(), prefix, k);
        }
        if exists|j: int| 0 <= j < bes.len() && in_region(prefix, (#[trigger] bes[j]).name_text(), k) {
            let j = choose|j: int|
                0 <= j < bes.len() && in_region(prefix, (#[trigger] bes[j]).name_text(), k);
            lemma_leaf_in_region(bes, bes.len(), prefix, j, k);
            assert(is_gone(bes, kept, j)) by {
                object::lemma_last_named(bes, bes[j].name_text());
                let l = object::last_named(bes, bes[j].name_text())->0;
                if l < j {
                    assert(bes[l].name_text() != bes[j].name_text());
                } else if j < l {
                    assert(bes[j].name_text() != bes[l].name_text());
                }
                if kept.contains(bes[j].name_text()) {
                    let i = choose|i: int|
                        0 <= i < kept.len() && kept[i] == bes[j].name_text();
                    assert(in_region(prefix, tes[i].name_text(), k));
                }
            }
        } else {
            lemma_leaf_in_none(bes, bes.len(), prefix, k);
        }
    }
}

/// What the diff of two trees says of a path.
proof fn lemma_told(base: Option<TreeNode>, target: TreeNode, threshold: u64, k: Seq<char>)
    requires
        comparable_at(base, target, seq![], k),
        super::diff_spec(base, Some(target), threshold) is Ok,
    ensures
        tree_done(
            base,
            target,
            seq![],
            super::diff_spec(base, Some(target), threshold)->Ok_0,
            threshold,
            k,
        ),
        covered_below(super::diff_spec(base, Some(target), threshold)->Ok_0, seq![], k) ==> covered(
            super::diff_spec(base, Some(target), threshold)->Ok_0,
            k,
        ),
{
    reveal_strlit("");
    assert(""@ =~= Seq::<char>::empty());
    let acc = Map::<Seq<char>, DiffEntry>::empty();
    lemma_diff_tree(base, target, seq![], acc, threshold, false, k);
}

// ---------------------------------------------------------------------------
// The laws
// ---------------------------------------------------------------------------

/// Applying the diff of two trees to what the base has gives what the target has, at
/// every path for which there is no stub: what was added or modified is there, what was
/// deleted is gone, and everything else is as it was. What a stub stands for says
/// [`law_stub_stands_for_new_directory`]. With a threshold of zero there is none.
pub proof fn law_diff_applies(
    base: Option<TreeNode>,
    target: TreeNode,
    threshold: u64,
    k: Seq<char>,
)
    requires
        comparable_at(base, target, seq![], k),
        super::diff_spec(base, Some(target), threshold) is Ok,
    ensures
        ({
            let m = super::diff_spec(base, Some(target), threshold)->Ok_0;
            ||| threshold > 0 && covered(m, k)
            ||| outcome(change_at(m, k), base_leaf(base, seq![], k)) == leaf_at(target, seq![], k)
        }),
{
    lemma_told(base, target, threshold, k);
}

/// A stub in the diff of two trees stands for a new directory: the target has a directory
/// with the hash of the stub there, which holds all that the target has at the path or
/// below it, and the base has nothing there.
pub proof fn law_stub_stands_for_new_directory(
    base: Option<TreeNode>,
    target: TreeNode,
    threshold: u64,
    p: Seq<char>,
    k: Seq<char>,
)
    requires
        comparable_at(base, target, seq![], p),
        super::diff_spec(base, Some(target), threshold) is Ok,
        stub_at(super::diff_spec(base, Some(target), threshold)->Ok_0, p),
        at_or_above(p, k),
    ensures
        ({
            let m = super::diff_spec(base, Some(target), threshold)->Ok_0;
            change_at(m, p) matches Some(DiffEntry::AddedTree { hash, .. }) && (dir_at(
                target,
                seq![],
                p,
            ) matches Some(dir) && dir.hash == hash && leaf_at(target, seq![], k) == leaf_at(
                dir,
                p,
                k,
            ))
        }),
        base_leaf(base, seq![], k) is None,
{
    lemma_told(base, target, threshold, p);
    let all = |j: Seq<char>| leaf_at(target, seq![], j);
    let dir = dir_at(target, seq![], p);
    assert(held_by(all, dir, p));
    assert(all(k) == leaf_at(dir->0, p, k));
}

/// The diff of two trees names a path only where the two differ, new empty directories
/// and stubs of new directories aside.
pub proof fn law_diff_names_differences(
    base: Option<TreeNode>,
    target: TreeNode,
    threshold: u64,
    k: Seq<char>,
)
    requires
        comparable_at(base, target, seq![], k),
        super::diff_spec(base, Some(target), threshold) is Ok,
    ensures
        change_at(super::diff_spec(base, Some(target), threshold)->Ok_0, k) matches Some(change)
            ==> change is AddedEmptyDir || change is AddedTree || base_leaf(base, seq![], k)
            != leaf_at(target, seq![], k),
{
    lemma_told(base, target, threshold, k);
}

/// A pull without conflicts is a three-way merge, whatever its threshold for stubs.
/// Applying the changes of the remote to the working tree gives, at every path for which
/// the pull makes no stub, what the remote has where the remote changed it since the last
/// sync, and what the working tree has everywhere else. Where both sides changed a path
/// they did so to the same content, so that nothing that was written locally is lost.
pub proof fn law_three_way_merge(
    clone: Option<TreeNode>,
    remote: TreeNode,
    working: TreeNode,
    threshold: u64,
    k: Seq<char>,
)
    requires
        comparable_at(clone, remote, seq![], k),
        comparable_at(clone, working, seq![], k),
        super::diff_spec(clone, Some(remote), threshold) is Ok,
        super::diff_spec(clone, Some(working), 0) is Ok,
        super::conflict_set(
            super::diff_spec(clone, Some(remote), threshold)->Ok_0,
            super::diff_spec(clone, Some(working), 0)->Ok_0,
        ) == Set::<Seq<char>>::empty(),
        threshold > 0 ==> !covered(super::diff_spec(clone, Some(remote), threshold)->Ok_0, k),
    ensures
        ({
            let before = base_leaf(clone, seq![], k);
            let theirs = leaf_at(remote, seq![], k);
            let ours = leaf_at(working, seq![], k);
            let after = outcome(
                change_at(super::diff_spec(clone, Some(remote), threshold)->Ok_0, k),
                ours,
            );
            &&& theirs != before ==> after == theirs
            &&& theirs == before ==> after == ours
            &&& theirs != before && ours != before ==> same_text(theirs, ours)
        }),
{
    lemma_told(clone, remote, threshold, k);
    lemma_told(clone, working, 0, k);
    let rd = super::diff_spec(clone, Some(remote), threshold)->Ok_0;
    let ld = super::diff_spec(clone, Some(working), 0)->Ok_0;
    assert(!super::conflict_set(rd, ld).contains(k));
}

/// Whether two paths hold the same content: files with the same bytes, symlinks to the
/// same target, or nothing.
pub open spec fn same_text(a: Option<Leaf>, b: Option<Leaf>) -> bool {
    match (a, b) {
        (Some(Leaf::File { hash: x, .. }), Some(Leaf::File { hash: y, .. })) => x == y,
        _ => a == b,
    }
}

/// A tree does not differ from itself.
pub proof fn law_no_diff_with_itself(tree: TreeNode, threshold: u64)
    ensures
        super::diff_spec(Some(tree), Some(tree), threshold) == Ok::<
            Map<Seq<char>, DiffEntry>,
            Halt,
        >(Map::empty()),
{
}

} // verus!
