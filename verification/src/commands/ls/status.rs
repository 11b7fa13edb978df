//! What the rows of a diff say of the two trees.

use crate::collections;
use crate::commands::ls::diff::{self, DiffRow, FoundView};
use crate::commands::ls::rows::RowView;
use crate::commands::ls::{self, marks, restrict, scope, LsOptions, LsTrees};
use crate::commands::pull::{self, leaves, leaves::Leaf};
use crate::object::{self, Content, Halt, ObjectHash, TreeEntry, TreeNode};
use crate::text;
use vstd::prelude::*;

verus! {

/// The row of a path.
pub open spec fn row_at(f: FoundView, k: Seq<char>) -> Option<DiffRow> {
    if f.rows.dom().contains(k) {
        Some(f.rows[k])
    } else {
        None
    }
}

/// Whether a path is unknown or lies below one that is.
pub open spec fn in_the_dark(f: FoundView, k: Seq<char>) -> bool {
    exists|p: Seq<char>| #[trigger] f.unknown.contains(p) && leaves::at_or_above(p, k)
}

/// The directory that an optional tree has at a path.
pub open spec fn base_dir_at(base: Option<TreeNode>, prefix: Seq<char>, k: Seq<char>) -> Option<
    TreeNode,
> {
    match base {
        Some(b) => leaves::dir_at(b, prefix, k),
        None => None,
    }
}

/// The hash that a row shows for a file or symlink.
pub open spec fn shown_hash(l: Leaf, link_hash: ObjectHash) -> ObjectHash {
    match l {
        Leaf::File { hash, .. } => hash,
        Leaf::Link { .. } => link_hash,
    }
}

/// What a row says of a path: `before` and `before_dir` are what the clone root has there,
/// `after` and `after_dir` what the working tree has. There is no row where both have the
/// same file or symlink, or none.
pub open spec fn row_tells(
    row: Option<DiffRow>,
    before: Option<Leaf>,
    before_dir: Option<TreeNode>,
    after: Option<Leaf>,
    after_dir: Option<TreeNode>,
    link_hash: ObjectHash,
) -> bool {
    match row {
        None => before == after,
        Some(DiffRow::Added { working_hash }) => before is None && before_dir is None && after is Some
            && working_hash == shown_hash(after->0, link_hash),
        Some(DiffRow::Modified { working_hash }) => (before is Some || before_dir is Some) && after
            is Some && before != after && working_hash == shown_hash(after->0, link_hash),
        Some(DiffRow::Deleted) => before is Some && after is None,
        Some(DiffRow::AddedEmptyDir { hash }) => before is None && before_dir is None && after is None
            && after_dir is Some && after_dir->0.hash == hash,
    }
}

/// Whether a diff of two trees at `prefix` tells of a path, or leaves it in the dark.
spec fn told(
    base: Option<TreeNode>,
    target: TreeNode,
    prefix: Seq<char>,
    link_hash: ObjectHash,
    f: FoundView,
    k: Seq<char>,
) -> bool {
    in_the_dark(f, k) || row_tells(
        row_at(f, k),
        leaves::base_leaf(base, prefix, k),
        base_dir_at(base, prefix, k),
        leaves::leaf_at(target, prefix, k),
        leaves::dir_at(target, prefix, k),
        link_hash,
    )
}

/// Whether what was found grows from `a` to `b`, and says the same of `k`.
spec fn keeps(a: FoundView, b: FoundView, k: Seq<char>) -> bool {
    row_at(a, k) == row_at(b, k) && a.unknown.subset_of(b.unknown)
}

proof fn lemma_dark_stays(a: FoundView, b: FoundView, k: Seq<char>)
    requires
        a.unknown.subset_of(b.unknown),
        in_the_dark(a, k),
    ensures
        in_the_dark(b, k),
{
    let p = choose|p: Seq<char>| #[trigger] a.unknown.contains(p) && leaves::at_or_above(p, k);
    assert(b.unknown.contains(p));
}

// ---------------------------------------------------------------------------
// What a walk leaves alone
// ---------------------------------------------------------------------------

proof fn lemma_tree_keeps(
    base: Option<TreeNode>,
    target: TreeNode,
    prefix: Seq<char>,
    link_hash: ObjectHash,
    st: FoundView,
    k: Seq<char>,
)
    ensures
        st.unknown.subset_of(diff::ls_tree(base, target, prefix, seq![], link_hash, st).0.unknown),
        prefix.len() > 0 && !leaves::under(prefix, k) ==> keeps(
            st,
            diff::ls_tree(base, target, prefix, seq![], link_hash, st).0,
            k,
        ),
    decreases target, 0nat,
{
    if let Content::Entries(tes) = target.content {
        if let Ok(bes) = pull::base_listing(base) {
            let a = diff::ls_listing(bes, tes@, tes@.len(), prefix, seq![], link_hash, st);
            lemma_listing_keeps(bes, tes@, tes@.len(), prefix, link_hash, st, k);
            lemma_gone_keeps(bes, object::names(tes@), bes.len(), prefix, a.0, k);
        }
    }
}

proof fn lemma_listing_keeps(
    bes: Seq<TreeEntry>,
    tes: Seq<TreeEntry>,
    n: nat,
    prefix: Seq<char>,
    link_hash: ObjectHash,
    st: FoundView,
    k: Seq<char>,
)
    ensures
        st.unknown.subset_of(
            diff::ls_listing(bes, tes, n, prefix, seq![], link_hash, st).0.unknown,
        ),
        prefix.len() > 0 && !leaves::under(prefix, k) ==> keeps(
            st,
            diff::ls_listing(bes, tes, n, prefix, seq![], link_hash, st).0,
            k,
        ),
    decreases tes, n,
{
    if n > 0 && n <= tes.len() {
        lemma_listing_keeps(bes, tes, (n - 1) as nat, prefix, link_hash, st, k);
        let prev = diff::ls_listing(bes, tes, (n - 1) as nat, prefix, seq![], link_hash, st);
        let e = tes[n - 1];
        if prev.1 is None {
            lemma_entry_keeps(bes, e, prefix, link_hash, prev.0, k);
            if prefix.len() > 0 && leaves::in_region(prefix, e.name_text(), k) {
                leaves::lemma_deeper_under(prefix, e.name_text(), k);
            }
        }
    }
}

/// What a diff finds with one more entry.
spec fn entry_found(
    bes: Seq<TreeEntry>,
    e: TreeEntry,
    prefix: Seq<char>,
    link_hash: ObjectHash,
    s: FoundView,
) -> (FoundView, Option<Halt>) {
    let base = object::entry_named(bes, e.name_text());
    let path = text::joined(prefix, e.name_text());
    match e {
        TreeEntry::Blob { hash, mode, .. } => match diff::blob_row(base, hash, mode) {
            Some(row) => (diff::with_row(s, seq![], path, row), None),
            None => (s, None),
        },
        TreeEntry::Symlink { target, .. } => match diff::link_row(base, target, link_hash) {
            Some(row) => (diff::with_row(s, seq![], path, row), None),
            None => (s, None),
        },
        TreeEntry::Tree { node, .. } => {
            let inner = diff::ls_tree(pull::base_dir(base), node, path, seq![], link_hash, s);
            match inner.1 {
                None => if pull::base_dir(base) is None && inner.0.rows.dom().len()
                    == s.rows.dom().len() {
                    (
                        diff::with_row(
                            inner.0,
                            seq![],
                            path,
                            DiffRow::AddedEmptyDir { hash: node.hash },
                        ),
                        None,
                    )
                } else {
                    inner
                },
                Some(Halt::Missing(_)) => (diff::with_unknown(inner.0, seq![], path), None),
                Some(Halt::Unread(_)) => inner,
            }
        },
    }
}

proof fn lemma_entry_keeps(
    bes: Seq<TreeEntry>,
    e: TreeEntry,
    prefix: Seq<char>,
    link_hash: ObjectHash,
    s: FoundView,
    k: Seq<char>,
)
    ensures
        s.unknown.subset_of(entry_found(bes, e, prefix, link_hash, s).0.unknown),
        text::joined(prefix, e.name_text()).len() > 0 && !leaves::in_region(
            prefix,
            e.name_text(),
            k,
        ) ==> keeps(s, entry_found(bes, e, prefix, link_hash, s).0, k),
    decreases e, 1nat,
{
    if let TreeEntry::Tree { node, .. } = e {
        let base = pull::base_dir(object::entry_named(bes, e.name_text()));
        lemma_tree_keeps(base, node, text::joined(prefix, e.name_text()), link_hash, s, k);
    }
}

proof fn lemma_gone_keeps(
    bes: Seq<TreeEntry>,
    kept: Seq<Seq<char>>,
    n: nat,
    prefix: Seq<char>,
    st: FoundView,
    k: Seq<char>,
)
    ensures
        st.unknown.subset_of(diff::ls_gone(bes, kept, n, prefix, seq![], st).0.unknown),
        prefix.len() > 0 && !leaves::under(prefix, k) ==> keeps(
            st,
            diff::ls_gone(bes, kept, n, prefix, seq![], st).0,
            k,
        ),
    decreases n,
{
    if n > 0 && n <= bes.len() {
        lemma_gone_keeps(bes, kept, (n - 1) as nat, prefix, st, k);
        let prev = diff::ls_gone(bes, kept, (n - 1) as nat, prefix, seq![], st);
        let e = bes[n - 1];
        if prev.1 is None {
            lemma_gone_entry(e, prefix, prev.0, k);
            if prefix.len() > 0 && leaves::entry_leaf(e, prefix, k) is Some {
                leaves::lemma_entry_leaf_region(e, prefix, k);
                leaves::lemma_deeper_under(prefix, e.name_text(), k);
            }
        }
    }
}

/// A deleted entry is deleted by its files and symlinks, or left in the dark.
proof fn lemma_gone_entry(e: TreeEntry, prefix: Seq<char>, st: FoundView, k: Seq<char>)
    ensures
        ({
            let r = diff::ls_gone_entry(e, text::joined(prefix, e.name_text()), seq![], st);
            &&& st.unknown.subset_of(r.0.unknown)
            &&& (e.name_text().len() > 0 || prefix.len() > 0) && leaves::entry_leaf(e, prefix, k)
                is None ==> row_at(r.0, k) == row_at(st, k)
            &&& r.1 is None && (e.name_text().len() > 0 || prefix.len() > 0) && leaves::entry_leaf(
                e,
                prefix,
                k,
            ) is Some ==> row_at(r.0, k) == Some(DiffRow::Deleted) || in_the_dark(r.0, k)
        }),
    decreases e, 1nat,
{
    let path = text::joined(prefix, e.name_text());
    if let TreeEntry::Tree { node, .. } = e {
        let inner = diff::ls_gone_tree(node, path, seq![], st);
        if let Content::Entries(es) = node.content {
            lemma_gone_listing(es@, es@.len(), path, st, k);
        }
        if leaves::entry_leaf(e, prefix, k) is Some && path.len() > 0 {
            leaves::lemma_leaf_under(node, path, k);
            assert(leaves::at_or_above(path, k));
            if inner.1 is Some {
                let r = diff::ls_gone_entry(e, path, seq![], st);
                if r.1 is None {
                    assert(r.0.unknown.contains(path));
                }
            }
        }
    }
}

proof fn lemma_gone_listing(
    es: Seq<TreeEntry>,
    n: nat,
    prefix: Seq<char>,
    st: FoundView,
    k: Seq<char>,
)
    requires
        n <= es.len(),
    ensures
        ({
            let r = diff::ls_gone_listing(es, n, prefix, seq![], st);
            &&& st.unknown.subset_of(r.0.unknown)
            &&& prefix.len() > 0 && leaves::leaf_in(es, n, prefix, k) is None ==> row_at(r.0, k)
                == row_at(st, k)
            &&& r.1 is None && prefix.len() > 0 && leaves::leaf_in(es, n, prefix, k) is Some
                ==> row_at(r.0, k) == Some(DiffRow::Deleted) || in_the_dark(r.0, k)
        }),
    decreases es, n,
{
    if n > 0 {
        lemma_gone_listing(es, (n - 1) as nat, prefix, st, k);
        let prev = diff::ls_gone_listing(es, (n - 1) as nat, prefix, seq![], st);
        let all = diff::ls_gone_listing(es, n, prefix, seq![], st);
        let e = es[n - 1];
        reveal_strlit("/");
        assert("/"@ =~= seq!['/']);
        if prefix.len() > 0 {
            assert(prefix + "/"@ + e.name_text() =~= text::joined(prefix, e.name_text()));
        }
        if prev.1 is None {
            if prefix.len() > 0 {
                lemma_gone_entry(e, prefix, prev.0, k);
                if in_the_dark(prev.0, k) {
                    lemma_dark_stays(prev.0, all.0, k);
                }
            } else {
                lemma_gone_unknown(e, prefix + "/"@ + e.name_text(), prev.0);
            }
        }
    }
}

proof fn lemma_gone_unknown(e: TreeEntry, path: Seq<char>, st: FoundView)
    ensures
        st.unknown.subset_of(diff::ls_gone_entry(e, path, seq![], st).0.unknown),
    decreases e, 1nat,
{
    if let TreeEntry::Tree { node, .. } = e {
        if let Content::Entries(es) = node.content {
            lemma_gone_listing_unknown(es@, es@.len(), path, st);
        }
    }
}

proof fn lemma_gone_listing_unknown(es: Seq<TreeEntry>, n: nat, prefix: Seq<char>, st: FoundView)
    ensures
        st.unknown.subset_of(diff::ls_gone_listing(es, n, prefix, seq![], st).0.unknown),
    decreases es, n,
{
    if n > 0 && n <= es.len() {
        lemma_gone_listing_unknown(es, (n - 1) as nat, prefix, st);
        let prev = diff::ls_gone_listing(es, (n - 1) as nat, prefix, seq![], st);
        lemma_gone_unknown(es[n - 1], prefix + "/"@ + es[n - 1].name_text(), prev.0);
    }
}

// ---------------------------------------------------------------------------
// What a walk tells
// ---------------------------------------------------------------------------

/// Whether the entry `j` of the base is gone: the target does not name it.
spec fn is_gone(bes: Seq<TreeEntry>, kept: Seq<Seq<char>>, j: int) -> bool {
    object::last_named(bes, bes[j].name_text()) == Some(j) && !kept.contains(bes[j].name_text())
}

proof fn lemma_gone_upto(
    bes: Seq<TreeEntry>,
    kept: Seq<Seq<char>>,
    n: nat,
    prefix: Seq<char>,
    st: FoundView,
    k: Seq<char>,
)
    requires
        leaves::well_named(bes),
        n <= bes.len(),
        diff::ls_gone(bes, kept, n, prefix, seq![], st).1 is None,
    ensures
        ({
            let r = diff::ls_gone(bes, kept, n, prefix, seq![], st).0;
            &&& st.unknown.subset_of(r.unknown)
            &&& (forall|j: int|
                0 <= j < n && is_gone(bes, kept, j) ==> leaves::entry_leaf(
                    #[trigger] bes[j],
                    prefix,
                    k,
                ) is None) ==> row_at(r, k) == row_at(st, k)
            &&& forall|j: int|
                0 <= j < n && is_gone(bes, kept, j) && leaves::entry_leaf(
                    #[trigger] bes[j],
                    prefix,
                    k,
                ) is Some ==> row_at(r, k) == Some(DiffRow::Deleted) || in_the_dark(r, k)
        }),
    decreases n,
{
    if n > 0 {
        lemma_gone_upto(bes, kept, (n - 1) as nat, prefix, st, k);
        let prev = diff::ls_gone(bes, kept, (n - 1) as nat, prefix, seq![], st).0;
        let r = diff::ls_gone(bes, kept, n, prefix, seq![], st).0;
        let e = bes[n - 1];
        if is_gone(bes, kept, n - 1) {
            lemma_gone_entry(e, prefix, prev, k);
        }
        assert forall|j: int|
            0 <= j < n && is_gone(bes, kept, j) && leaves::entry_leaf(
                #[trigger] bes[j],
                prefix,
                k,
            ) is Some implies row_at(r, k) == Some(DiffRow::Deleted) || in_the_dark(r, k) by {
            if j < n - 1 {
                if in_the_dark(prev, k) {
                    lemma_dark_stays(prev, r, k);
                }
            }
        }
    }
}

/// The directory that a base has in the region of a name is what its entry of that name
/// has.
pub proof fn lemma_base_dir_in_region(
    bes: Seq<TreeEntry>,
    name: Seq<char>,
    prefix: Seq<char>,
    k: Seq<char>,
)
    requires
        leaves::well_named(bes),
        name.len() > 0,
        !name.contains('/'),
        leaves::in_region(prefix, name, k),
    ensures
        leaves::dir_in(bes, bes.len(), prefix, k) == match object::entry_named(bes, name) {
            Some(b) => leaves::entry_dir(b, prefix, k),
            None => None,
        },
{
    object::lemma_last_named(bes, name);
    match object::last_named(bes, name) {
        Some(j) => {
            leaves::lemma_dir_in_region(bes, bes.len(), prefix, j, k);
        },
        None => {
            lemma_no_dir(bes, bes.len(), name, prefix, k);
        },
    }
}

pub proof fn lemma_no_dir(
    bes: Seq<TreeEntry>,
    n: nat,
    name: Seq<char>,
    prefix: Seq<char>,
    k: Seq<char>,
)
    requires
        leaves::well_named(bes),
        n <= bes.len(),
        name.len() > 0,
        !name.contains('/'),
        leaves::in_region(prefix, name, k),
        forall|j: int| 0 <= j < bes.len() ==> (#[trigger] bes[j]).name_text() != name,
    ensures
        leaves::dir_in(bes, n, prefix, k) is None,
    decreases n,
{
    if n > 0 {
        lemma_no_dir(bes, (n - 1) as nat, name, prefix, k);
        if leaves::entry_dir(bes[n - 1], prefix, k) is Some {
            leaves::lemma_entry_dir_region(bes[n - 1], prefix, k);
            leaves::lemma_regions_disjoint(prefix, name, bes[n - 1].name_text(), k);
        }
    }
}

/// What the diff tells in the region of an entry.
proof fn lemma_entry_told(
    bes: Seq<TreeEntry>,
    e: TreeEntry,
    prefix: Seq<char>,
    link_hash: ObjectHash,
    s: FoundView,
    k: Seq<char>,
)
    requires
        leaves::well_named(bes),
        e.name_text().len() > 0,
        !e.name_text().contains('/'),
        entry_found(bes, e, prefix, link_hash, s).1 is None,
        leaves::in_region(prefix, e.name_text(), k),
        row_at(s, k) is None,
        leaves::entry_comparable_at(object::entry_named(bes, e.name_text()), e, prefix, k),
    ensures
        ({
            let r = entry_found(bes, e, prefix, link_hash, s).0;
            in_the_dark(r, k) || row_tells(
                row_at(r, k),
                leaves::leaf_in(bes, bes.len(), prefix, k),
                leaves::dir_in(bes, bes.len(), prefix, k),
                leaves::entry_leaf(e, prefix, k),
                leaves::entry_dir(e, prefix, k),
                link_hash,
            )
        }),
    decreases e, 2nat,
{
    let name = e.name_text();
    let base = object::entry_named(bes, name);
    let path = text::joined(prefix, name);
    let r = entry_found(bes, e, prefix, link_hash, s).0;
    object::lemma_last_named(bes, name);
    leaves::lemma_base_in_region(bes, name, prefix, k);
    lemma_base_dir_in_region(bes, name, prefix, k);
    match e {
        TreeEntry::Tree { node, .. } => {
            let dir = pull::base_dir(base);
            let inner = diff::ls_tree(dir, node, path, seq![], link_hash, s);
            assert(!leaves::under(path, path));
            if inner.1 is Some {
                assert(leaves::at_or_above(path, k));
                assert(r.unknown.contains(path));
                assert(in_the_dark(r, k));
            } else if k == path {
                lemma_tree_keeps(dir, node, path, link_hash, s, k);
                if leaves::leaf_at(node, path, k) is Some {
                    leaves::lemma_leaf_under(node, path, k);
                }
                if let Some(TreeEntry::Tree { node: b, .. }) = base {
                    if leaves::leaf_at(b, path, k) is Some {
                        leaves::lemma_leaf_under(b, path, k);
                    }
                }
            } else {
                lemma_tree_told(dir, node, path, link_hash, s, k);
                if in_the_dark(inner.0, k) {
                    lemma_dark_stays(inner.0, r, k);
                }
                assert(row_at(r, k) == row_at(inner.0, k));
            }
        },
        _ => {},
    }
}

/// Where a listing has been compared, the diff tells what the target has; elsewhere it
/// is as it was.
spec fn listing_told(
    bes: Seq<TreeEntry>,
    tes: Seq<TreeEntry>,
    n: nat,
    prefix: Seq<char>,
    link_hash: ObjectHash,
    st: FoundView,
    r: FoundView,
    k: Seq<char>,
) -> bool {
    &&& st.unknown.subset_of(r.unknown)
    &&& (forall|i: int|
        0 <= i < n ==> !leaves::in_region(prefix, (#[trigger] tes[i]).name_text(), k)) ==> row_at(
        r,
        k,
    ) == row_at(st, k)
    &&& forall|i: int|
        0 <= i < n && leaves::in_region(prefix, (#[trigger] tes[i]).name_text(), k)
            ==> in_the_dark(r, k) || row_tells(
            row_at(r, k),
            leaves::leaf_in(bes, bes.len(), prefix, k),
            leaves::dir_in(bes, bes.len(), prefix, k),
            leaves::leaf_in(tes, tes.len(), prefix, k),
            leaves::dir_in(tes, tes.len(), prefix, k),
            link_hash,
        )
}

proof fn lemma_listing_told(
    bes: Seq<TreeEntry>,
    tes: Seq<TreeEntry>,
    n: nat,
    prefix: Seq<char>,
    link_hash: ObjectHash,
    st: FoundView,
    k: Seq<char>,
)
    requires
        n <= tes.len(),
        leaves::well_named(bes),
        leaves::well_named(tes),
        forall|i: int|
            0 <= i < tes.len() && leaves::in_region(prefix, (#[trigger] tes[i]).name_text(), k)
                ==> leaves::entry_comparable_at(
                object::entry_named(bes, tes[i].name_text()),
                tes[i],
                prefix,
                k,
            ),
        leaves::under(prefix, k) ==> row_at(st, k) is None,
        diff::ls_listing(bes, tes, n, prefix, seq![], link_hash, st).1 is None,
    ensures
        listing_told(
            bes,
            tes,
            n,
            prefix,
            link_hash,
            st,
            diff::ls_listing(bes, tes, n, prefix, seq![], link_hash, st).0,
            k,
        ),
    decreases tes, n,
{
    if n > 0 {
        lemma_listing_told(bes, tes, (n - 1) as nat, prefix, link_hash, st, k);
        let prev = diff::ls_listing(bes, tes, (n - 1) as nat, prefix, seq![], link_hash, st).0;
        let r = diff::ls_listing(bes, tes, n, prefix, seq![], link_hash, st).0;
        let e = tes[n - 1];
        let name = e.name_text();
        assert(entry_found(bes, e, prefix, link_hash, prev) == (r, None::<Halt>));
        lemma_entry_keeps(bes, e, prefix, link_hash, prev, k);
        if leaves::in_region(prefix, name, k) {
            assert forall|i: int| 0 <= i < n - 1 implies !leaves::in_region(
                prefix,
                (#[trigger] tes[i]).name_text(),
                k,
            ) by {
                if leaves::in_region(prefix, tes[i].name_text(), k) {
                    leaves::lemma_regions_disjoint(prefix, name, tes[i].name_text(), k);
                    assert(tes[i].name_text() != tes[n - 1].name_text());
                }
            }
            leaves::lemma_region_under(prefix, name, k);
            leaves::lemma_leaf_in_region(tes, tes.len(), prefix, n - 1, k);
            leaves::lemma_dir_in_region(tes, tes.len(), prefix, n - 1, k);
            lemma_entry_told(bes, e, prefix, link_hash, prev, k);
        } else {
            if in_the_dark(prev, k) {
                lemma_dark_stays(prev, r, k);
            }
            assert(row_at(r, k) == row_at(prev, k));
        }
    }
}

proof fn lemma_tree_told(
    base: Option<TreeNode>,
    target: TreeNode,
    prefix: Seq<char>,
    link_hash: ObjectHash,
    st: FoundView,
    k: Seq<char>,
)
    requires
        leaves::comparable_at(base, target, prefix, k),
        leaves::under(prefix, k),
        row_at(st, k) is None,
        diff::ls_tree(base, target, prefix, seq![], link_hash, st).1 is None,
    ensures
        told(
            base,
            target,
            prefix,
            link_hash,
            diff::ls_tree(base, target, prefix, seq![], link_hash, st).0,
            k,
        ),
    decreases target, 1nat,
{
    if !(base is Some && base->0.hash == target.hash) {
        if let Content::Entries(tes) = target.content {
            let bes = pull::base_listing(base)->Ok_0;
            let a = diff::ls_listing(bes, tes@, tes@.len(), prefix, seq![], link_hash, st);
            assert(a.1 is None);
            lemma_listing_told(bes, tes@, tes@.len(), prefix, link_hash, st, k);
            assert(leaves::leaf_in(bes, bes.len(), prefix, k) == leaves::base_leaf(
                base,
                prefix,
                k,
            ));
            assert(leaves::dir_in(bes, bes.len(), prefix, k) == base_dir_at(base, prefix, k));
            lemma_tree_at(bes, tes@, prefix, link_hash, st, a.0, k);
        }
    }
}

/// Puts the two passes over a directory together, at one path.
proof fn lemma_tree_at(
    bes: Seq<TreeEntry>,
    tes: Seq<TreeEntry>,
    prefix: Seq<char>,
    link_hash: ObjectHash,
    st: FoundView,
    mid: FoundView,
    k: Seq<char>,
)
    requires
        leaves::well_named(bes),
        leaves::well_named(tes),
        row_at(st, k) is None,
        listing_told(bes, tes, tes.len(), prefix, link_hash, st, mid, k),
        diff::ls_gone(bes, object::names(tes), bes.len(), prefix, seq![], mid).1 is None,
    ensures
        ({
            let r = diff::ls_gone(bes, object::names(tes), bes.len(), prefix, seq![], mid).0;
            in_the_dark(r, k) || row_tells(
                row_at(r, k),
                leaves::leaf_in(bes, bes.len(), prefix, k),
                leaves::dir_in(bes, bes.len(), prefix, k),
                leaves::leaf_in(tes, tes.len(), prefix, k),
                leaves::dir_in(tes, tes.len(), prefix, k),
                link_hash,
            )
        }),
{
    let kept = object::names(tes);
    let r = diff::ls_gone(bes, kept, bes.len(), prefix, seq![], mid).0;
    lemma_gone_upto(bes, kept, bes.len(), prefix, mid, k);
    if in_the_dark(mid, k) {
        lemma_dark_stays(mid, r, k);
    }
    if exists|i: int|
        0 <= i < tes.len() && leaves::in_region(prefix, (#[trigger] tes[i]).name_text(), k) {
        let i = choose|i: int|
            0 <= i < tes.len() && leaves::in_region(prefix, (#[trigger] tes[i]).name_text(), k);
        assert(kept[i] == tes[i].name_text());
        assert forall|j: int| 0 <= j < bes.len() && is_gone(bes, kept, j) implies leaves::entry_leaf(
            #[trigger] bes[j],
            prefix,
            k,
        ) is None by {
            if leaves::entry_leaf(bes[j], prefix, k) is Some {
                leaves::lemma_entry_leaf_region(bes[j], prefix, k);
                leaves::lemma_regions_disjoint(
                    prefix,
                    tes[i].name_text(),
                    bes[j].name_text(),
                    k,
                );
                assert(kept.contains(bes[j].name_text()));
            }
        }
    } else {
        leaves::lemma_leaf_in_none(tes, tes.len(), prefix, k);
        if leaves::leaf_in(bes, bes.len(), prefix, k) is None {
            leaves::lemma_leaf_in_parts(bes, bes.len(), prefix, k);
        }
        if exists|j: int|
            0 <= j < bes.len() && leaves::in_region(prefix, (#[trigger] bes[j]).name_text(), k) {
            let j = choose|j: int|
                0 <= j < bes.len() && leaves::in_region(prefix, (#[trigger] bes[j]).name_text(), k);
            leaves::lemma_leaf_in_region(bes, bes.len(), prefix, j, k);
            assert(is_gone(bes, kept, j)) by {
                object::lemma_last_named(bes, bes[j].name_text());
                let l = object::last_named(bes, bes[j].name_text())->0;
                if l < j {
                    assert(bes[l].name_text() != bes[j].name_text());
                } else if j < l {
                    assert(bes[j].name_text() != bes[l].name_text());
                }
                if kept.contains(bes[j].name_text()) {
                    let i = choose|i: int| 0 <= i < kept.len() && kept[i] == bes[j].name_text();
                    assert(leaves::in_region(prefix, tes[i].name_text(), k));
                }
            }
        } else {
            leaves::lemma_leaf_in_none(bes, bes.len(), prefix, k);
        }
    }
}

/// The rows of a diff say what became of each path, seen from the two trees: it was added
/// where only the working tree has it, deleted where only the clone root has it, modified
/// where both have it and differ, and there is no row where both have the same. Only of
/// what lies in a subtree that cannot be compared nothing is said.
pub proof fn law_rows_tell_what_differs(
    base: Option<TreeNode>,
    target: TreeNode,
    link_hash: ObjectHash,
    k: Seq<char>,
)
    requires
        leaves::comparable_at(base, target, seq![], k),
        diff::ls_diff(base, target, seq![], link_hash).1 is None,
        !diff::ls_diff(base, target, seq![], link_hash).0.unknown.contains("."@),
    ensures
        ({
            let f = diff::ls_diff(base, target, seq![], link_hash).0;
            in_the_dark(f, k) || row_tells(
                row_at(f, k),
                leaves::base_leaf(base, seq![], k),
                base_dir_at(base, seq![], k),
                leaves::leaf_at(target, seq![], k),
                leaves::dir_at(target, seq![], k),
                link_hash,
            )
        }),
{
    reveal_strlit("");
    assert(""@ =~= Seq::<char>::empty());
    let nothing = FoundView { rows: Map::empty(), unknown: Set::empty() };
    let r = diff::ls_tree(base, target, ""@, seq![], link_hash, nothing);
    assert(r.1 is None);
    lemma_tree_told(base, target, seq![], link_hash, nothing, k);
}

// ---------------------------------------------------------------------------
// The rows of a listing of differences
// ---------------------------------------------------------------------------

/// The letter of a change.
spec fn letter_of(change: DiffRow) -> char {
    match change {
        DiffRow::Added { .. } => 'A',
        DiffRow::AddedEmptyDir { .. } => 'A',
        DiffRow::Modified { .. } => 'M',
        DiffRow::Deleted => 'D',
    }
}

proof fn lemma_by_path_contains(s: Seq<RowView>, x: RowView)
    ensures
        marks::by_path(s).contains(x) <==> s.contains(x),
{
    marks::law_rows_in_order(s);
    s.to_multiset_ensures();
    marks::by_path(s).to_multiset_ensures();
    assert(marks::by_path(s).to_multiset().count(x) == s.to_multiset().count(x));
}

/// A listing of differences has one row with its letter for each path that differs, and no
/// other row for a path: `A` for what was added, `M` for what was modified, `D` for what
/// was deleted.
pub proof fn law_dirty_rows_show_letters(f: FoundView, full: bool, k: Seq<char>, c: char)
    requires
        f.rows.dom().finite(),
        f.unknown.finite(),
        k.len() > 0,
        k.last() != '/',
        k != seq!['.'],
    ensures
        (exists|i: int|
            0 <= i < ls::dirty_rows(f, full).len() && (#[trigger] ls::dirty_rows(f, full)[i]).path
                == k && ls::dirty_rows(f, full)[i].status == c) <==> match row_at(f, k) {
            Some(DiffRow::Added { .. }) => c == 'A',
            Some(DiffRow::Modified { .. }) => c == 'M',
            Some(DiffRow::Deleted) => c == 'D',
            _ => false,
        },
{
    collections::lemma_listing_exists(f.rows.dom());
    collections::lemma_listing_exists(f.unknown);
    let ps = collections::listing(f.rows.dom());
    let us = collections::listing(f.unknown);
    let a = Seq::new(ps.len(), |i: int| ls::dirty_row(ps[i], f.rows[ps[i]], full));
    let b = Seq::new(us.len(), |i: int| ls::unknown_row(us[i]));
    let all = ls::dirty_rows(f, full);
    if f.rows.dom().contains(k) {
        assert(ps.contains(k));
        let i = choose|i: int| 0 <= i < ps.len() && ps[i] == k;
        let x = ls::dirty_row(k, f.rows[k], full);
        assert((a + b)[i] == x);
        lemma_by_path_contains(a + b, x);
        let j = choose|j: int| 0 <= j < all.len() && all[j] == x;
        assert(all[j] == x);
        assert(x.status == letter_of(f.rows[k]));
    }
    assert forall|i: int|
        0 <= i < all.len() && (#[trigger] all[i]).path == k && all[i].status == c implies row_at(
        f,
        k,
    ) matches Some(d) && !(d is AddedEmptyDir) && letter_of(d) == c by {
        let x = all[i];
        assert(all.contains(x));
        lemma_by_path_contains(a + b, x);
        let j = choose|j: int| 0 <= j < (a + b).len() && (a + b)[j] == x;
        if j < a.len() {
            assert(x == ls::dirty_row(ps[j], f.rows[ps[j]], full));
            assert(ps.contains(ps[j]));
            if f.rows[ps[j]] is AddedEmptyDir {
                assert(x.path == ps[j].push('/'));
                assert(x.path.last() == '/');
            }
        } else {
            let u = us[j - a.len()];
            assert(x == ls::unknown_row(u));
            if u != seq!['.'] {
                assert(x.path == u.push('/'));
                assert(x.path.last() == '/');
            }
        }
    }
}

proof fn lemma_diff_is_finite(
    base: Option<TreeNode>,
    target: TreeNode,
    scopes: Seq<Seq<char>>,
    link_hash: ObjectHash,
)
    ensures
        diff::ls_diff(base, target, scopes, link_hash).0.rows.dom().finite(),
        diff::ls_diff(base, target, scopes, link_hash).0.unknown.finite(),
{
    let nothing = FoundView { rows: Map::empty(), unknown: Set::empty() };
    restrict::lemma_tree_is_finite(base, target, ""@, scopes, link_hash, nothing);
}

/// A listing of differences shows what became of each path, seen from the two trees: `D`
/// exactly where the clone root has a file or symlink and the working tree has none, `A`
/// exactly where only the working tree has something, `M` exactly where both have something
/// and differ, and nothing where both have the same.
pub proof fn law_dirty_listing_tells_what_differs(
    opts: LsOptions,
    prefixes: Seq<Seq<char>>,
    t: LsTrees,
    k: Seq<char>,
)
    requires
        opts.dirty,
        leaves::comparable_at(pull::deref_base(t.clone), *t.working, seq![], k),
        restrict::root_is_named(*t.working),
        t.clone is Some ==> restrict::root_is_named(*t.clone->0),
        diff::ls_diff(pull::deref_base(t.clone), *t.working, seq![], t.link_hash).1 is None,
        !diff::ls_diff(pull::deref_base(t.clone), *t.working, seq![], t.link_hash).0.unknown.contains(
            "."@,
        ),
        !in_the_dark(
            diff::ls_diff(pull::deref_base(t.clone), *t.working, seq![], t.link_hash).0,
            k,
        ),
        scope::within(scope::scopes_of(prefixes), k),
        k.len() > 0,
        k.last() != '/',
        k != seq!['.'],
    ensures
        ({
            let clone = pull::deref_base(t.clone);
            let before = leaves::base_leaf(clone, seq![], k);
            let before_dir = base_dir_at(clone, seq![], k);
            let after = leaves::leaf_at(*t.working, seq![], k);
            &&& ls::ls_spec(opts, prefixes, t) is Ok
            &&& shows(ls::ls_spec(opts, prefixes, t)->Ok_0, k, 'D') <==> before is Some && after
                is None
            &&& shows(ls::ls_spec(opts, prefixes, t)->Ok_0, k, 'A') <==> before is None
                && before_dir is None && after is Some
            &&& shows(ls::ls_spec(opts, prefixes, t)->Ok_0, k, 'M') <==> (before is Some
                || before_dir is Some) && after is Some && before != after
        }),
{
    let clone = pull::deref_base(t.clone);
    let scopes = scope::scopes_of(prefixes);
    let whole = diff::ls_diff(clone, *t.working, seq![], t.link_hash).0;
    let f = diff::ls_diff(clone, *t.working, scopes, t.link_hash).0;
    law_rows_tell_what_differs(clone, *t.working, t.link_hash, k);
    restrict::law_scope_filters_the_diff(clone, *t.working, scopes, t.link_hash);
    assert(row_at(f, k) == row_at(whole, k));
    lemma_diff_is_finite(clone, *t.working, scopes, t.link_hash);
    law_dirty_rows_show_letters(f, opts.full_hash, k, 'D');
    law_dirty_rows_show_letters(f, opts.full_hash, k, 'A');
    law_dirty_rows_show_letters(f, opts.full_hash, k, 'M');
}

/// Whether some row shows a path with a letter.
pub open spec fn shows(rows: Seq<RowView>, k: Seq<char>, c: char) -> bool {
    exists|i: int| 0 <= i < rows.len() && (#[trigger] rows[i]).path == k && rows[i].status == c
}

} // verus!
