//! What a scoped diff has to do with the diff of the whole.

use crate::commands::ls::diff::{self, DiffRow, FoundView};
use crate::commands::ls::scope;
use crate::commands::pull;
use crate::object::{self, Content, Halt, ObjectHash, TreeEntry, TreeNode};
use crate::text;
use vstd::prelude::*;

verus! {

/// What was found, as far as it is in scope.
pub open spec fn restricted(st: FoundView, scope: Seq<Seq<char>>) -> FoundView {
    let inside = Set::new(|p: Seq<char>| scope::within(scope, p));
    FoundView { rows: st.rows.restrict(inside), unknown: st.unknown.intersect(inside) }
}

/// Whether a tree has no directory without a name at its root.
pub open spec fn dirs_are_named(es: Seq<TreeEntry>) -> bool {
    forall|i: int|
        0 <= i < es.len() ==> ((#[trigger] es[i]) is Tree ==> es[i].name_text().len() > 0)
}

/// Whether the tree of a node, where it is known, has no directory without a name at its
/// root.
pub open spec fn root_is_named(node: TreeNode) -> bool {
    node.listing() matches Ok(es) ==> dirs_are_named(es)
}

/// Whether `k` is `at` or lies below it; all lies below the root.
pub open spec fn covers(at: Seq<char>, k: Seq<char>) -> bool {
    at.len() == 0 || k == at || text::has_prefix(k, at.push('/'))
}

/// Whether the two say the same of `k`.
pub open spec fn same_at(a: FoundView, b: FoundView, k: Seq<char>) -> bool {
    &&& a.rows.dom().contains(k) == b.rows.dom().contains(k)
    &&& a.rows.dom().contains(k) ==> a.rows[k] == b.rows[k]
    &&& a.unknown.contains(k) == b.unknown.contains(k)
}

/// Whether what was found grows from `a` to `b`, at and below `at` alone.
pub open spec fn grows_below(a: FoundView, b: FoundView, at: Seq<char>) -> bool {
    &&& a.rows.dom().finite() ==> b.rows.dom().finite()
    &&& a.unknown.finite() ==> b.unknown.finite()
    &&& a.rows.dom().subset_of(b.rows.dom())
    &&& forall|k: Seq<char>| #[trigger] covers(at, k) || same_at(a, b, k)
}

proof fn lemma_prefix_of_prefix(k: Seq<char>, a: Seq<char>, b: Seq<char>)
    requires
        text::has_prefix(k, a),
        text::has_prefix(a, b),
    ensures
        text::has_prefix(k, b),
{
    assert(k.take(b.len() as int) =~= k.take(a.len() as int).take(b.len() as int));
}

proof fn lemma_child_is_covered(prefix: Seq<char>, path: Seq<char>, k: Seq<char>)
    requires
        prefix.len() == 0 || text::has_prefix(path, prefix.push('/')),
        path.len() > 0,
        covers(path, k),
    ensures
        covers(prefix, k),
{
    if prefix.len() > 0 && k != path {
        assert(path.push('/').take(prefix.len() as int + 1) =~= path.take(prefix.len() as int + 1));
        lemma_prefix_of_prefix(k, path.push('/'), prefix.push('/'));
    }
}

proof fn lemma_joined(prefix: Seq<char>, name: Seq<char>)
    ensures
        prefix.len() == 0 || text::has_prefix(text::joined(prefix, name), prefix.push('/')),
        prefix.len() > 0 ==> text::joined(prefix, name).len() > 0,
        prefix.len() == 0 ==> text::joined(prefix, name) == name,
        prefix.len() > 0 ==> prefix + "/"@ + name == text::joined(prefix, name),
{
    reveal_strlit("/");
    assert("/"@ =~= seq!['/']);
    if prefix.len() > 0 {
        let path = text::joined(prefix, name);
        assert(path.take(prefix.len() as int + 1) =~= prefix.push('/'));
        assert(prefix + "/"@ + name =~= path);
    }
}

proof fn lemma_grows_twice(a: FoundView, b: FoundView, c: FoundView, at: Seq<char>)
    requires
        grows_below(a, b, at),
        grows_below(b, c, at),
    ensures
        grows_below(a, c, at),
{
    assert forall|k: Seq<char>| #[trigger] covers(at, k) || same_at(a, c, k) by {
        assert(covers(at, k) || same_at(a, b, k));
        assert(covers(at, k) || same_at(b, c, k));
    }
}

proof fn lemma_grows_above(a: FoundView, b: FoundView, prefix: Seq<char>, path: Seq<char>)
    requires
        grows_below(a, b, path),
        prefix.len() == 0 || text::has_prefix(path, prefix.push('/')),
    ensures
        grows_below(a, b, prefix),
{
    assert forall|k: Seq<char>| #[trigger] covers(prefix, k) || same_at(a, b, k) by {
        if prefix.len() > 0 {
            if covers(path, k) {
                lemma_child_is_covered(prefix, path, k);
            }
        }
    }
}

proof fn lemma_row_grows(st: FoundView, scope: Seq<Seq<char>>, path: Seq<char>, row: DiffRow)
    ensures
        grows_below(st, diff::with_row(st, scope, path, row), path),
{
}

proof fn lemma_unknown_grows(st: FoundView, scope: Seq<Seq<char>>, path: Seq<char>)
    ensures
        grows_below(st, diff::with_unknown(st, scope, path), path),
{
}

// ---------------------------------------------------------------------------
// A walk changes nothing beside what it walks over
// ---------------------------------------------------------------------------

proof fn lemma_tree_grows(
    base: Option<TreeNode>,
    target: TreeNode,
    prefix: Seq<char>,
    scope: Seq<Seq<char>>,
    link_hash: ObjectHash,
    st: FoundView,
)
    ensures
        grows_below(
            st,
            diff::ls_tree(base, target, prefix, scope, link_hash, st).0,
            prefix,
        ),
    decreases target, 0nat,
{
    if let Content::Entries(tes) = target.content {
        if let Ok(bes) = pull::base_listing(base) {
            let a = diff::ls_listing(bes, tes@, tes@.len(), prefix, scope, link_hash, st);
            lemma_listing_grows(bes, tes@, tes@.len(), prefix, scope, link_hash, st);
            lemma_gone_grows(bes, object::names(tes@), bes.len(), prefix, scope, a.0);
            lemma_grows_twice(
                st,
                a.0,
                diff::ls_gone(bes, object::names(tes@), bes.len(), prefix, scope, a.0).0,
                prefix,
            );
        }
    }
}

proof fn lemma_listing_grows(
    bes: Seq<TreeEntry>,
    tes: Seq<TreeEntry>,
    n: nat,
    prefix: Seq<char>,
    scope: Seq<Seq<char>>,
    link_hash: ObjectHash,
    st: FoundView,
)
    ensures
        grows_below(
            st,
            diff::ls_listing(bes, tes, n, prefix, scope, link_hash, st).0,
            prefix,
        ),
    decreases tes, n,
{
    if n > 0 && n <= tes.len() {
        let prev = diff::ls_listing(bes, tes, (n - 1) as nat, prefix, scope, link_hash, st);
        let all = diff::ls_listing(bes, tes, n, prefix, scope, link_hash, st);
        lemma_listing_grows(bes, tes, (n - 1) as nat, prefix, scope, link_hash, st);
        if prev.1 is None {
            let e = tes[n - 1];
            let path = text::joined(prefix, e.name_text());
            let base = object::entry_named(bes, e.name_text());
            lemma_joined(prefix, e.name_text());
            if let TreeEntry::Tree { node, .. } = e {
                let inner = diff::ls_tree(
                    pull::base_dir(base),
                    node,
                    path,
                    scope,
                    link_hash,
                    prev.0,
                );
                lemma_tree_grows(pull::base_dir(base), node, path, scope, link_hash, prev.0);
                let row = DiffRow::AddedEmptyDir { hash: node.hash };
                lemma_row_grows(inner.0, scope, path, row);
                lemma_unknown_grows(inner.0, scope, path);
                lemma_grows_twice(
                    prev.0,
                    inner.0,
                    diff::with_row(inner.0, scope, path, row),
                    path,
                );
                lemma_grows_twice(
                    prev.0,
                    inner.0,
                    diff::with_unknown(inner.0, scope, path),
                    path,
                );
            }
            assert(grows_below(prev.0, all.0, path));
            lemma_grows_above(prev.0, all.0, prefix, path);
            lemma_grows_twice(st, prev.0, all.0, prefix);
        }
    }
}

proof fn lemma_gone_grows(
    bes: Seq<TreeEntry>,
    kept: Seq<Seq<char>>,
    n: nat,
    prefix: Seq<char>,
    scope: Seq<Seq<char>>,
    st: FoundView,
)
    ensures
        grows_below(st, diff::ls_gone(bes, kept, n, prefix, scope, st).0, prefix),
    decreases n,
{
    if n > 0 && n <= bes.len() {
        let prev = diff::ls_gone(bes, kept, (n - 1) as nat, prefix, scope, st);
        lemma_gone_grows(bes, kept, (n - 1) as nat, prefix, scope, st);
        let e = bes[n - 1];
        let path = text::joined(prefix, e.name_text());
        lemma_joined(prefix, e.name_text());
        lemma_gone_entry_grows(e, path, scope, prev.0);
        let here = diff::ls_gone_entry(e, path, scope, prev.0);
        lemma_grows_above(prev.0, here.0, prefix, path);
        lemma_grows_twice(st, prev.0, here.0, prefix);
    }
}

proof fn lemma_gone_entry_grows(
    e: TreeEntry,
    path: Seq<char>,
    scope: Seq<Seq<char>>,
    st: FoundView,
)
    ensures
        grows_below(st, diff::ls_gone_entry(e, path, scope, st).0, path),
    decreases e, 0nat,
{
    if let TreeEntry::Tree { node, .. } = e {
        let inner = diff::ls_gone_tree(node, path, scope, st);
        if let Content::Entries(es) = node.content {
            lemma_gone_listing_grows(es@, es@.len(), path, scope, st);
        }
        assert(grows_below(st, inner.0, path));
        lemma_unknown_grows(inner.0, scope, path);
        lemma_grows_twice(st, inner.0, diff::with_unknown(inner.0, scope, path), path);
    }
}

proof fn lemma_gone_listing_grows(
    es: Seq<TreeEntry>,
    n: nat,
    prefix: Seq<char>,
    scope: Seq<Seq<char>>,
    st: FoundView,
)
    ensures
        grows_below(st, diff::ls_gone_listing(es, n, prefix, scope, st).0, prefix),
    decreases es, n,
{
    if n > 0 && n <= es.len() {
        let prev = diff::ls_gone_listing(es, (n - 1) as nat, prefix, scope, st);
        lemma_gone_listing_grows(es, (n - 1) as nat, prefix, scope, st);
        let name = es[n - 1].name_text();
        let path = prefix + "/"@ + name;
        lemma_joined(prefix, name);
        lemma_gone_entry_grows(es[n - 1], path, scope, prev.0);
        let here = diff::ls_gone_entry(es[n - 1], path, scope, prev.0);
        lemma_grows_above(prev.0, here.0, prefix, path);
        lemma_grows_twice(st, prev.0, here.0, prefix);
    }
}

// ---------------------------------------------------------------------------
// A scoped walk finds the part in scope
// ---------------------------------------------------------------------------

proof fn lemma_restricted_row(
    st: FoundView,
    scope: Seq<Seq<char>>,
    path: Seq<char>,
    row: DiffRow,
)
    ensures
        restricted(diff::with_row(st, seq![], path, row), scope) == diff::with_row(
            restricted(st, scope),
            scope,
            path,
            row,
        ),
{
    assert(restricted(diff::with_row(st, seq![], path, row), scope) =~= diff::with_row(
        restricted(st, scope),
        scope,
        path,
        row,
    ));
}

proof fn lemma_restricted_unknown(st: FoundView, scope: Seq<Seq<char>>, path: Seq<char>)
    ensures
        restricted(diff::with_unknown(st, seq![], path), scope) == diff::with_unknown(
            restricted(st, scope),
            scope,
            path,
        ),
{
    assert(restricted(diff::with_unknown(st, seq![], path), scope) =~= diff::with_unknown(
        restricted(st, scope),
        scope,
        path,
    ));
}

/// A directory that a scoped walk does not go down into holds nothing in scope.
proof fn lemma_out_of_scope(a: FoundView, b: FoundView, scope: Seq<Seq<char>>, path: Seq<char>)
    requires
        path.len() > 0,
        !scope::leads_to(scope, path),
        grows_below(a, b, path),
    ensures
        restricted(a, scope) == restricted(b, scope),
{
    assert forall|k: Seq<char>| scope::within(scope, k) implies same_at(a, b, k) by {
        if covers(path, k) {
            if k != path {
                scope::law_walk_reaches_scope(scope, path, k);
            }
        }
    }
    assert(restricted(a, scope) =~= restricted(b, scope));
}

/// All that lies below a path in scope is in scope.
proof fn lemma_below_is_within(scope: Seq<Seq<char>>, path: Seq<char>, k: Seq<char>)
    requires
        path.len() > 0,
        scope::within(scope, path),
        covers(path, k),
    ensures
        scope::within(scope, k),
{
    if scope.len() > 0 && k != path {
        let i = choose|i: int|
            0 <= i < scope.len() && (path == #[trigger] scope[i] || text::has_prefix(
                path,
                scope[i].push('/'),
            ));
        if path != scope[i] {
            let s = scope[i].push('/');
            assert(path.push('/').take(s.len() as int) =~= path.take(s.len() as int));
            lemma_prefix_of_prefix(k, path.push('/'), s);
        }
    }
}

/// Whether a walk below a path in scope found something new does not depend on the scope.
proof fn lemma_same_news(a: FoundView, b: FoundView, scope: Seq<Seq<char>>, path: Seq<char>)
    requires
        path.len() > 0,
        scope::within(scope, path),
        grows_below(a, b, path),
        a.rows.dom().finite(),
    ensures
        (a.rows.dom().len() == b.rows.dom().len()) == (restricted(a, scope).rows.dom().len()
            == restricted(b, scope).rows.dom().len()),
{
    let ra = restricted(a, scope).rows.dom();
    let rb = restricted(b, scope).rows.dom();
    let inside = Set::new(|p: Seq<char>| scope::within(scope, p));
    assert(ra =~= a.rows.dom().intersect(inside));
    assert(rb =~= b.rows.dom().intersect(inside));
    assert(ra.subset_of(rb));
    assert(rb.finite());
    if a.rows.dom().len() == b.rows.dom().len() {
        vstd::set_lib::lemma_subset_equality(a.rows.dom(), b.rows.dom());
    }
    if ra.len() == rb.len() {
        vstd::set_lib::lemma_subset_equality(ra, rb);
        assert forall|k: Seq<char>| #[trigger] b.rows.dom().contains(k) implies a.rows.dom().contains(
            k,
        ) by {
            if covers(path, k) {
                lemma_below_is_within(scope, path, k);
                assert(rb.contains(k));
            } else {
                assert(same_at(a, b, k));
            }
        }
        assert(a.rows.dom() =~= b.rows.dom());
    }
}

proof fn lemma_tree_restricted(
    base: Option<TreeNode>,
    target: TreeNode,
    prefix: Seq<char>,
    scope: Seq<Seq<char>>,
    link_hash: ObjectHash,
    st: FoundView,
)
    requires
        st.rows.dom().finite(),
        prefix.len() > 0 || root_is_named(target) && (base is Some ==> root_is_named(base->0)),
        !(diff::ls_tree(base, target, prefix, seq![], link_hash, st).1 matches Some(
            Halt::Unread(_),
        )),
    ensures
        ({
            let r = diff::ls_tree(base, target, prefix, seq![], link_hash, st);
            diff::ls_tree(base, target, prefix, scope, link_hash, restricted(st, scope)) == (
                restricted(r.0, scope),
                r.1,
            )
        }),
    decreases target, 0nat,
{
    if let Content::Entries(tes) = target.content {
        if let Ok(bes) = pull::base_listing(base) {
            if !(base is Some && base->0.hash == target.hash) {
                let a = diff::ls_listing(bes, tes@, tes@.len(), prefix, seq![], link_hash, st);
                lemma_listing_restricted(bes, tes@, tes@.len(), prefix, scope, link_hash, st);
                if a.1 is None {
                    lemma_listing_grows(bes, tes@, tes@.len(), prefix, seq![], link_hash, st);
                    lemma_gone_restricted(
                        bes,
                        object::names(tes@),
                        bes.len(),
                        prefix,
                        scope,
                        a.0,
                    );
                }
            }
        }
    }
}

proof fn lemma_listing_restricted(
    bes: Seq<TreeEntry>,
    tes: Seq<TreeEntry>,
    n: nat,
    prefix: Seq<char>,
    scope: Seq<Seq<char>>,
    link_hash: ObjectHash,
    st: FoundView,
)
    requires
        st.rows.dom().finite(),
        prefix.len() > 0 || dirs_are_named(tes),
        !(diff::ls_listing(bes, tes, n, prefix, seq![], link_hash, st).1 matches Some(
            Halt::Unread(_),
        )),
    ensures
        ({
            let r = diff::ls_listing(bes, tes, n, prefix, seq![], link_hash, st);
            diff::ls_listing(bes, tes, n, prefix, scope, link_hash, restricted(st, scope)) == (
                restricted(r.0, scope),
                r.1,
            )
        }),
    decreases tes, n,
{
    if n > 0 && n <= tes.len() {
        let prev = diff::ls_listing(bes, tes, (n - 1) as nat, prefix, seq![], link_hash, st);
        lemma_listing_restricted(bes, tes, (n - 1) as nat, prefix, scope, link_hash, st);
        lemma_listing_grows(bes, tes, (n - 1) as nat, prefix, seq![], link_hash, st);
        if prev.1 is None {
            let s = prev.0;
            let e = tes[n - 1];
            let base = object::entry_named(bes, e.name_text());
            let path = text::joined(prefix, e.name_text());
            lemma_joined(prefix, e.name_text());
            match e {
                TreeEntry::Blob { hash, mode, .. } => {
                    if let Some(row) = diff::blob_row(base, hash, mode) {
                        lemma_restricted_row(s, scope, path, row);
                    }
                },
                TreeEntry::Symlink { target, .. } => {
                    if let Some(row) = diff::link_row(base, target, link_hash) {
                        lemma_restricted_row(s, scope, path, row);
                    }
                },
                TreeEntry::Tree { node, .. } => {
                    assert(path.len() > 0) by {
                        if prefix.len() == 0 {
                            assert(tes[n - 1] is Tree ==> tes[n - 1].name_text().len() > 0);
                        }
                    }
                    lemma_dir_restricted(
                        pull::base_dir(base),
                        node,
                        path,
                        scope,
                        link_hash,
                        s,
                    );
                },
            }
        }
    }
}

/// What the walk over a listing finds of one of its directories.
spec fn ls_dir(
    base: Option<TreeNode>,
    node: TreeNode,
    path: Seq<char>,
    scope: Seq<Seq<char>>,
    link_hash: ObjectHash,
    s: FoundView,
) -> (FoundView, Option<Halt>) {
    if scope::leads_to(scope, path) {
        let inner = diff::ls_tree(base, node, path, scope, link_hash, s);
        match inner.1 {
            None => if base is None && inner.0.rows.dom().len() == s.rows.dom().len() {
                (
                    diff::with_row(
                        inner.0,
                        scope,
                        path,
                        DiffRow::AddedEmptyDir { hash: node.hash },
                    ),
                    None,
                )
            } else {
                inner
            },
            Some(Halt::Missing(_)) => (diff::with_unknown(inner.0, scope, path), None),
            Some(Halt::Unread(_)) => inner,
        }
    } else {
        (s, None)
    }
}

proof fn lemma_dir_restricted(
    base: Option<TreeNode>,
    node: TreeNode,
    path: Seq<char>,
    scope: Seq<Seq<char>>,
    link_hash: ObjectHash,
    s: FoundView,
)
    requires
        s.rows.dom().finite(),
        path.len() > 0,
        !(ls_dir(base, node, path, seq![], link_hash, s).1 matches Some(Halt::Unread(_))),
    ensures
        ls_dir(base, node, path, scope, link_hash, restricted(s, scope)) == (
            restricted(ls_dir(base, node, path, seq![], link_hash, s).0, scope),
            ls_dir(base, node, path, seq![], link_hash, s).1,
        ),
    decreases node, 1nat,
{
    let none: Seq<Seq<char>> = seq![];
    let inner = diff::ls_tree(base, node, path, none, link_hash, s);
    let row = DiffRow::AddedEmptyDir { hash: node.hash };
    lemma_tree_grows(base, node, path, none, link_hash, s);
    lemma_row_grows(inner.0, none, path, row);
    lemma_unknown_grows(inner.0, none, path);
    lemma_grows_twice(s, inner.0, diff::with_row(inner.0, none, path, row), path);
    lemma_grows_twice(s, inner.0, diff::with_unknown(inner.0, none, path), path);
    if !scope::leads_to(scope, path) {
        lemma_out_of_scope(s, ls_dir(base, node, path, none, link_hash, s).0, scope, path);
    } else {
        lemma_tree_restricted(base, node, path, scope, link_hash, s);
        lemma_restricted_row(inner.0, scope, path, row);
        lemma_restricted_unknown(inner.0, scope, path);
        if scope::within(scope, path) {
            lemma_same_news(s, inner.0, scope, path);
        }
    }
}

proof fn lemma_gone_restricted(
    bes: Seq<TreeEntry>,
    kept: Seq<Seq<char>>,
    n: nat,
    prefix: Seq<char>,
    scope: Seq<Seq<char>>,
    st: FoundView,
)
    requires
        st.rows.dom().finite(),
        prefix.len() > 0 || dirs_are_named(bes),
        !(diff::ls_gone(bes, kept, n, prefix, seq![], st).1 matches Some(Halt::Unread(_))),
    ensures
        ({
            let r = diff::ls_gone(bes, kept, n, prefix, seq![], st);
            diff::ls_gone(bes, kept, n, prefix, scope, restricted(st, scope)) == (
                restricted(r.0, scope),
                r.1,
            )
        }),
    decreases n,
{
    if n > 0 && n <= bes.len() {
        let prev = diff::ls_gone(bes, kept, (n - 1) as nat, prefix, seq![], st);
        lemma_gone_restricted(bes, kept, (n - 1) as nat, prefix, scope, st);
        lemma_gone_grows(bes, kept, (n - 1) as nat, prefix, seq![], st);
        let e = bes[n - 1];
        if prev.1 is None && object::last_named(bes, e.name_text()) == Some(n - 1)
            && !kept.contains(e.name_text()) {
            lemma_joined(prefix, e.name_text());
            assert(prefix.len() > 0 || (bes[n - 1] is Tree ==> e.name_text().len() > 0));
            lemma_gone_entry_restricted(e, text::joined(prefix, e.name_text()), scope, prev.0);
        }
    }
}

proof fn lemma_gone_entry_restricted(
    e: TreeEntry,
    path: Seq<char>,
    scope: Seq<Seq<char>>,
    st: FoundView,
)
    requires
        st.rows.dom().finite(),
        e is Tree ==> path.len() > 0,
        !(diff::ls_gone_entry(e, path, seq![], st).1 matches Some(Halt::Unread(_))),
    ensures
        ({
            let r = diff::ls_gone_entry(e, path, seq![], st);
            diff::ls_gone_entry(e, path, scope, restricted(st, scope)) == (
                restricted(r.0, scope),
                r.1,
            )
        }),
    decreases e, 0nat,
{
    let none: Seq<Seq<char>> = seq![];
    match e {
        TreeEntry::Tree { node, .. } => {
            let inner = diff::ls_gone_tree(node, path, none, st);
            lemma_gone_entry_grows(e, path, none, st);
            if !scope::leads_to(scope, path) {
                lemma_out_of_scope(
                    st,
                    diff::ls_gone_entry(e, path, none, st).0,
                    scope,
                    path,
                );
            } else {
                if let Content::Entries(es) = node.content {
                    lemma_gone_listing_restricted(es@, es@.len(), path, scope, st);
                }
                lemma_restricted_unknown(inner.0, scope, path);
            }
        },
        _ => {
            lemma_restricted_row(st, scope, path, DiffRow::Deleted);
        },
    }
}

proof fn lemma_gone_listing_restricted(
    es: Seq<TreeEntry>,
    n: nat,
    prefix: Seq<char>,
    scope: Seq<Seq<char>>,
    st: FoundView,
)
    requires
        st.rows.dom().finite(),
        prefix.len() > 0,
        !(diff::ls_gone_listing(es, n, prefix, seq![], st).1 matches Some(Halt::Unread(_))),
    ensures
        ({
            let r = diff::ls_gone_listing(es, n, prefix, seq![], st);
            diff::ls_gone_listing(es, n, prefix, scope, restricted(st, scope)) == (
                restricted(r.0, scope),
                r.1,
            )
        }),
    decreases es, n,
{
    if n > 0 && n <= es.len() {
        let prev = diff::ls_gone_listing(es, (n - 1) as nat, prefix, seq![], st);
        lemma_gone_listing_restricted(es, (n - 1) as nat, prefix, scope, st);
        lemma_gone_listing_grows(es, (n - 1) as nat, prefix, seq![], st);
        if prev.1 is None {
            let name = es[n - 1].name_text();
            lemma_joined(prefix, name);
            lemma_gone_entry_restricted(es[n - 1], prefix + "/"@ + name, scope, prev.0);
        }
    }
}

/// A diff finds finitely much.
pub proof fn lemma_tree_is_finite(
    base: Option<TreeNode>,
    target: TreeNode,
    prefix: Seq<char>,
    scope: Seq<Seq<char>>,
    link_hash: ObjectHash,
    st: FoundView,
)
    requires
        st.rows.dom().finite(),
        st.unknown.finite(),
    ensures
        diff::ls_tree(base, target, prefix, scope, link_hash, st).0.rows.dom().finite(),
        diff::ls_tree(base, target, prefix, scope, link_hash, st).0.unknown.finite(),
{
    lemma_tree_grows(base, target, prefix, scope, link_hash, st);
}

/// A scope filters: a scoped diff finds exactly what the diff of the whole finds in
/// scope, the paths that differ and the subtrees of which nothing can be said, wherever
/// the diff of the whole comes to an end and can compare the roots. Directories without
/// a name at the root are left out.
pub proof fn law_scope_filters_the_diff(
    base: Option<TreeNode>,
    target: TreeNode,
    scope: Seq<Seq<char>>,
    link_hash: ObjectHash,
)
    requires
        root_is_named(target),
        base is Some ==> root_is_named(base->0),
        diff::ls_diff(base, target, seq![], link_hash).1 is None,
        !diff::ls_diff(base, target, seq![], link_hash).0.unknown.contains("."@),
    ensures
        diff::ls_diff(base, target, scope, link_hash) == (
            restricted(diff::ls_diff(base, target, seq![], link_hash).0, scope),
            None::<Halt>,
        ),
{
    reveal_strlit("");
    let nothing = FoundView { rows: Map::empty(), unknown: Set::empty() };
    assert(restricted(nothing, scope) =~= nothing);
    lemma_tree_restricted(base, target, ""@, scope, link_hash, nothing);
}

} // verus!
