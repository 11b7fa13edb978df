//! How the working tree differs from the clone root, as far as it can be told.

use crate::collections::{PathMap, PathSet};
use crate::commands::ls::scope::{self, ScopeFilter};
use crate::commands::pull;
use crate::object::{self, find_last, get_entry, Content, Halt, ObjectHash, TreeEntry, TreeNode};
use crate::text::{self, concat3, join_path, opt_eq, str_eq};
use vstd::prelude::*;

verus! {

/// How a path of the working tree differs from the clone root.
#[derive(Clone, Copy, Debug, PartialEq, Eq, Structural)]
pub enum DiffRow {
    Added { working_hash: ObjectHash },
    AddedEmptyDir { hash: ObjectHash },
    Modified { working_hash: ObjectHash },
    Deleted,
}

/// What a diff has found: the paths that differ, and the subtrees of which nothing
/// can be said because an object is not there.
pub struct Found {
    pub rows: PathMap<DiffRow>,
    pub unknown: PathSet,
}

/// What a diff has found.
#[verifier::ext_equal]
pub struct FoundView {
    pub rows: Map<Seq<char>, DiffRow>,
    pub unknown: Set<Seq<char>>,
}

impl View for Found {
    type V = FoundView;

    open spec fn view(&self) -> FoundView {
        FoundView { rows: self.rows@, unknown: self.unknown@ }
    }
}

impl Found {
    pub open spec fn wf(self) -> bool {
        self.rows.wf() && self.unknown.wf()
    }
}

/// `st` with a row for `path`, if it is in scope.
pub open spec fn with_row(
    st: FoundView,
    scope: Seq<Seq<char>>,
    path: Seq<char>,
    row: DiffRow,
) -> FoundView {
    if scope::within(scope, path) {
        FoundView { rows: st.rows.insert(path, row), ..st }
    } else {
        st
    }
}

/// `st` with `path` among the unknown, if it is in scope.
pub open spec fn with_unknown(st: FoundView, scope: Seq<Seq<char>>, path: Seq<char>) -> FoundView {
    if scope::within(scope, path) {
        FoundView { unknown: st.unknown.insert(path), ..st }
    } else {
        st
    }
}

/// How a file differs from what the base has under its name.
pub open spec fn blob_row(base: Option<TreeEntry>, hash: ObjectHash, mode: Option<String>) -> Option<
    DiffRow,
> {
    match base {
        Some(TreeEntry::Blob { hash: base_hash, mode: base_mode, .. }) => if base_hash == hash
            && text::opt_view(base_mode) == text::opt_view(mode) {
            None
        } else {
            Some(DiffRow::Modified { working_hash: hash })
        },
        Some(_) => Some(DiffRow::Modified { working_hash: hash }),
        None => Some(DiffRow::Added { working_hash: hash }),
    }
}

/// How a symlink differs from what the base has under its name: a link that leads
/// elsewhere, or something that became a link, is modified.
pub open spec fn link_row(base: Option<TreeEntry>, target: String, link_hash: ObjectHash) -> Option<
    DiffRow,
> {
    match base {
        Some(TreeEntry::Symlink { target: base_target, .. }) => if base_target@ == target@ {
            None
        } else {
            Some(DiffRow::Modified { working_hash: link_hash })
        },
        Some(_) => Some(DiffRow::Modified { working_hash: link_hash }),
        None => Some(DiffRow::Added { working_hash: link_hash }),
    }
}

/// `st` with the difference between two trees under `prefix`, and whether the trees
/// could not be compared because an object is not known. A subtree with an object
/// that is missing is unknown, and the walk goes on beside it; an object that was
/// not read yet ends the walk. `link_hash` stands for a symlink.
pub open spec fn ls_tree(
    base: Option<TreeNode>,
    target: TreeNode,
    prefix: Seq<char>,
    scope: Seq<Seq<char>>,
    link_hash: ObjectHash,
    st: FoundView,
) -> (FoundView, Option<Halt>)
    decreases target, 0nat,
{
    if base is Some && base->0.hash == target.hash {
        (st, None)
    } else {
        match target.content {
            Content::Unread => (st, Some(Halt::Unread(target.hash))),
            Content::Missing => (st, Some(Halt::Missing(target.hash))),
            Content::Entries(tes) => match pull::base_listing(base) {
                Err(h) => (st, Some(h)),
                Ok(bes) => {
                    let a = ls_listing(bes, tes@, tes@.len(), prefix, scope, link_hash, st);
                    if a.1 is Some {
                        a
                    } else {
                        ls_gone(bes, object::names(tes@), bes.len(), prefix, scope, a.0)
                    }
                },
            },
        }
    }
}

/// The same for the first `n` target entries.
pub open spec fn ls_listing(
    bes: Seq<TreeEntry>,
    tes: Seq<TreeEntry>,
    n: nat,
    prefix: Seq<char>,
    scope: Seq<Seq<char>>,
    link_hash: ObjectHash,
    st: FoundView,
) -> (FoundView, Option<Halt>)
    decreases tes, n,
{
    if n == 0 || n > tes.len() {
        (st, None)
    } else {
        let prev = ls_listing(bes, tes, (n - 1) as nat, prefix, scope, link_hash, st);
        if prev.1 is Some {
            prev
        } else {
            let s = prev.0;
            let e = tes[n - 1];
            let base = object::entry_named(bes, e.name_text());
            let path = text::joined(prefix, e.name_text());
            match e {
                TreeEntry::Blob { hash, mode, .. } => match blob_row(base, hash, mode) {
                    Some(row) => (with_row(s, scope, path, row), None),
                    None => (s, None),
                },
                TreeEntry::Symlink { target, .. } => match link_row(base, target, link_hash) {
                    Some(row) => (with_row(s, scope, path, row), None),
                    None => (s, None),
                },
                TreeEntry::Tree { node, .. } => if scope::leads_to(scope, path) {
                    let inner = ls_tree(pull::base_dir(base), node, path, scope, link_hash, s);
                    match inner.1 {
                        None => if pull::base_dir(base) is None && inner.0.rows.dom().len()
                            == s.rows.dom().len() {
                            (
                                with_row(
                                    inner.0,
                                    scope,
                                    path,
                                    DiffRow::AddedEmptyDir { hash: node.hash },
                                ),
                                None,
                            )
                        } else {
                            inner
                        },
                        Some(Halt::Missing(_)) => (with_unknown(inner.0, scope, path), None),
                        Some(Halt::Unread(_)) => inner,
                    }
                } else {
                    (s, None)
                },
            }
        }
    }
}

/// `st` with the first `n` base entries that the target no longer names. Of base
/// entries with the same name the last one counts.
pub open spec fn ls_gone(
    bes: Seq<TreeEntry>,
    kept: Seq<Seq<char>>,
    n: nat,
    prefix: Seq<char>,
    scope: Seq<Seq<char>>,
    st: FoundView,
) -> (FoundView, Option<Halt>)
    decreases n,
{
    if n == 0 || n > bes.len() {
        (st, None)
    } else {
        let prev = ls_gone(bes, kept, (n - 1) as nat, prefix, scope, st);
        if prev.1 is Some {
            prev
        } else {
            let e = bes[n - 1];
            if object::last_named(bes, e.name_text()) == Some(n - 1) && !kept.contains(e.name_text()) {
                ls_gone_entry(e, text::joined(prefix, e.name_text()), scope, prev.0)
            } else {
                prev
            }
        }
    }
}

/// `st` with the deleted entry at `path`: a directory by all that it holds.
pub open spec fn ls_gone_entry(
    e: TreeEntry,
    path: Seq<char>,
    scope: Seq<Seq<char>>,
    st: FoundView,
) -> (FoundView, Option<Halt>)
    decreases e, 0nat,
{
    match e {
        TreeEntry::Tree { node, .. } => if scope::leads_to(scope, path) {
            let inner = ls_gone_tree(node, path, scope, st);
            match inner.1 {
                Some(Halt::Missing(_)) => (with_unknown(inner.0, scope, path), None),
                _ => inner,
            }
        } else {
            (st, None)
        },
        _ => (with_row(st, scope, path, DiffRow::Deleted), None),
    }
}

/// `st` with all that a deleted tree holds.
pub open spec fn ls_gone_tree(
    node: TreeNode,
    prefix: Seq<char>,
    scope: Seq<Seq<char>>,
    st: FoundView,
) -> (FoundView, Option<Halt>)
    decreases node, 0nat,
{
    match node.content {
        Content::Unread => (st, Some(Halt::Unread(node.hash))),
        Content::Missing => (st, Some(Halt::Missing(node.hash))),
        Content::Entries(es) => ls_gone_listing(es@, es@.len(), prefix, scope, st),
    }
}

/// The same for the first `n` entries.
pub open spec fn ls_gone_listing(
    es: Seq<TreeEntry>,
    n: nat,
    prefix: Seq<char>,
    scope: Seq<Seq<char>>,
    st: FoundView,
) -> (FoundView, Option<Halt>)
    decreases es, n,
{
    if n == 0 || n > es.len() {
        (st, None)
    } else {
        let prev = ls_gone_listing(es, (n - 1) as nat, prefix, scope, st);
        if prev.1 is Some {
            prev
        } else {
            ls_gone_entry(es[n - 1], prefix + "/"@ + es[n - 1].name_text(), scope, prev.0)
        }
    }
}

/// What a diff finds: if the roots themselves cannot be compared because an object
/// is missing, nothing can be said of the root.
pub open spec fn ls_diff(
    base: Option<TreeNode>,
    target: TreeNode,
    scope: Seq<Seq<char>>,
    link_hash: ObjectHash,
) -> (FoundView, Option<Halt>) {
    let r = ls_tree(
        base,
        target,
        ""@,
        scope,
        link_hash,
        FoundView { rows: Map::empty(), unknown: Set::empty() },
    );
    match r.1 {
        Some(Halt::Missing(_)) => (
            FoundView { unknown: r.0.unknown.insert("."@), ..r.0 },
            None,
        ),
        _ => r,
    }
}

fn put_row(found: &mut Found, scope: &ScopeFilter, path: String, row: DiffRow)
    requires
        old(found).wf(),
    ensures
        final(found).wf(),
        final(found)@ == with_row(old(found)@, scope.scopes(), path@, row),
{
    if scope.in_scope(path.as_str()) {
        found.rows.insert(path, row);
    }
}

fn put_unknown(found: &mut Found, scope: &ScopeFilter, path: String)
    requires
        old(found).wf(),
    ensures
        final(found).wf(),
        final(found)@ == with_unknown(old(found)@, scope.scopes(), path@),
{
    if scope.in_scope(path.as_str()) {
        found.unknown.insert(path);
    }
}

fn row_of_blob(base: Option<&TreeEntry>, hash: ObjectHash, mode: &Option<String>) -> (r: Option<
    DiffRow,
>)
    ensures
        r == blob_row(
            match base {
                Some(e) => Some(*e),
                None => None,
            },
            hash,
            *mode,
        ),
{
    match base {
        Some(TreeEntry::Blob { hash: base_hash, mode: base_mode, .. }) => if *base_hash == hash
            && opt_eq(base_mode, mode) {
            None
        } else {
            Some(DiffRow::Modified { working_hash: hash })
        },
        Some(_) => Some(DiffRow::Modified { working_hash: hash }),
        None => Some(DiffRow::Added { working_hash: hash }),
    }
}

fn row_of_link(base: Option<&TreeEntry>, target: &String, link_hash: ObjectHash) -> (r: Option<
    DiffRow,
>)
    ensures
        r == link_row(
            match base {
                Some(e) => Some(*e),
                None => None,
            },
            *target,
            link_hash,
        ),
{
    match base {
        Some(TreeEntry::Symlink { target: base_target, .. }) => if str_eq(
            base_target.as_str(),
            target.as_str(),
        ) {
            None
        } else {
            Some(DiffRow::Modified { working_hash: link_hash })
        },
        Some(_) => Some(DiffRow::Modified { working_hash: link_hash }),
        None => Some(DiffRow::Added { working_hash: link_hash }),
    }
}

/// Whether an entry has this name.
pub fn has_name(es: &Vec<TreeEntry>, name: &str) -> (r: bool)
    ensures
        r == object::names(es@).contains(name@),
{
    let mut i: usize = 0;
    while i < es.len()
        invariant
            i <= es@.len(),
            forall|k: int| 0 <= k < i ==> (#[trigger] object::names(es@)[k]) != name@,
        decreases es.len() - i,
    {
        if str_eq(es[i].name().as_str(), name) {
            assert(object::names(es@)[i as int] == name@);
            return true;
        }
        i = i + 1;
    }
    false
}

proof fn lemma_ls_listing_halts(
    bes: Seq<TreeEntry>,
    tes: Seq<TreeEntry>,
    a: nat,
    b: nat,
    prefix: Seq<char>,
    scope: Seq<Seq<char>>,
    link_hash: ObjectHash,
    st: FoundView,
)
    requires
        a <= b <= tes.len(),
        ls_listing(bes, tes, a, prefix, scope, link_hash, st).1 is Some,
    ensures
        ls_listing(bes, tes, b, prefix, scope, link_hash, st) == ls_listing(
            bes,
            tes,
            a,
            prefix,
            scope,
            link_hash,
            st,
        ),
    decreases b - a,
{
    if a < b {
        lemma_ls_listing_halts(bes, tes, a, (b - 1) as nat, prefix, scope, link_hash, st);
    }
}

proof fn lemma_ls_gone_halts(
    bes: Seq<TreeEntry>,
    kept: Seq<Seq<char>>,
    a: nat,
    b: nat,
    prefix: Seq<char>,
    scope: Seq<Seq<char>>,
    st: FoundView,
)
    requires
        a <= b <= bes.len(),
        ls_gone(bes, kept, a, prefix, scope, st).1 is Some,
    ensures
        ls_gone(bes, kept, b, prefix, scope, st) == ls_gone(bes, kept, a, prefix, scope, st),
    decreases b - a,
{
    if a < b {
        lemma_ls_gone_halts(bes, kept, a, (b - 1) as nat, prefix, scope, st);
    }
}

proof fn lemma_ls_gone_listing_halts(
    es: Seq<TreeEntry>,
    a: nat,
    b: nat,
    prefix: Seq<char>,
    scope: Seq<Seq<char>>,
    st: FoundView,
)
    requires
        a <= b <= es.len(),
        ls_gone_listing(es, a, prefix, scope, st).1 is Some,
    ensures
        ls_gone_listing(es, b, prefix, scope, st) == ls_gone_listing(es, a, prefix, scope, st),
    decreases b - a,
{
    if a < b {
        lemma_ls_gone_listing_halts(es, a, (b - 1) as nat, prefix, scope, st);
    }
}

fn mark_deleted_entry(entry: &TreeEntry, path: String, scope: &ScopeFilter, found: &mut Found) -> (r:
    Option<Halt>)
    requires
        old(found).wf(),
    ensures
        final(found).wf(),
        (final(found)@, r) == ls_gone_entry(*entry, path@, scope.scopes(), old(found)@),
    decreases entry,
{
    match entry {
        TreeEntry::Tree { node, .. } => {
            if !scope.should_descend(path.as_str()) {
                return None;
            }
            let halted = mark_deleted(node, path.as_str(), scope, found);
            match halted {
                Some(Halt::Missing(_)) => {
                    put_unknown(found, scope, path);
                    None
                },
                _ => halted,
            }
        },
        _ => {
            put_row(found, scope, path, DiffRow::Deleted);
            None
        },
    }
}

/// Records every file and symlink under a deleted tree. A subtree with an object
/// that is missing is unknown, and does not keep its siblings from being recorded.
#[verifier::loop_isolation(false)]
fn mark_deleted(node: &TreeNode, prefix: &str, scope: &ScopeFilter, found: &mut Found) -> (r: Option<
    Halt,
>)
    requires
        old(found).wf(),
    ensures
        final(found).wf(),
        (final(found)@, r) == ls_gone_tree(*node, prefix@, scope.scopes(), old(found)@),
    decreases node,
{
    let es = match node.entries() {
        Ok(es) => es,
        Err(h) => {
            return Some(h);
        },
    };
    let ghost st = found@;
    let mut i: usize = 0;
    while i < es.len()
        invariant
            i <= es@.len(),
            found.wf(),
            ls_gone_listing(es@, i as nat, prefix@, scope.scopes(), st) == (found@, None::<Halt>),
        decreases es.len() - i,
    {
        let path = concat3(prefix, "/", es[i].name().as_str());
        let halted = mark_deleted_entry(&es[i], path, scope, found);
        if halted.is_some() {
            proof {
                lemma_ls_gone_listing_halts(
                    es@,
                    (i + 1) as nat,
                    es@.len(),
                    prefix@,
                    scope.scopes(),
                    st,
                );
            }
            return halted;
        }
        i = i + 1;
    }
    None
}

/// Records under `prefix` how `target` differs from `base`. A miss inside a child
/// subtree is recorded there and the walk goes on with the next sibling.
#[verifier::loop_isolation(false)]
#[verifier::rlimit(40)]
fn diff_recursive(
    base: Option<&TreeNode>,
    target: &TreeNode,
    prefix: &str,
    scope: &ScopeFilter,
    link_hash: ObjectHash,
    found: &mut Found,
) -> (r: Option<Halt>)
    requires
        old(found).wf(),
    ensures
        final(found).wf(),
        (final(found)@, r) == ls_tree(
            pull::deref_base(base),
            *target,
            prefix@,
            scope.scopes(),
            link_hash,
            old(found)@,
        ),
    decreases target,
{
    if let Some(b) = base {
        if b.hash == target.hash {
            return None;
        }
    }
    let tes = match target.entries() {
        Ok(es) => es,
        Err(h) => {
            return Some(h);
        },
    };
    let none: Vec<TreeEntry> = Vec::new();
    let bes: &Vec<TreeEntry> = match base {
        Some(b) => match b.entries() {
            Ok(es) => es,
            Err(h) => {
                return Some(h);
            },
        },
        None => &none,
    };
    assert(pull::base_listing(pull::deref_base(base)) == Ok::<Seq<TreeEntry>, Halt>(bes@)) by {
        assert(none@ =~= seq![]);
    }
    let ghost st = found@;
    let ghost sc = scope.scopes();
    let mut i: usize = 0;
    while i < tes.len()
        invariant
            i <= tes@.len(),
            found.wf(),
            ls_listing(bes@, tes@, i as nat, prefix@, sc, link_hash, st) == (found@, None::<Halt>),
        decreases tes.len() - i,
    {
        let entry = &tes[i];
        let base_entry = get_entry(bes, entry.name().as_str());
        let path = join_path(prefix, entry.name().as_str());
        match entry {
            TreeEntry::Blob { hash, mode, .. } => {
                if let Some(row) = row_of_blob(base_entry, *hash, mode) {
                    put_row(found, scope, path, row);
                }
            },
            TreeEntry::Symlink { target, .. } => {
                if let Some(row) = row_of_link(base_entry, target, link_hash) {
                    put_row(found, scope, path, row);
                }
            },
            TreeEntry::Tree { node, .. } => {
                let base_node = match base_entry {
                    Some(TreeEntry::Tree { node, .. }) => Some(node),
                    _ => None,
                };
                if scope.should_descend(path.as_str()) {
                    let before: usize = found.rows.len();
                    let halted = diff_recursive(
                        base_node,
                        node,
                        path.as_str(),
                        scope,
                        link_hash,
                        found,
                    );
                    match halted {
                        None => {
                            if base_node.is_none() && found.rows.len() == before {
                                put_row(
                                    found,
                                    scope,
                                    path,
                                    DiffRow::AddedEmptyDir { hash: node.hash },
                                );
                            }
                        },
                        Some(Halt::Missing(_)) => {
                            put_unknown(found, scope, path);
                        },
                        Some(Halt::Unread(_)) => {
                            proof {
                                lemma_ls_listing_halts(
                                    bes@,
                                    tes@,
                                    (i + 1) as nat,
                                    tes@.len(),
                                    prefix@,
                                    sc,
                                    link_hash,
                                    st,
                                );
                            }
                            return halted;
                        },
                    }
                }
            },
        }
        i = i + 1;
    }
    let ghost after = found@;
    let ghost kept = object::names(tes@);
    let mut j: usize = 0;
    while j < bes.len()
        invariant
            j <= bes@.len(),
            found.wf(),
            ls_gone(bes@, kept, j as nat, prefix@, sc, after) == (found@, None::<Halt>),
        decreases bes.len() - j,
    {
        let entry = &bes[j];
        let name = entry.name();
        let counts = match find_last(bes, name.as_str()) {
            Some(k) => k == j,
            None => false,
        };
        if counts && !has_name(tes, name.as_str()) {
            let path = join_path(prefix, name.as_str());
            let halted = mark_deleted_entry(entry, path, scope, found);
            if halted.is_some() {
                proof {
                    lemma_ls_gone_halts(
                        bes@,
                        kept,
                        (j + 1) as nat,
                        bes@.len(),
                        prefix@,
                        sc,
                        after,
                    );
                }
                return halted;
            }
        }
        j = j + 1;
    }
    None
}

/// Compares the working tree `target` with the clone root `base`. An object that is
/// missing makes its subtree unknown rather than ending the walk; an object that was
/// not read yet is asked for.
pub fn diff_trees(
    base: Option<&TreeNode>,
    target: &TreeNode,
    scope: &ScopeFilter,
    link_hash: ObjectHash,
) -> (r: Result<Found, ObjectHash>)
    ensures
        match r {
            Ok(f) => f.wf() && ls_diff(pull::deref_base(base), *target, scope.scopes(), link_hash) == (
                f@,
                None::<Halt>,
            ),
            Err(h) => ls_diff(pull::deref_base(base), *target, scope.scopes(), link_hash).1 == Some(
                Halt::Unread(h),
            ),
        },
{
    let mut found = Found { rows: PathMap::new(), unknown: PathSet::new() };
    match diff_recursive(base, target, "", scope, link_hash, &mut found) {
        None => Ok(found),
        Some(Halt::Missing(_)) => {
            found.unknown.insert(".".to_owned());
            Ok(found)
        },
        Some(Halt::Unread(h)) => Err(h),
    }
}

// ---------------------------------------------------------------------------
// Laws
// ---------------------------------------------------------------------------

proof fn lemma_listing_goes_on(
    bes: Seq<TreeEntry>,
    tes: Seq<TreeEntry>,
    n: nat,
    prefix: Seq<char>,
    scope: Seq<Seq<char>>,
    link_hash: ObjectHash,
    st: FoundView,
)
    ensures
        !(ls_listing(bes, tes, n, prefix, scope, link_hash, st).1 matches Some(Halt::Missing(_))),
    decreases n,
{
    if n > 0 && n <= tes.len() {
        lemma_listing_goes_on(bes, tes, (n - 1) as nat, prefix, scope, link_hash, st);
    }
}

proof fn lemma_gone_goes_on(
    bes: Seq<TreeEntry>,
    kept: Seq<Seq<char>>,
    n: nat,
    prefix: Seq<char>,
    scope: Seq<Seq<char>>,
    st: FoundView,
)
    ensures
        !(ls_gone(bes, kept, n, prefix, scope, st).1 matches Some(Halt::Missing(_))),
    decreases n,
{
    if n > 0 && n <= bes.len() {
        lemma_gone_goes_on(bes, kept, (n - 1) as nat, prefix, scope, st);
    }
}

/// One missing object never ends the comparison of what is beside it: two trees
/// cannot be compared only if one of these two trees itself is missing, whatever is
/// missing below them.
pub proof fn law_missing_subtree_is_isolated(
    base: Option<TreeNode>,
    target: TreeNode,
    prefix: Seq<char>,
    scope: Seq<Seq<char>>,
    link_hash: ObjectHash,
    st: FoundView,
)
    ensures
        ls_tree(base, target, prefix, scope, link_hash, st).1 matches Some(Halt::Missing(_))
            ==> target.content is Missing || base is Some && base->0.content is Missing,
{
    if let Content::Entries(tes) = target.content {
        if let Ok(bes) = pull::base_listing(base) {
            lemma_listing_goes_on(bes, tes@, tes@.len(), prefix, scope, link_hash, st);
            let a = ls_listing(bes, tes@, tes@.len(), prefix, scope, link_hash, st);
            lemma_gone_goes_on(bes, object::names(tes@), bes.len(), prefix, scope, a.0);
        }
    }
}

/// Whether all that `after` has beyond `before` is in scope.
pub open spec fn adds_in_scope(before: FoundView, after: FoundView, scope: Seq<Seq<char>>) -> bool {
    &&& forall|k: Seq<char>| #[trigger]
        after.rows.dom().contains(k) ==> before.rows.dom().contains(k) || scope::within(scope, k)
    &&& forall|k: Seq<char>| #[trigger]
        after.unknown.contains(k) ==> before.unknown.contains(k) || scope::within(scope, k)
}

/// A diff says nothing of what is out of scope.
pub proof fn law_diff_stays_in_scope(
    base: Option<TreeNode>,
    target: TreeNode,
    prefix: Seq<char>,
    scope: Seq<Seq<char>>,
    link_hash: ObjectHash,
    st: FoundView,
)
    ensures
        adds_in_scope(st, ls_tree(base, target, prefix, scope, link_hash, st).0, scope),
    decreases target, 0nat,
{
    if let Content::Entries(tes) = target.content {
        if let Ok(bes) = pull::base_listing(base) {
            lemma_listing_in_scope(bes, tes@, tes@.len(), prefix, scope, link_hash, st);
            let a = ls_listing(bes, tes@, tes@.len(), prefix, scope, link_hash, st);
            lemma_gone_in_scope(bes, object::names(tes@), bes.len(), prefix, scope, a.0);
        }
    }
}

proof fn lemma_listing_in_scope(
    bes: Seq<TreeEntry>,
    tes: Seq<TreeEntry>,
    n: nat,
    prefix: Seq<char>,
    scope: Seq<Seq<char>>,
    link_hash: ObjectHash,
    st: FoundView,
)
    ensures
        adds_in_scope(st, ls_listing(bes, tes, n, prefix, scope, link_hash, st).0, scope),
    decreases tes, n,
{
    if n > 0 && n <= tes.len() {
        lemma_listing_in_scope(bes, tes, (n - 1) as nat, prefix, scope, link_hash, st);
        let prev = ls_listing(bes, tes, (n - 1) as nat, prefix, scope, link_hash, st);
        let e = tes[n - 1];
        if let TreeEntry::Tree { node, .. } = e {
            law_diff_stays_in_scope(
                pull::base_dir(object::entry_named(bes, e.name_text())),
                node,
                text::joined(prefix, e.name_text()),
                scope,
                link_hash,
                prev.0,
            );
        }
    }
}

proof fn lemma_gone_in_scope(
    bes: Seq<TreeEntry>,
    kept: Seq<Seq<char>>,
    n: nat,
    prefix: Seq<char>,
    scope: Seq<Seq<char>>,
    st: FoundView,
)
    ensures
        adds_in_scope(st, ls_gone(bes, kept, n, prefix, scope, st).0, scope),
    decreases n,
{
    if n > 0 && n <= bes.len() {
        lemma_gone_in_scope(bes, kept, (n - 1) as nat, prefix, scope, st);
        let prev = ls_gone(bes, kept, (n - 1) as nat, prefix, scope, st);
        let e = bes[n - 1];
        lemma_gone_entry_in_scope(e, text::joined(prefix, e.name_text()), scope, prev.0);
    }
}

proof fn lemma_gone_entry_in_scope(
    e: TreeEntry,
    path: Seq<char>,
    scope: Seq<Seq<char>>,
    st: FoundView,
)
    ensures
        adds_in_scope(st, ls_gone_entry(e, path, scope, st).0, scope),
    decreases e, 0nat,
{
    if let TreeEntry::Tree { node, .. } = e {
        if let Content::Entries(es) = node.content {
            lemma_gone_listing_in_scope(es@, es@.len(), path, scope, st);
        }
    }
}

proof fn lemma_gone_listing_in_scope(
    es: Seq<TreeEntry>,
    n: nat,
    prefix: Seq<char>,
    scope: Seq<Seq<char>>,
    st: FoundView,
)
    ensures
        adds_in_scope(st, ls_gone_listing(es, n, prefix, scope, st).0, scope),
    decreases es, n,
{
    if n > 0 && n <= es.len() {
        lemma_gone_listing_in_scope(es, (n - 1) as nat, prefix, scope, st);
        let prev = ls_gone_listing(es, (n - 1) as nat, prefix, scope, st);
        let path = prefix + "/"@ + es[n - 1].name_text();
        lemma_gone_entry_in_scope(es[n - 1], path, scope, prev.0);
    }
}

} // verus!
