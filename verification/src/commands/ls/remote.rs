//! How the remote root differs from the clone root.

use crate::collections::PathMap;
use crate::commands::ls::diff::has_name;
use crate::commands::ls::scope::{self, ScopeFilter};
use crate::object::{self, get_entry, Content, ObjectHash, TreeEntry, TreeNode};
use crate::text::{self, concat, join_path, opt_eq, str_eq};
use vstd::prelude::*;

verus! {

/// What the remote has that the clone root has not.
pub struct RemoteState<'a> {
    /// `'M'`, `'A'` or `'D'` for every path that changed; a directory's key ends in
    /// a slash.
    pub status: PathMap<char>,
    /// The entries that only the remote has.
    pub added: PathMap<&'a TreeEntry>,
    /// The entries that the remote added or changed.
    pub entries: PathMap<&'a TreeEntry>,
}

/// What the remote has that the clone root has not.
#[verifier::ext_equal]
pub struct RemoteView<'a> {
    pub status: Map<Seq<char>, char>,
    pub added: Map<Seq<char>, &'a TreeEntry>,
    pub entries: Map<Seq<char>, &'a TreeEntry>,
}

impl<'a> View for RemoteState<'a> {
    type V = RemoteView<'a>;

    open spec fn view(&self) -> RemoteView<'a> {
        RemoteView { status: self.status@, added: self.added@, entries: self.entries@ }
    }
}

impl<'a> RemoteState<'a> {
    pub open spec fn wf(self) -> bool {
        self.status.wf() && self.added.wf() && self.entries.wf()
    }
}

/// `st` with an entry that the remote added or changed.
pub open spec fn with_entry<'a>(
    st: RemoteView<'a>,
    key: Seq<char>,
    new: bool,
    e: TreeEntry,
) -> RemoteView<'a> {
    RemoteView {
        status: st.status.insert(
            key,
            if new {
                'A'
            } else {
                'M'
            },
        ),
        added: if new {
            st.added.insert(key, &e)
        } else {
            st.added
        },
        entries: st.entries.insert(key, &e),
    }
}

/// Whether a remote file is what the clone root has under its name: the same
/// content with the same mode.
pub open spec fn blob_in_sync(had: Option<TreeEntry>, hash: ObjectHash, mode: Option<String>) -> bool {
    match had {
        Some(TreeEntry::Blob { hash: h, mode: m, .. }) => h == hash && text::opt_view(m)
            == text::opt_view(mode),
        _ => false,
    }
}

/// Whether a remote symlink is what the clone root has under its name: a symlink that
/// leads to the same place.
pub open spec fn link_in_sync(had: Option<TreeEntry>, target: String) -> bool {
    match had {
        Some(TreeEntry::Symlink { target: t, .. }) => t@ == target@,
        _ => false,
    }
}

/// The entries of the clone root's tree: none where it is absent, or not there to
/// be read.
pub open spec fn clone_listing(base: Option<TreeNode>) -> Result<Seq<TreeEntry>, ObjectHash> {
    match base {
        None => Ok(seq![]),
        Some(node) => match node.content {
            Content::Unread => Err(node.hash),
            Content::Missing => Ok(seq![]),
            Content::Entries(es) => Ok(es@),
        },
    }
}

/// The hash of an entry.
pub open spec fn entry_hash(e: Option<TreeEntry>) -> Option<ObjectHash> {
    match e {
        Some(e) => e.hash_of(),
        None => None,
    }
}

/// The tree of an entry that is a directory.
pub open spec fn entry_node(e: Option<TreeEntry>) -> Option<TreeNode> {
    match e {
        Some(TreeEntry::Tree { node, .. }) => Some(node),
        _ => None,
    }
}

/// `st` with the difference between the clone root's tree and the remote one under
/// `prefix`, and the object that has to be read first, if any. Trees with the same
/// hash do not differ; a remote tree that is not there says nothing.
pub open spec fn remote_tree<'a>(
    base_hash: Option<ObjectHash>,
    base: Option<TreeNode>,
    remote: TreeNode,
    prefix: Seq<char>,
    scope: Seq<Seq<char>>,
    st: RemoteView<'a>,
) -> (RemoteView<'a>, Option<ObjectHash>)
    decreases remote, 0nat,
{
    if base_hash == Some(remote.hash) {
        (st, None)
    } else {
        match remote.content {
            Content::Missing => (st, None),
            Content::Unread => (st, Some(remote.hash)),
            Content::Entries(res) => match clone_listing(base) {
                Err(h) => (st, Some(h)),
                Ok(bes) => {
                    let a = remote_listing(bes, res@, res@.len(), prefix, scope, st);
                    if a.1 is Some {
                        a
                    } else {
                        (
                            RemoteView {
                                status: remote_gone(
                                    bes,
                                    object::names(res@),
                                    bes.len(),
                                    prefix,
                                    scope,
                                    a.0.status,
                                ),
                                ..a.0
                            },
                            None,
                        )
                    }
                },
            },
        }
    }
}

/// The same for the first `n` remote entries.
pub open spec fn remote_listing<'a>(
    bes: Seq<TreeEntry>,
    res: Seq<TreeEntry>,
    n: nat,
    prefix: Seq<char>,
    scope: Seq<Seq<char>>,
    st: RemoteView<'a>,
) -> (RemoteView<'a>, Option<ObjectHash>)
    decreases res, n,
{
    if n == 0 || n > res.len() {
        (st, None)
    } else {
        let prev = remote_listing(bes, res, (n - 1) as nat, prefix, scope, st);
        if prev.1 is Some {
            prev
        } else {
            let e = res[n - 1];
            let name = e.name_text();
            let path = text::joined(prefix, name);
            let had = object::entry_named(bes, name);
            match e {
                TreeEntry::Blob { hash, mode, .. } => if !scope::within(scope, path)
                    || blob_in_sync(had, hash, mode) {
                    prev
                } else {
                    (with_entry(prev.0, path, had is None, e), None)
                },
                TreeEntry::Symlink { target, .. } => if !scope::within(scope, path)
                    || link_in_sync(had, target) {
                    prev
                } else {
                    (with_entry(prev.0, path, had is None, e), None)
                },
                TreeEntry::Tree { node, .. } => if entry_hash(had) == Some(node.hash)
                    || !scope::leads_to(scope, path) {
                    prev
                } else {
                    remote_tree(
                        entry_hash(had),
                        entry_node(had),
                        node,
                        path,
                        scope,
                        if scope::within(scope, path) {
                            with_entry(prev.0, path + "/"@, had is None, e)
                        } else {
                            prev.0
                        },
                    )
                },
            }
        }
    }
}

/// `status` with the first `n` clone entries that the remote no longer names.
pub open spec fn remote_gone(
    bes: Seq<TreeEntry>,
    kept: Seq<Seq<char>>,
    n: nat,
    prefix: Seq<char>,
    scope: Seq<Seq<char>>,
    status: Map<Seq<char>, char>,
) -> Map<Seq<char>, char>
    decreases n,
{
    if n == 0 || n > bes.len() {
        status
    } else {
        let prev = remote_gone(bes, kept, (n - 1) as nat, prefix, scope, status);
        let e = bes[n - 1];
        let path = text::joined(prefix, e.name_text());
        if !kept.contains(e.name_text()) && scope::within(scope, path) {
            prev.insert(path, 'D')
        } else {
            prev
        }
    }
}

/// What the remote has that the clone root `clone` has not: nothing if there is no
/// remote root, or if it is the clone root.
pub open spec fn remote_diff<'a>(
    clone: TreeNode,
    remote: Option<TreeNode>,
    scope: Seq<Seq<char>>,
) -> (RemoteView<'a>, Option<ObjectHash>) {
    let none = RemoteView { status: Map::empty(), added: Map::empty(), entries: Map::empty() };
    match remote {
        None => (none, None),
        Some(r) => remote_tree(Some(clone.hash), Some(clone), r, ""@, scope, none),
    }
}

fn blob_same(had: Option<&TreeEntry>, hash: ObjectHash, mode: &Option<String>) -> (r: bool)
    ensures
        r == blob_in_sync(
            match had {
                Some(e) => Some(*e),
                None => None,
            },
            hash,
            *mode,
        ),
{
    match had {
        Some(TreeEntry::Blob { hash: h, mode: m, .. }) => *h == hash && opt_eq(m, mode),
        _ => false,
    }
}

fn link_same(had: Option<&TreeEntry>, target: &String) -> (r: bool)
    ensures
        r == link_in_sync(
            match had {
                Some(e) => Some(*e),
                None => None,
            },
            *target,
        ),
{
    match had {
        Some(TreeEntry::Symlink { target: t, .. }) => str_eq(t.as_str(), target.as_str()),
        _ => false,
    }
}

fn put_entry<'a>(st: &mut RemoteState<'a>, key: String, new: bool, e: &'a TreeEntry)
    requires
        old(st).wf(),
    ensures
        final(st).wf(),
        final(st)@ == with_entry(old(st)@, key@, new, *e),
{
    if new {
        st.added.insert(key.clone(), e);
        st.status.insert(key.clone(), 'A');
    } else {
        st.status.insert(key.clone(), 'M');
    }
    st.entries.insert(key, e);
}

proof fn lemma_remote_listing_halts<'a>(
    bes: Seq<TreeEntry>,
    res: Seq<TreeEntry>,
    a: nat,
    b: nat,
    prefix: Seq<char>,
    scope: Seq<Seq<char>>,
    st: RemoteView<'a>,
)
    requires
        a <= b <= res.len(),
        remote_listing(bes, res, a, prefix, scope, st).1 is Some,
    ensures
        remote_listing(bes, res, b, prefix, scope, st) == remote_listing(
            bes,
            res,
            a,
            prefix,
            scope,
            st,
        ),
    decreases b - a,
{
    if a < b {
        lemma_remote_listing_halts(bes, res, a, (b - 1) as nat, prefix, scope, st);
    }
}

/// Records under `prefix` how the remote tree differs from the clone root's.
/// Returns the object that has to be read first, if any.
#[verifier::loop_isolation(false)]
#[verifier::rlimit(40)]
fn remote_diff_recursive<'a>(
    base_hash: Option<ObjectHash>,
    base: Option<&TreeNode>,
    remote: &'a TreeNode,
    prefix: &str,
    scope: &ScopeFilter,
    st: &mut RemoteState<'a>,
) -> (r: Option<ObjectHash>)
    requires
        old(st).wf(),
    ensures
        final(st).wf(),
        (final(st)@, r) == remote_tree(
            base_hash,
            crate::commands::pull::deref_base(base),
            *remote,
            prefix@,
            scope.scopes(),
            old(st)@,
        ),
    decreases remote,
{
    if let Some(h) = base_hash {
        if h == remote.hash {
            return None;
        }
    }
    let res = match &remote.content {
        Content::Missing => {
            return None;
        },
        Content::Unread => {
            return Some(remote.hash);
        },
        Content::Entries(es) => es,
    };
    let none: Vec<TreeEntry> = Vec::new();
    assert(none@ =~= seq![]);
    let bes: &Vec<TreeEntry> = match base {
        Some(b) => match &b.content {
            Content::Missing => &none,
            Content::Unread => {
                return Some(b.hash);
            },
            Content::Entries(es) => es,
        },
        None => &none,
    };
    let ghost b = crate::commands::pull::deref_base(base);
    assert(clone_listing(b) == Ok::<Seq<TreeEntry>, ObjectHash>(bes@));
    let ghost sc = scope.scopes();
    let ghost st0 = st@;
    let mut i: usize = 0;
    while i < res.len()
        invariant
            i <= res@.len(),
            st.wf(),
            remote_listing(bes@, res@, i as nat, prefix@, sc, st0) == (st@, None::<ObjectHash>),
        decreases res.len() - i,
    {
        let entry = &res[i];
        let name = entry.name().as_str();
        let path = join_path(prefix, name);
        let had = get_entry(bes, name);
        match entry {
            TreeEntry::Blob { hash, mode, .. } => {
                if scope.in_scope(path.as_str()) && !blob_same(had, *hash, mode) {
                    put_entry(st, path, had.is_none(), entry);
                }
            },
            TreeEntry::Symlink { target, .. } => {
                if scope.in_scope(path.as_str()) && !link_same(had, target) {
                    put_entry(st, path, had.is_none(), entry);
                }
            },
            TreeEntry::Tree { node, .. } => {
                let had_hash = match had {
                    Some(e) => e.hash(),
                    None => None,
                };
                let had_node = match had {
                    Some(TreeEntry::Tree { node, .. }) => Some(node),
                    _ => None,
                };
                let same = match had_hash {
                    Some(h) => h == node.hash,
                    None => false,
                };
                if !same && scope.should_descend(path.as_str()) {
                    if scope.in_scope(path.as_str()) {
                        put_entry(st, concat(path.as_str(), "/"), had.is_none(), entry);
                    }
                    let halted = remote_diff_recursive(
                        had_hash,
                        had_node,
                        node,
                        path.as_str(),
                        scope,
                        st,
                    );
                    if halted.is_some() {
                        proof {
                            lemma_remote_listing_halts(
                                bes@,
                                res@,
                                (i + 1) as nat,
                                res@.len(),
                                prefix@,
                                sc,
                                st0,
                            );
                        }
                        return halted;
                    }
                }
            },
        }
        i = i + 1;
    }
    let ghost after = st@;
    let ghost kept = object::names(res@);
    let mut j: usize = 0;
    while j < bes.len()
        invariant
            j <= bes@.len(),
            st.wf(),
            st@ == (RemoteView {
                status: remote_gone(bes@, kept, j as nat, prefix@, sc, after.status),
                ..after
            }),
        decreases bes.len() - j,
    {
        let e = &bes[j];
        let path = join_path(prefix, e.name().as_str());
        if !has_name(res, e.name().as_str()) && scope.in_scope(path.as_str()) {
            st.status.insert(path, 'D');
        }
        j = j + 1;
    }
    None
}

/// How the remote root differs from the clone root. Returns the object that has to
/// be read first where there is one.
pub fn remote_status<'a>(
    clone: &TreeNode,
    remote: Option<&'a TreeNode>,
    scope: &ScopeFilter,
) -> (r: Result<RemoteState<'a>, ObjectHash>)
    ensures
        match r {
            Ok(st) => st.wf() && remote_diff(
                *clone,
                crate::commands::pull::deref_base(remote),
                scope.scopes(),
            ) == (st@, None::<ObjectHash>),
            Err(h) => remote_diff(
                *clone,
                crate::commands::pull::deref_base(remote),
                scope.scopes(),
            ).1 == Some(h),
        },
{
    let mut st = RemoteState {
        status: PathMap::new(),
        added: PathMap::new(),
        entries: PathMap::new(),
    };
    match remote {
        None => Ok(st),
        Some(r) => match remote_diff_recursive(
            Some(clone.hash),
            Some(clone),
            r,
            "",
            scope,
            &mut st,
        ) {
            None => Ok(st),
            Some(h) => Err(h),
        },
    }
}

/// The remote agrees with itself: where its root is the clone root, nothing differs.
pub proof fn law_same_root_in_sync(clone: TreeNode, remote: TreeNode, scope: Seq<Seq<char>>)
    requires
        clone.hash == remote.hash,
    ensures
        remote_diff(clone, Some(remote), scope).1 is None,
        remote_diff(clone, Some(remote), scope).0.status == Map::<Seq<char>, char>::empty(),
{
}

} // verus!
