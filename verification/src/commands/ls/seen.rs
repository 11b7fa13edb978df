//! Which entries of the remote a listing knows of.

use crate::commands::ls::remote::{self, RemoteView};
use crate::object::{self, Content, ObjectHash, TreeEntry, TreeNode};
use crate::text;
use vstd::prelude::*;

verus! {

/// The key of an entry: its path, with a slash behind that of a directory.
pub open spec fn key_of(prefix: Seq<char>, e: TreeEntry) -> Seq<char> {
    let path = text::joined(prefix, e.name_text());
    if e is Tree {
        path.push('/')
    } else {
        path
    }
}

/// Whether an entry stands under this key in a tree at `prefix`.
pub open spec fn stands(node: TreeNode, prefix: Seq<char>, k: Seq<char>, e: TreeEntry) -> bool
    decreases node,
{
    match node.content {
        Content::Entries(es) => exists|i: int|
            0 <= i < es@.len() && stands_in(#[trigger] es@[i], prefix, k, e),
        _ => false,
    }
}

/// Whether it is this entry, or stands below it.
pub open spec fn stands_in(x: TreeEntry, prefix: Seq<char>, k: Seq<char>, e: TreeEntry) -> bool
    decreases x,
{
    ||| x == e && k == key_of(prefix, e)
    ||| match x {
        TreeEntry::Tree { node, .. } => stands(
            node,
            text::joined(prefix, x.name_text()),
            k,
            e,
        ),
        _ => false,
    }
}

/// Whether the remote tree at `prefix` has an entry under this key, with a name that the
/// clone root's directory of the same path has not.
pub open spec fn only_remote(
    base: Option<TreeNode>,
    node: TreeNode,
    prefix: Seq<char>,
    k: Seq<char>,
) -> bool
    decreases node,
{
    match (node.content, remote::clone_listing(base)) {
        (Content::Entries(es), Ok(bes)) => exists|i: int|
            0 <= i < es@.len() && only_remote_in(bes, #[trigger] es@[i], prefix, k),
        _ => false,
    }
}

/// Whether it is the key of this entry, or of one below it.
pub open spec fn only_remote_in(
    bes: Seq<TreeEntry>,
    x: TreeEntry,
    prefix: Seq<char>,
    k: Seq<char>,
) -> bool
    decreases x,
{
    ||| k == key_of(prefix, x) && forall|j: int|
        0 <= j < bes.len() ==> (#[trigger] bes[j]).name_text() != x.name_text()
    ||| match x {
        TreeEntry::Tree { node, .. } => only_remote(
            remote::entry_node(object::entry_named(bes, x.name_text())),
            node,
            text::joined(prefix, x.name_text()),
            k,
        ),
        _ => false,
    }
}

/// Whether the letter of a key and the entries under it go together: a key with the letter
/// of a new or modified entry has the entry, and that of a new one has it among those that
/// only the remote has. Whatever has an entry has a letter.
pub open spec fn goes_together(st: RemoteView, k: Seq<char>) -> bool {
    &&& st.status.dom().contains(k) && (st.status[k] == 'A' || st.status[k] == 'M')
        ==> st.entries.dom().contains(k)
    &&& st.status.dom().contains(k) && st.status[k] == 'A' ==> st.added.dom().contains(k)
        && *st.added[k] == *st.entries[k]
    &&& st.entries.dom().contains(k) ==> st.status.dom().contains(k)
    &&& st.added.dom().contains(k) ==> st.entries.dom().contains(k)
}

spec fn keeps_entry(a: RemoteView, b: RemoteView, k: Seq<char>) -> bool {
    b.entries.dom().contains(k) ==> a.entries.dom().contains(k) && *a.entries[k] == *b.entries[k]
}

spec fn keeps_added(a: RemoteView, b: RemoteView, k: Seq<char>) -> bool {
    b.added.dom().contains(k) ==> a.added.dom().contains(k)
}

proof fn lemma_tree_seen<'a>(
    base_hash: Option<ObjectHash>,
    base: Option<TreeNode>,
    node: TreeNode,
    prefix: Seq<char>,
    scope: Seq<Seq<char>>,
    st: RemoteView<'a>,
    k: Seq<char>,
)
    ensures
        ({
            let r = remote::remote_tree(base_hash, base, node, prefix, scope, st).0;
            &&& goes_together(st, k) ==> goes_together(r, k)
            &&& keeps_entry(st, r, k) || stands(node, prefix, k, *r.entries[k])
            &&& keeps_added(st, r, k) || only_remote(base, node, prefix, k)
        }),
    decreases node, 0nat,
{
    reveal_with_fuel(stands, 2);
    reveal_with_fuel(stands_in, 2);
    reveal_with_fuel(only_remote, 2);
    reveal_with_fuel(only_remote_in, 2);
    if base_hash != Some(node.hash) {
        if let Content::Entries(es) = node.content {
            if let Ok(bes) = remote::clone_listing(base) {
                lemma_listing_seen(bes, es@, es@.len(), prefix, scope, st, k);
                let a = remote::remote_listing(bes, es@, es@.len(), prefix, scope, st);
                lemma_gone_seen(
                    bes,
                    object::names(es@),
                    bes.len(),
                    prefix,
                    scope,
                    a.0.status,
                    k,
                );
            }
        }
    }
}

proof fn lemma_gone_seen(
    bes: Seq<TreeEntry>,
    kept: Seq<Seq<char>>,
    n: nat,
    prefix: Seq<char>,
    scope: Seq<Seq<char>>,
    status: Map<Seq<char>, char>,
    k: Seq<char>,
)
    ensures
        ({
            let r = remote::remote_gone(bes, kept, n, prefix, scope, status);
            ||| r.dom().contains(k) && r[k] == 'D'
            ||| r.dom().contains(k) == status.dom().contains(k) && (r.dom().contains(k) ==> r[k]
                == status[k])
        }),
    decreases n,
{
    if n > 0 && n <= bes.len() {
        lemma_gone_seen(bes, kept, (n - 1) as nat, prefix, scope, status, k);
    }
}

proof fn lemma_listing_seen<'a>(
    bes: Seq<TreeEntry>,
    es: Seq<TreeEntry>,
    n: nat,
    prefix: Seq<char>,
    scope: Seq<Seq<char>>,
    st: RemoteView<'a>,
    k: Seq<char>,
)
    requires
        n <= es.len(),
    ensures
        ({
            let r = remote::remote_listing(bes, es, n, prefix, scope, st).0;
            &&& goes_together(st, k) ==> goes_together(r, k)
            &&& keeps_entry(st, r, k) || exists|i: int|
                0 <= i < n && stands_in(#[trigger] es[i], prefix, k, *r.entries[k])
            &&& keeps_added(st, r, k) || exists|i: int|
                0 <= i < n && only_remote_in(bes, #[trigger] es[i], prefix, k)
        }),
    decreases es, n,
{
    reveal_with_fuel(stands, 2);
    reveal_with_fuel(stands_in, 2);
    reveal_with_fuel(only_remote, 2);
    reveal_with_fuel(only_remote_in, 2);
    if n > 0 {
        lemma_listing_seen(bes, es, (n - 1) as nat, prefix, scope, st, k);
        let prev = remote::remote_listing(bes, es, (n - 1) as nat, prefix, scope, st);
        let r = remote::remote_listing(bes, es, n, prefix, scope, st);
        if prev.1 is None {
            let e = es[n - 1];
            let had = object::entry_named(bes, e.name_text());
            let path = text::joined(prefix, e.name_text());
            lemma_absent(bes, e.name_text());
            reveal_strlit("/");
            assert(path + "/"@ =~= path.push('/'));
            if let TreeEntry::Tree { node, .. } = e {
                let start = if remote::entry_hash(had) == Some(node.hash) {
                    prev.0
                } else if crate::commands::ls::scope::within(scope, path) {
                    remote::with_entry(prev.0, path + "/"@, had is None, e)
                } else {
                    prev.0
                };
                lemma_tree_seen(
                    remote::entry_hash(had),
                    remote::entry_node(had),
                    node,
                    path,
                    scope,
                    start,
                    k,
                );
            }
            if r.0.entries.dom().contains(k) && !stands_in(e, prefix, k, *r.0.entries[k]) {
                assert(keeps_entry(prev.0, r.0, k));
            }
            if r.0.added.dom().contains(k) && !only_remote_in(bes, e, prefix, k) {
                assert(keeps_added(prev.0, r.0, k));
            }
        }
    }
}

proof fn lemma_absent(bes: Seq<TreeEntry>, name: Seq<char>)
    ensures
        object::entry_named(bes, name) is None <==> forall|j: int|
            0 <= j < bes.len() ==> (#[trigger] bes[j]).name_text() != name,
    decreases bes.len(),
{
    object::lemma_last_named(bes, name);
    if bes.len() > 0 {
        let rest = bes.drop_last();
        lemma_absent(rest, name);
        assert(bes.last() == bes[bes.len() - 1]);
        assert forall|j: int| 0 <= j < rest.len() implies rest[j] == #[trigger] bes[j] by {}
        if forall|j: int| 0 <= j < bes.len() ==> (#[trigger] bes[j]).name_text() != name {
            assert forall|j: int| 0 <= j < rest.len() implies (#[trigger] rest[j]).name_text()
                != name by {
                assert(rest[j] == bes[j]);
            }
        }
        if object::entry_named(bes, name) is None {
            assert forall|j: int| 0 <= j < bes.len() implies (#[trigger] bes[j]).name_text()
                != name by {
                if j < bes.len() - 1 {
                    assert(rest[j] == bes[j]);
                }
            }
        }
    }
}

/// The letters and the entries of the remote go together, each entry stands in the remote
/// tree under its own key, and only what the clone root has not is called new.
pub proof fn law_entries_stand_in_the_remote(
    clone: TreeNode,
    node: TreeNode,
    scope: Seq<Seq<char>>,
    k: Seq<char>,
)
    ensures
        ({
            let st = remote::remote_diff(clone, Some(node), scope).0;
            &&& goes_together(st, k)
            &&& st.entries.dom().contains(k) ==> stands(node, seq![], k, *st.entries[k])
            &&& st.added.dom().contains(k) ==> only_remote(Some(clone), node, seq![], k)
        }),
{
    reveal_strlit("");
    assert(""@ =~= Seq::<char>::empty());
    let none = RemoteView { status: Map::empty(), added: Map::empty(), entries: Map::empty() };
    lemma_tree_seen(Some(clone.hash), Some(clone), node, seq![], scope, none, k);
}

} // verus!
