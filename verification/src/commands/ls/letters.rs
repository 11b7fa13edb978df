//! What the letters of the remote say of the two trees.

use crate::commands::ls::remote::{self, RemoteView};
use crate::commands::ls::status;
use crate::commands::pull::leaves::{self, Leaf};
use crate::object::{self, Content, ObjectHash, TreeEntry, TreeNode};
use crate::text;
use vstd::prelude::*;

verus! {

/// The letter of a path.
pub open spec fn letter_at(status: Map<Seq<char>, char>, k: Seq<char>) -> Option<char> {
    if status.dom().contains(k) {
        Some(status[k])
    } else {
        None
    }
}

/// Whether a directory above `k` is one in the clone root only.
pub open spec fn is_cut(
    base: Option<TreeNode>,
    remote: TreeNode,
    prefix: Seq<char>,
    k: Seq<char>,
) -> bool {
    exists|p: Seq<char>| #[trigger]
        leaves::at_or_above(p, k) && p != k && status::base_dir_at(base, prefix, p) is Some
            && leaves::dir_at(remote, prefix, p) is None
}

/// What a letter says of a path: `before` and `before_dir` are what the clone root has there,
/// `after` and `after_dir` what the remote has. A file or symlink of the remote is new, or
/// modified, or the same and without a letter; `D` stands where the remote has nothing, and
/// the clone root something in a directory that both have.
pub open spec fn letter_tells(
    letter: Option<char>,
    before: Option<Leaf>,
    before_dir: bool,
    after: Option<Leaf>,
    after_dir: bool,
    cut: bool,
) -> bool {
    match after {
        Some(l) => letter == if before == after {
            None
        } else if before is None && !before_dir {
            Some('A')
        } else {
            Some('M')
        },
        None => {
            &&& letter is Some ==> letter == Some('D') && !after_dir && (before is Some
                || before_dir)
            &&& !after_dir && (before is Some || before_dir) && !cut ==> letter == Some('D')
        },
    }
}

/// Whether two trees can be compared on the way to a path: all is read, the names are proper,
/// and trees with equal hashes have the same there.
pub open spec fn comparable(
    base_hash: Option<ObjectHash>,
    base: Option<TreeNode>,
    remote: TreeNode,
    prefix: Seq<char>,
    k: Seq<char>,
) -> bool
    decreases remote,
{
    if base_hash == Some(remote.hash) {
        &&& leaves::base_leaf(base, prefix, k) == leaves::leaf_at(remote, prefix, k)
        &&& status::base_dir_at(base, prefix, k) is Some == leaves::dir_at(remote, prefix, k) is Some
    } else {
        match (remote.content, remote::clone_listing(base)) {
            (Content::Entries(res), Ok(bes)) => {
                &&& leaves::well_named(res@)
                &&& leaves::well_named(bes)
                &&& forall|i: int|
                    0 <= i < res@.len() && leaves::in_region(
                        prefix,
                        (#[trigger] res@[i]).name_text(),
                        k,
                    ) ==> match res@[i] {
                        TreeEntry::Tree { node, .. } => comparable(
                            remote::entry_hash(object::entry_named(bes, res@[i].name_text())),
                            remote::entry_node(object::entry_named(bes, res@[i].name_text())),
                            node,
                            text::joined(prefix, res@[i].name_text()),
                            k,
                        ),
                        _ => true,
                    }
            },
            _ => false,
        }
    }
}

// ---------------------------------------------------------------------------
// What a walk leaves alone
// ---------------------------------------------------------------------------

proof fn lemma_tree_keeps<'a>(
    base_hash: Option<ObjectHash>,
    base: Option<TreeNode>,
    remote: TreeNode,
    prefix: Seq<char>,
    st: RemoteView<'a>,
    k: Seq<char>,
)
    requires
        prefix.len() > 0,
        !leaves::under(prefix, k),
        k.last() != '/',
    ensures
        letter_at(remote::remote_tree(base_hash, base, remote, prefix, seq![], st).0.status, k)
            == letter_at(st.status, k),
    decreases remote, 0nat,
{
    if let Content::Entries(res) = remote.content {
        if let Ok(bes) = remote::clone_listing(base) {
            lemma_listing_keeps(bes, res@, res@.len(), prefix, st, k);
            let a = remote::remote_listing(bes, res@, res@.len(), prefix, seq![], st);
            lemma_gone_keeps(bes, object::names(res@), bes.len(), prefix, a.0.status, k);
        }
    }
}

proof fn lemma_listing_keeps<'a>(
    bes: Seq<TreeEntry>,
    res: Seq<TreeEntry>,
    n: nat,
    prefix: Seq<char>,
    st: RemoteView<'a>,
    k: Seq<char>,
)
    requires
        prefix.len() > 0,
        !leaves::under(prefix, k),
        k.last() != '/',
    ensures
        letter_at(remote::remote_listing(bes, res, n, prefix, seq![], st).0.status, k) == letter_at(
            st.status,
            k,
        ),
    decreases res, n,
{
    if n > 0 && n <= res.len() {
        lemma_listing_keeps(bes, res, (n - 1) as nat, prefix, st, k);
        let prev = remote::remote_listing(bes, res, (n - 1) as nat, prefix, seq![], st);
        let e = res[n - 1];
        if prev.1 is None {
            if leaves::in_region(prefix, e.name_text(), k) {
                leaves::lemma_deeper_under(prefix, e.name_text(), k);
            }
            lemma_entry_keeps(bes, e, prefix, prev.0, k);
        }
    }
}

/// What is found with one more remote entry.
spec fn entry_found<'a>(
    bes: Seq<TreeEntry>,
    e: TreeEntry,
    prefix: Seq<char>,
    s: RemoteView<'a>,
) -> (RemoteView<'a>, Option<ObjectHash>) {
    let path = text::joined(prefix, e.name_text());
    let had = object::entry_named(bes, e.name_text());
    match e {
        TreeEntry::Blob { hash, mode, .. } => if remote::blob_in_sync(had, hash, mode) {
            (s, None)
        } else {
            (remote::with_entry(s, path, had is None, e), None)
        },
        TreeEntry::Symlink { target, .. } => if remote::link_in_sync(had, target) {
            (s, None)
        } else {
            (remote::with_entry(s, path, had is None, e), None)
        },
        TreeEntry::Tree { node, .. } => if remote::entry_hash(had) == Some(node.hash) {
            (s, None)
        } else {
            remote::remote_tree(
                remote::entry_hash(had),
                remote::entry_node(had),
                node,
                path,
                seq![],
                remote::with_entry(s, path + "/"@, had is None, e),
            )
        },
    }
}

proof fn lemma_entry_keeps<'a>(
    bes: Seq<TreeEntry>,
    e: TreeEntry,
    prefix: Seq<char>,
    s: RemoteView<'a>,
    k: Seq<char>,
)
    requires
        text::joined(prefix, e.name_text()).len() > 0,
        !leaves::in_region(prefix, e.name_text(), k),
        k.last() != '/',
    ensures
        letter_at(entry_found(bes, e, prefix, s).0.status, k) == letter_at(s.status, k),
    decreases e, 1nat,
{
    let path = text::joined(prefix, e.name_text());
    let had = object::entry_named(bes, e.name_text());
    reveal_strlit("/");
    assert((path + "/"@).last() == '/');
    if let TreeEntry::Tree { node, .. } = e {
        lemma_tree_keeps(
            remote::entry_hash(had),
            remote::entry_node(had),
            node,
            path,
            remote::with_entry(s, path + "/"@, had is None, e),
            k,
        );
    }
}

proof fn lemma_gone_keeps(
    bes: Seq<TreeEntry>,
    kept: Seq<Seq<char>>,
    n: nat,
    prefix: Seq<char>,
    status: Map<Seq<char>, char>,
    k: Seq<char>,
)
    requires
        forall|j: int|
            0 <= j < bes.len() && !kept.contains((#[trigger] bes[j]).name_text()) ==> k
                != text::joined(prefix, bes[j].name_text()) || prefix.len() > 0 && !leaves::under(
                prefix,
                k,
            ),
    ensures
        letter_at(remote::remote_gone(bes, kept, n, prefix, seq![], status), k) == letter_at(
            status,
            k,
        ),
    decreases n,
{
    if n > 0 && n <= bes.len() {
        lemma_gone_keeps(bes, kept, (n - 1) as nat, prefix, status, k);
        let path = text::joined(prefix, bes[n - 1].name_text());
        if k == path && prefix.len() > 0 {
            assert(path.take(prefix.len() as int + 1) =~= prefix.push('/'));
        }
    }
}

proof fn lemma_gone_tells(
    bes: Seq<TreeEntry>,
    kept: Seq<Seq<char>>,
    n: nat,
    prefix: Seq<char>,
    status: Map<Seq<char>, char>,
    j: int,
)
    requires
        0 <= j < n <= bes.len(),
        !kept.contains(bes[j].name_text()),
    ensures
        letter_at(
            remote::remote_gone(bes, kept, n, prefix, seq![], status),
            text::joined(prefix, bes[j].name_text()),
        ) == Some('D'),
    decreases n,
{
    if j < n - 1 {
        lemma_gone_tells(bes, kept, (n - 1) as nat, prefix, status, j);
    }
}

// ---------------------------------------------------------------------------
// What a walk tells
// ---------------------------------------------------------------------------

spec fn cut_in(bes: Seq<TreeEntry>, res: Seq<TreeEntry>, prefix: Seq<char>, k: Seq<char>) -> bool {
    exists|p: Seq<char>| #[trigger]
        leaves::at_or_above(p, k) && p != k && leaves::dir_in(bes, bes.len(), prefix, p) is Some
            && leaves::dir_in(res, res.len(), prefix, p) is None
}

spec fn told_in(
    bes: Seq<TreeEntry>,
    res: Seq<TreeEntry>,
    prefix: Seq<char>,
    status: Map<Seq<char>, char>,
    k: Seq<char>,
) -> bool {
    letter_tells(
        letter_at(status, k),
        leaves::leaf_in(bes, bes.len(), prefix, k),
        leaves::dir_in(bes, bes.len(), prefix, k) is Some,
        leaves::leaf_in(res, res.len(), prefix, k),
        leaves::dir_in(res, res.len(), prefix, k) is Some,
        cut_in(bes, res, prefix, k),
    )
}

/// A name that only the clone root has as a directory cuts off what lies below it.
proof fn lemma_cut_at(
    bes: Seq<TreeEntry>,
    res: Seq<TreeEntry>,
    prefix: Seq<char>,
    p: Seq<char>,
    k: Seq<char>,
)
    requires
        leaves::at_or_above(p, k),
        p != k,
        leaves::dir_in(bes, bes.len(), prefix, p) is Some,
        leaves::dir_in(res, res.len(), prefix, p) is None,
    ensures
        cut_in(bes, res, prefix, k),
{
}

proof fn lemma_entry_told<'a>(
    bes: Seq<TreeEntry>,
    res: Seq<TreeEntry>,
    i: int,
    prefix: Seq<char>,
    s: RemoteView<'a>,
    k: Seq<char>,
)
    requires
        leaves::well_named(bes),
        leaves::well_named(res),
        0 <= i < res.len(),
        leaves::in_region(prefix, res[i].name_text(), k),
        k.len() > 0,
        k.last() != '/',
        letter_at(s.status, k) is None,
        entry_found(bes, res[i], prefix, s).1 is None,
        res[i] matches TreeEntry::Tree { node, .. } ==> comparable(
            remote::entry_hash(object::entry_named(bes, res[i].name_text())),
            remote::entry_node(object::entry_named(bes, res[i].name_text())),
            node,
            text::joined(prefix, res[i].name_text()),
            k,
        ),
    ensures
        told_in(bes, res, prefix, entry_found(bes, res[i], prefix, s).0.status, k),
    decreases res[i], 2nat,
{
    let e = res[i];
    let name = e.name_text();
    let path = text::joined(prefix, name);
    let had = object::entry_named(bes, name);
    let r = entry_found(bes, e, prefix, s).0;
    reveal_strlit("/");
    assert((path + "/"@).last() == '/');
    object::lemma_last_named(bes, name);
    leaves::lemma_base_in_region(bes, name, prefix, k);
    status::lemma_base_dir_in_region(bes, name, prefix, k);
    leaves::lemma_leaf_in_region(res, res.len(), prefix, i, k);
    leaves::lemma_dir_in_region(res, res.len(), prefix, i, k);
    assert(leaves::in_region(prefix, name, path));
    status::lemma_base_dir_in_region(bes, name, prefix, path);
    leaves::lemma_dir_in_region(res, res.len(), prefix, i, path);
    assert(!leaves::under(path, path));
    if let TreeEntry::Tree { node, .. } = e {
        let bh = remote::entry_hash(had);
        let bn = remote::entry_node(had);
        let s2 = remote::with_entry(s, path + "/"@, had is None, e);
        if k == path {
            if bh != Some(node.hash) {
                lemma_tree_keeps(bh, bn, node, path, s2, k);
            }
            if leaves::leaf_at(node, path, k) is Some {
                leaves::lemma_leaf_under(node, path, k);
            }
        } else {
            assert(leaves::under(path, k));
            assert(letter_at(s2.status, k) is None);
            assert(leaves::leaf_in(bes, bes.len(), prefix, k) == leaves::base_leaf(bn, path, k));
            assert(leaves::dir_in(bes, bes.len(), prefix, k) == status::base_dir_at(bn, path, k));
            if bh != Some(node.hash) {
                lemma_tree_told(bh, bn, node, path, s2, k);
                if is_cut(bn, node, path, k) {
                    let p = choose|p: Seq<char>| #[trigger]
                        leaves::at_or_above(p, k) && p != k && status::base_dir_at(bn, path, p)
                            is Some && leaves::dir_at(node, path, p) is None;
                    lemma_dir_below(bn->0, path, p);
                    assert(leaves::in_region(prefix, name, p));
                    status::lemma_base_dir_in_region(bes, name, prefix, p);
                    leaves::lemma_dir_in_region(res, res.len(), prefix, i, p);
                    lemma_cut_at(bes, res, prefix, p, k);
                }
            }
        }
    } else {
        if k != path {
            if had matches Some(TreeEntry::Tree { .. }) {
                lemma_cut_at(bes, res, prefix, path, k);
            }
        } else {
            if let Some(TreeEntry::Tree { node: b, .. }) = had {
                if leaves::leaf_at(b, path, k) is Some {
                    leaves::lemma_leaf_under(b, path, k);
                }
            }
        }
    }
}

/// A directory of a tree lies below it.
proof fn lemma_dir_below(node: TreeNode, prefix: Seq<char>, p: Seq<char>)
    requires
        prefix.len() > 0,
        leaves::dir_at(node, prefix, p) is Some,
    ensures
        leaves::under(prefix, p),
{
    if let Content::Entries(es) = node.content {
        lemma_dir_in_below(es@, es@.len(), prefix, p);
    }
}

proof fn lemma_dir_in_below(es: Seq<TreeEntry>, n: nat, prefix: Seq<char>, p: Seq<char>)
    requires
        prefix.len() > 0,
        leaves::dir_in(es, n, prefix, p) is Some,
    ensures
        leaves::under(prefix, p),
    decreases n,
{
    if n > 0 {
        if leaves::entry_dir(es[n - 1], prefix, p) is Some {
            leaves::lemma_entry_dir_region(es[n - 1], prefix, p);
            leaves::lemma_deeper_under(prefix, es[n - 1].name_text(), p);
        } else {
            lemma_dir_in_below(es, (n - 1) as nat, prefix, p);
        }
    }
}

proof fn lemma_listing_told<'a>(
    bes: Seq<TreeEntry>,
    res: Seq<TreeEntry>,
    n: nat,
    prefix: Seq<char>,
    st: RemoteView<'a>,
    k: Seq<char>,
)
    requires
        n <= res.len(),
        leaves::well_named(bes),
        leaves::well_named(res),
        k.len() > 0,
        k.last() != '/',
        letter_at(st.status, k) is None,
        remote::remote_listing(bes, res, n, prefix, seq![], st).1 is None,
        forall|i: int|
            0 <= i < res.len() && leaves::in_region(prefix, (#[trigger] res[i]).name_text(), k)
                ==> match res[i] {
                TreeEntry::Tree { node, .. } => comparable(
                    remote::entry_hash(object::entry_named(bes, res[i].name_text())),
                    remote::entry_node(object::entry_named(bes, res[i].name_text())),
                    node,
                    text::joined(prefix, res[i].name_text()),
                    k,
                ),
                _ => true,
            },
    ensures
        ({
            let r = remote::remote_listing(bes, res, n, prefix, seq![], st).0;
            &&& (forall|i: int|
                0 <= i < n ==> !leaves::in_region(prefix, (#[trigger] res[i]).name_text(), k))
                ==> letter_at(r.status, k) is None
            &&& forall|i: int|
                0 <= i < n && leaves::in_region(prefix, (#[trigger] res[i]).name_text(), k)
                    ==> told_in(bes, res, prefix, r.status, k)
        }),
    decreases res, n,
{
    if n > 0 {
        lemma_listing_told(bes, res, (n - 1) as nat, prefix, st, k);
        let prev = remote::remote_listing(bes, res, (n - 1) as nat, prefix, seq![], st);
        let r = remote::remote_listing(bes, res, n, prefix, seq![], st);
        let e = res[n - 1];
        let name = e.name_text();
        assert(entry_found(bes, e, prefix, prev.0) == r);
        if leaves::in_region(prefix, name, k) {
            assert forall|i: int| 0 <= i < n - 1 implies !leaves::in_region(
                prefix,
                (#[trigger] res[i]).name_text(),
                k,
            ) by {
                if leaves::in_region(prefix, res[i].name_text(), k) {
                    leaves::lemma_regions_disjoint(prefix, name, res[i].name_text(), k);
                    assert(res[i].name_text() != res[n - 1].name_text());
                }
            }
            lemma_entry_told(bes, res, n - 1, prefix, prev.0, k);
        } else {
            lemma_entry_keeps(bes, e, prefix, prev.0, k);
        }
    }
}

proof fn lemma_tree_told<'a>(
    base_hash: Option<ObjectHash>,
    base: Option<TreeNode>,
    remote: TreeNode,
    prefix: Seq<char>,
    st: RemoteView<'a>,
    k: Seq<char>,
)
    requires
        comparable(base_hash, base, remote, prefix, k),
        k.len() > 0,
        k.last() != '/',
        letter_at(st.status, k) is None,
        remote::remote_tree(base_hash, base, remote, prefix, seq![], st).1 is None,
    ensures
        letter_tells(
            letter_at(
                remote::remote_tree(base_hash, base, remote, prefix, seq![], st).0.status,
                k,
            ),
            leaves::base_leaf(base, prefix, k),
            status::base_dir_at(base, prefix, k) is Some,
            leaves::leaf_at(remote, prefix, k),
            leaves::dir_at(remote, prefix, k) is Some,
            is_cut(base, remote, prefix, k),
        ),
    decreases remote, 1nat,
{
    if base_hash != Some(remote.hash) {
        if let Content::Entries(res) = remote.content {
            let bes = remote::clone_listing(base)->Ok_0;
            let kept = object::names(res@);
            let a = remote::remote_listing(bes, res@, res@.len(), prefix, seq![], st);
            assert(a.1 is None);
            lemma_listing_told(bes, res@, res@.len(), prefix, st, k);
            let end = remote::remote_gone(bes, kept, bes.len(), prefix, seq![], a.0.status);
            assert forall|p: Seq<char>|
                #![trigger leaves::at_or_above(p, k)]
                leaves::dir_in(bes, bes.len(), prefix, p) == status::base_dir_at(base, prefix, p)
                    && leaves::dir_in(res@, res@.len(), prefix, p) == leaves::dir_at(
                    remote,
                    prefix,
                    p,
                ) by {}
            assert(cut_in(bes, res@, prefix, k) == is_cut(base, remote, prefix, k));
            assert(leaves::leaf_in(bes, bes.len(), prefix, k) == leaves::base_leaf(
                base,
                prefix,
                k,
            ));
            assert(leaves::dir_in(bes, bes.len(), prefix, k) == status::base_dir_at(
                base,
                prefix,
                k,
            ));
            if exists|i: int|
                0 <= i < res@.len() && leaves::in_region(
                    prefix,
                    (#[trigger] res@[i]).name_text(),
                    k,
                ) {
                let i = choose|i: int|
                    0 <= i < res@.len() && leaves::in_region(
                        prefix,
                        (#[trigger] res@[i]).name_text(),
                        k,
                    );
                assert(kept[i] == res@[i].name_text());
                assert(kept.contains(kept[i]));
                assert forall|j: int|
                    0 <= j < bes.len() && !kept.contains(
                        (#[trigger] bes[j]).name_text(),
                    ) implies k != text::joined(prefix, bes[j].name_text()) by {
                    if k == text::joined(prefix, bes[j].name_text()) {
                        leaves::lemma_regions_disjoint(
                            prefix,
                            res@[i].name_text(),
                            bes[j].name_text(),
                            k,
                        );
                    }
                }
                lemma_gone_keeps(bes, kept, bes.len(), prefix, a.0.status, k);
            } else {
                lemma_none_told(bes, res@, prefix, a.0.status, k);
            }
        }
    }
}

/// Where the remote names nothing on the way to a path.
proof fn lemma_none_told(
    bes: Seq<TreeEntry>,
    res: Seq<TreeEntry>,
    prefix: Seq<char>,
    status: Map<Seq<char>, char>,
    k: Seq<char>,
)
    requires
        leaves::well_named(bes),
        leaves::well_named(res),
        letter_at(status, k) is None,
        forall|i: int| 0 <= i < res.len() ==> !leaves::in_region(
            prefix,
            (#[trigger] res[i]).name_text(),
            k,
        ),
    ensures
        told_in(
            bes,
            res,
            prefix,
            remote::remote_gone(bes, object::names(res), bes.len(), prefix, seq![], status),
            k,
        ),
{
    let kept = object::names(res);
    leaves::lemma_leaf_in_none(res, res.len(), prefix, k);
    lemma_dir_in_none(res, res.len(), prefix, k);
    if exists|j: int|
        0 <= j < bes.len() && leaves::in_region(prefix, (#[trigger] bes[j]).name_text(), k) {
        let j = choose|j: int|
            0 <= j < bes.len() && leaves::in_region(prefix, (#[trigger] bes[j]).name_text(), k);
        let path = text::joined(prefix, bes[j].name_text());
        leaves::lemma_leaf_in_region(bes, bes.len(), prefix, j, k);
        leaves::lemma_dir_in_region(bes, bes.len(), prefix, j, k);
        assert(!kept.contains(bes[j].name_text())) by {
            if kept.contains(bes[j].name_text()) {
                let i = choose|i: int| 0 <= i < kept.len() && kept[i] == bes[j].name_text();
                assert(leaves::in_region(prefix, res[i].name_text(), k));
            }
        }
        assert(!leaves::under(path, path));
        if k == path {
            lemma_gone_tells(bes, kept, bes.len(), prefix, status, j);
            if let TreeEntry::Tree { node, .. } = bes[j] {
            } else {
                assert(leaves::entry_leaf(bes[j], prefix, k) is Some);
            }
        } else {
            assert forall|m: int|
                0 <= m < bes.len() && !kept.contains((#[trigger] bes[m]).name_text()) implies k
                != text::joined(prefix, bes[m].name_text()) by {
                if k == text::joined(prefix, bes[m].name_text()) {
                    leaves::lemma_regions_disjoint(
                        prefix,
                        bes[j].name_text(),
                        bes[m].name_text(),
                        k,
                    );
                }
            }
            lemma_gone_keeps(bes, kept, bes.len(), prefix, status, k);
            if bes[j] is Tree {
                leaves::lemma_dir_in_region(bes, bes.len(), prefix, j, path);
                assert forall|i: int| 0 <= i < res.len() implies !leaves::in_region(
                    prefix,
                    (#[trigger] res[i]).name_text(),
                    path,
                ) by {
                    if leaves::in_region(prefix, res[i].name_text(), path) {
                        leaves::lemma_region_down(prefix, res[i].name_text(), path, k);
                    }
                }
                lemma_dir_in_none(res, res.len(), prefix, path);
                lemma_cut_at(bes, res, prefix, path, k);
            }
        }
    } else {
        leaves::lemma_leaf_in_none(bes, bes.len(), prefix, k);
        lemma_dir_in_none(bes, bes.len(), prefix, k);
        assert forall|m: int|
            0 <= m < bes.len() && !kept.contains((#[trigger] bes[m]).name_text()) implies k
            != text::joined(prefix, bes[m].name_text()) by {}
        lemma_gone_keeps(bes, kept, bes.len(), prefix, status, k);
    }
}

proof fn lemma_dir_in_none(es: Seq<TreeEntry>, n: nat, prefix: Seq<char>, k: Seq<char>)
    requires
        leaves::well_named(es),
        n <= es.len(),
        forall|i: int| 0 <= i < es.len() ==> !leaves::in_region(
            prefix,
            (#[trigger] es[i]).name_text(),
            k,
        ),
    ensures
        leaves::dir_in(es, n, prefix, k) is None,
    decreases n,
{
    if n > 0 {
        lemma_dir_in_none(es, (n - 1) as nat, prefix, k);
        if leaves::entry_dir(es[n - 1], prefix, k) is Some {
            leaves::lemma_entry_dir_region(es[n - 1], prefix, k);
        }
    }
}

/// The letters of the remote say what it did to each path, seen from the two trees: `A` where
/// only the remote has a file or symlink, `M` where it has another one than the clone root,
/// none where both have the same, and `D` where the remote dropped what the clone root has in
/// a directory that both have.
pub proof fn law_letters_tell_what_the_remote_did(
    clone: TreeNode,
    remote: TreeNode,
    k: Seq<char>,
)
    requires
        comparable(Some(clone.hash), Some(clone), remote, seq![], k),
        k.len() > 0,
        k.last() != '/',
        remote::remote_diff(clone, Some(remote), seq![]).1 is None,
    ensures
        letter_tells(
            letter_at(remote::remote_diff(clone, Some(remote), seq![]).0.status, k),
            leaves::leaf_at(clone, seq![], k),
            leaves::dir_at(clone, seq![], k) is Some,
            leaves::leaf_at(remote, seq![], k),
            leaves::dir_at(remote, seq![], k) is Some,
            is_cut(Some(clone), remote, seq![], k),
        ),
{
    reveal_strlit("");
    assert(""@ =~= Seq::<char>::empty());
    let none = RemoteView { status: Map::empty(), added: Map::empty(), entries: Map::empty() };
    lemma_tree_told(Some(clone.hash), Some(clone), remote, seq![], none, k);
}

} // verus!
