//! What a listing of given paths shows.

use crate::commands::ls::rows::{self, ListingView, LsSource, RowView, StopView};
use crate::commands::ls::told;
use crate::object::{self, Content, Halt, TreeEntry, TreeNode};
use crate::text;
use vstd::prelude::*;

verus! {

/// A file of the clone root that is asked for has one row, with its path, its hash, and the
/// letters of what happened to it.
pub proof fn law_file_has_its_row(l: ListingView, rel: Seq<char>, out: Seq<RowView>)
    requires
        l.has_clone,
        text::components(rel).len() > 0,
        object::entry_at(l.root, text::components(rel), 0) matches Ok(Some(e)) && e is Blob,
    ensures
        ({
            let e = object::entry_at(l.root, text::components(rel), 0)->Ok_0->0;
            let r = rows::target_rows(l, rel, out);
            &&& r is Ok && r->Ok_0.len() == out.len() + 1 && r->Ok_0.drop_last() == out
            &&& r->Ok_0.last().path == rel
            &&& text::has_prefix(e->Blob_hash.hex(), r->Ok_0.last().hash_str)
            &&& r->Ok_0.last().hash_str.len() == if l.full_hash {
                64int
            } else {
                8
            }
            &&& r->Ok_0.last().status == ' ' <==> !l.found.rows.dom().contains(rel)
            &&& r->Ok_0.last().status == 'D' <==> l.found.rows.dom().contains(rel)
                && l.found.rows[rel] is Deleted
            &&& r->Ok_0.last().status == 'M' <==> l.found.rows.dom().contains(rel)
                && l.found.rows[rel] is Modified
            &&& r->Ok_0.last().remote_status == if l.remote.status.dom().contains(rel) {
                l.remote.status[rel]
            } else {
                ' '
            }
        }),
{
    let e = object::entry_at(l.root, text::components(rel), 0)->Ok_0->0;
    object::law_hash_text(e->Blob_hash);
    let hex = e->Blob_hash.hex();
    assert(hex.take(hex.len() as int) =~= hex);
    let r = rows::target_rows(l, rel, out)->Ok_0;
    assert(r.drop_last() =~= out);
}

/// A directory of the clone root that is asked for has its own row, and behind it those of
/// its entries.
pub proof fn law_directory_has_its_rows(
    l: ListingView,
    rel: Seq<char>,
    out: Seq<RowView>,
    i: int,
)
    requires
        l.has_clone,
        text::components(rel).len() > 0,
        rel != seq!['.'],
        object::entry_at(l.root, text::components(rel), 0) matches Ok(Some(e)) && (
        e matches TreeEntry::Tree { node, .. } && (node.content matches Content::Entries(es) && 0
            <= i < es@.len())),
        rows::target_rows(l, rel, out) is Ok,
    ensures
        ({
            let e = object::entry_at(l.root, text::components(rel), 0)->Ok_0->0;
            let es = e->node.content->Entries_0@;
            let r = rows::target_rows(l, rel, out)->Ok_0;
            &&& r.len() > out.len() && r.take(out.len() as int) == out
            &&& r[out.len() as int].path == rel.push('/')
            &&& r[out.len() as int].size == Some(e->Tree_size)
            &&& r[out.len() as int].blob_count == e->Tree_blob_count
            &&& r[out.len() as int].mtime == e->Tree_mtime
            &&& told::has_row_of(l, r, es[i], text::joined(rel, es[i].name_text()))
        }),
{
    let e = object::entry_at(l.root, text::components(rel), 0)->Ok_0->0;
    if let TreeEntry::Tree { size, mtime, blob_count, node, .. } = e {
        let own = rows::self_row(
            l,
            rel,
            node.hash,
            crate::commands::ls::rows::TreeMeta { mtime, size, blob_count },
            None,
        );
        let with = out.push(own);
        told::law_every_entry_has_its_row(l, node, rel, with, i);
        told::lemma_tree_rows_go_on(l, node, rel, None, with);
        let r = rows::target_rows(l, rel, out)->Ok_0;
        assert(r.take(with.len() as int)[out.len() as int] == own);
        assert(r.take(out.len() as int) =~= with.take(out.len() as int)) by {
            assert forall|j: int| 0 <= j < out.len() implies r[j] == with[j] by {
                assert(r.take(with.len() as int)[j] == r[j]);
            }
        }
        assert(with.take(out.len() as int) =~= out);
    }
}

/// Whether a path leads to a file or a directory in what a listing draws on: in the clone
/// root, on the remote, or in the working tree.
pub open spec fn is_somewhere(l: ListingView, rel: Seq<char>) -> bool {
    ||| l.has_clone && (object::entry_at(l.root, text::components(rel), 0) matches Ok(Some(_)))
    ||| l.remote.added.dom().contains(rel)
    ||| l.remote.added.dom().contains(rel.push('/'))
    ||| object::entry_at(l.working, text::components(rel), 0) matches Ok(Some(_))
}

/// A path that leads nowhere is not known, and only such a path and that of a symlink are
/// called so.
pub proof fn law_unknown_paths_are_refused(l: ListingView, rel: Seq<char>, out: Seq<RowView>)
    requires
        text::components(rel).len() > 0,
    ensures
        !is_somewhere(l, rel) && !(l.has_clone && object::entry_at(
            l.root,
            text::components(rel),
            0,
        ) is Err) && !(object::entry_at(l.working, text::components(rel), 0) matches Err(
            Halt::Unread(_),
        )) ==> rows::target_rows(l, rel, out) == Err::<Seq<RowView>, StopView>(
            StopView::NoPath(rel),
        ),
        rows::target_rows(l, rel, out) matches Err(StopView::NoPath(p)) ==> p == rel && (
        !is_somewhere(l, rel) || rows::target_entry(l, rel)->Ok_0.0->0 is Symlink),
{
}

/// What the clone root has at a path is shown before what any other side has there; where
/// it has nothing, the working tree comes before the remote only if it is the source.
pub proof fn law_clone_root_comes_first(l: ListingView, rel: Seq<char>, e: TreeEntry)
    ensures
        l.has_clone && object::entry_at(l.root, text::components(rel), 0) == Ok::<_, Halt>(
            Some(e),
        ) ==> rows::target_entry(l, rel) == Ok::<_, StopView>((Some(e), true)),
        (!l.has_clone || object::entry_at(l.root, text::components(rel), 0) == Ok::<_, Halt>(
            None::<TreeEntry>,
        )) && l.source == LsSource::Working && object::entry_at(
            l.working,
            text::components(rel),
            0,
        ) == Ok::<_, Halt>(Some(e)) ==> rows::target_entry(l, rel) == Ok::<_, StopView>(
            (Some(e), false),
        ),
        (!l.has_clone || object::entry_at(l.root, text::components(rel), 0) == Ok::<_, Halt>(
            None::<TreeEntry>,
        )) && l.source != LsSource::Working && l.remote.added.dom().contains(rel)
            && !l.remote.added.dom().contains(rel.push('/')) && *l.remote.added[rel] == e
            ==> rows::target_entry(l, rel) == Ok::<_, StopView>((Some(e), false)),
{
}

/// Where no path is given, the rows begin with that of the root.
pub proof fn law_root_comes_first(l: ListingView)
    requires
        l.scopes.len() == 0,
        rows::targets_rows(l, 1) is Ok,
    ensures
        rows::targets(l).len() == 1,
        rows::targets_rows(l, 1)->Ok_0.len() > 0,
        rows::targets_rows(l, 1)->Ok_0[0].path == seq!['.'],
        rows::targets_rows(l, 1)->Ok_0[0].size == Some(l.root_meta.size),
        rows::targets_rows(l, 1)->Ok_0[0].blob_count == l.root_meta.blob_count,
{
    reveal_with_fuel(rows::targets_rows, 2);
    let rel: Seq<char> = seq![];
    assert(rows::targets(l)[0] == rel);
    text::lemma_components_of_empty(rel);
    let first = Seq::<RowView>::empty().push(rows::root_row(l));
    told::lemma_tree_rows_go_on(l, l.root, rel, None, first);
    let r = rows::targets_rows(l, 1)->Ok_0;
    assert(r.take(1)[0] == first[0]);
}

/// The rows of each path stand behind those of the paths before it.
pub proof fn law_paths_follow_each_other(l: ListingView, n: nat)
    requires
        n < rows::targets(l).len(),
        rows::targets_rows(l, n + 1) is Ok,
    ensures
        rows::targets_rows(l, n) is Ok,
        rows::targets_rows(l, n + 1)->Ok_0.len() > rows::targets_rows(l, n)->Ok_0.len(),
        rows::targets_rows(l, n + 1)->Ok_0.take(rows::targets_rows(l, n)->Ok_0.len() as int)
            == rows::targets_rows(l, n)->Ok_0,
{
    let out = rows::targets_rows(l, n)->Ok_0;
    let r = rows::targets_rows(l, n + 1)->Ok_0;
    let rel = rows::targets(l)[n as int];
    assert(rows::targets_rows(l, n + 1) == rows::target_rows(l, rel, out));
    if text::components(rel).len() == 0 {
        lemma_behind(l, l.root, rel, None, out, rows::root_row(l));
    } else {
        let found = rows::target_entry(l, rel)->Ok_0;
        let force = if found.1 {
            None
        } else {
            Some('A')
        };
        match found.0->0 {
            TreeEntry::Tree { size, mtime, blob_count, node, .. } => {
                let meta = crate::commands::ls::rows::TreeMeta { mtime, size, blob_count };
                lemma_behind(
                    l,
                    node,
                    rel,
                    force,
                    out,
                    rows::self_row(l, rel, node.hash, meta, force),
                );
            },
            _ => {
                assert(r.take(out.len() as int) =~= out);
            },
        }
    }
}

proof fn lemma_behind(
    l: ListingView,
    node: TreeNode,
    prefix: Seq<char>,
    force: Option<char>,
    out: Seq<RowView>,
    own: RowView,
)
    requires
        rows::tree_rows(l, node, prefix, force, out.push(own)) is Ok,
    ensures
        ({
            let r = rows::tree_rows(l, node, prefix, force, out.push(own))->Ok_0;
            r.len() > out.len() && r.take(out.len() as int) == out
        }),
{
    let with = out.push(own);
    told::lemma_tree_rows_go_on(l, node, prefix, force, with);
    let r = rows::tree_rows(l, node, prefix, force, with)->Ok_0;
    assert forall|j: int| 0 <= j < out.len() implies r[j] == out[j] by {
        assert(r.take(with.len() as int)[j] == r[j]);
        assert(with[j] == out[j]);
    }
    assert(r.take(out.len() as int) =~= out);
}

} // verus!
