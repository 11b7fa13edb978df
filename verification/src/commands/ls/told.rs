//! What a listing tells of what was found.

use crate::collections;
use crate::commands::ls::added;
use crate::commands::ls::diff::DiffRow;
use crate::commands::ls::rows::{self, ListingView, RowView};
use crate::commands::ls::{self, marks, scope};
use crate::commands::pull::leaves;
use crate::object::{Content, ObjectHash, TreeEntry, TreeNode};
use crate::text;
use vstd::prelude::*;

verus! {

// ---------------------------------------------------------------------------
// Scope roots
// ---------------------------------------------------------------------------

/// Whether a scope covers a path.
pub open spec fn covers(s: Seq<char>, k: Seq<char>) -> bool {
    s.len() == 0 || leaves::at_or_above(s, k)
}

/// Whether `root` is the scope that a path is listed under: the first that covers it, or
/// the root of the tree where none does.
pub open spec fn listed_under(scopes: Seq<Seq<char>>, k: Seq<char>, root: Seq<char>) -> bool {
    ||| exists|i: int|
        0 <= i < scopes.len() && #[trigger] scopes[i] == root && covers(root, k) && forall|j: int|
            0 <= j < i ==> !covers(#[trigger] scopes[j], k)
    ||| root.len() == 0 && forall|j: int| 0 <= j < scopes.len() ==> !covers(#[trigger] scopes[j], k)
}

proof fn lemma_scope_root(scopes: Seq<Seq<char>>, k: Seq<char>, from: nat, root: Seq<char>)
    requires
        from <= scopes.len(),
        listed_under(scopes, k, root),
        forall|j: int| 0 <= j < from ==> !covers(#[trigger] scopes[j], k),
    ensures
        scope::scope_root(scopes, k, from) == root,
    decreases scopes.len() - from,
{
    if from < scopes.len() {
        if !covers(scopes[from as int], k) {
            lemma_scope_root(scopes, k, from + 1, root);
        }
    } else {
        assert(root =~= seq![]);
    }
}

/// Whether a path stands in a directory itself, and not in one below it.
pub open spec fn stands_in(dir: Seq<char>, k: Seq<char>) -> bool {
    exists|name: Seq<char>| !name.contains('/') && k == #[trigger] text::joined(dir, name)
}

proof fn lemma_direct_child(dir: Seq<char>, k: Seq<char>)
    ensures
        scope::direct_child(k, dir) == stands_in(dir, k),
{
    if scope::direct_child(k, dir) {
        let name = if dir.len() == 0 {
            k
        } else {
            k.skip(dir.len() as int + 1)
        };
        if dir.len() > 0 {
            assert(k =~= dir.push('/') + name);
        }
        assert(k == text::joined(dir, name));
    }
    if stands_in(dir, k) {
        let name = choose|name: Seq<char>|
            !name.contains('/') && k == #[trigger] text::joined(dir, name);
        if dir.len() > 0 {
            assert(k.take(dir.len() as int + 1) =~= dir.push('/'));
            assert(k.skip(dir.len() as int + 1) =~= name);
        }
    }
}

/// Whether a listing shows a path itself: a recursive one shows every path, any other what
/// stands directly in the scope.
pub open spec fn itself_shown(l: ListingView, root: Seq<char>, k: Seq<char>) -> bool {
    l.recursive || stands_in(root, k)
}

/// The directory that stands for a deeper path is the one directly in the scope that the
/// path lies below.
pub proof fn law_top_dir(root: Seq<char>, name: Seq<char>, rest: Seq<char>)
    requires
        name.len() > 0,
        !name.contains('/'),
    ensures
        added::top_dir(text::joined(root, name).push('/') + rest, root) == text::joined(
            root,
            name,
        ).push('/'),
{
    let k = text::joined(root, name).push('/') + rest;
    let inner = name.push('/') + rest;
    if root.len() > 0 {
        assert(k.take(root.len() as int + 1) =~= root.push('/'));
        assert(k.skip(root.len() as int + 1) =~= inner);
    } else {
        assert(k =~= inner);
    }
    text::lemma_find_from(inner, '/', 0);
    let at = text::find_from(inner, '/', 0);
    assert(inner[name.len() as int] == '/');
    if at < name.len() {
        assert(inner[at as int] == name[at as int]);
        assert(name.contains(name[at as int]));
    }
    assert(inner.take(at as int) =~= name);
}

// ---------------------------------------------------------------------------
// Changes of the working tree
// ---------------------------------------------------------------------------

/// Whether the rows of a listing go on: the earlier ones stay, except that one that was in
/// sync may be modified now.
pub open spec fn goes_on(a: Seq<RowView>, b: Seq<RowView>) -> bool {
    &&& a.len() <= b.len()
    &&& forall|i: int| 0 <= i < a.len() ==> same_or_modified(a[i], #[trigger] b[i])
}

/// Whether a row is as it was, or was in sync and is modified now.
pub open spec fn same_or_modified(a: RowView, b: RowView) -> bool {
    b == a || a.status == ' ' && b == (RowView { status: 'M', ..a })
}

/// Whether a path has a row that does not say that it is in sync.
pub open spec fn is_told(rows: Seq<RowView>, path: Seq<char>) -> bool {
    exists|i: int| 0 <= i < rows.len() && (#[trigger] rows[i]).path == path && rows[i].status != ' '
}

proof fn lemma_goes_on(a: Seq<RowView>, b: Seq<RowView>, path: Seq<char>)
    requires
        goes_on(a, b),
    ensures
        added::has_row(a, path) ==> added::has_row(b, path),
        is_told(a, path) ==> is_told(b, path),
{
    if added::has_row(a, path) {
        let i = choose|i: int| 0 <= i < a.len() && (#[trigger] a[i]).path == path;
        assert(same_or_modified(a[i], b[i]));
        assert(b[i].path == path);
    }
    if is_told(a, path) {
        let i = choose|i: int|
            0 <= i < a.len() && (#[trigger] a[i]).path == path && a[i].status != ' ';
        assert(same_or_modified(a[i], b[i]));
        assert(b[i].path == path);
    }
}

proof fn lemma_goes_on_twice(a: Seq<RowView>, b: Seq<RowView>, c: Seq<RowView>)
    requires
        goes_on(a, b),
        goes_on(b, c),
    ensures
        goes_on(a, c),
{
    assert forall|i: int| 0 <= i < a.len() implies same_or_modified(a[i], #[trigger] c[i]) by {
        assert(same_or_modified(a[i], b[i]));
        assert(same_or_modified(b[i], c[i]));
    }
}

proof fn lemma_last_row(rows: Seq<RowView>, path: Seq<char>)
    ensures
        match added::last_row(rows, path) {
            Some(i) => 0 <= i < rows.len() && rows[i].path == path,
            None => !added::has_row(rows, path),
        },
    decreases rows.len(),
{
    if rows.len() > 0 && rows.last().path != path {
        lemma_last_row(rows.drop_last(), path);
        if added::last_row(rows, path) is None && added::has_row(rows, path) {
            let i = choose|i: int| 0 <= i < rows.len() && (#[trigger] rows[i]).path == path;
            assert(rows.drop_last()[i].path == path);
        }
    }
}

proof fn lemma_mark_modified(rows: Seq<RowView>, path: Seq<char>)
    ensures
        goes_on(rows, added::mark_modified(rows, path)),
        added::mark_modified(rows, path).len() == rows.len(),
        added::has_row(rows, path) ==> is_told(added::mark_modified(rows, path), path),
{
    lemma_last_row(rows, path);
    if let Some(i) = added::last_row(rows, path) {
        let out = added::mark_modified(rows, path);
        assert(out[i].path == path && out[i].status != ' ');
    }
}

/// The path of a row for a change.
pub open spec fn row_path(k: Seq<char>, change: DiffRow) -> Seq<char> {
    if change is AddedEmptyDir {
        k.push('/')
    } else {
        k
    }
}

/// Whether a change is a new file or an empty new directory.
pub open spec fn is_new(change: DiffRow) -> bool {
    change is Added || change is AddedEmptyDir
}

/// Whether a row that was added belongs to a new path: it is the path's own, or that of
/// the directory that stands for it.
pub open spec fn is_of_new(l: ListingView, changes: Map<Seq<char>, DiffRow>, row: RowView) -> bool {
    row.status == 'A' && exists|k: Seq<char>| #[trigger]
        changes.dom().contains(k) && is_new(changes[k]) && (row.path == row_path(k, changes[k])
            || row.path == added::top_dir(k, scope::scope_root(l.scopes, k, 0)))
}

proof fn lemma_changes_told(l: ListingView, rows: Seq<RowView>, ps: Seq<Seq<char>>, n: nat)
    requires
        n <= ps.len(),
        ps.no_duplicates(),
        forall|i: int| 0 <= i < ps.len() ==> l.found.rows.dom().contains(#[trigger] ps[i]),
    ensures
        ({
            let st = added::added_upto(l, rows, ps, n);
            &&& goes_on(rows, st.rows)
            &&& forall|d: Seq<char>| #[trigger]
                st.dirs.contains(d) && added::has_row(rows, d) ==> is_told(st.rows, d)
            &&& forall|i: int|
                0 <= i < n ==> {
                    let k = #[trigger] ps[i];
                    let root = scope::scope_root(l.scopes, k, 0);
                    let dir = added::top_dir(k, root);
                    if l.recursive || scope::direct_child(k, root) {
                        is_new(l.found.rows[k]) ==> added::has_row(
                            st.rows,
                            row_path(k, l.found.rows[k]),
                        )
                    } else {
                        dir.len() > 0 ==> st.dirs.contains(dir)
                    }
                }
            &&& forall|i: int|
                rows.len() <= i < st.rows.len() ==> is_of_new(l, l.found.rows, #[trigger] st.rows[i])
        }),
    decreases n,
{
    let st = added::added_upto(l, rows, ps, n);
    if n > 0 {
        lemma_changes_told(l, rows, ps, (n - 1) as nat);
        let prev = added::added_upto(l, rows, ps, (n - 1) as nat);
        let k = ps[n - 1];
        let change = l.found.rows[k];
        let root = scope::scope_root(l.scopes, k, 0);
        let dir = added::top_dir(k, root);
        let p = row_path(k, change);
        lemma_mark_modified(prev.rows, dir);
        assert(goes_on(prev.rows, st.rows)) by {
            assert forall|i: int| 0 <= i < prev.rows.len() implies same_or_modified(
                prev.rows[i],
                #[trigger] st.rows[i],
            ) by {
                assert(same_or_modified(
                    prev.rows[i],
                    added::mark_modified(prev.rows, dir)[i],
                ));
            }
        }
        lemma_goes_on_twice(rows, prev.rows, st.rows);
        if l.recursive || scope::direct_child(k, root) {
            if is_new(change) {
                if added::has_row(prev.rows, p) {
                    lemma_goes_on(prev.rows, st.rows, p);
                } else {
                    assert(st.rows[prev.rows.len() as int].path == p);
                    assert(added::has_row(st.rows, p));
                }
            }
        }
        assert forall|d: Seq<char>| #[trigger]
            st.dirs.contains(d) && added::has_row(rows, d) implies is_told(st.rows, d) by {
            if prev.dirs.contains(d) {
                lemma_goes_on(prev.rows, st.rows, d);
            } else {
                assert(d == dir);
                lemma_goes_on(rows, prev.rows, d);
            }
        }
        assert forall|i: int| 0 <= i < n implies ({
            let k = #[trigger] ps[i];
            let root = scope::scope_root(l.scopes, k, 0);
            let dir = added::top_dir(k, root);
            if l.recursive || scope::direct_child(k, root) {
                is_new(l.found.rows[k]) ==> added::has_row(st.rows, row_path(k, l.found.rows[k]))
            } else {
                dir.len() > 0 ==> st.dirs.contains(dir)
            }
        }) by {
            if i < n - 1 {
                lemma_goes_on(prev.rows, st.rows, row_path(ps[i], l.found.rows[ps[i]]));
            }
        }
        assert forall|i: int| rows.len() <= i < st.rows.len() implies is_of_new(
            l,
            l.found.rows,
            #[trigger] st.rows[i],
        ) by {
            if i < prev.rows.len() {
                assert(is_of_new(l, l.found.rows, prev.rows[i]));
                assert(same_or_modified(prev.rows[i], st.rows[i]));
            } else {
                assert(l.found.rows.dom().contains(k));
                assert(is_new(l.found.rows[k]));
            }
        }
    }
}

proof fn lemma_new_dirs(
    l: ListingView,
    rows: Seq<RowView>,
    ps: Seq<Seq<char>>,
    n: nat,
    i: int,
)
    requires
        0 <= i < n <= ps.len(),
        ps.no_duplicates(),
        forall|i: int| 0 <= i < ps.len() ==> l.found.rows.dom().contains(#[trigger] ps[i]),
        is_new(l.found.rows[ps[i]]),
        !l.recursive,
        !scope::direct_child(ps[i], scope::scope_root(l.scopes, ps[i], 0)),
        added::top_dir(ps[i], scope::scope_root(l.scopes, ps[i], 0)).len() > 0,
        forall|j: int|
            0 <= j < i ==> added::top_dir(
                #[trigger] ps[j],
                scope::scope_root(l.scopes, ps[j], 0),
            ) != added::top_dir(ps[i], scope::scope_root(l.scopes, ps[i], 0)),
    ensures
        added::has_row(
            added::added_upto(l, rows, ps, n).rows,
            added::top_dir(ps[i], scope::scope_root(l.scopes, ps[i], 0)),
        ),
    decreases n,
{
    let dir = added::top_dir(ps[i], scope::scope_root(l.scopes, ps[i], 0));
    let prev = added::added_upto(l, rows, ps, (n - 1) as nat);
    let st = added::added_upto(l, rows, ps, n);
    if n - 1 == i {
        lemma_dirs_are_tops(l, rows, ps, i as nat, dir);
        lemma_mark_modified(prev.rows, dir);
        if added::has_row(prev.rows, dir) {
            lemma_goes_on(prev.rows, st.rows, dir);
        } else {
            assert(st.rows[prev.rows.len() as int].path == dir);
        }
    } else {
        lemma_new_dirs(l, rows, ps, (n - 1) as nat, i);
        lemma_step_goes_on(l, rows, ps, n);
        lemma_goes_on(prev.rows, st.rows, dir);
    }
}

proof fn lemma_step_goes_on(l: ListingView, rows: Seq<RowView>, ps: Seq<Seq<char>>, n: nat)
    requires
        0 < n <= ps.len(),
    ensures
        goes_on(
            added::added_upto(l, rows, ps, (n - 1) as nat).rows,
            added::added_upto(l, rows, ps, n).rows,
        ),
{
    let prev = added::added_upto(l, rows, ps, (n - 1) as nat);
    let st = added::added_upto(l, rows, ps, n);
    let dir = added::top_dir(ps[n - 1], scope::scope_root(l.scopes, ps[n - 1], 0));
    lemma_mark_modified(prev.rows, dir);
    assert forall|i: int| 0 <= i < prev.rows.len() implies same_or_modified(
        prev.rows[i],
        #[trigger] st.rows[i],
    ) by {
        assert(same_or_modified(prev.rows[i], added::mark_modified(prev.rows, dir)[i]));
    }
}

proof fn lemma_dirs_are_tops(
    l: ListingView,
    rows: Seq<RowView>,
    ps: Seq<Seq<char>>,
    n: nat,
    dir: Seq<char>,
)
    requires
        n <= ps.len(),
        forall|j: int|
            0 <= j < n ==> added::top_dir(
                #[trigger] ps[j],
                scope::scope_root(l.scopes, ps[j], 0),
            ) != dir,
    ensures
        !added::added_upto(l, rows, ps, n).dirs.contains(dir),
    decreases n,
{
    if n > 0 {
        lemma_dirs_are_tops(l, rows, ps, (n - 1) as nat, dir);
        assert(added::top_dir(ps[n - 1], scope::scope_root(l.scopes, ps[n - 1], 0)) != dir);
    }
}

/// Every change of the working tree shows in the listing. A new path has a row, itself or
/// by the directory that stands for it; the row of a directory with a change below it does
/// not say that it is in sync. What was listed stays, and every further row belongs to a
/// new path.
pub proof fn law_changes_are_shown(l: ListingView, rows: Seq<RowView>, k: Seq<char>, root: Seq<char>)
    requires
        l.found.rows.dom().finite(),
        l.found.rows.dom().contains(k),
        listed_under(l.scopes, k, root),
    ensures
        goes_on(rows, added::with_changes(l, rows)),
        itself_shown(l, root, k) && is_new(l.found.rows[k]) ==> added::has_row(
            added::with_changes(l, rows),
            row_path(k, l.found.rows[k]),
        ),
        !itself_shown(l, root, k) && added::has_row(rows, added::top_dir(k, root))
            && added::top_dir(k, root).len() > 0 ==> is_told(
            added::with_changes(l, rows),
            added::top_dir(k, root),
        ),
        forall|i: int|
            rows.len() <= i < added::with_changes(l, rows).len() ==> is_of_new(
                l,
                l.found.rows,
                #[trigger] added::with_changes(l, rows)[i],
            ),
{
    let ps = collections::listing(l.found.rows.dom());
    collections::lemma_listing_exists(l.found.rows.dom());
    assert forall|i: int| 0 <= i < ps.len() implies l.found.rows.dom().contains(
        #[trigger] ps[i],
    ) by {
        assert(ps.contains(ps[i]));
    }
    lemma_changes_told(l, rows, ps, ps.len());
    assert(ps.contains(k));
    let i = choose|i: int| 0 <= i < ps.len() && ps[i] == k;
    assert(ps[i] == k);
    lemma_scope_root(l.scopes, k, 0, root);
    lemma_direct_child(root, k);
    let st = added::added_upto(l, rows, ps, ps.len());
    if !itself_shown(l, root, k) && added::top_dir(k, root).len() > 0 {
        assert(st.dirs.contains(added::top_dir(k, root)));
    }
}

/// A directory that is not listed yet, and in which the first change by path is a new one,
/// gets a row.
pub proof fn law_new_directories_are_shown(
    l: ListingView,
    rows: Seq<RowView>,
    k: Seq<char>,
    root: Seq<char>,
)
    requires
        l.found.rows.dom().finite(),
        l.found.rows.dom().contains(k),
        is_new(l.found.rows[k]),
        listed_under(l.scopes, k, root),
        !itself_shown(l, root, k),
        added::top_dir(k, root).len() > 0,
        forall|j: Seq<char>| #[trigger]
            l.found.rows.dom().contains(j) && j != k && collections::lex_le(j, k)
                ==> added::top_dir(j, scope::scope_root(l.scopes, j, 0)) != added::top_dir(k, root),
    ensures
        added::has_row(added::with_changes(l, rows), added::top_dir(k, root)),
{
    let ps = collections::listing(l.found.rows.dom());
    collections::lemma_listing_exists(l.found.rows.dom());
    assert forall|i: int| 0 <= i < ps.len() implies l.found.rows.dom().contains(
        #[trigger] ps[i],
    ) by {
        assert(ps.contains(ps[i]));
    }
    assert(ps.contains(k));
    let i = choose|i: int| 0 <= i < ps.len() && ps[i] == k;
    lemma_scope_root(l.scopes, k, 0, root);
    lemma_direct_child(root, k);
    assert forall|j: int| 0 <= j < i implies added::top_dir(
        #[trigger] ps[j],
        scope::scope_root(l.scopes, ps[j], 0),
    ) != added::top_dir(k, root) by {
        assert(l.found.rows.dom().contains(ps[j]));
        assert(ps[j] != ps[i]);
        assert(collections::lex_le(ps[j], ps[i]));
    }
    lemma_new_dirs(l, rows, ps, ps.len(), i);
}

// ---------------------------------------------------------------------------
// What only the remote has
// ---------------------------------------------------------------------------

proof fn lemma_remote_upto(l: ListingView, rows: Seq<RowView>, ks: Seq<Seq<char>>, n: nat)
    requires
        n <= ks.len(),
    ensures
        ({
            let out = added::remote_upto(l, rows, ks, n);
            &&& rows.len() <= out.len() && out.take(rows.len() as int) == rows
            &&& forall|i: int|
                0 <= i < n && added::shows(l, scope::bare(#[trigger] ks[i])) ==> added::has_row(
                    out,
                    ks[i],
                )
            &&& forall|j: int|
                rows.len() <= j < out.len() ==> ks.contains((#[trigger] out[j]).path)
                    && out[j].remote_status == 'A' && out[j].status == ' ' && out[j].mtime
                    == mtime_of(*l.remote.added[out[j].path]) && !added::has_row(rows, out[j].path)
        }),
    decreases n,
{
    let out = added::remote_upto(l, rows, ks, n);
    if n > 0 {
        lemma_remote_upto(l, rows, ks, (n - 1) as nat);
        let prev = added::remote_upto(l, rows, ks, (n - 1) as nat);
        assert(out.len() >= prev.len() && forall|i: int|
            0 <= i < prev.len() ==> #[trigger] out[i] == prev[i]);
        assert(out.take(rows.len() as int) =~= prev.take(rows.len() as int));
        assert forall|i: int|
            0 <= i < n && added::shows(l, scope::bare(#[trigger] ks[i])) implies added::has_row(
            out,
            ks[i],
        ) by {
            if added::has_row(prev, ks[i]) {
                let j = choose|j: int| 0 <= j < prev.len() && (#[trigger] prev[j]).path == ks[i];
                assert(out[j].path == ks[i]);
            } else {
                assert(i == n - 1);
                assert(out[prev.len() as int].path == ks[i]);
            }
        }
        assert forall|j: int| rows.len() <= j < out.len() implies ks.contains(
            (#[trigger] out[j]).path,
        ) && out[j].remote_status == 'A' && out[j].status == ' ' && out[j].mtime == mtime_of(
            *l.remote.added[out[j].path],
        ) && !added::has_row(rows, out[j].path) by {
            if j < prev.len() {
                assert(out[j] == prev[j]);
            } else {
                assert(out[j].path == ks[n - 1]);
                if added::has_row(rows, ks[n - 1]) {
                    let i = choose|i: int|
                        0 <= i < rows.len() && (#[trigger] rows[i]).path == ks[n - 1];
                    assert(prev.take(rows.len() as int)[i] == prev[i]);
                    assert(prev[i].path == ks[n - 1]);
                }
            }
        }
    } else {
        assert(out.take(rows.len() as int) =~= rows);
    }
}

/// The time of an entry.
pub open spec fn mtime_of(e: TreeEntry) -> Option<crate::object::Timestamp> {
    match e {
        TreeEntry::Blob { mtime, .. } => mtime,
        TreeEntry::Tree { mtime, .. } => mtime,
        TreeEntry::Symlink { mtime, .. } => mtime,
    }
}

/// Every path that only the remote has, and that the listing shows, has a row. The rows that
/// were there stay, and each further one is such a path's, is new on the remote and has the
/// time of the remote entry.
pub proof fn law_remote_additions_are_shown(
    l: ListingView,
    rows: Seq<RowView>,
    key: Seq<char>,
    root: Seq<char>,
)
    requires
        l.remote.added.dom().finite(),
        listed_under(l.scopes, scope::bare(key), root),
    ensures
        rows.len() <= added::with_remote(l, rows).len(),
        added::with_remote(l, rows).take(rows.len() as int) == rows,
        l.remote.added.dom().contains(key) && itself_shown(l, root, scope::bare(key))
            ==> added::has_row(added::with_remote(l, rows), key),
        forall|j: int|
            rows.len() <= j < added::with_remote(l, rows).len() ==> {
                let row = #[trigger] added::with_remote(l, rows)[j];
                &&& l.remote.added.dom().contains(row.path)
                &&& row.remote_status == 'A' && row.status == ' '
                &&& row.mtime == mtime_of(*l.remote.added[row.path])
                &&& !added::has_row(rows, row.path)
            },
{
    let ks = collections::listing(l.remote.added.dom());
    collections::lemma_listing_exists(l.remote.added.dom());
    lemma_remote_upto(l, rows, ks, ks.len());
    lemma_scope_root(l.scopes, scope::bare(key), 0, root);
    lemma_direct_child(root, scope::bare(key));
    if l.remote.added.dom().contains(key) {
        assert(ks.contains(key));
        let i = choose|i: int| 0 <= i < ks.len() && ks[i] == key;
        assert(ks[i] == key);
    }
}

// ---------------------------------------------------------------------------
// What is ignored
// ---------------------------------------------------------------------------

/// A row of an ignored path is marked: as deleted where the clone root has the path, for the
/// working tree counts as without it. Every other row stays as it is.
pub proof fn law_ignored_rows_are_marked(l: ListingView, rows: Seq<RowView>, n: nat, i: int)
    requires
        n <= rows.len(),
        0 <= i < rows.len(),
        added::marked_upto(l, rows, n) is Ok,
    ensures
        added::marked_upto(l, rows, n)->Ok_0.len() == rows.len(),
        ({
            let row = added::marked_upto(l, rows, n)->Ok_0[i];
            let path = scope::bare(rows[i].path);
            &&& row.path == rows[i].path
            &&& i >= n || !l.ignored.contains(path) ==> row == rows[i]
            &&& i < n && l.ignored.contains(path) ==> match rows::reached(
                l.root,
                text::components(path),
            ) {
                Ok(Some(_)) => row.z == 'i' && row.status == 'D',
                Ok(None) => row.z == 'I' && row.status == ' ',
                Err(_) => false,
            }
        }),
    decreases n,
{
    if n > 0 {
        law_ignored_rows_are_marked(l, rows, (n - 1) as nat, i);
    }
}

// ---------------------------------------------------------------------------
// Marks
// ---------------------------------------------------------------------------

/// A path in conflict marks its own row, that of the root, and that of every directory above
/// it, whatever else there is to say of them. Without conflicts no row is marked so.
pub proof fn law_conflicts_are_marked(l: ListingView, row: RowView, i: int)
    requires
        0 <= i < l.side.conflict_paths@.len(),
        row.path == l.side.conflict_paths@[i]@ || row.path == seq!['.'] || exists|dir: Seq<char>|
            row.path == dir.push('/') && #[trigger] leaves::at_or_above(
                dir,
                l.side.conflict_paths@[i]@,
            ) && dir != l.side.conflict_paths@[i]@,
    ensures
        marks::mark_of(l, row) == '!',
{
    let ps = text::views(l.side.conflict_paths@);
    assert(ps[i] == l.side.conflict_paths@[i]@);
    assert(ps.contains(ps[i]));
}

/// A row is marked as in conflict only where a conflict stands at its path or below it.
pub proof fn law_only_conflicts_are_marked(l: ListingView, row: RowView) -> (i: int)
    requires
        row.z != '!',
        marks::mark_of(l, row) == '!',
    ensures
        0 <= i < l.side.conflict_paths@.len(),
        row.path == l.side.conflict_paths@[i]@ || row.path == seq!['.'] || (row.path.len() > 0
            && row.path.last() == '/' && text::has_prefix(
            l.side.conflict_paths@[i]@,
            row.path,
        )),
{
    let ps = text::views(l.side.conflict_paths@);
    if ps.contains(row.path) {
        let i = choose|i: int| 0 <= i < ps.len() && ps[i] == row.path;
        i
    } else if row.path == seq!['.'] {
        0
    } else {
        let i = choose|i: int| 0 <= i < ps.len() && text::has_prefix(#[trigger] ps[i], row.path);
        i
    }
}

/// The row of a stubbed file, that of a directory that is a stub as a whole and every row
/// below such a directory say so, unless a conflict or an ignored path comes first.
pub proof fn law_stubs_are_marked(l: ListingView, row: RowView, i: int)
    requires
        0 <= i < l.side.stubs@.len(),
        ({
            let s = l.side.stubs@[i];
            if s.tree {
                !s.partial && (row.path == s.path@.push('/') || text::has_prefix(
                    row.path,
                    s.path@.push('/'),
                ))
            } else {
                row.path == s.path@ && row.path.last() != '/'
            }
        }),
        row.z == ' ',
    ensures
        marks::mark_of(l, row) == 'S' || marks::mark_of(l, row) == '!',
        l.side.conflict_paths@.len() == 0 ==> marks::mark_of(l, row) == 'S',
{
    let s = l.side.stubs@[i];
    assert(marks::whole(s));
    assert(marks::stubbed(l, row.path));
    if l.side.conflict_paths@.len() == 0 {
        let ps = text::views(l.side.conflict_paths@);
        assert(ps.len() == 0);
    }
}

proof fn lemma_bare_of_dir(dir: Seq<char>)
    requires
        dir.len() == 0 || dir.last() != '/',
    ensures
        scope::bare(dir.push('/')) == dir,
{
    assert(dir.push('/').drop_last() =~= dir);
    reveal_with_fuel(text::trim_end_of, 2);
}

/// The row of a directory with stubs somewhere below it says so, and so does that of a
/// directory that is partly a stub.
pub proof fn law_partial_stubs_are_marked(l: ListingView, row: RowView, i: int, dir: Seq<char>)
    requires
        0 <= i < l.side.stubs@.len(),
        dir.len() > 0,
        dir.last() != '/',
        row.path == dir.push('/'),
        ({
            let s = l.side.stubs@[i];
            text::has_prefix(s.path@, dir.push('/')) || s.tree && s.partial && s.path@ == dir
        }),
        row.z == ' ',
        l.side.conflict_paths@.len() == 0,
    ensures
        marks::mark_of(l, row) == 's' || marks::mark_of(l, row) == 'S',
{
    lemma_bare_of_dir(dir);
    let ps = text::views(l.side.conflict_paths@);
    assert(ps.len() == 0);
    assert(row.path.len() >= 2);
    let s = l.side.stubs@[i];
    assert(marks::partly_stubbed(l, dir));
}

/// Without stubs and conflicts the marks are as they were.
pub proof fn law_no_marks_without_cause(l: ListingView, row: RowView)
    requires
        l.side.stubs@.len() == 0,
        l.side.conflict_paths@.len() == 0,
    ensures
        marks::mark_of(l, row) == row.z,
{
    assert(text::views(l.side.conflict_paths@).len() == 0);
}

/// A row is marked as a stub only where a stub stands at its path, or a directory that is a
/// stub as a whole at it or above it.
pub proof fn law_only_stubs_are_marked(l: ListingView, row: RowView) -> (i: int)
    requires
        row.z != 'S',
        marks::mark_of(l, row) == 'S',
    ensures
        0 <= i < l.side.stubs@.len(),
        ({
            let s = l.side.stubs@[i];
            if s.tree {
                !s.partial && text::has_prefix(row.path, s.path@.push('/'))
            } else {
                row.path == s.path@ || text::has_prefix(row.path, s.path@)
            }
        }),
{
    let i = choose|i: int|
        0 <= i < l.side.stubs@.len() && marks::whole(#[trigger] l.side.stubs@[i]) && (
        marks::stub_key(l.side.stubs@[i]) == row.path || marks::dir_like(
            marks::stub_key(l.side.stubs@[i]),
        ) && text::has_prefix(row.path, marks::stub_key(l.side.stubs@[i])));
    let key = marks::stub_key(l.side.stubs@[i]);
    if key == row.path {
        assert(row.path.take(key.len() as int) =~= key);
    }
    i
}

// ---------------------------------------------------------------------------
// Sources
// ---------------------------------------------------------------------------

/// The columns that a source may replace are the hash, the size, the count and the time; the
/// clone root replaces none.
pub proof fn law_source_keeps_the_rest(l: ListingView, rows: Seq<RowView>, n: nat, i: int)
    requires
        0 <= i < n <= rows.len(),
        marks::sourced_upto(l, rows, n) is Ok,
    ensures
        marks::sourced_upto(l, rows, n)->Ok_0.len() == n,
        ({
            let row = marks::sourced_upto(l, rows, n)->Ok_0[i];
            &&& row.path == rows[i].path
            &&& row.status == rows[i].status
            &&& row.remote_status == rows[i].remote_status
            &&& row.z == rows[i].z
            &&& l.source is Clone ==> row == rows[i]
        }),
    decreases n,
{
    if i < n - 1 {
        law_source_keeps_the_rest(l, rows, (n - 1) as nat, i);
    } else if n > 1 {
        law_source_keeps_the_rest(l, rows, (n - 1) as nat, 0);
    }
}

/// Whether a row has the columns of an entry.
pub open spec fn has_columns(row: RowView, e: TreeEntry, full: bool) -> bool {
    &&& row.mtime == mtime_of(e)
    &&& match e.hash_of() {
        Some(h) => row.hash_str == if full {
            h.hex()
        } else {
            h.short()
        } && row.size is Some,
        None => row.size is None,
    }
    &&& e matches TreeEntry::Blob { size, .. } ==> row.size == Some(size) && row.blob_count == 1
    &&& e matches TreeEntry::Tree { size, blob_count, .. } ==> row.size == Some(size)
        && row.blob_count == blob_count
}

/// A listing of the working tree or of the remote shows, of every path that the source has,
/// what the source has.
pub proof fn law_source_shows_its_own(l: ListingView, row: RowView, e: TreeEntry)
    requires
        scope::bare(row.path).len() > 0,
        scope::bare(row.path) != seq!['.'],
        l.source is Working && rows::reached(l.working, text::components(scope::bare(row.path)))
            == Ok::<Option<TreeEntry>, ObjectHash>(Some(e)) || l.source is Remote
            && l.remote.entries.dom().contains(scope::bare(row.path))
            && *l.remote.entries[scope::bare(row.path)] == e,
    ensures
        marks::from_source(l, row) is Ok,
        has_columns(marks::from_source(l, row)->Ok_0, e, l.full_hash),
{
}

// ---------------------------------------------------------------------------
// The rows of a tree
// ---------------------------------------------------------------------------

/// Whether a row is that of an entry of a tree: it has the entry's columns, says of a file
/// whether and how it changed, and what the remote has done to it.
pub open spec fn is_row_of(l: ListingView, row: RowView, e: TreeEntry, path: Seq<char>) -> bool {
    &&& has_columns(row, e, l.full_hash)
    &&& e is Tree ==> row.path == path.push('/') && row.status == ' '
    &&& !(e is Tree) ==> {
        &&& row.path == path
        &&& row.status == ' ' <==> !l.found.rows.dom().contains(path)
        &&& row.status == 'M' <==> l.found.rows.dom().contains(path) && l.found.rows[path]
            is Modified
        &&& row.status == 'D' <==> l.found.rows.dom().contains(path) && l.found.rows[path]
            is Deleted
        &&& row.status == ' ' || row.status == 'M' || row.status == 'D' || row.status == 'A'
    }
    &&& if l.remote.status.dom().contains(row.path) {
        row.remote_status == l.remote.status[row.path]
    } else {
        row.remote_status == ' '
    }
}

pub proof fn lemma_tree_rows_go_on(
    l: ListingView,
    node: TreeNode,
    prefix: Seq<char>,
    force: Option<char>,
    out: Seq<RowView>,
)
    requires
        rows::tree_rows(l, node, prefix, force, out) is Ok,
    ensures
        ({
            let r = rows::tree_rows(l, node, prefix, force, out)->Ok_0;
            out.len() <= r.len() && r.take(out.len() as int) == out
        }),
    decreases node, 0nat,
{
    match node.content {
        Content::Entries(es) => {
            lemma_listing_rows_go_on(l, es@, es@.len(), prefix, force, out);
        },
        _ => {
            assert(out.take(out.len() as int) =~= out);
        },
    }
}

proof fn lemma_listing_rows_go_on(
    l: ListingView,
    es: Seq<TreeEntry>,
    n: nat,
    prefix: Seq<char>,
    force: Option<char>,
    out: Seq<RowView>,
)
    requires
        n <= es.len(),
        rows::listing_rows(l, es, n, prefix, force, out) is Ok,
    ensures
        ({
            let r = rows::listing_rows(l, es, n, prefix, force, out)->Ok_0;
            &&& out.len() <= r.len() && r.take(out.len() as int) == out
            &&& forall|i: int|
                0 <= i < n ==> has_entry_row(l, r, #[trigger] es[i], prefix, force)
        }),
    decreases es, n,
{
    if n > 0 {
        lemma_listing_rows_go_on(l, es, (n - 1) as nat, prefix, force, out);
        let prev = rows::listing_rows(l, es, (n - 1) as nat, prefix, force, out)->Ok_0;
        let r = rows::listing_rows(l, es, n, prefix, force, out)->Ok_0;
        let e = es[n - 1];
        let path = rows::entry_path(prefix, e.name_text());
        let with = prev.push(rows::entry_row(l, e, path, force));
        if let TreeEntry::Tree { node, .. } = e {
            if l.recursive && !l.ignored.contains(path) {
                lemma_tree_rows_go_on(l, node, path, force, with);
            } else {
                assert(r.take(with.len() as int) =~= with);
            }
        } else {
            assert(r.take(with.len() as int) =~= with);
        }
        assert(r.take(out.len() as int) =~= prev.take(out.len() as int)) by {
            assert forall|i: int| 0 <= i < out.len() implies r[i] == prev[i] by {
                assert(r.take(with.len() as int)[i] == with[i]);
            }
        }
        assert forall|i: int| 0 <= i < n implies has_entry_row(
            l,
            r,
            #[trigger] es[i],
            prefix,
            force,
        ) by {
            if i < n - 1 {
                assert(has_entry_row(l, prev, es[i], prefix, force));
                let j = choose|j: int|
                    0 <= j < prev.len() && #[trigger] prev[j] == rows::entry_row(
                        l,
                        es[i],
                        rows::entry_path(prefix, es[i].name_text()),
                        force,
                    );
                assert(r.take(with.len() as int)[j] == with[j]);
                assert(r[j] == prev[j]);
            } else {
                let j = prev.len() as int;
                assert(r.take(with.len() as int)[j] == with[j]);
                assert(r[j] == rows::entry_row(l, e, path, force));
            }
        }
    } else {
        assert(out.take(out.len() as int) =~= out);
    }
}

spec fn has_entry_row(
    l: ListingView,
    r: Seq<RowView>,
    e: TreeEntry,
    prefix: Seq<char>,
    force: Option<char>,
) -> bool {
    exists|j: int|
        0 <= j < r.len() && #[trigger] r[j] == rows::entry_row(
            l,
            e,
            rows::entry_path(prefix, e.name_text()),
            force,
        )
}

/// Whether the rows have one of an entry.
pub open spec fn has_row_of(l: ListingView, r: Seq<RowView>, e: TreeEntry, path: Seq<char>) -> bool {
    exists|j: int| 0 <= j < r.len() && is_row_of(l, #[trigger] r[j], e, path)
}

/// Every entry of a directory that is listed has its row.
pub proof fn law_every_entry_has_its_row(
    l: ListingView,
    node: TreeNode,
    prefix: Seq<char>,
    out: Seq<RowView>,
    i: int,
)
    requires
        rows::tree_rows(l, node, prefix, None, out) is Ok,
        node.content matches Content::Entries(es) && 0 <= i < es@.len(),
        prefix != seq!['.'],
    ensures
        has_row_of(
            l,
            rows::tree_rows(l, node, prefix, None, out)->Ok_0,
            node.content->Entries_0@[i],
            text::joined(prefix, node.content->Entries_0@[i].name_text()),
        ),
{
    let es = node.content->Entries_0@;
    let r = rows::tree_rows(l, node, prefix, None, out)->Ok_0;
    lemma_listing_rows_go_on(l, es, es.len(), prefix, None, out);
    assert(has_entry_row(l, r, es[i], prefix, None));
    let path = rows::entry_path(prefix, es[i].name_text());
    assert(path == text::joined(prefix, es[i].name_text()));
    let j = choose|j: int|
        0 <= j < r.len() && #[trigger] r[j] == rows::entry_row(l, es[i], path, None);
    assert(is_row_of(l, r[j], es[i], path));
}

/// A recursive listing goes on into every directory that is not ignored: the rows of the
/// directory are rows of the listing.
pub proof fn law_recursive_listing_goes_down(
    l: ListingView,
    es: Seq<TreeEntry>,
    n: nat,
    prefix: Seq<char>,
    out: Seq<RowView>,
    i: int,
    j: int,
)
    requires
        0 <= i < n <= es.len(),
        rows::listing_rows(l, es, n, prefix, None, out) is Ok,
        l.recursive,
        prefix != seq!['.'],
        !l.ignored.contains(text::joined(prefix, es[i].name_text())),
        es[i] matches TreeEntry::Tree { node, .. } && (node.content matches Content::Entries(inner)
            && 0 <= j < inner@.len() && text::joined(prefix, es[i].name_text()) != seq!['.']),
    ensures
        ({
            let inner = es[i]->node.content->Entries_0@;
            has_row_of(
                l,
                rows::listing_rows(l, es, n, prefix, None, out)->Ok_0,
                inner[j],
                text::joined(text::joined(prefix, es[i].name_text()), inner[j].name_text()),
            )
        }),
    decreases n,
{
    let r = rows::listing_rows(l, es, n, prefix, None, out)->Ok_0;
    let prev = rows::listing_rows(l, es, (n - 1) as nat, prefix, None, out)->Ok_0;
    let path = text::joined(prefix, es[i].name_text());
    let inner = es[i]->node.content->Entries_0@;
    let deep = text::joined(path, inner[j].name_text());
    let e = es[n - 1];
    let with = prev.push(
        rows::entry_row(l, e, rows::entry_path(prefix, e.name_text()), None),
    );
    if i == n - 1 {
        assert(rows::entry_path(prefix, e.name_text()) == path);
        law_every_entry_has_its_row(l, es[i]->node, path, with, j);
    } else {
        law_recursive_listing_goes_down(l, es, (n - 1) as nat, prefix, out, i, j);
        if let TreeEntry::Tree { node, .. } = e {
            let p = rows::entry_path(prefix, e.name_text());
            if l.recursive && !l.ignored.contains(p) {
                lemma_tree_rows_go_on(l, node, p, None, with);
            } else {
                assert(r.take(with.len() as int) =~= with);
            }
        } else {
            assert(r.take(with.len() as int) =~= with);
        }
        let x = choose|x: int| 0 <= x < prev.len() && is_row_of(l, #[trigger] prev[x], inner[j], deep);
        assert(r.take(with.len() as int)[x] == with[x]);
        assert(r[x] == prev[x]);
    }
}

/// The row of the root says whether there is any change, here and on the remote; that of a
/// directory whether there is one below it.
pub proof fn law_directory_rows_sum_up(
    l: ListingView,
    rel: Seq<char>,
    hash: ObjectHash,
    meta: crate::commands::ls::rows::TreeMeta,
)
    ensures
        rows::root_row(l).status == ' ' <==> (forall|k: Seq<char>| !#[trigger]
            l.found.rows.dom().contains(k)),
        rows::root_row(l).remote_status == ' ' <==> (forall|k: Seq<char>| !#[trigger]
            l.remote.status.dom().contains(k)),
        rows::self_row(l, rel, hash, meta, None).status == ' ' <==> (forall|k: Seq<char>| #[trigger]
            l.found.rows.dom().contains(k) ==> !leaves::at_or_above(rel, k) || k == rel),
{
    if forall|k: Seq<char>| !#[trigger] l.found.rows.dom().contains(k) {
        assert(l.found.rows =~= Map::<Seq<char>, DiffRow>::empty());
    }
    if forall|k: Seq<char>| !#[trigger] l.remote.status.dom().contains(k) {
        assert(l.remote.status =~= Map::<Seq<char>, char>::empty());
    }
    assert forall|k: Seq<char>| text::has_prefix(k, #[trigger] rel.push('/')) implies k != rel by {}
}

// ---------------------------------------------------------------------------
// A listing without a clone root
// ---------------------------------------------------------------------------

proof fn lemma_new_upto(
    changes: Map<Seq<char>, DiffRow>,
    ps: Seq<Seq<char>>,
    n: nat,
    recursive: bool,
    full: bool,
)
    requires
        n <= ps.len(),
    ensures
        ({
            let st = ls::new_upto(changes, ps, n, recursive, full);
            &&& forall|i: int|
                0 <= i < n && (recursive || !(#[trigger] ps[i]).contains('/')) && is_new(
                    changes[ps[i]],
                ) ==> added::has_row(st.rows, row_path(ps[i], changes[ps[i]]))
            &&& forall|i: int|
                0 <= i < n && !recursive && (#[trigger] ps[i]).contains('/') && first_name(
                    ps[i],
                ).len() > 0 ==> added::has_row(st.rows, first_name(ps[i]).push('/'))
            &&& forall|d: Seq<char>| #[trigger]
                st.dirs.contains(d) ==> added::has_row(st.rows, d.push('/'))
            &&& forall|j: int| 0 <= j < st.rows.len() ==> (#[trigger] st.rows[j]).status == 'A'
        }),
    decreases n,
{
    if n > 0 {
        lemma_new_upto(changes, ps, (n - 1) as nat, recursive, full);
        let prev = ls::new_upto(changes, ps, (n - 1) as nat, recursive, full);
        let st = ls::new_upto(changes, ps, n, recursive, full);
        let k = ps[n - 1];
        lemma_direct_child(seq![], k);
        assert forall|p: Seq<char>| #[trigger] added::has_row(prev.rows, p) implies added::has_row(
            st.rows,
            p,
        ) by {
            let j = choose|j: int| 0 <= j < prev.rows.len() && (#[trigger] prev.rows[j]).path == p;
            assert(st.rows[j].path == p);
        }
        if st.rows.len() > prev.rows.len() {
            assert(added::has_row(st.rows, st.rows[prev.rows.len() as int].path));
        }
        assert(recursive || !k.contains('/') ==> (is_new(changes[k]) ==> added::has_row(
            st.rows,
            row_path(k, changes[k]),
        )));
    }
}

/// The first name of a path.
pub open spec fn first_name(k: Seq<char>) -> Seq<char> {
    k.take(text::find_from(k, '/', 0) as int)
}

/// Where there is no clone root everything is new. A recursive listing has a row for every
/// path; any other has one for every path directly in the root, and one for every directory
/// there with a path below it.
pub proof fn law_everything_is_new(
    changes: Map<Seq<char>, DiffRow>,
    recursive: bool,
    full: bool,
    k: Seq<char>,
)
    requires
        changes.dom().finite(),
        changes.dom().contains(k),
        is_new(changes[k]),
    ensures
        recursive || !k.contains('/') ==> added::has_row(
            ls::new_rows(changes, recursive, full),
            row_path(k, changes[k]),
        ),
        !recursive && k.contains('/') && first_name(k).len() > 0 ==> added::has_row(
            ls::new_rows(changes, recursive, full),
            first_name(k).push('/'),
        ),
        forall|j: int|
            0 <= j < ls::new_rows(changes, recursive, full).len() ==> (
            #[trigger] ls::new_rows(changes, recursive, full)[j]).status == 'A',
{
    let ps = collections::listing(changes.dom());
    collections::lemma_listing_exists(changes.dom());
    lemma_new_upto(changes, ps, ps.len(), recursive, full);
    assert(ps.contains(k));
    let i = choose|i: int| 0 <= i < ps.len() && ps[i] == k;
    assert(ps[i] == k);
}

} // verus!
