//! The rows that the trees themselves do not give: what is new in the working tree
//! or on the remote, what is ignored, and what is reserved.

use crate::collections;
use crate::commands::ls::diff::DiffRow;
use crate::commands::ls::rows::{
    self, format_hash, navigate_working, plain_row, Listing, ListingView, Row, RowView,
};
use crate::commands::ls::scope::{
    self, find_scope_root, is_direct_child, trim_slash_end, ScopeFilter,
};
use crate::object::{ObjectHash, TreeEntry};
use crate::text::{
    self, chars_of, find_char, path_components, repeat, str_eq, string_of, strip_prefix,
};
use vstd::prelude::*;

verus! {

/// Whether a row has this path.
pub open spec fn has_row(rows: Seq<RowView>, path: Seq<char>) -> bool {
    exists|i: int| 0 <= i < rows.len() && (#[trigger] rows[i]).path == path
}

/// Whether a row has this path.
fn lists(rows: &Vec<Row>, n: usize, path: &str) -> (r: bool)
    requires
        n <= rows@.len(),
    ensures
        r == has_row(rows::row_views(rows@).take(n as int), path@),
{
    let ghost all = rows::row_views(rows@).take(n as int);
    let mut i: usize = 0;
    while i < n
        invariant
            i <= n <= rows@.len(),
            all == rows::row_views(rows@).take(n as int),
            forall|k: int| 0 <= k < i ==> (#[trigger] all[k]).path != path@,
        decreases n - i,
    {
        assert(all[i as int] == rows@[i as int]@);
        if str_eq(rows[i].path.as_str(), path) {
            return true;
        }
        i = i + 1;
    }
    false
}

/// The last row with this path.
pub open spec fn last_row(rows: Seq<RowView>, path: Seq<char>) -> Option<int>
    decreases rows.len(),
{
    if rows.len() == 0 {
        None
    } else if rows.last().path == path {
        Some(rows.len() - 1)
    } else {
        last_row(rows.drop_last(), path)
    }
}

/// `rows` where the row of a directory in sync says that it is modified.
pub open spec fn mark_modified(rows: Seq<RowView>, path: Seq<char>) -> Seq<RowView> {
    match last_row(rows, path) {
        Some(i) => if rows[i].status == ' ' {
            rows.update(i, RowView { status: 'M', ..rows[i] })
        } else {
            rows
        },
        None => rows,
    }
}

fn set_modified(rows: &mut Vec<Row>, path: &str)
    ensures
        rows::row_views(final(rows)@) == mark_modified(rows::row_views(old(rows)@), path@),
{
    let ghost all = rows::row_views(rows@);
    let mut i: usize = rows.len();
    assert(all.take(i as int) =~= all);
    while i > 0
        invariant
            i <= rows@.len(),
            *rows == *old(rows),
            all == rows::row_views(rows@),
            last_row(all, path@) == last_row(all.take(i as int), path@),
        decreases i,
    {
        assert(all.take(i as int).drop_last() =~= all.take(i - 1));
        assert(all[i - 1] == rows@[i - 1]@);
        if str_eq(rows[i - 1].path.as_str(), path) {
            if rows[i - 1].status == ' ' {
                rows[i - 1].status = 'M';
                assert(rows::row_views(rows@) =~= all.update(
                    i - 1,
                    RowView { status: 'M', ..all[i - 1] },
                ));
            }
            return;
        }
        i = i - 1;
    }
}

// ---------------------------------------------------------------------------
// New in the working tree
// ---------------------------------------------------------------------------

/// The rows so far, and the directories that were dealt with.
pub struct AddState {
    pub rows: Seq<RowView>,
    pub dirs: Set<Seq<char>>,
}

/// The directory directly under the scope root that a deeper path lies in; empty
/// if there is none.
pub open spec fn top_dir(path: Seq<char>, root: Seq<char>) -> Seq<char> {
    let rest = if root.len() > 0 && text::has_prefix(path, root.push('/')) {
        path.skip(root.len() as int + 1)
    } else {
        path
    };
    let name = rest.take(text::find_from(rest, '/', 0) as int);
    if name.len() == 0 {
        seq![]
    } else {
        text::joined(root, name).push('/')
    }
}

fn dir_on_top(path: &str, root: &str) -> (r: String)
    ensures
        r@ == top_dir(path@, root@),
{
    let mut slashed: String = root.to_owned();
    slashed.push('/');
    let rest: String = if root.is_empty() {
        path.to_owned()
    } else {
        match strip_prefix(path, slashed.as_str()) {
            Some(s) => s,
            None => path.to_owned(),
        }
    };
    let chars = chars_of(rest.as_str());
    let end: usize = find_char(&chars, '/', 0);
    let name = string_of(&chars, 0, end);
    assert(name@ =~= rest@.take(end as int));
    if end == 0 {
        let r = String::new();
        assert(r@ =~= seq![]);
        return r;
    }
    let mut r = text::join_path(root, name.as_str());
    r.push('/');
    r
}

/// `st` after one path that differs. Directly under a scope root it is listed if it
/// is new and not listed yet. Deeper down it makes the directory it lies in
/// modified, or new if that is not listed.
pub open spec fn add_change(l: ListingView, st: AddState, path: Seq<char>, change: DiffRow) -> AddState {
    let root = scope::scope_root(l.scopes, path, 0);
    if l.recursive || scope::direct_child(path, root) {
        match change {
            DiffRow::Added { working_hash } => if has_row(st.rows, path) {
                st
            } else {
                AddState {
                    rows: st.rows.push(
                        rows::plain(
                            'A',
                            rows::hash_text(working_hash, l.full_hash),
                            None,
                            1,
                            path,
                        ),
                    ),
                    ..st
                }
            },
            DiffRow::AddedEmptyDir { hash } => if has_row(st.rows, path.push('/')) {
                st
            } else {
                AddState {
                    rows: st.rows.push(
                        rows::plain(
                            'A',
                            rows::hash_text(hash, l.full_hash),
                            Some(0),
                            0,
                            path.push('/'),
                        ),
                    ),
                    ..st
                }
            },
            _ => st,
        }
    } else {
        let dir = top_dir(path, root);
        if dir.len() == 0 || st.dirs.contains(dir) {
            st
        } else {
            AddState {
                rows: if has_row(st.rows, dir) {
                    mark_modified(st.rows, dir)
                } else if change is Added || change is AddedEmptyDir {
                    st.rows.push(rows::plain('A', seq!['-'], None, 0, dir))
                } else {
                    st.rows
                },
                dirs: st.dirs.insert(dir),
            }
        }
    }
}

/// The rows after the first `n` of the paths that differ.
pub open spec fn added_upto(l: ListingView, rows: Seq<RowView>, ps: Seq<Seq<char>>, n: nat) -> AddState
    decreases n,
{
    if n == 0 || n > ps.len() {
        AddState { rows, dirs: Set::empty() }
    } else {
        add_change(
            l,
            added_upto(l, rows, ps, (n - 1) as nat),
            ps[n - 1],
            l.found.rows[ps[n - 1]],
        )
    }
}

/// The rows with all that differs in the working tree, path by path in order.
pub open spec fn with_changes(l: ListingView, rows: Seq<RowView>) -> Seq<RowView> {
    let ps = collections::listing(l.found.rows.dom());
    added_upto(l, rows, ps, ps.len()).rows
}

fn push_row(rows: &mut Vec<Row>, row: Row)
    ensures
        rows::row_views(final(rows)@) == rows::row_views(old(rows)@).push(row@),
{
    let ghost before = rows::row_views(rows@);
    let ghost v = row@;
    rows.push(row);
    assert(rows::row_views(rows@) =~= before.push(v));
}

/// The text that stands for a hash that is not known.
fn dash() -> (r: String)
    ensures
        r@ == seq!['-'],
{
    proof {
        reveal_strlit("-");
        assert("-"@ =~= seq!['-']);
    }
    "-".to_owned()
}

/// Deals with one path that differs.
fn put_change(
    l: &Listing,
    rows: &mut Vec<Row>,
    dirs: &mut collections::PathSet,
    path: &str,
    change: DiffRow,
)
    requires
        old(dirs).wf(),
    ensures
        final(dirs).wf(),
        add_change(
            l@,
            AddState { rows: rows::row_views(old(rows)@), dirs: old(dirs)@ },
            path@,
            change,
        ) == (AddState { rows: rows::row_views(final(rows)@), dirs: final(dirs)@ }),
{
    let ghost all = rows::row_views(rows@);
    assert(all.take(rows@.len() as int) =~= all);
    let root = find_scope_root(l.prefixes, path);
    if l.recursive || is_direct_child(path, root.as_str()) {
        match change {
            DiffRow::Added { working_hash } => {
                if !lists(rows, rows.len(), path) {
                    push_row(
                        rows,
                        plain_row(
                            'A',
                            format_hash(&working_hash, l.full_hash),
                            None,
                            1,
                            path.to_owned(),
                        ),
                    );
                }
            },
            DiffRow::AddedEmptyDir { hash } => {
                let mut dir: String = path.to_owned();
                dir.push('/');
                if !lists(rows, rows.len(), dir.as_str()) {
                    push_row(
                        rows,
                        plain_row('A', format_hash(&hash, l.full_hash), Some(0), 0, dir),
                    );
                }
            },
            _ => {},
        }
        return;
    }
    let dir = dir_on_top(path, root.as_str());
    if dir.as_str().is_empty() || dirs.contains(dir.as_str()) {
        return;
    }
    dirs.insert(dir.clone());
    if lists(rows, rows.len(), dir.as_str()) {
        set_modified(rows, dir.as_str());
    } else if matches!(change, DiffRow::Added { .. } | DiffRow::AddedEmptyDir { .. }) {
        push_row(rows, plain_row('A', dash(), None, 0, dir));
    }
}

/// Adds the rows for all that differs in the working tree.
#[verifier::loop_isolation(false)]
pub fn add_changes(l: &Listing, rows: &mut Vec<Row>)
    requires
        l.wf(),
    ensures
        rows::row_views(final(rows)@) == with_changes(l@, rows::row_views(old(rows)@)),
{
    let ghost rows0 = rows::row_views(rows@);
    let ps = l.found.rows.sorted_keys();
    let ghost all = text::views(ps@);
    let mut dirs = collections::PathSet::new();
    let mut i: usize = 0;
    while i < ps.len()
        invariant
            i <= ps@.len(),
            dirs.wf(),
            added_upto(l@, rows0, all, i as nat) == (AddState {
                rows: rows::row_views(rows@),
                dirs: dirs@,
            }),
        decreases ps.len() - i,
    {
        assert(all[i as int] == ps@[i as int]@);
        assert(all.contains(ps@[i as int]@));
        let change = match l.found.rows.get(ps[i].as_str()) {
            Some(c) => *c,
            None => DiffRow::Deleted,
        };
        put_change(l, rows, &mut dirs, ps[i].as_str(), change);
        i = i + 1;
    }
    assert(all.len() == ps@.len());
}

// ---------------------------------------------------------------------------
// New on the remote
// ---------------------------------------------------------------------------

/// The row of an entry that only the remote has.
pub open spec fn remote_row(l: ListingView, key: Seq<char>, e: TreeEntry) -> RowView {
    match e {
        TreeEntry::Blob { hash, size, mtime, .. } => RowView {
            remote_status: 'A',
            mtime,
            ..rows::plain(' ', rows::hash_text(hash, l.full_hash), Some(size), 1, key)
        },
        TreeEntry::Tree { size, mtime, blob_count, node, .. } => RowView {
            remote_status: 'A',
            mtime,
            ..rows::plain(
                ' ',
                rows::hash_text(node.hash, l.full_hash),
                Some(size),
                blob_count,
                key,
            )
        },
        TreeEntry::Symlink { mtime, .. } => RowView {
            remote_status: 'A',
            mtime,
            ..rows::plain(' ', seq!['-'], None, 1, key)
        },
    }
}

/// Whether a listing shows a path: a listing that is not recursive shows what lies
/// directly under a scope root.
pub open spec fn shows(l: ListingView, path: Seq<char>) -> bool {
    l.recursive || scope::direct_child(path, scope::scope_root(l.scopes, path, 0))
}

fn is_shown(l: &Listing, path: &str) -> (r: bool)
    ensures
        r == shows(l@, path@),
{
    if l.recursive {
        return true;
    }
    let root = find_scope_root(l.prefixes, path);
    is_direct_child(path, root.as_str())
}

/// The rows with the first `n` of the keys that only the remote has.
pub open spec fn remote_upto(l: ListingView, rows: Seq<RowView>, ks: Seq<Seq<char>>, n: nat) -> Seq<
    RowView,
>
    decreases n,
{
    if n == 0 || n > ks.len() {
        rows
    } else {
        let prev = remote_upto(l, rows, ks, (n - 1) as nat);
        let key = ks[n - 1];
        if has_row(prev, key) || !shows(l, scope::bare(key)) {
            prev
        } else {
            prev.push(remote_row(l, key, *l.remote.added[key]))
        }
    }
}

/// The rows with all that only the remote has and that is not listed yet.
pub open spec fn with_remote(l: ListingView, rows: Seq<RowView>) -> Seq<RowView> {
    let ks = collections::listing(l.remote.added.dom());
    remote_upto(l, rows, ks, ks.len())
}

fn row_of_remote(l: &Listing, key: String, e: &TreeEntry) -> (r: Row)
    ensures
        r@ == remote_row(l@, key@, *e),
{
    match e {
        TreeEntry::Blob { hash, size, mtime, .. } => Row {
            status: ' ',
            remote_status: 'A',
            z: ' ',
            hash_str: format_hash(hash, l.full_hash),
            size: Some(*size),
            blob_count: 1,
            mtime: *mtime,
            path: key,
        },
        TreeEntry::Tree { size, mtime, blob_count, node, .. } => Row {
            status: ' ',
            remote_status: 'A',
            z: ' ',
            hash_str: format_hash(&node.hash, l.full_hash),
            size: Some(*size),
            blob_count: *blob_count,
            mtime: *mtime,
            path: key,
        },
        TreeEntry::Symlink { mtime, .. } => Row {
            status: ' ',
            remote_status: 'A',
            z: ' ',
            hash_str: dash(),
            size: None,
            blob_count: 1,
            mtime: *mtime,
            path: key,
        },
    }
}

/// Adds the rows for what only the remote has.
#[verifier::loop_isolation(false)]
pub fn add_remote(l: &Listing, rows: &mut Vec<Row>)
    requires
        l.wf(),
    ensures
        rows::row_views(final(rows)@) == with_remote(l@, rows::row_views(old(rows)@)),
{
    let ghost rows0 = rows::row_views(rows@);
    let ks = l.remote.added.sorted_keys();
    let ghost all = text::views(ks@);
    let mut i: usize = 0;
    while i < ks.len()
        invariant
            i <= ks@.len(),
            remote_upto(l@, rows0, all, i as nat) == rows::row_views(rows@),
        decreases ks.len() - i,
    {
        assert(all[i as int] == ks@[i as int]@);
        assert(all.contains(ks@[i as int]@));
        let ghost here = rows::row_views(rows@);
        assert(here.take(rows@.len() as int) =~= here);
        let key = ks[i].as_str();
        if !lists(rows, rows.len(), key) && is_shown(l, trim_slash_end(key).as_str()) {
            if let Some(e) = l.remote.added.get(key) {
                push_row(rows, row_of_remote(l, ks[i].clone(), e));
            }
        }
        i = i + 1;
    }
    assert(all.len() == ks@.len());
}

// ---------------------------------------------------------------------------
// Ignored and reserved
// ---------------------------------------------------------------------------

/// Whether the root's tree has an entry at a path.
pub open spec fn in_root(l: ListingView, path: Seq<char>) -> Result<bool, ObjectHash> {
    match rows::reached(l.root, text::components(path)) {
        Err(h) => Err(h),
        Ok(e) => Ok(e is Some),
    }
}

fn is_in_root(l: &Listing, path: &str) -> (r: Result<bool, ObjectHash>)
    ensures
        r == in_root(l@, path@),
{
    let comps = path_components(path);
    match navigate_working(l.root, &comps) {
        Err(h) => Err(h),
        Ok(e) => Ok(e.is_some()),
    }
}

/// A row of an ignored path: `i` and deleted where the root has it, for the next
/// push removes it there; `I` and blank where it has not. Nothing else is shown.
pub open spec fn ignored_row(l: ListingView, row: RowView, in_root: bool) -> RowView {
    RowView {
        z: if in_root {
            'i'
        } else {
            'I'
        },
        status: if in_root {
            'D'
        } else {
            ' '
        },
        hash_str: rows::hash_dash(l.full_hash),
        size: None,
        blob_count: 0,
        mtime: None,
        ..row
    }
}

/// The rows, the first `n` of them marked where they are ignored.
pub open spec fn marked_upto(l: ListingView, rows: Seq<RowView>, n: nat) -> Result<
    Seq<RowView>,
    ObjectHash,
>
    decreases n,
{
    if n == 0 || n > rows.len() {
        Ok(rows)
    } else {
        match marked_upto(l, rows, (n - 1) as nat) {
            Err(h) => Err(h),
            Ok(prev) => {
                let path = scope::bare(rows[n - 1].path);
                if l.ignored.contains(path) {
                    match in_root(l, path) {
                        Err(h) => Err(h),
                        Ok(b) => Ok(prev.update(n - 1, ignored_row(l, rows[n - 1], b))),
                    }
                } else {
                    Ok(prev)
                }
            },
        }
    }
}

proof fn lemma_marked(l: ListingView, rows: Seq<RowView>, n: nat)
    requires
        n <= rows.len(),
    ensures
        marked_upto(l, rows, n) is Ok ==> marked_upto(l, rows, n)->Ok_0.len() == rows.len()
            && forall|k: int|
            n <= k < rows.len() ==> #[trigger] marked_upto(l, rows, n)->Ok_0[k] == rows[k],
        marked_upto(l, rows, n) is Err ==> marked_upto(l, rows, rows.len()) == marked_upto(
            l,
            rows,
            n,
        ),
    decreases n,
{
    if n > 0 {
        lemma_marked(l, rows, (n - 1) as nat);
        if marked_upto(l, rows, n) is Err {
            lemma_marked_halts(l, rows, n, rows.len());
        }
    }
}

proof fn lemma_marked_halts(l: ListingView, rows: Seq<RowView>, a: nat, b: nat)
    requires
        a <= b <= rows.len(),
        marked_upto(l, rows, a) is Err,
    ensures
        marked_upto(l, rows, b) == marked_upto(l, rows, a),
    decreases b - a,
{
    if a < b {
        lemma_marked_halts(l, rows, a, (b - 1) as nat);
    }
}

/// Marks the rows of ignored paths.
#[verifier::loop_isolation(false)]
fn mark_ignored(l: &Listing, rows: &mut Vec<Row>) -> (r: Option<ObjectHash>)
    requires
        l.wf(),
    ensures
        match r {
            None => marked_upto(l@, rows::row_views(old(rows)@), old(rows)@.len()) == Ok::<
                Seq<RowView>,
                ObjectHash,
            >(rows::row_views(final(rows)@)),
            Some(h) => marked_upto(l@, rows::row_views(old(rows)@), old(rows)@.len()) == Err::<
                Seq<RowView>,
                ObjectHash,
            >(h),
        },
{
    let ghost rows0 = rows::row_views(rows@);
    let n: usize = rows.len();
    let mut i: usize = 0;
    while i < n
        invariant
            i <= n,
            n == rows@.len(),
            marked_upto(l@, rows0, i as nat) == Ok::<Seq<RowView>, ObjectHash>(
                rows::row_views(rows@),
            ),
        decreases n - i,
    {
        proof {
            lemma_marked(l@, rows0, i as nat);
            assert(rows::row_views(rows@)[i as int] == rows0[i as int]);
        }
        let path = trim_slash_end(rows[i].path.as_str());
        if l.ignored.contains(path.as_str()) {
            let inside = match is_in_root(l, path.as_str()) {
                Err(h) => {
                    proof {
                        assert(marked_upto(l@, rows0, (i + 1) as nat) is Err);
                        lemma_marked(l@, rows0, (i + 1) as nat);
                    }
                    return Some(h);
                },
                Ok(b) => b,
            };
            let ghost here = rows::row_views(rows@);
            let row = Row {
                status: if inside {
                    'D'
                } else {
                    ' '
                },
                remote_status: rows[i].remote_status,
                z: if inside {
                    'i'
                } else {
                    'I'
                },
                hash_str: repeat(
                    '-',
                    if l.full_hash {
                        64
                    } else {
                        8
                    },
                ),
                size: None,
                blob_count: 0,
                mtime: None,
                path: rows[i].path.clone(),
            };
            let ghost v = row@;
            rows[i] = row;
            assert(rows::row_views(rows@) =~= here.update(i as int, v));
        }
        i = i + 1;
    }
    None
}

/// `out` with the first `n` ignored paths of the working tree that are in scope,
/// shown, and not among the rows `base`.
pub open spec fn ignored_upto(l: ListingView, base: Seq<RowView>, out: Seq<RowView>, n: nat) -> Result<
    Seq<RowView>,
    ObjectHash,
>
    decreases n,
{
    if n == 0 || n > l.side.ignored@.len() {
        Ok(out)
    } else {
        match ignored_upto(l, base, out, (n - 1) as nat) {
            Err(h) => Err(h),
            Ok(prev) => {
                let seen = l.side.ignored@[n - 1];
                let path = seen.path@;
                let key = if seen.dir {
                    path.push('/')
                } else {
                    path
                };
                if has_row(base, key) || !scope::within(scope::scopes_of(l.scopes), path)
                    || !shows(l, path) {
                    Ok(prev)
                } else {
                    match in_root(l, path) {
                        Err(h) => Err(h),
                        Ok(b) => Ok(
                            prev.push(ignored_row(l, rows::plain(' ', seq![], None, 0, key), b)),
                        ),
                    }
                }
            },
        }
    }
}

proof fn lemma_ignored_halts(l: ListingView, base: Seq<RowView>, out: Seq<RowView>, a: nat, b: nat)
    requires
        a <= b <= l.side.ignored@.len(),
        ignored_upto(l, base, out, a) is Err,
    ensures
        ignored_upto(l, base, out, b) == ignored_upto(l, base, out, a),
    decreases b - a,
{
    if a < b {
        lemma_ignored_halts(l, base, out, a, (b - 1) as nat);
    }
}

/// `out` with the first `n` reserved files that nothing is known of.
pub open spec fn reserved_upto(l: ListingView, base: Seq<RowView>, out: Seq<RowView>, n: nat) -> Seq<
    RowView,
>
    decreases n,
{
    if n == 0 || n > l.side.unknown_reserved@.len() {
        out
    } else {
        let prev = reserved_upto(l, base, out, (n - 1) as nat);
        let path = l.side.unknown_reserved@[n - 1]@;
        if has_row(base, path) || !scope::within(scope::scopes_of(l.scopes), path) || !shows(
            l,
            path,
        ) {
            prev
        } else {
            prev.push(
                RowView { z: '?', ..rows::plain(' ', rows::hash_dash(l.full_hash), None, 0, path) },
            )
        }
    }
}

/// The rows with those that are ignored marked, and with the ignored and reserved
/// paths of the working tree that are not listed yet.
pub open spec fn with_ignored(l: ListingView, rows: Seq<RowView>) -> Result<Seq<RowView>, ObjectHash> {
    match marked_upto(l, rows, rows.len()) {
        Err(h) => Err(h),
        Ok(marked) => match ignored_upto(l, rows, marked, l.side.ignored@.len()) {
            Err(h) => Err(h),
            Ok(out) => Ok(reserved_upto(l, rows, out, l.side.unknown_reserved@.len())),
        },
    }
}

proof fn lemma_marked_paths(l: ListingView, rows: Seq<RowView>, n: nat)
    requires
        n <= rows.len(),
        marked_upto(l, rows, n) is Ok,
    ensures
        marked_upto(l, rows, n)->Ok_0.len() == rows.len(),
        forall|k: int|
            0 <= k < rows.len() ==> (#[trigger] marked_upto(l, rows, n)->Ok_0[k]).path
                == rows[k].path,
    decreases n,
{
    if n > 0 {
        lemma_marked_paths(l, rows, (n - 1) as nat);
    }
}

proof fn lemma_has_row_paths(a: Seq<RowView>, b: Seq<RowView>, path: Seq<char>)
    requires
        a.len() == b.len(),
        forall|k: int| 0 <= k < a.len() ==> (#[trigger] a[k]).path == b[k].path,
    ensures
        has_row(a, path) == has_row(b, path),
{
    if has_row(a, path) {
        let i = choose|i: int| 0 <= i < a.len() && (#[trigger] a[i]).path == path;
        assert(b[i].path == path);
    }
    if has_row(b, path) {
        let i = choose|i: int| 0 <= i < b.len() && (#[trigger] b[i]).path == path;
        assert(a[i].path == path);
    }
}

/// Marks the rows that are ignored, and adds those of ignored and reserved paths.
/// Returns the object that has to be read first, if any.
#[verifier::loop_isolation(false)]
#[verifier::rlimit(40)]
pub fn add_ignored(l: &Listing, rows: &mut Vec<Row>) -> (r: Option<ObjectHash>)
    requires
        l.wf(),
    ensures
        match r {
            None => with_ignored(l@, rows::row_views(old(rows)@)) == Ok::<Seq<RowView>, ObjectHash>(
                rows::row_views(final(rows)@),
            ),
            Some(h) => with_ignored(l@, rows::row_views(old(rows)@)) == Err::<
                Seq<RowView>,
                ObjectHash,
            >(h),
        },
{
    let ghost base = rows::row_views(rows@);
    let n: usize = rows.len();
    if let Some(h) = mark_ignored(l, rows) {
        return Some(h);
    }
    let ghost marked = rows::row_views(rows@);
    proof {
        lemma_marked_paths(l@, base, base.len());
    }
    let scope = ScopeFilter::new(l.prefixes);
    let mut i: usize = 0;
    while i < l.side.ignored.len()
        invariant
            i <= l.side.ignored@.len(),
            n == base.len(),
            n <= rows@.len(),
            rows::row_views(rows@).take(n as int) == marked,
            ignored_upto(l@, base, marked, i as nat) == Ok::<Seq<RowView>, ObjectHash>(
                rows::row_views(rows@),
            ),
        decreases l.side.ignored.len() - i,
    {
        let seen = &l.side.ignored[i];
        let mut key: String = seen.path.clone();
        if seen.dir {
            key.push('/');
        }
        proof {
            lemma_has_row_paths(base, marked, key@);
        }
        if !lists(rows, n, key.as_str()) && scope.in_scope(seen.path.as_str()) && is_shown(
            l,
            seen.path.as_str(),
        ) {
            let inside = match is_in_root(l, seen.path.as_str()) {
                Err(h) => {
                    proof {
                        lemma_ignored_halts(
                            l@,
                            base,
                            marked,
                            (i + 1) as nat,
                            l.side.ignored@.len(),
                        );
                    }
                    return Some(h);
                },
                Ok(b) => b,
            };
            let row = Row {
                status: if inside {
                    'D'
                } else {
                    ' '
                },
                remote_status: ' ',
                z: if inside {
                    'i'
                } else {
                    'I'
                },
                hash_str: repeat(
                    '-',
                    if l.full_hash {
                        64
                    } else {
                        8
                    },
                ),
                size: None,
                blob_count: 0,
                mtime: None,
                path: key,
            };
            let ghost here = rows::row_views(rows@);
            push_row(rows, row);
            assert(rows::row_views(rows@).len() == rows@.len());
            assert(rows::row_views(rows@).take(n as int) =~= here.take(n as int));
        }
        i = i + 1;
    }
    let ghost out = rows::row_views(rows@);
    let mut j: usize = 0;
    while j < l.side.unknown_reserved.len()
        invariant
            j <= l.side.unknown_reserved@.len(),
            n == base.len(),
            n <= rows@.len(),
            rows::row_views(rows@).take(n as int) == marked,
            reserved_upto(l@, base, out, j as nat) == rows::row_views(rows@),
        decreases l.side.unknown_reserved.len() - j,
    {
        let path = l.side.unknown_reserved[j].as_str();
        proof {
            lemma_has_row_paths(base, marked, path@);
        }
        if !lists(rows, n, path) && scope.in_scope(path) && is_shown(l, path) {
            let mut row = plain_row(
                ' ',
                repeat(
                    '-',
                    if l.full_hash {
                        64
                    } else {
                        8
                    },
                ),
                None,
                0,
                path.to_owned(),
            );
            row.z = '?';
            let ghost here = rows::row_views(rows@);
            push_row(rows, row);
            assert(rows::row_views(rows@).len() == rows@.len());
            assert(rows::row_views(rows@).take(n as int) =~= here.take(n as int));
        }
        j = j + 1;
    }
    None
}

} // verus!
