//! What is said of the rows of a listing once they are all there.

use crate::collections::{self, text_le, PathSet};
use crate::commands::ls::rows::{
    self, format_hash, navigate_working, Listing, ListingView, LsSource, Row, RowView, StubSeen,
    STATUS_UNKNOWN,
};
use crate::commands::ls::scope::{self, trim_slash_end};
use crate::object::{ObjectHash, TreeEntry};
use crate::text::{self, ends_with, path_components, starts_with, str_eq};
use vstd::prelude::*;

verus! {

// ---------------------------------------------------------------------------
// Order
// ---------------------------------------------------------------------------

/// `s` with `x` behind the last row whose path does not come after it.
pub open spec fn place_row(s: Seq<RowView>, x: RowView) -> Seq<RowView>
    decreases s.len(),
{
    if s.len() == 0 || collections::lex_le(s.last().path, x.path) {
        s.push(x)
    } else {
        place_row(s.drop_last(), x).push(s.last())
    }
}

/// The rows in the order of their paths; rows with the same path stay as they were.
pub open spec fn by_path(s: Seq<RowView>) -> Seq<RowView>
    decreases s.len(),
{
    if s.len() == 0 {
        s
    } else {
        place_row(by_path(s.drop_last()), s.last())
    }
}

/// Whether no path comes before an earlier one.
pub open spec fn paths_in_order(s: Seq<RowView>) -> bool {
    forall|i: int, j: int|
        0 <= i <= j < s.len() ==> collections::lex_le(
            (#[trigger] s[i]).path,
            (#[trigger] s[j]).path,
        )
}

proof fn lemma_place_row(s: Seq<RowView>, x: RowView)
    requires
        paths_in_order(s),
    ensures
        paths_in_order(place_row(s, x)),
        place_row(s, x).len() == s.len() + 1,
        place_row(s, x).to_multiset() == s.to_multiset().insert(x),
        forall|i: int|
            0 <= i <= s.len() ==> (#[trigger] place_row(s, x)[i]) == x || s.contains(
                place_row(s, x)[i],
            ),
    decreases s.len(),
{
    broadcast use vstd::seq_lib::group_to_multiset_ensures;

    let r = place_row(s, x);
    if s.len() == 0 || collections::lex_le(s.last().path, x.path) {
        assert forall|i: int, j: int| 0 <= i <= j < r.len() implies collections::lex_le(
            (#[trigger] r[i]).path,
            (#[trigger] r[j]).path,
        ) by {
            if j == s.len() {
                if i < s.len() {
                    assert(collections::lex_le(s[i].path, s[s.len() - 1].path));
                    collections::lemma_lex_transitive(s[i].path, s.last().path, x.path);
                } else {
                    collections::lemma_lex_total(x.path, x.path);
                }
            } else {
                assert(r[i] == s[i] && r[j] == s[j]);
            }
        }
        assert forall|i: int| 0 <= i <= s.len() implies (#[trigger] r[i]) == x || s.contains(
            r[i],
        ) by {
            if i < s.len() {
                assert(r[i] == s[i]);
            }
        }
    } else {
        let init = s.drop_last();
        assert(paths_in_order(init)) by {
            assert forall|i: int, j: int| 0 <= i <= j < init.len() implies collections::lex_le(
                (#[trigger] init[i]).path,
                (#[trigger] init[j]).path,
            ) by {
                assert(init[i] == s[i] && init[j] == s[j]);
            }
        }
        lemma_place_row(init, x);
        let p = place_row(init, x);
        assert(r == p.push(s.last()));
        assert(s =~= init.push(s.last()));
        assert(r.to_multiset() =~= s.to_multiset().insert(x));
        collections::lemma_lex_total(s.last().path, x.path);
        assert forall|i: int, j: int| 0 <= i <= j < r.len() implies collections::lex_le(
            (#[trigger] r[i]).path,
            (#[trigger] r[j]).path,
        ) by {
            if j < p.len() {
                assert(r[i] == p[i] && r[j] == p[j]);
            } else if i < p.len() {
                assert(r[i] == p[i]);
                if p[i] != x {
                    let k = choose|k: int| 0 <= k < init.len() && init[k] == p[i];
                    assert(s[k] == p[i]);
                    assert(collections::lex_le(s[k].path, s[s.len() - 1].path));
                }
            } else {
                collections::lemma_lex_total(s.last().path, s.last().path);
            }
        }
        assert forall|i: int| 0 <= i <= s.len() implies (#[trigger] r[i]) == x || s.contains(
            r[i],
        ) by {
            if i < p.len() {
                assert(r[i] == p[i]);
                if p[i] != x {
                    let k = choose|k: int| 0 <= k < init.len() && init[k] == p[i];
                    assert(s[k] == p[i]);
                }
            } else {
                assert(r[i] == s[s.len() - 1]);
            }
        }
    }
}

/// The rows of a listing come out ordered by path, none lost and none added.
pub proof fn law_rows_in_order(s: Seq<RowView>)
    ensures
        paths_in_order(by_path(s)),
        by_path(s).to_multiset() == s.to_multiset(),
    decreases s.len(),
{
    broadcast use vstd::seq_lib::group_to_multiset_ensures;

    if s.len() > 0 {
        law_rows_in_order(s.drop_last());
        lemma_place_row(by_path(s.drop_last()), s.last());
        assert(s =~= s.drop_last().push(s.last()));
    }
}

proof fn lemma_place_row_at(s: Seq<RowView>, x: RowView, at: int)
    requires
        0 <= at <= s.len(),
        at > 0 ==> collections::lex_le(s[at - 1].path, x.path),
        forall|k: int| at <= k < s.len() ==> !collections::lex_le((#[trigger] s[k]).path, x.path),
    ensures
        place_row(s, x) == s.insert(at, x),
    decreases s.len(),
{
    if at == s.len() {
        assert(s.insert(at, x) =~= s.push(x));
    } else {
        assert(s[s.len() - 1] == s.last());
        lemma_place_row_at(s.drop_last(), x, at);
        assert(s.insert(at, x) =~= s.drop_last().insert(at, x).push(s.last()));
    }
}

/// Moves the last row to its place among the others, which are in order.
fn settle_last(rows: &mut Vec<Row>, n: usize)
    requires
        n < old(rows)@.len(),
    ensures
        final(rows)@.len() == old(rows)@.len(),
        rows::row_views(final(rows)@) == place_row(
            rows::row_views(old(rows)@).take(n as int),
            rows::row_views(old(rows)@)[n as int],
        ) + rows::row_views(old(rows)@).skip(n + 1),
{
    let ghost all = rows::row_views(rows@);
    let ghost s = all.take(n as int);
    let ghost x = all[n as int];
    let mut at: usize = n;
    while at > 0 && !text_le(rows[at - 1].path.as_str(), rows[n].path.as_str())
        invariant
            at <= n < rows@.len(),
            *rows == *old(rows),
            all == rows::row_views(rows@),
            s == all.take(n as int),
            x == all[n as int],
            forall|k: int| at <= k < s.len() ==> !collections::lex_le((#[trigger] s[k]).path, x.path),
        decreases at,
    {
        assert(s[at - 1] == rows@[at - 1]@);
        assert(x == rows@[n as int]@);
        at = at - 1;
    }
    proof {
        if at > 0 {
            assert(s[at - 1] == rows@[at - 1]@);
            assert(x == rows@[n as int]@);
        }
        lemma_place_row_at(s, x, at as int);
    }
    let row = rows.remove(n);
    rows.insert(at, row);
    assert(rows::row_views(rows@) =~= s.insert(at as int, x) + all.skip(n + 1));
}

/// Puts the rows in the order of their paths.
pub fn sort_rows(rows: &mut Vec<Row>)
    ensures
        rows::row_views(final(rows)@) == by_path(rows::row_views(old(rows)@)),
{
    let ghost all = rows::row_views(rows@);
    let mut n: usize = 0;
    assert(by_path(all.take(0)) + all.skip(0) =~= all);
    while n < rows.len()
        invariant
            n <= rows@.len(),
            rows@.len() == all.len(),
            by_path(all.take(n as int)).len() == n,
            rows::row_views(rows@) == by_path(all.take(n as int)) + all.skip(n as int),
        decreases rows.len() - n,
    {
        let ghost here = rows::row_views(rows@);
        let ghost done = by_path(all.take(n as int));
        settle_last(rows, n);
        proof {
            law_rows_in_order(all.take(n as int));
            lemma_place_row(done, all[n as int]);
            assert(here.take(n as int) =~= done);
            assert(here[n as int] == all[n as int]);
            assert(here.skip(n + 1) =~= all.skip(n + 1));
            assert(all.take(n + 1).drop_last() =~= all.take(n as int));
            assert(by_path(all.take(n + 1)) == place_row(done, all[n as int]));
        }
        n = n + 1;
    }
    assert(all.take(all.len() as int) =~= all);
    assert(by_path(all) + all.skip(all.len() as int) =~= by_path(all));
}

// ---------------------------------------------------------------------------
// Stubs and conflicts
// ---------------------------------------------------------------------------

/// Whether a path is a directory's, as rows write it.
pub open spec fn dir_like(path: Seq<char>) -> bool {
    path.len() > 0 && path.last() == '/'
}

/// Whether a path is a directory's, as rows write it.
pub fn is_dir_like(path: &str) -> (r: bool)
    ensures
        r == dir_like(path@),
{
    proof {
        reveal_strlit("/");
        assert("/"@ =~= seq!['/']);
        if path@.len() > 0 {
            assert(path@.skip(path@.len() - 1) =~= seq![path@.last()]);
            assert(seq![path@.last()][0] == path@.last());
            assert(seq!['/'][0] == '/');
        }
    }
    ends_with(path, "/")
}

/// Whether a conflict stands at the path, or below it if it is a directory.
pub open spec fn conflicted(l: ListingView, path: Seq<char>) -> bool {
    let ps = text::views(l.side.conflict_paths@);
    ps.contains(path) || if path == seq!['.'] {
        ps.len() > 0
    } else {
        dir_like(path) && exists|i: int| 0 <= i < ps.len() && text::has_prefix(
            #[trigger] ps[i],
            path,
        )
    }
}

/// The path of a stub as a row writes it.
pub open spec fn stub_key(s: StubSeen) -> Seq<char> {
    if s.tree {
        s.path@.push('/')
    } else {
        s.path@
    }
}

/// Whether a stub stands for all of its path.
pub open spec fn whole(s: StubSeen) -> bool {
    !(s.tree && s.partial)
}

/// Whether a path is a stub, or lies inside a directory that is one.
pub open spec fn stubbed(l: ListingView, path: Seq<char>) -> bool {
    exists|i: int|
        0 <= i < l.side.stubs@.len() && whole(#[trigger] l.side.stubs@[i]) && (stub_key(
            l.side.stubs@[i],
        ) == path || dir_like(stub_key(l.side.stubs@[i])) && text::has_prefix(
            path,
            stub_key(l.side.stubs@[i]),
        ))
}

/// Whether a directory is partly a stub, or has stubs below it.
pub open spec fn partly_stubbed(l: ListingView, dir: Seq<char>) -> bool {
    exists|i: int|
        0 <= i < l.side.stubs@.len() && {
            let s = #[trigger] l.side.stubs@[i];
            s.tree && s.partial && s.path@ == dir || dir.len() > 0 && text::has_prefix(
                s.path@,
                dir.push('/'),
            )
        }
}

/// The mark of a row. A conflict comes before all, then what is ignored or
/// reserved, then stubs.
pub open spec fn mark_of(l: ListingView, row: RowView) -> char {
    if conflicted(l, row.path) {
        '!'
    } else if row.z == 'I' || row.z == 'i' || row.z == '?' {
        row.z
    } else if stubbed(l, row.path) {
        'S'
    } else if row.path == seq!['.'] {
        if l.side.stubs@.len() > 0 {
            's'
        } else {
            row.z
        }
    } else if dir_like(row.path) && partly_stubbed(l, scope::bare(row.path)) {
        's'
    } else {
        row.z
    }
}

/// The rows with their marks.
pub open spec fn with_marks(l: ListingView, rows: Seq<RowView>) -> Seq<RowView> {
    Seq::new(rows.len(), |i: int| RowView { z: mark_of(l, rows[i]), ..rows[i] })
}

/// A conflict is never covered by another mark, and nothing else is marked as one.
pub proof fn law_conflict_first(l: ListingView, rows: Seq<RowView>, i: int)
    requires
        0 <= i < rows.len(),
        rows[i].z != '!',
    ensures
        with_marks(l, rows)[i].z == '!' <==> conflicted(l, rows[i].path),
{
}

fn is_root(path: &str) -> (r: bool)
    ensures
        r == (path@ == seq!['.']),
{
    proof {
        reveal_strlit(".");
        assert("."@ =~= seq!['.']);
    }
    str_eq(path, ".")
}

fn has_conflict(l: &Listing, path: &str) -> (r: bool)
    ensures
        r == conflicted(l@, path@),
{
    let v = &l.side.conflict_paths;
    let ghost ps = text::views(v@);
    let root = is_root(path);
    let dir = is_dir_like(path);
    if root && v.len() > 0 {
        assert(ps.len() > 0);
        return true;
    }
    let mut i: usize = 0;
    while i < v.len()
        invariant
            i <= v@.len(),
            ps == text::views(v@),
            v == l.side.conflict_paths,
            root == (path@ == seq!['.']),
            root ==> v@.len() == 0,
            dir == dir_like(path@),
            forall|k: int|
                0 <= k < i ==> (#[trigger] ps[k]) != path@ && !(dir && text::has_prefix(
                    ps[k],
                    path@,
                )),
        decreases v.len() - i,
    {
        assert(ps[i as int] == v@[i as int]@);
        if str_eq(v[i].as_str(), path) {
            assert(ps.contains(path@));
            return true;
        }
        if dir && starts_with(v[i].as_str(), path) {
            return true;
        }
        i = i + 1;
    }
    false
}

fn is_stubbed(l: &Listing, path: &str) -> (r: bool)
    ensures
        r == stubbed(l@, path@),
{
    let v = &l.side.stubs;
    let mut i: usize = 0;
    while i < v.len()
        invariant
            i <= v@.len(),
            v == l.side.stubs,
            forall|k: int|
                0 <= k < i ==> !(whole(#[trigger] v@[k]) && (stub_key(v@[k]) == path@ || dir_like(
                    stub_key(v@[k]),
                ) && text::has_prefix(path@, stub_key(v@[k])))),
        decreases v.len() - i,
    {
        let s = &v[i];
        if !(s.tree && s.partial) {
            let mut key = s.path.clone();
            if s.tree {
                key.push('/');
            }
            if str_eq(key.as_str(), path) || is_dir_like(key.as_str()) && starts_with(
                path,
                key.as_str(),
            ) {
                assert(whole(l@.side.stubs@[i as int]));
                return true;
            }
        }
        i = i + 1;
    }
    false
}

fn is_partly_stubbed(l: &Listing, dir: &str) -> (r: bool)
    ensures
        r == partly_stubbed(l@, dir@),
{
    let v = &l.side.stubs;
    let mut inner: String = dir.to_owned();
    inner.push('/');
    let mut i: usize = 0;
    while i < v.len()
        invariant
            i <= v@.len(),
            v == l.side.stubs,
            inner@ == dir@.push('/'),
            forall|k: int|
                0 <= k < i ==> {
                    let s = #[trigger] v@[k];
                    !(s.tree && s.partial && s.path@ == dir@ || dir@.len() > 0 && text::has_prefix(
                        s.path@,
                        dir@.push('/'),
                    ))
                },
        decreases v.len() - i,
    {
        let s = &v[i];
        if s.tree && s.partial && str_eq(s.path.as_str(), dir) || !dir.is_empty() && starts_with(
            s.path.as_str(),
            inner.as_str(),
        ) {
            assert(l@.side.stubs@[i as int] == v@[i as int]);
            return true;
        }
        i = i + 1;
    }
    false
}

fn mark_of_row(l: &Listing, row: &Row) -> (r: char)
    ensures
        r == mark_of(l@, row@),
{
    let path = row.path.as_str();
    if has_conflict(l, path) {
        '!'
    } else if row.z == 'I' || row.z == 'i' || row.z == '?' {
        row.z
    } else if is_stubbed(l, path) {
        'S'
    } else if is_root(path) {
        if l.side.stubs.len() > 0 {
            's'
        } else {
            row.z
        }
    } else if is_dir_like(path) && is_partly_stubbed(l, trim_slash_end(path).as_str()) {
        's'
    } else {
        row.z
    }
}

/// Marks the rows.
pub fn mark_rows(l: &Listing, rows: &mut Vec<Row>)
    ensures
        rows::row_views(final(rows)@) == with_marks(l@, rows::row_views(old(rows)@)),
{
    let ghost all = rows::row_views(rows@);
    let n: usize = rows.len();
    let mut i: usize = 0;
    while i < n
        invariant
            i <= n,
            n == rows@.len(),
            n == all.len(),
            forall|k: int| 0 <= k < i ==> #[trigger] rows@[k]@ == with_marks(l@, all)[k],
            forall|k: int| i <= k < n ==> #[trigger] rows@[k]@ == all[k],
        decreases n - i,
    {
        let z: char = mark_of_row(l, &rows[i]);
        rows[i].z = z;
        i = i + 1;
    }
    assert(rows::row_views(rows@) =~= with_marks(l@, all));
}

// ---------------------------------------------------------------------------
// Source of the columns
// ---------------------------------------------------------------------------

/// A row with the columns of an entry.
pub open spec fn from_entry(row: RowView, e: TreeEntry, full: bool) -> RowView {
    match e {
        TreeEntry::Blob { hash, size, mtime, .. } => RowView {
            hash_str: rows::hash_text(hash, full),
            size: Some(size),
            blob_count: 1,
            mtime,
            ..row
        },
        TreeEntry::Tree { size, mtime, blob_count, node, .. } => RowView {
            hash_str: rows::hash_text(node.hash, full),
            size: Some(size),
            blob_count,
            mtime,
            ..row
        },
        TreeEntry::Symlink { mtime, .. } => RowView {
            hash_str: seq!['-'],
            size: None,
            blob_count: 1,
            mtime,
            ..row
        },
    }
}

/// Replaces the hash, size, count and time of a row by those of an entry.
pub fn apply_entry_to_row(row: &mut Row, entry: &TreeEntry, full_hash: bool)
    ensures
        final(row)@ == from_entry(old(row)@, *entry, full_hash),
{
    match entry {
        TreeEntry::Blob { hash, size, mtime, .. } => {
            row.hash_str = format_hash(hash, full_hash);
            row.size = Some(*size);
            row.blob_count = 1;
            row.mtime = *mtime;
        },
        TreeEntry::Tree { size, mtime, blob_count, node, .. } => {
            row.hash_str = format_hash(&node.hash, full_hash);
            row.size = Some(*size);
            row.blob_count = *blob_count;
            row.mtime = *mtime;
        },
        TreeEntry::Symlink { mtime, .. } => {
            proof {
                reveal_strlit("-");
                assert("-"@ =~= seq!['-']);
            }
            row.hash_str = "-".to_owned();
            row.size = None;
            row.blob_count = 1;
            row.mtime = *mtime;
        },
    }
}

/// A row with the columns of the source that was asked for.
pub open spec fn from_source(l: ListingView, row: RowView) -> Result<RowView, ObjectHash> {
    let path = scope::bare(row.path);
    match l.source {
        LsSource::Clone => Ok(row),
        LsSource::Remote => if l.remote.entries.dom().contains(path) {
            Ok(from_entry(row, *l.remote.entries[path], l.full_hash))
        } else if l.remote.entries.dom().contains(row.path) {
            Ok(from_entry(row, *l.remote.entries[row.path], l.full_hash))
        } else {
            Ok(row)
        },
        LsSource::Working => if path.len() == 0 || path == seq!['.'] {
            Ok(
                RowView {
                    hash_str: rows::hash_text(l.working.hash, l.full_hash),
                    size: Some(l.working_meta.size),
                    blob_count: l.working_meta.blob_count,
                    mtime: l.working_meta.mtime,
                    ..row
                },
            )
        } else {
            match rows::reached(l.working, text::components(path)) {
                Err(h) => Err(h),
                Ok(Some(e)) => Ok(from_entry(row, e, l.full_hash)),
                Ok(None) => Ok(row),
            }
        },
    }
}

/// The rows, the first `n` of them with the columns of the source.
pub open spec fn sourced_upto(l: ListingView, rows: Seq<RowView>, n: nat) -> Result<
    Seq<RowView>,
    ObjectHash,
>
    decreases n,
{
    if n == 0 || n > rows.len() {
        Ok(seq![])
    } else {
        match sourced_upto(l, rows, (n - 1) as nat) {
            Err(h) => Err(h),
            Ok(prev) => match from_source(l, rows[n - 1]) {
                Err(h) => Err(h),
                Ok(row) => Ok(prev.push(row)),
            },
        }
    }
}

/// The rows with the columns of the source.
pub open spec fn with_source(l: ListingView, rows: Seq<RowView>) -> Result<Seq<RowView>, ObjectHash> {
    sourced_upto(l, rows, rows.len())
}

proof fn lemma_sourced_halts(l: ListingView, rows: Seq<RowView>, a: nat, b: nat)
    requires
        a <= b <= rows.len(),
        sourced_upto(l, rows, a) is Err,
    ensures
        sourced_upto(l, rows, b) == sourced_upto(l, rows, a),
    decreases b - a,
{
    if a < b {
        lemma_sourced_halts(l, rows, a, (b - 1) as nat);
    }
}

fn source_row(l: &Listing, row: &mut Row) -> (r: Option<ObjectHash>)
    requires
        l.wf(),
    ensures
        match r {
            None => from_source(l@, old(row)@) == Ok::<RowView, ObjectHash>(final(row)@),
            Some(h) => from_source(l@, old(row)@) == Err::<RowView, ObjectHash>(h),
        },
{
    let path = trim_slash_end(row.path.as_str());
    match l.source {
        LsSource::Clone => None,
        LsSource::Remote => {
            let found = match l.remote.entries.get(path.as_str()) {
                Some(e) => Some(*e),
                None => match l.remote.entries.get(row.path.as_str()) {
                    Some(e) => Some(*e),
                    None => None,
                },
            };
            if let Some(e) = found {
                apply_entry_to_row(row, e, l.full_hash);
            }
            None
        },
        LsSource::Working => {
            if path.as_str().is_empty() || is_root(path.as_str()) {
                row.hash_str = format_hash(&l.working.hash, l.full_hash);
                row.size = Some(l.working_meta.size);
                row.blob_count = l.working_meta.blob_count;
                row.mtime = l.working_meta.mtime;
                return None;
            }
            let comps = path_components(path.as_str());
            match navigate_working(l.working, &comps) {
                Err(h) => Some(h),
                Ok(Some(e)) => {
                    apply_entry_to_row(row, e, l.full_hash);
                    None
                },
                Ok(None) => None,
            }
        },
    }
}

/// Replaces the columns of the rows by those of the source that was asked for.
/// Returns the object that has to be read first, if any.
#[verifier::loop_isolation(false)]
pub fn source_rows(l: &Listing, rows: &mut Vec<Row>) -> (r: Option<ObjectHash>)
    requires
        l.wf(),
    ensures
        match r {
            None => with_source(l@, rows::row_views(old(rows)@)) == Ok::<Seq<RowView>, ObjectHash>(
                rows::row_views(final(rows)@),
            ),
            Some(h) => with_source(l@, rows::row_views(old(rows)@)) == Err::<
                Seq<RowView>,
                ObjectHash,
            >(h),
        },
{
    let ghost all = rows::row_views(rows@);
    let n: usize = rows.len();
    let mut i: usize = 0;
    assert(rows::row_views(rows@).take(0) =~= seq![]);
    while i < n
        invariant
            i <= n,
            n == rows@.len(),
            n == all.len(),
            sourced_upto(l@, all, i as nat) == Ok::<Seq<RowView>, ObjectHash>(
                rows::row_views(rows@).take(i as int),
            ),
            forall|k: int| i <= k < n ==> #[trigger] rows@[k]@ == all[k],
        decreases n - i,
    {
        let ghost here = rows::row_views(rows@);
        let halted = source_row(l, &mut rows[i]);
        if halted.is_some() {
            proof {
                lemma_sourced_halts(l@, all, (i + 1) as nat, n as nat);
            }
            return halted;
        }
        assert(rows::row_views(rows@).take(i + 1) =~= here.take(i as int).push(
            rows@[i as int]@,
        ));
        i = i + 1;
    }
    assert(rows::row_views(rows@).take(n as int) =~= rows::row_views(rows@));
    None
}

// ---------------------------------------------------------------------------
// Unknown subtrees
// ---------------------------------------------------------------------------

/// Whether a row stands for a directory, and no later one stands for the same.
pub open spec fn stands_for_dir(rows: Seq<RowView>, i: int) -> bool {
    (dir_like(rows[i].path) || rows[i].path == seq!['.']) && forall|k: int|
        i < k < rows.len() && (dir_like((#[trigger] rows[k]).path) || rows[k].path == seq!['.'])
            ==> scope::bare(rows[k].path) != scope::bare(rows[i].path)
}

/// Whether directory `dir` lies above `path`.
pub open spec fn above(dir: Seq<char>, path: Seq<char>) -> bool {
    path != seq!['.'] && (dir == seq!['.'] || text::has_prefix(path, dir.push('/')))
}

/// The status of a row, given the subtrees of which nothing can be said: such a
/// subtree's own row is unknown, and so is that of a directory above it that would
/// otherwise be in sync.
pub open spec fn status_given(rows: Seq<RowView>, i: int, unknown: Set<Seq<char>>) -> char {
    let dir = scope::bare(rows[i].path);
    if !stands_for_dir(rows, i) {
        rows[i].status
    } else if unknown.contains(dir) {
        STATUS_UNKNOWN
    } else if rows[i].status == ' ' && exists|up: Seq<char>| #[trigger]
        unknown.contains(up) && above(dir, up) {
        STATUS_UNKNOWN
    } else {
        rows[i].status
    }
}

/// The rows with what is unknown.
pub open spec fn with_unknown(rows: Seq<RowView>, unknown: Set<Seq<char>>) -> Seq<RowView> {
    Seq::new(
        rows.len(),
        |i: int| RowView { status: status_given(rows, i, unknown), ..rows[i] },
    )
}

/// No directory with an unknown subtree in it is reported as in sync.
pub proof fn law_unknown_is_not_in_sync(
    rows: Seq<RowView>,
    i: int,
    unknown: Set<Seq<char>>,
    up: Seq<char>,
)
    requires
        0 <= i < rows.len(),
        stands_for_dir(rows, i),
        unknown.contains(up),
        scope::bare(rows[i].path) == up || above(scope::bare(rows[i].path), up),
    ensures
        with_unknown(rows, unknown)[i].status != ' ',
{
}

/// Where everything could be compared, the status of every row stays.
pub proof fn law_nothing_unknown(rows: Seq<RowView>)
    ensures
        with_unknown(rows, Set::empty()) == rows,
{
    assert(with_unknown(rows, Set::empty()) =~= rows);
}

fn is_last_of_dir(rows: &Vec<Row>, i: usize, dir: &str) -> (r: bool)
    requires
        i < rows@.len(),
        dir@ == scope::bare(rows@[i as int].path@),
    ensures
        r == stands_for_dir(rows::row_views(rows@), i as int),
{
    let ghost all = rows::row_views(rows@);
    assert(all[i as int] == rows@[i as int]@);
    if !is_dir_like(rows[i].path.as_str()) && !is_root(rows[i].path.as_str()) {
        return false;
    }
    let n: usize = rows.len();
    let mut k: usize = i + 1;
    while k < n
        invariant
            i < k <= n,
            n == rows@.len(),
            all == rows::row_views(rows@),
            dir@ == scope::bare(all[i as int].path),
            dir_like(all[i as int].path) || all[i as int].path == seq!['.'],
            forall|j: int|
                i < j < k && (dir_like((#[trigger] all[j]).path) || all[j].path == seq!['.'])
                    ==> scope::bare(all[j].path) != dir@,
        decreases n - k,
    {
        assert(all[k as int] == rows@[k as int]@);
        let p = rows[k].path.as_str();
        if (is_dir_like(p) || is_root(p)) && str_eq(trim_slash_end(p).as_str(), dir) {
            return false;
        }
        k = k + 1;
    }
    true
}

fn is_above(dir: &str, path: &str) -> (r: bool)
    ensures
        r == above(dir@, path@),
{
    if is_root(path) {
        return false;
    }
    let mut inner: String = dir.to_owned();
    inner.push('/');
    is_root(dir) || starts_with(path, inner.as_str())
}

fn any_below(dir: &str, ups: &Vec<String>) -> (r: bool)
    ensures
        r == exists|k: int| 0 <= k < ups@.len() && above(dir@, #[trigger] text::views(ups@)[k]),
{
    let ghost all = text::views(ups@);
    let mut i: usize = 0;
    while i < ups.len()
        invariant
            i <= ups@.len(),
            all == text::views(ups@),
            forall|k: int| 0 <= k < i ==> !above(dir@, #[trigger] all[k]),
        decreases ups.len() - i,
    {
        assert(all[i as int] == ups@[i as int]@);
        if is_above(dir, ups[i].as_str()) {
            return true;
        }
        i = i + 1;
    }
    false
}

/// Marks the rows of which nothing can be said.
pub fn mark_unknown(rows: &mut Vec<Row>, unknown: &PathSet)
    requires
        unknown.wf(),
    ensures
        rows::row_views(final(rows)@) == with_unknown(rows::row_views(old(rows)@), unknown@),
{
    let ups = unknown.sorted();
    let ghost us = text::views(ups@);
    let ghost all = rows::row_views(rows@);
    let n: usize = rows.len();
    let mut i: usize = 0;
    while i < n
        invariant
            i <= n,
            n == rows@.len(),
            n == all.len(),
            us == text::views(ups@),
            collections::is_listing(us, unknown@),
            forall|k: int| 0 <= k < i ==> #[trigger] rows@[k]@ == with_unknown(all, unknown@)[k],
            forall|k: int| i <= k < n ==> #[trigger] rows@[k]@ == all[k],
        decreases n - i,
    {
        let dir = trim_slash_end(rows[i].path.as_str());
        proof {
            let now = rows::row_views(rows@);
            assert forall|k: int| 0 <= k < n implies (#[trigger] now[k]).path == all[k].path by {
                assert(rows@[k]@ == now[k]);
            }
            assert(now[i as int] == all[i as int]);
            assert(stands_for_dir(now, i as int) == stands_for_dir(all, i as int)) by {
                assert forall|k: int| i < k < n implies (#[trigger] now[k]).path
                    == all[k].path by {}
                assert forall|k: int| i < k < n implies (#[trigger] all[k]).path
                    == now[k].path by {}
            }
            let ex = exists|up: Seq<char>| #[trigger] unknown@.contains(up) && above(dir@, up);
            let ey = exists|k: int| 0 <= k < us.len() && above(dir@, #[trigger] us[k]);
            if ex {
                let up = choose|up: Seq<char>| #[trigger] unknown@.contains(up) && above(dir@, up);
                assert(us.contains(up));
                let k = choose|k: int| 0 <= k < us.len() && us[k] == up;
                assert(above(dir@, us[k]));
            }
            if ey {
                let k = choose|k: int| 0 <= k < us.len() && above(dir@, #[trigger] us[k]);
                assert(us.contains(us[k]));
                assert(unknown@.contains(us[k]));
            }
            assert(ex == ey);
        }
        if is_last_of_dir(rows, i, dir.as_str()) {
            if unknown.contains(dir.as_str()) || rows[i].status == ' ' && any_below(
                dir.as_str(),
                &ups,
            ) {
                rows[i].status = STATUS_UNKNOWN;
            }
        }
        i = i + 1;
    }
    assert(rows::row_views(rows@) =~= with_unknown(all, unknown@));
}

} // verus!
