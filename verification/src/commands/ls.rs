//! `ls`: what the working tree, the clone root and the remote root say of each path.

pub mod added;
pub mod asked;
pub mod diff;
pub mod letters;
pub mod lines;
pub mod marks;
pub mod remote;
pub mod render;
pub mod restrict;
pub mod rows;
pub mod scope;
pub mod seen;
pub mod status;
pub mod told;

use crate::collections::{self, PathMap, PathSet};
use crate::commands::ls::added::{add_changes, add_ignored, add_remote};
use crate::commands::ls::diff::{diff_trees, DiffRow, Found, FoundView};
use crate::commands::ls::marks::{mark_rows, mark_unknown, sort_rows, source_rows};
use crate::commands::ls::remote::remote_status;
use crate::commands::ls::rows::{
    collect_targets, format_hash, plain_row, Listing, ListingView, LsSource, Row, RowView,
    SideData, Stop, StopView, TreeMeta, STATUS_UNKNOWN,
};
use crate::commands::ls::scope::{is_direct_child, ScopeFilter};
use crate::commands::pull;
use crate::error::Error;
use crate::object::{Halt, ObjectHash, TreeNode};
use crate::text::{self, chars_of, concat, find_char, string_of};
use vstd::prelude::*;

verus! {

pub struct LsOptions {
    pub work_dir: String,
    /// Directory the command was invoked from; relative paths resolve against it.
    pub current_dir: String,
    pub paths: Vec<String>,
    pub recursive: bool,
    pub full_hash: bool,
    pub dirty: bool,
    pub no_remote: bool,
    pub source: LsSource,
}

/// The paths that were asked for: the current directory if none was given.
pub fn raw_paths(opts: &LsOptions) -> (r: Vec<String>)
    ensures
        text::views(r@) == (if opts.paths@.len() == 0 {
            seq![opts.current_dir@]
        } else {
            text::views(opts.paths@)
        }),
{
    if opts.paths.len() == 0 {
        let mut r: Vec<String> = Vec::new();
        r.push(opts.current_dir.clone());
        assert(text::views(r@) =~= seq![opts.current_dir@]);
        r
    } else {
        text::copy_strings(&opts.paths)
    }
}

/// The scopes of a listing: the paths from the root that were asked for, without
/// the root itself.
pub fn scope_prefixes(rels: &Vec<String>) -> (r: Vec<String>)
    ensures
        text::views(r@) == text::non_empty(text::views(rels@)),
{
    let mut r: Vec<String> = Vec::new();
    let ghost all = text::views(rels@);
    let ghost keep = |p: Seq<char>| p.len() > 0;
    assert(all.take(0).filter(keep) =~= seq![]) by {
        reveal(Seq::filter);
    }
    assert(text::views(r@) =~= seq![]);
    let mut i: usize = 0;
    while i < rels.len()
        invariant
            i <= rels@.len(),
            all == text::views(rels@),
            keep == (|p: Seq<char>| p.len() > 0),
            text::views(r@) == all.take(i as int).filter(keep),
        decreases rels.len() - i,
    {
        proof {
            reveal(Seq::filter);
            assert(all.take(i + 1).drop_last() =~= all.take(i as int));
            assert(all[i as int] == rels@[i as int]@);
        }
        let ghost before = text::views(r@);
        if !rels[i].as_str().is_empty() {
            r.push(rels[i].clone());
            assert(text::views(r@) =~= before.push(all[i as int]));
        }
        i = i + 1;
    }
    assert(all.take(all.len() as int) =~= all);
    r
}

// ---------------------------------------------------------------------------
// Only what differs
// ---------------------------------------------------------------------------

/// The row of a path that differs, in a listing of differences.
pub open spec fn dirty_row(path: Seq<char>, change: DiffRow, full: bool) -> RowView {
    match change {
        DiffRow::Added { working_hash } => rows::plain(
            'A',
            rows::hash_text(working_hash, full),
            None,
            1,
            path,
        ),
        DiffRow::AddedEmptyDir { hash } => rows::plain(
            'A',
            rows::hash_text(hash, full),
            Some(0),
            0,
            path.push('/'),
        ),
        DiffRow::Modified { working_hash } => rows::plain(
            'M',
            rows::hash_text(working_hash, full),
            None,
            1,
            path,
        ),
        DiffRow::Deleted => rows::plain('D', seq!['-'], None, 0, path),
    }
}

/// The row of a subtree of which nothing can be said.
pub open spec fn unknown_row(path: Seq<char>) -> RowView {
    rows::plain(
        STATUS_UNKNOWN,
        seq!['-'],
        None,
        0,
        if path == seq!['.'] {
            path
        } else {
            path.push('/')
        },
    )
}

/// The rows of a listing of differences, unknown subtrees among them, by path.
pub open spec fn dirty_rows(f: FoundView, full: bool) -> Seq<RowView> {
    let ps = collections::listing(f.rows.dom());
    let us = collections::listing(f.unknown);
    marks::by_path(
        Seq::new(ps.len(), |i: int| dirty_row(ps[i], f.rows[ps[i]], full)) + Seq::new(
            us.len(),
            |i: int| unknown_row(us[i]),
        ),
    )
}

fn dash() -> (r: String)
    ensures
        r@ == seq!['-'],
{
    proof {
        reveal_strlit("-");
        assert("-"@ =~= seq!['-']);
    }
    "-".to_owned()
}

fn slashed(path: &str) -> (r: String)
    ensures
        r@ == path@.push('/'),
{
    let mut s: String = path.to_owned();
    s.push('/');
    s
}

fn row_of_change(path: &str, change: DiffRow, full: bool) -> (r: Row)
    ensures
        r@ == dirty_row(path@, change, full),
{
    match change {
        DiffRow::Added { working_hash } => plain_row(
            'A',
            format_hash(&working_hash, full),
            None,
            1,
            path.to_owned(),
        ),
        DiffRow::AddedEmptyDir { hash } => plain_row(
            'A',
            format_hash(&hash, full),
            Some(0),
            0,
            slashed(path),
        ),
        DiffRow::Modified { working_hash } => plain_row(
            'M',
            format_hash(&working_hash, full),
            None,
            1,
            path.to_owned(),
        ),
        DiffRow::Deleted => plain_row('D', dash(), None, 0, path.to_owned()),
    }
}

/// The rows of a listing of differences.
#[verifier::loop_isolation(false)]
pub fn list_dirty(found: &Found, full: bool) -> (r: Vec<Row>)
    requires
        found.wf(),
    ensures
        rows::row_views(r@) == dirty_rows(found@, full),
{
    let ghost f = found@;
    let mut out: Vec<Row> = Vec::new();
    let ps = found.rows.sorted_keys();
    let ghost pv = text::views(ps@);
    let mut i: usize = 0;
    while i < ps.len()
        invariant
            i <= ps@.len(),
            rows::row_views(out@) =~= Seq::new(
                i as nat,
                |k: int| dirty_row(pv[k], f.rows[pv[k]], full),
            ),
        decreases ps.len() - i,
    {
        assert(pv[i as int] == ps@[i as int]@);
        assert(pv.contains(ps@[i as int]@));
        let change = match found.rows.get(ps[i].as_str()) {
            Some(c) => *c,
            None => DiffRow::Deleted,
        };
        let ghost before = rows::row_views(out@);
        out.push(row_of_change(ps[i].as_str(), change, full));
        assert(rows::row_views(out@) =~= before.push(
            dirty_row(pv[i as int], f.rows[pv[i as int]], full),
        ));
        i = i + 1;
    }
    assert(pv.len() == ps@.len());
    let ghost first = rows::row_views(out@);
    let us = found.unknown.sorted();
    let ghost uv = text::views(us@);
    let mut j: usize = 0;
    while j < us.len()
        invariant
            j <= us@.len(),
            rows::row_views(out@) =~= first + Seq::new(j as nat, |k: int| unknown_row(uv[k])),
        decreases us.len() - j,
    {
        proof {
            assert(uv[j as int] == us@[j as int]@);
            reveal_strlit(".");
            assert("."@ =~= seq!['.']);
        }
        let path: String = if text::str_eq(us[j].as_str(), ".") {
            us[j].clone()
        } else {
            slashed(us[j].as_str())
        };
        let ghost before = rows::row_views(out@);
        out.push(plain_row(STATUS_UNKNOWN, dash(), None, 0, path));
        assert(rows::row_views(out@) =~= before.push(unknown_row(uv[j as int])));
        j = j + 1;
    }
    assert(uv.len() == us@.len());
    sort_rows(&mut out);
    out
}

// ---------------------------------------------------------------------------
// Before the first clone root
// ---------------------------------------------------------------------------

/// The rows so far, and the directories among them.
pub struct NewState {
    pub rows: Seq<RowView>,
    pub dirs: Set<Seq<char>>,
}

/// `st` with a path of the working tree: itself if the listing shows it, else the
/// directory on top that it lies in, once.
pub open spec fn new_row(
    st: NewState,
    path: Seq<char>,
    change: DiffRow,
    recursive: bool,
    full: bool,
) -> NewState {
    if recursive || scope::direct_child(path, seq![]) {
        if change is Added || change is AddedEmptyDir {
            NewState { rows: st.rows.push(dirty_row(path, change, full)), ..st }
        } else {
            st
        }
    } else {
        let dir = path.take(text::find_from(path, '/', 0) as int);
        if dir.len() == 0 || st.dirs.contains(dir) {
            st
        } else {
            NewState {
                rows: st.rows.push(rows::plain('A', seq!['-'], None, 0, dir.push('/'))),
                dirs: st.dirs.insert(dir),
            }
        }
    }
}

/// The rows of the first `n` paths.
pub open spec fn new_upto(
    changes: Map<Seq<char>, DiffRow>,
    ps: Seq<Seq<char>>,
    n: nat,
    recursive: bool,
    full: bool,
) -> NewState
    decreases n,
{
    if n == 0 || n > ps.len() {
        NewState { rows: seq![], dirs: Set::empty() }
    } else {
        new_row(
            new_upto(changes, ps, (n - 1) as nat, recursive, full),
            ps[n - 1],
            changes[ps[n - 1]],
            recursive,
            full,
        )
    }
}

/// The rows of a working tree that has no clone root yet: all of it is new.
pub open spec fn new_rows(changes: Map<Seq<char>, DiffRow>, recursive: bool, full: bool) -> Seq<
    RowView,
> {
    let ps = collections::listing(changes.dom());
    new_upto(changes, ps, ps.len(), recursive, full).rows
}

fn put_new(
    rows: &mut Vec<Row>,
    dirs: &mut PathSet,
    path: &str,
    change: DiffRow,
    recursive: bool,
    full: bool,
)
    requires
        old(dirs).wf(),
    ensures
        final(dirs).wf(),
        new_row(
            NewState { rows: rows::row_views(old(rows)@), dirs: old(dirs)@ },
            path@,
            change,
            recursive,
            full,
        ) == (NewState { rows: rows::row_views(final(rows)@), dirs: final(dirs)@ }),
{
    let ghost before = rows::row_views(rows@);
    proof {
        reveal_strlit("");
        assert(""@ =~= seq![]);
    }
    if recursive || is_direct_child(path, "") {
        if matches!(change, DiffRow::Added { .. } | DiffRow::AddedEmptyDir { .. }) {
            rows.push(row_of_change(path, change, full));
            assert(rows::row_views(rows@) =~= before.push(dirty_row(path@, change, full)));
        }
        return;
    }
    let chars = chars_of(path);
    let end: usize = find_char(&chars, '/', 0);
    let dir = string_of(&chars, 0, end);
    assert(dir@ =~= path@.take(end as int));
    if end == 0 || dirs.contains(dir.as_str()) {
        return;
    }
    rows.push(plain_row('A', dash(), None, 0, slashed(dir.as_str())));
    assert(rows::row_views(rows@) =~= before.push(
        rows::plain('A', seq!['-'], None, 0, dir@.push('/')),
    ));
    dirs.insert(dir);
}

/// The rows of a working tree that has no clone root yet.
#[verifier::loop_isolation(false)]
pub fn list_new(changes: &PathMap<DiffRow>, recursive: bool, full: bool) -> (r: Vec<Row>)
    requires
        changes.wf(),
    ensures
        rows::row_views(r@) == new_rows(changes@, recursive, full),
{
    let mut out: Vec<Row> = Vec::new();
    assert(rows::row_views(out@) =~= seq![]);
    let mut dirs = PathSet::new();
    let ps = changes.sorted_keys();
    let ghost pv = text::views(ps@);
    let mut i: usize = 0;
    while i < ps.len()
        invariant
            i <= ps@.len(),
            dirs.wf(),
            new_upto(changes@, pv, i as nat, recursive, full) == (NewState {
                rows: rows::row_views(out@),
                dirs: dirs@,
            }),
        decreases ps.len() - i,
    {
        assert(pv[i as int] == ps@[i as int]@);
        assert(pv.contains(ps@[i as int]@));
        let change = match changes.get(ps[i].as_str()) {
            Some(c) => *c,
            None => DiffRow::Deleted,
        };
        put_new(&mut out, &mut dirs, ps[i].as_str(), change, recursive, full);
        i = i + 1;
    }
    assert(pv.len() == ps@.len());
    out
}

// ---------------------------------------------------------------------------
// The listing
// ---------------------------------------------------------------------------

/// The rows of a listing: those of the targets, those of what the trees do not
/// show, marked, in order, with the columns of the source that was asked for.
pub open spec fn listed(l: ListingView) -> Result<Seq<RowView>, StopView> {
    match rows::targets_rows(l, rows::targets(l).len()) {
        Err(s) => Err(s),
        Ok(targets) => match added::with_ignored(
            l,
            added::with_remote(l, added::with_changes(l, targets)),
        ) {
            Err(h) => Err(StopView::Unread(h)),
            Ok(all) => match marks::with_source(
                l,
                marks::with_marks(l, marks::by_path(all)),
            ) {
                Err(h) => Err(StopView::Unread(h)),
                Ok(rows) => Ok(marks::with_unknown(rows, l.found.unknown)),
            },
        },
    }
}

/// The rows of a listing.
pub fn list(l: &Listing) -> (r: Result<Vec<Row>, Stop>)
    requires
        l.wf(),
    ensures
        rows::rows_result(r) == listed(l@),
{
    let mut rows = match collect_targets(l) {
        Err(s) => {
            return Err(s);
        },
        Ok(rows) => rows,
    };
    add_changes(l, &mut rows);
    add_remote(l, &mut rows);
    if let Some(h) = add_ignored(l, &mut rows) {
        return Err(Stop::Unread(h));
    }
    sort_rows(&mut rows);
    mark_rows(l, &mut rows);
    if let Some(h) = source_rows(l, &mut rows) {
        return Err(Stop::Unread(h));
    }
    mark_unknown(&mut rows, &l.found.unknown);
    Ok(rows)
}

/// The trees that a listing compares, and what a scan of the working tree saw.
pub struct LsTrees<'a> {
    pub clone: Option<&'a TreeNode>,
    pub clone_meta: TreeMeta,
    pub working: &'a TreeNode,
    pub working_meta: TreeMeta,
    /// The remote root, where it could be had.
    pub remote: Option<&'a TreeNode>,
    /// The hash that stands for a symlink.
    pub link_hash: ObjectHash,
    /// The paths that an ignore rule matches.
    pub ignored: &'a PathSet,
    pub side: &'a SideData,
}

/// Why there is no listing.
pub enum LsError {
    /// The remote was asked for and forbidden.
    Clash,
    Stop(Stop),
}

/// What a listing of `prefixes` says. Nothing is compared with a remote that was
/// forbidden. Without a clone root, and with no path asked for, all is new.
pub open spec fn ls_spec(opts: LsOptions, prefixes: Seq<Seq<char>>, t: LsTrees) -> Result<
    Seq<RowView>,
    StopView,
> {
    let scopes = scope::scopes_of(prefixes);
    let clone = pull::deref_base(t.clone);
    let f = diff::ls_diff(clone, *t.working, scopes, t.link_hash);
    match f.1 {
        Some(Halt::Unread(h)) => Err(StopView::Unread(h)),
        _ => if opts.dirty {
            Ok(dirty_rows(f.0, opts.full_hash))
        } else if clone is None && prefixes.len() == 0 {
            Ok(new_rows(f.0.rows, opts.recursive, opts.full_hash))
        } else {
            let root = match clone {
                Some(node) => node,
                None => *t.working,
            };
            let r = remote::remote_diff(
                root,
                if opts.no_remote {
                    None
                } else {
                    pull::deref_base(t.remote)
                },
                scopes,
            );
            match r.1 {
                Some(h) => Err(StopView::Unread(h)),
                None => listed(
                    ListingView {
                        recursive: opts.recursive,
                        full_hash: opts.full_hash,
                        source: opts.source,
                        scopes: prefixes,
                        has_clone: clone is Some,
                        root,
                        root_meta: if clone is Some {
                            t.clone_meta
                        } else {
                            t.working_meta
                        },
                        working: *t.working,
                        working_meta: t.working_meta,
                        found: f.0,
                        remote: r.0,
                        ignored: t.ignored@,
                        side: *t.side,
                    },
                ),
            }
        },
    }
}

/// Refuses options that ask for the remote and forbid it.
pub fn check_options(opts: &LsOptions) -> (r: Result<(), LsError>)
    ensures
        match r {
            Ok(()) => !(opts.source == LsSource::Remote && opts.no_remote),
            Err(e) => e is Clash && opts.source == LsSource::Remote && opts.no_remote,
        },
{
    if opts.source == LsSource::Remote && opts.no_remote {
        Err(LsError::Clash)
    } else {
        Ok(())
    }
}

/// Lists the paths `rels`, given from the root. An object that has to be read
/// first is the error; the caller reads it and asks again.
pub fn run(opts: &LsOptions, rels: &Vec<String>, t: &LsTrees) -> (r: Result<Vec<Row>, LsError>)
    requires
        t.ignored.wf(),
    ensures
        match r {
            Err(LsError::Clash) => opts.source == LsSource::Remote && opts.no_remote,
            Err(LsError::Stop(s)) => !(opts.source == LsSource::Remote && opts.no_remote) && ls_spec(
                *opts,
                text::non_empty(text::views(rels@)),
                *t,
            ) == Err::<Seq<RowView>, StopView>(s@),
            Ok(rows) => !(opts.source == LsSource::Remote && opts.no_remote) && ls_spec(
                *opts,
                text::non_empty(text::views(rels@)),
                *t,
            ) == Ok::<Seq<RowView>, StopView>(rows::row_views(rows@)),
        },
{
    match check_options(opts) {
        Ok(()) => {},
        Err(e) => {
            return Err(e);
        },
    }
    let prefixes = scope_prefixes(rels);
    assert(text::views(prefixes@).len() == prefixes@.len());
    let scope = ScopeFilter::new(&prefixes);
    let found = match diff_trees(t.clone, t.working, &scope, t.link_hash) {
        Err(h) => {
            return Err(LsError::Stop(Stop::Unread(h)));
        },
        Ok(f) => f,
    };
    if opts.dirty {
        return Ok(list_dirty(&found, opts.full_hash));
    }
    if t.clone.is_none() && prefixes.len() == 0 {
        return Ok(list_new(&found.rows, opts.recursive, opts.full_hash));
    }
    let root: &TreeNode = match t.clone {
        Some(node) => node,
        None => t.working,
    };
    let wanted: Option<&TreeNode> = if opts.no_remote {
        None
    } else {
        t.remote
    };
    let remote = match remote_status(root, wanted, &scope) {
        Err(h) => {
            return Err(LsError::Stop(Stop::Unread(h)));
        },
        Ok(st) => st,
    };
    let l = Listing {
        recursive: opts.recursive,
        full_hash: opts.full_hash,
        source: opts.source,
        prefixes: &prefixes,
        has_clone: t.clone.is_some(),
        root,
        root_meta: if t.clone.is_some() {
            t.clone_meta
        } else {
            t.working_meta
        },
        working: t.working,
        working_meta: t.working_meta,
        found: &found,
        remote: &remote,
        ignored: t.ignored,
        side: t.side,
    };
    match list(&l) {
        Ok(rows) => Ok(rows),
        Err(s) => Err(LsError::Stop(s)),
    }
}

impl LsError {
    /// The error to report; an object that has to be read first is none.
    pub fn report(&self) -> (r: Option<Error>)
        ensures
            match *self {
                LsError::Clash => r matches Some(e) && e.is_other(
                    "--remote and --no-remote cannot be used together"@,
                ),
                LsError::Stop(Stop::Unread(_)) => r is None,
                LsError::Stop(Stop::Missing(h)) => r matches Some(Error::ObjectNotFound(s)) && s@
                    == h.hex(),
                LsError::Stop(Stop::NoPath(p)) => r matches Some(e) && e.is_other(
                    "path not found: "@ + p@,
                ),
            },
    {
        match self {
            LsError::Clash => Some(
                Error::Other("--remote and --no-remote cannot be used together".to_owned()),
            ),
            LsError::Stop(Stop::Unread(_)) => None,
            LsError::Stop(Stop::Missing(h)) => Some(crate::error::not_found(*h)),
            LsError::Stop(Stop::NoPath(p)) => Some(
                Error::Other(concat("path not found: ", p.as_str())),
            ),
        }
    }
}

/// A listing of differences is empty where the working tree is the clone root.
pub proof fn law_clean_tree_is_not_dirty(
    opts: LsOptions,
    prefixes: Seq<Seq<char>>,
    t: LsTrees,
)
    requires
        opts.dirty,
        t.clone is Some,
        t.clone->0.hash == t.working.hash,
    ensures
        ls_spec(opts, prefixes, t) == Ok::<Seq<RowView>, StopView>(seq![]),
{
    let f = diff::ls_diff(
        pull::deref_base(t.clone),
        *t.working,
        scope::scopes_of(prefixes),
        t.link_hash,
    );
    assert(f.0.rows == Map::<Seq<char>, DiffRow>::empty());
    let none = Seq::<Seq<char>>::empty();
    assert(f.0.rows.dom() =~= Set::<Seq<char>>::empty());
    collections::lemma_listing(none, Set::<Seq<char>>::empty());
    let ps = collections::listing(f.0.rows.dom());
    let us = collections::listing(f.0.unknown);
    assert(ps == none && us == none);
    assert(Seq::new(ps.len(), |i: int| dirty_row(ps[i], f.0.rows[ps[i]], opts.full_hash)) + Seq::new(
        us.len(),
        |i: int| unknown_row(us[i]),
    ) =~= Seq::<RowView>::empty());
}

// ---------------------------------------------------------------------------
// Scoped scan
// ---------------------------------------------------------------------------

/// What is known of a path before it is scanned.
pub struct ScanFacts {
    pub rel: String,
    pub ignored: bool,
    pub stub: bool,
    pub exists: bool,
    pub dir: bool,
}

/// How one path of a scoped listing comes into the working tree's root.
#[derive(Clone, Copy, Debug, PartialEq, Eq, Structural)]
pub enum ScanStep {
    /// The root stays as it is.
    Keep,
    /// The entry that the stub records takes its place.
    Stub,
    /// The directory is scanned, and the result takes its place.
    Dir,
    /// The file is hashed, and its entry takes its place.
    File,
}

/// How one path of a scoped listing comes into the working tree's root.
pub open spec fn scan_step(f: ScanFacts) -> ScanStep {
    if f.ignored {
        ScanStep::Keep
    } else if f.stub {
        ScanStep::Stub
    } else if !f.exists {
        ScanStep::Keep
    } else if f.dir {
        ScanStep::Dir
    } else {
        ScanStep::File
    }
}

/// Whether the whole tree is scanned: no path was asked for, or one is the root.
pub open spec fn scans_all(facts: Seq<ScanFacts>) -> bool {
    facts.len() == 0 || exists|i: int|
        0 <= i < facts.len() && scope::slash_trimmed((#[trigger] facts[i]).rel@).len() == 0
}

/// Plans the scan of the paths of a listing: `None` to scan the whole tree, else
/// one step for each path, in order.
pub fn scan_scoped_for_ls(facts: &Vec<ScanFacts>) -> (r: Option<Vec<ScanStep>>)
    ensures
        r is None <==> scans_all(facts@),
        r is Some ==> r->0@ == Seq::new(facts@.len(), |i: int| scan_step(facts@[i])),
{
    if facts.len() == 0 {
        return None;
    }
    let mut steps: Vec<ScanStep> = Vec::new();
    let mut i: usize = 0;
    while i < facts.len()
        invariant
            i <= facts@.len(),
            facts@.len() > 0,
            forall|k: int|
                0 <= k < i ==> scope::slash_trimmed((#[trigger] facts@[k]).rel@).len() > 0,
            steps@ =~= Seq::new(i as nat, |k: int| scan_step(facts@[k])),
        decreases facts.len() - i,
    {
        let f = &facts[i];
        if scope::trim_slashes(f.rel.as_str()).as_str().is_empty() {
            return None;
        }
        let step = if f.ignored {
            ScanStep::Keep
        } else if f.stub {
            ScanStep::Stub
        } else if !f.exists {
            ScanStep::Keep
        } else if f.dir {
            ScanStep::Dir
        } else {
            ScanStep::File
        };
        steps.push(step);
        i = i + 1;
    }
    Some(steps)
}

} // verus!
