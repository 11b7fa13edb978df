//! The rows of a listing, from the trees and from what was found beside them.

use crate::collections::{self, PathMap, PathSet};
use crate::commands::ls::diff::{DiffRow, Found, FoundView};
use crate::commands::ls::remote::{RemoteState, RemoteView};
use crate::object::{
    self, navigate_entry, Content, Halt, ObjectHash, Timestamp, TreeEntry, TreeNode,
};
use crate::text::{self, concat, path_components, repeat, starts_with, str_eq};
use vstd::prelude::*;

verus! {

/// Which tree provides the hash, size, count and time columns.
#[derive(Clone, Copy, Debug, PartialEq, Eq, Structural)]
pub enum LsSource {
    Clone,
    Remote,
    Working,
}

/// One output record before column widths are known.
pub struct Row {
    /// Local status: `M`, `A`, `D`, blank, or [`STATUS_UNKNOWN`].
    pub status: char,
    /// Remote status: `M`, `A`, `D`, or blank where it is in sync.
    pub remote_status: char,
    /// `!` conflict, `I` or `i` ignored, `?` unknown reserved file, `S` stub, `s`
    /// stubs below, or blank.
    pub z: char,
    pub hash_str: String,
    pub size: Option<u64>,
    pub blob_count: u64,
    pub mtime: Option<Timestamp>,
    pub path: String,
}

/// What a row says.
pub struct RowView {
    pub status: char,
    pub remote_status: char,
    pub z: char,
    pub hash_str: Seq<char>,
    pub size: Option<u64>,
    pub blob_count: u64,
    pub mtime: Option<Timestamp>,
    pub path: Seq<char>,
}

impl View for Row {
    type V = RowView;

    open spec fn view(&self) -> RowView {
        RowView {
            status: self.status,
            remote_status: self.remote_status,
            z: self.z,
            hash_str: self.hash_str@,
            size: self.size,
            blob_count: self.blob_count,
            mtime: self.mtime,
            path: self.path@,
        }
    }
}

/// What rows say.
pub open spec fn row_views(rows: Seq<Row>) -> Seq<RowView> {
    Seq::new(rows.len(), |i: int| rows[i]@)
}

/// Status of a path of which nothing can be said: an object that the diff needed is
/// not there. It is not a blank, which means that the path is in sync.
pub const STATUS_UNKNOWN: char = '?';

/// The totals of a directory.
#[derive(Clone, Copy, Debug, PartialEq, Eq, Structural)]
pub struct TreeMeta {
    pub mtime: Option<Timestamp>,
    pub size: u64,
    pub blob_count: u64,
}

/// A stub in the working tree.
pub struct StubSeen {
    pub path: String,
    /// Whether it stands for a directory.
    pub tree: bool,
    /// Whether the directory holds anything beside its marker.
    pub partial: bool,
}

/// An ignored path in the working tree.
pub struct IgnoredSeen {
    pub path: String,
    pub dir: bool,
}

/// What a scan of the working tree saw beside its files.
pub struct SideData {
    pub conflict_paths: Vec<String>,
    pub stubs: Vec<StubSeen>,
    pub ignored: Vec<IgnoredSeen>,
    pub unknown_reserved: Vec<String>,
}

/// Adds what another part of the scan saw.
pub fn merge_side_data(dst: &mut SideData, src: SideData)
    ensures
        final(dst).conflict_paths@ == old(dst).conflict_paths@ + src.conflict_paths@,
        final(dst).stubs@ == old(dst).stubs@ + src.stubs@,
        final(dst).ignored@ == old(dst).ignored@ + src.ignored@,
        final(dst).unknown_reserved@ == old(dst).unknown_reserved@ + src.unknown_reserved@,
{
    let mut src = src;
    dst.conflict_paths.append(&mut src.conflict_paths);
    dst.stubs.append(&mut src.stubs);
    dst.ignored.append(&mut src.ignored);
    dst.unknown_reserved.append(&mut src.unknown_reserved);
}

/// All that a listing is made from.
pub struct Listing<'a> {
    pub recursive: bool,
    pub full_hash: bool,
    pub source: LsSource,
    /// The paths to list; none for the whole tree.
    pub prefixes: &'a Vec<String>,
    /// Whether there is a clone root.
    pub has_clone: bool,
    /// The clone root, or the working tree where there is none.
    pub root: &'a TreeNode,
    pub root_meta: TreeMeta,
    pub working: &'a TreeNode,
    pub working_meta: TreeMeta,
    pub found: &'a Found,
    pub remote: &'a RemoteState<'a>,
    /// The paths that an ignore rule matches.
    pub ignored: &'a PathSet,
    pub side: &'a SideData,
}

/// All that a listing is made from.
pub struct ListingView<'a> {
    pub recursive: bool,
    pub full_hash: bool,
    pub source: LsSource,
    pub scopes: Seq<Seq<char>>,
    pub has_clone: bool,
    pub root: TreeNode,
    pub root_meta: TreeMeta,
    pub working: TreeNode,
    pub working_meta: TreeMeta,
    pub found: FoundView,
    pub remote: RemoteView<'a>,
    pub ignored: Set<Seq<char>>,
    pub side: SideData,
}

impl<'a> View for Listing<'a> {
    type V = ListingView<'a>;

    open spec fn view(&self) -> ListingView<'a> {
        ListingView {
            recursive: self.recursive,
            full_hash: self.full_hash,
            source: self.source,
            scopes: text::views(self.prefixes@),
            has_clone: self.has_clone,
            root: *self.root,
            root_meta: self.root_meta,
            working: *self.working,
            working_meta: self.working_meta,
            found: self.found@,
            remote: self.remote@,
            ignored: self.ignored@,
            side: *self.side,
        }
    }
}

impl<'a> Listing<'a> {
    pub open spec fn wf(self) -> bool {
        self.found.wf() && self.remote.wf() && self.ignored.wf()
    }
}

/// Why there is no listing.
pub enum Stop {
    /// This object has to be read first.
    Unread(ObjectHash),
    /// This object is not there.
    Missing(ObjectHash),
    /// Nothing is known by this path.
    NoPath(String),
}

/// Why there is no listing.
pub enum StopView {
    Unread(ObjectHash),
    Missing(ObjectHash),
    NoPath(Seq<char>),
}

impl View for Stop {
    type V = StopView;

    open spec fn view(&self) -> StopView {
        match *self {
            Stop::Unread(h) => StopView::Unread(h),
            Stop::Missing(h) => StopView::Missing(h),
            Stop::NoPath(p) => StopView::NoPath(p@),
        }
    }
}

/// The rows, or why there are none.
pub open spec fn rows_result(r: Result<Vec<Row>, Stop>) -> Result<Seq<RowView>, StopView> {
    match r {
        Ok(rows) => Ok(row_views(rows@)),
        Err(s) => Err(s@),
    }
}

/// How a hash is shown: in full, or by its first eight digits.
pub open spec fn hash_text(h: ObjectHash, full: bool) -> Seq<char> {
    if full {
        h.hex()
    } else {
        h.short()
    }
}

/// How a hash is shown: in full, or by its first eight digits.
pub fn format_hash(h: &ObjectHash, full: bool) -> (r: String)
    ensures
        r@ == hash_text(*h, full),
{
    if full {
        h.to_hex()
    } else {
        h.to_short()
    }
}

/// Dashes as wide as a hash.
pub open spec fn hash_dash(full: bool) -> Seq<char> {
    text::repeated(
        '-',
        if full {
            64
        } else {
            8
        },
    )
}

fn dash_of_hash(full: bool) -> (r: String)
    ensures
        r@ == hash_dash(full),
{
    repeat(
        '-',
        if full {
            64
        } else {
            8
        },
    )
}

/// The local status of a path.
pub open spec fn status_of(changes: Map<Seq<char>, DiffRow>, path: Seq<char>) -> char {
    if !changes.dom().contains(path) {
        ' '
    } else {
        match changes[path] {
            DiffRow::Modified { .. } => 'M',
            DiffRow::Deleted => 'D',
            _ => 'A',
        }
    }
}

/// The local status of a path.
pub fn status_char(path: &str, changes: &PathMap<DiffRow>) -> (r: char)
    requires
        changes.wf(),
    ensures
        r == status_of(changes@, path@),
{
    match changes.get(path) {
        None => ' ',
        Some(DiffRow::Modified { .. }) => 'M',
        Some(DiffRow::Deleted) => 'D',
        Some(_) => 'A',
    }
}

/// The remote status under a key.
pub open spec fn remote_of(status: Map<Seq<char>, char>, key: Seq<char>) -> char {
    if status.dom().contains(key) {
        status[key]
    } else {
        ' '
    }
}

fn remote_char(status: &PathMap<char>, key: &str) -> (r: char)
    requires
        status.wf(),
    ensures
        r == remote_of(status@, key@),
{
    match status.get(key) {
        Some(c) => *c,
        None => ' ',
    }
}

/// A row of which only the local side is known.
pub open spec fn plain(
    status: char,
    hash_str: Seq<char>,
    size: Option<u64>,
    blob_count: u64,
    path: Seq<char>,
) -> RowView {
    RowView {
        status,
        remote_status: ' ',
        z: ' ',
        hash_str,
        size,
        blob_count,
        mtime: None,
        path,
    }
}

pub fn plain_row(
    status: char,
    hash_str: String,
    size: Option<u64>,
    blob_count: u64,
    path: String,
) -> (r: Row)
    ensures
        r@ == plain(status, hash_str@, size, blob_count, path@),
{
    Row { status, remote_status: ' ', z: ' ', hash_str, size, blob_count, mtime: None, path }
}

/// `path` with a slash behind it.
fn slashed(path: &str) -> (r: String)
    ensures
        r@ == path@.push('/'),
{
    let mut s: String = path.to_owned();
    s.push('/');
    s
}

// ---------------------------------------------------------------------------
// Rows from trees
// ---------------------------------------------------------------------------

/// The path of an entry; the prefix is empty, or a dot, at the root.
pub open spec fn entry_path(prefix: Seq<char>, name: Seq<char>) -> Seq<char> {
    if prefix.len() == 0 || prefix == seq!['.'] {
        name
    } else {
        prefix.push('/') + name
    }
}

fn path_of_entry(prefix: &str, name: &str) -> (r: String)
    ensures
        r@ == entry_path(prefix@, name@),
{
    proof {
        reveal_strlit(".");
        assert("."@ =~= seq!['.']);
    }
    if prefix.is_empty() || str_eq(prefix, ".") {
        name.to_owned()
    } else {
        concat(slashed(prefix).as_str(), name)
    }
}

/// The row of an entry at `path`. `force` is a status that all entries have.
pub open spec fn entry_row(l: ListingView, e: TreeEntry, path: Seq<char>, force: Option<char>) -> RowView {
    let status = match force {
        Some(c) => c,
        None => status_of(l.found.rows, path),
    };
    match e {
        TreeEntry::Tree { size, mtime, blob_count, node, .. } => RowView {
            status: match force {
                Some(c) => c,
                None => ' ',
            },
            remote_status: remote_of(l.remote.status, path.push('/')),
            z: ' ',
            hash_str: hash_text(node.hash, l.full_hash),
            size: Some(size),
            blob_count,
            mtime,
            path: path.push('/'),
        },
        TreeEntry::Blob { hash, size, mtime, .. } => RowView {
            status,
            remote_status: remote_of(l.remote.status, path),
            z: ' ',
            hash_str: hash_text(hash, l.full_hash),
            size: Some(size),
            blob_count: 1,
            mtime,
            path,
        },
        TreeEntry::Symlink { mtime, .. } => RowView {
            status,
            remote_status: remote_of(l.remote.status, path),
            z: ' ',
            hash_str: hash_dash(l.full_hash),
            size: None,
            blob_count: 1,
            mtime,
            path,
        },
    }
}

/// `out` with the rows of a directory's entries. A directory whose object is not
/// there has none; one that has to be read first is the error.
pub open spec fn tree_rows(
    l: ListingView,
    node: TreeNode,
    prefix: Seq<char>,
    force: Option<char>,
    out: Seq<RowView>,
) -> Result<Seq<RowView>, ObjectHash>
    decreases node, 0nat,
{
    match node.content {
        Content::Missing => Ok(out),
        Content::Unread => Err(node.hash),
        Content::Entries(es) => listing_rows(l, es@, es@.len(), prefix, force, out),
    }
}

/// `out` with the rows of the first `n` entries. A recursive listing goes down into
/// every directory that is not ignored.
pub open spec fn listing_rows(
    l: ListingView,
    es: Seq<TreeEntry>,
    n: nat,
    prefix: Seq<char>,
    force: Option<char>,
    out: Seq<RowView>,
) -> Result<Seq<RowView>, ObjectHash>
    decreases es, n,
{
    if n == 0 || n > es.len() {
        Ok(out)
    } else {
        match listing_rows(l, es, (n - 1) as nat, prefix, force, out) {
            Err(h) => Err(h),
            Ok(prev) => {
                let e = es[n - 1];
                let path = entry_path(prefix, e.name_text());
                let with = prev.push(entry_row(l, e, path, force));
                match e {
                    TreeEntry::Tree { node, .. } => if l.recursive && !l.ignored.contains(path) {
                        tree_rows(l, node, path, force, with)
                    } else {
                        Ok(with)
                    },
                    _ => Ok(with),
                }
            },
        }
    }
}

proof fn lemma_listing_rows_halts(
    l: ListingView,
    es: Seq<TreeEntry>,
    a: nat,
    b: nat,
    prefix: Seq<char>,
    force: Option<char>,
    out: Seq<RowView>,
)
    requires
        a <= b <= es.len(),
        listing_rows(l, es, a, prefix, force, out) is Err,
    ensures
        listing_rows(l, es, b, prefix, force, out) == listing_rows(l, es, a, prefix, force, out),
    decreases b - a,
{
    if a < b {
        lemma_listing_rows_halts(l, es, a, (b - 1) as nat, prefix, force, out);
    }
}

fn row_of_entry(l: &Listing, e: &TreeEntry, path: &str, force: Option<char>) -> (r: Row)
    requires
        l.wf(),
    ensures
        r@ == entry_row(l@, *e, path@, force),
{
    match e {
        TreeEntry::Tree { size, mtime, blob_count, node, .. } => {
            let dir_path = slashed(path);
            Row {
                status: match force {
                    Some(c) => c,
                    None => ' ',
                },
                remote_status: remote_char(&l.remote.status, dir_path.as_str()),
                z: ' ',
                hash_str: format_hash(&node.hash, l.full_hash),
                size: Some(*size),
                blob_count: *blob_count,
                mtime: *mtime,
                path: dir_path,
            }
        },
        TreeEntry::Blob { hash, size, mtime, .. } => Row {
            status: match force {
                Some(c) => c,
                None => status_char(path, &l.found.rows),
            },
            remote_status: remote_char(&l.remote.status, path),
            z: ' ',
            hash_str: format_hash(hash, l.full_hash),
            size: Some(*size),
            blob_count: 1,
            mtime: *mtime,
            path: path.to_owned(),
        },
        TreeEntry::Symlink { mtime, .. } => Row {
            status: match force {
                Some(c) => c,
                None => status_char(path, &l.found.rows),
            },
            remote_status: remote_char(&l.remote.status, path),
            z: ' ',
            hash_str: dash_of_hash(l.full_hash),
            size: None,
            blob_count: 1,
            mtime: *mtime,
            path: path.to_owned(),
        },
    }
}

/// Adds the rows of a directory's entries. Returns the object that has to be read
/// first, if any; the rows are then of no use.
#[verifier::loop_isolation(false)]
pub fn collect_tree_rows(
    l: &Listing,
    node: &TreeNode,
    prefix: &str,
    force: Option<char>,
    out: &mut Vec<Row>,
) -> (r: Option<ObjectHash>)
    requires
        l.wf(),
    ensures
        match r {
            None => tree_rows(l@, *node, prefix@, force, row_views(old(out)@)) == Ok::<
                Seq<RowView>,
                ObjectHash,
            >(row_views(final(out)@)),
            Some(h) => tree_rows(l@, *node, prefix@, force, row_views(old(out)@)) == Err::<
                Seq<RowView>,
                ObjectHash,
            >(h),
        },
    decreases node,
{
    let es = match &node.content {
        Content::Missing => {
            return None;
        },
        Content::Unread => {
            return Some(node.hash);
        },
        Content::Entries(es) => es,
    };
    let ghost out0 = row_views(out@);
    let mut i: usize = 0;
    while i < es.len()
        invariant
            i <= es@.len(),
            listing_rows(l@, es@, i as nat, prefix@, force, out0) == Ok::<Seq<RowView>, ObjectHash>(
                row_views(out@),
            ),
        decreases es.len() - i,
    {
        let entry = &es[i];
        let path = path_of_entry(prefix, entry.name().as_str());
        let ghost before = row_views(out@);
        out.push(row_of_entry(l, entry, path.as_str(), force));
        assert(row_views(out@) =~= before.push(entry_row(l@, *entry, path@, force)));
        if let TreeEntry::Tree { node: sub, .. } = entry {
            if l.recursive && !l.ignored.contains(path.as_str()) {
                let halted = collect_tree_rows(l, sub, path.as_str(), force, out);
                if halted.is_some() {
                    proof {
                        lemma_listing_rows_halts(
                            l@,
                            es@,
                            (i + 1) as nat,
                            es@.len(),
                            prefix@,
                            force,
                            out0,
                        );
                    }
                    return halted;
                }
            }
        }
        i = i + 1;
    }
    None
}

// ---------------------------------------------------------------------------
// Rows of the targets
// ---------------------------------------------------------------------------

/// What a path leads to in a tree, a missing object leading nowhere.
pub open spec fn reached(node: TreeNode, comps: Seq<Seq<char>>) -> Result<
    Option<TreeEntry>,
    ObjectHash,
> {
    match object::entry_at(node, comps, 0) {
        Ok(e) => Ok(e),
        Err(Halt::Missing(_)) => Ok(None),
        Err(Halt::Unread(h)) => Err(h),
    }
}

/// What a path leads to in a tree, a missing object leading nowhere.
pub fn navigate_working<'a>(node: &'a TreeNode, comps: &Vec<String>) -> (r: Result<
    Option<&'a TreeEntry>,
    ObjectHash,
>)
    ensures
        match r {
            Ok(Some(e)) => reached(*node, text::views(comps@)) == Ok::<
                Option<TreeEntry>,
                ObjectHash,
            >(Some(*e)),
            Ok(None) => reached(*node, text::views(comps@)) == Ok::<Option<TreeEntry>, ObjectHash>(
                None,
            ),
            Err(h) => reached(*node, text::views(comps@)) == Err::<Option<TreeEntry>, ObjectHash>(
                h,
            ),
        },
{
    match navigate_entry(node, comps, 0) {
        Ok(e) => Ok(e),
        Err(Halt::Missing(_)) => Ok(None),
        Err(Halt::Unread(h)) => Err(h),
    }
}

/// The entry that only the remote has at a path, as a directory or as a file.
pub open spec fn remote_added(added: Map<Seq<char>, &TreeEntry>, rel: Seq<char>) -> Option<TreeEntry> {
    if added.dom().contains(rel.push('/')) {
        Some(*added[rel.push('/')])
    } else if added.dom().contains(rel) {
        Some(*added[rel])
    } else {
        None
    }
}

/// The entry that only the remote has at a path, as a directory or as a file.
pub fn lookup_remote_added<'a>(added: &PathMap<&'a TreeEntry>, rel: &str) -> (r: Option<
    &'a TreeEntry,
>)
    requires
        added.wf(),
    ensures
        match r {
            Some(e) => remote_added(added@, rel@) == Some(*e),
            None => remote_added(added@, rel@) == None::<TreeEntry>,
        },
{
    match added.get(slashed(rel).as_str()) {
        Some(e) => Some(*e),
        None => match added.get(rel) {
            Some(e) => Some(*e),
            None => None,
        },
    }
}

/// The entry that a path names, and whether it comes from the clone root. The clone
/// root always wins. After it the working tree comes first where it is the source,
/// and the remote otherwise.
pub open spec fn target_entry(l: ListingView, rel: Seq<char>) -> Result<
    (Option<TreeEntry>, bool),
    StopView,
> {
    let comps = text::components(rel);
    let in_clone = if l.has_clone {
        object::entry_at(l.root, comps, 0)
    } else {
        Ok(None)
    };
    match in_clone {
        Err(Halt::Unread(h)) => Err(StopView::Unread(h)),
        Err(Halt::Missing(h)) => Err(StopView::Missing(h)),
        Ok(Some(e)) => Ok((Some(e), true)),
        Ok(None) => {
            let remote = remote_added(l.remote.added, rel);
            if l.source != LsSource::Working && remote is Some {
                Ok((remote, false))
            } else {
                match reached(l.working, comps) {
                    Err(h) => Err(StopView::Unread(h)),
                    Ok(Some(e)) => Ok((Some(e), false)),
                    Ok(None) => Ok((remote, false)),
                }
            }
        },
    }
}

/// The row of a directory that was asked for.
pub open spec fn self_row(
    l: ListingView,
    rel: Seq<char>,
    hash: ObjectHash,
    meta: TreeMeta,
    force: Option<char>,
) -> RowView {
    let dir = rel.push('/');
    RowView {
        status: match force {
            Some(c) => c,
            None => if exists|k: Seq<char>| #[trigger]
                l.found.rows.dom().contains(k) && text::has_prefix(k, dir) {
                'M'
            } else {
                ' '
            },
        },
        remote_status: remote_of(l.remote.status, dir),
        z: ' ',
        hash_str: hash_text(hash, l.full_hash),
        size: Some(meta.size),
        blob_count: meta.blob_count,
        mtime: meta.mtime,
        path: dir,
    }
}

/// The row of the root.
pub open spec fn root_row(l: ListingView) -> RowView {
    RowView {
        status: if l.found.rows == Map::<Seq<char>, DiffRow>::empty() {
            ' '
        } else {
            'M'
        },
        remote_status: if l.remote.status == Map::<Seq<char>, char>::empty() {
            ' '
        } else {
            'M'
        },
        z: ' ',
        hash_str: hash_text(l.root.hash, l.full_hash),
        size: Some(l.root_meta.size),
        blob_count: l.root_meta.blob_count,
        mtime: l.root_meta.mtime,
        path: seq!['.'],
    }
}

/// A result of which the error is an object to be read.
pub open spec fn or_unread(r: Result<Seq<RowView>, ObjectHash>) -> Result<Seq<RowView>, StopView> {
    match r {
        Ok(rows) => Ok(rows),
        Err(h) => Err(StopView::Unread(h)),
    }
}

/// `out` with the rows of one target: its own row, and those of its entries if it
/// is a directory. What does not come from the clone root is new throughout.
pub open spec fn target_rows(l: ListingView, rel: Seq<char>, out: Seq<RowView>) -> Result<
    Seq<RowView>,
    StopView,
> {
    if text::components(rel).len() == 0 {
        or_unread(tree_rows(l, l.root, rel, None, out.push(root_row(l))))
    } else {
        match target_entry(l, rel) {
            Err(s) => Err(s),
            Ok((None, _)) => Err(StopView::NoPath(rel)),
            Ok((Some(e), in_clone)) => {
                let force = if in_clone {
                    None
                } else {
                    Some('A')
                };
                match e {
                    TreeEntry::Symlink { .. } => Err(StopView::NoPath(rel)),
                    TreeEntry::Blob { hash, .. } => Ok(
                        out.push(
                            RowView {
                                status: match force {
                                    Some(c) => c,
                                    None => status_of(l.found.rows, rel),
                                },
                                remote_status: remote_of(l.remote.status, rel),
                                ..plain(' ', hash_text(hash, l.full_hash), None, 1, rel)
                            },
                        ),
                    ),
                    TreeEntry::Tree { size, mtime, blob_count, node, .. } => or_unread(
                        tree_rows(
                            l,
                            node,
                            rel,
                            force,
                            out.push(
                                self_row(
                                    l,
                                    rel,
                                    node.hash,
                                    TreeMeta { mtime, size, blob_count },
                                    force,
                                ),
                            ),
                        ),
                    ),
                }
            },
        }
    }
}

/// Whether a path that changed lies under a directory.
fn changes_under(changes: &PathMap<DiffRow>, dir: &str) -> (r: bool)
    requires
        changes.wf(),
    ensures
        r == exists|k: Seq<char>| #[trigger]
            changes@.dom().contains(k) && text::has_prefix(k, dir@),
{
    let n: usize = changes.len();
    proof {
        changes.lemma_items();
    }
    let mut i: usize = 0;
    while i < n
        invariant
            i <= n,
            n == changes.items().len(),
            changes.wf(),
            forall|k: int|
                0 <= k < i ==> !text::has_prefix((#[trigger] changes.items()[k]).0@, dir@),
        decreases n - i,
    {
        if starts_with(changes.key(i).as_str(), dir) {
            proof {
                changes.lemma_items();
                assert(changes@.dom().contains(changes.items()[i as int].0@));
            }
            return true;
        }
        i = i + 1;
    }
    assert forall|k: Seq<char>| #[trigger] changes@.dom().contains(k) implies !text::has_prefix(
        k,
        dir@,
    ) by {
        assert(collections::keyed(changes.items(), changes.items().len() as int, k));
        let j = choose|j: int|
            0 <= j < changes.items().len() && (#[trigger] changes.items()[j]).0@ == k;
        assert(!text::has_prefix(changes.items()[j].0@, dir@));
    }
    false
}

fn find_target<'a>(l: &Listing<'a>, rel: &str) -> (r: Result<(Option<&'a TreeEntry>, bool), Stop>)
    requires
        l.wf(),
    ensures
        match r {
            Ok((Some(e), c)) => target_entry(l@, rel@) == Ok::<
                (Option<TreeEntry>, bool),
                StopView,
            >((Some(*e), c)),
            Ok((None, c)) => target_entry(l@, rel@) == Ok::<(Option<TreeEntry>, bool), StopView>(
                (None, c),
            ),
            Err(s) => target_entry(l@, rel@) == Err::<(Option<TreeEntry>, bool), StopView>(s@),
        },
{
    let comps = path_components(rel);
    if l.has_clone {
        match navigate_entry(l.root, &comps, 0) {
            Err(Halt::Unread(h)) => {
                return Err(Stop::Unread(h));
            },
            Err(Halt::Missing(h)) => {
                return Err(Stop::Missing(h));
            },
            Ok(Some(e)) => {
                return Ok((Some(e), true));
            },
            Ok(None) => {},
        }
    }
    let remote = lookup_remote_added(&l.remote.added, rel);
    if l.source != LsSource::Working && remote.is_some() {
        return Ok((remote, false));
    }
    match navigate_working(l.working, &comps) {
        Err(h) => Err(Stop::Unread(h)),
        Ok(Some(e)) => Ok((Some(e), false)),
        Ok(None) => Ok((remote, false)),
    }
}

/// Adds the rows of one target.
pub fn collect_target(l: &Listing, rel: &str, out: Vec<Row>) -> (r: Result<Vec<Row>, Stop>)
    requires
        l.wf(),
    ensures
        rows_result(r) == target_rows(l@, rel@, row_views(out@)),
{
    let mut out = out;
    let ghost out0 = row_views(out@);
    let comps = path_components(rel);
    assert(text::views(comps@).len() == comps@.len());
    if comps.len() == 0 {
        proof {
            reveal_strlit(".");
            assert("."@ =~= seq!['.']);
        }
        out.push(
            Row {
                status: if l.found.rows.is_empty() {
                    ' '
                } else {
                    'M'
                },
                remote_status: if l.remote.status.is_empty() {
                    ' '
                } else {
                    'M'
                },
                z: ' ',
                hash_str: format_hash(&l.root.hash, l.full_hash),
                size: Some(l.root_meta.size),
                blob_count: l.root_meta.blob_count,
                mtime: l.root_meta.mtime,
                path: ".".to_owned(),
            },
        );
        assert(row_views(out@) =~= out0.push(root_row(l@)));
        return match collect_tree_rows(l, l.root, rel, None, &mut out) {
            None => Ok(out),
            Some(h) => Err(Stop::Unread(h)),
        };
    }
    let (entry, in_clone) = match find_target(l, rel) {
        Err(s) => {
            return Err(s);
        },
        Ok(p) => p,
    };
    let force = if in_clone {
        None
    } else {
        Some('A')
    };
    match entry {
        None => Err(Stop::NoPath(rel.to_owned())),
        Some(TreeEntry::Symlink { .. }) => Err(Stop::NoPath(rel.to_owned())),
        Some(TreeEntry::Blob { hash, .. }) => {
            let row = Row {
                status: match force {
                    Some(c) => c,
                    None => status_char(rel, &l.found.rows),
                },
                remote_status: remote_char(&l.remote.status, rel),
                z: ' ',
                hash_str: format_hash(hash, l.full_hash),
                size: None,
                blob_count: 1,
                mtime: None,
                path: rel.to_owned(),
            };
            let ghost v = row@;
            out.push(row);
            assert(row_views(out@) =~= out0.push(v));
            Ok(out)
        },
        Some(TreeEntry::Tree { size, mtime, blob_count, node, .. }) => {
            let dir = slashed(rel);
            let row = Row {
                status: match force {
                    Some(c) => c,
                    None => if changes_under(&l.found.rows, dir.as_str()) {
                        'M'
                    } else {
                        ' '
                    },
                },
                remote_status: remote_char(&l.remote.status, dir.as_str()),
                z: ' ',
                hash_str: format_hash(&node.hash, l.full_hash),
                size: Some(*size),
                blob_count: *blob_count,
                mtime: *mtime,
                path: dir,
            };
            let ghost v = row@;
            out.push(row);
            assert(row_views(out@) =~= out0.push(v));
            match collect_tree_rows(l, node, rel, force, &mut out) {
                None => Ok(out),
                Some(h) => Err(Stop::Unread(h)),
            }
        },
    }
}

/// The targets of a listing: the paths asked for, or the root.
pub open spec fn targets(l: ListingView) -> Seq<Seq<char>> {
    if l.scopes.len() == 0 {
        seq![seq![]]
    } else {
        l.scopes
    }
}

/// The rows of the first `n` targets.
pub open spec fn targets_rows(l: ListingView, n: nat) -> Result<Seq<RowView>, StopView>
    decreases n,
{
    if n == 0 || n > targets(l).len() {
        Ok(seq![])
    } else {
        match targets_rows(l, (n - 1) as nat) {
            Err(s) => Err(s),
            Ok(out) => target_rows(l, targets(l)[n - 1], out),
        }
    }
}

proof fn lemma_targets_halt(l: ListingView, a: nat, b: nat)
    requires
        a <= b <= targets(l).len(),
        targets_rows(l, a) is Err,
    ensures
        targets_rows(l, b) == targets_rows(l, a),
    decreases b - a,
{
    if a < b {
        lemma_targets_halt(l, a, (b - 1) as nat);
    }
}

/// The rows of all targets.
#[verifier::loop_isolation(false)]
pub fn collect_targets(l: &Listing) -> (r: Result<Vec<Row>, Stop>)
    requires
        l.wf(),
    ensures
        rows_result(r) == targets_rows(l@, targets(l@).len()),
{
    let mut out: Vec<Row> = Vec::new();
    assert(row_views(out@) =~= seq![]);
    assert(l@.scopes.len() == l.prefixes@.len());
    if l.prefixes.len() == 0 {
        proof {
            reveal_strlit("");
            assert(""@ =~= seq![]);
            assert(targets_rows(l@, 0) == Ok::<Seq<RowView>, StopView>(seq![]));
            reveal_with_fuel(targets_rows, 2);
        }
        return collect_target(l, "", out);
    }
    let mut i: usize = 0;
    while i < l.prefixes.len()
        invariant
            i <= l.prefixes@.len(),
            targets_rows(l@, i as nat) == Ok::<Seq<RowView>, StopView>(row_views(out@)),
        decreases l.prefixes.len() - i,
    {
        assert(targets(l@)[i as int] == l.prefixes@[i as int]@);
        match collect_target(l, l.prefixes[i].as_str(), out) {
            Err(s) => {
                proof {
                    lemma_targets_halt(l@, (i + 1) as nat, targets(l@).len());
                }
                return Err(s);
            },
            Ok(rows) => {
                out = rows;
            },
        }
        i = i + 1;
    }
    Ok(out)
}

} // verus!
