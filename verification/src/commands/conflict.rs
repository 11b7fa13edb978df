//! `conflict`: the helper files that a conflicting pull leaves behind, and how
//! they are listed, cleaned and accepted.

pub mod reported;
pub mod scopes;

use crate::collections::{self, PathSet};
use crate::error::{Error, IoKind};
use crate::object::Timestamp;
use crate::text::{
    self, concat, concat3, copy_strings, decimal_of, ends_with, join, join_path, path_components,
    str_eq, strip_suffix,
};
use crate::worktree::{self, find_path, DiskEntry, DiskKind, STATE_DIR};
use vstd::prelude::*;
use vstd::string::*;

verus! {

/// Suffix of the sidecar file that records the tracked metadata (mtime and the
/// executable-bit mode) of the base and remote sides of a conflict.
pub const CONFLICT_META_SUFFIX: &'static str = ".omemfs-conflict-meta";

pub const CONFLICT_SUFFIX_BASE: &'static str = ".omemfs-conflict-base";

pub const CONFLICT_SUFFIX_LOCAL: &'static str = ".omemfs-conflict-local";

pub const CONFLICT_SUFFIX_REMOTE: &'static str = ".omemfs-conflict-remote";

/// Tracked metadata for one side of a conflict.
pub struct SideMeta {
    pub mtime: Option<Timestamp>,
    pub mode: Option<String>,
}

/// Sidecar metadata for a conflicting path: the tracked metadata of the base
/// and remote sides. The local side is absent on purpose: accepting it keeps
/// the working-tree file as it is.
pub struct ConflictMeta {
    pub base: Option<SideMeta>,
    pub remote: Option<SideMeta>,
}

impl ConflictMeta {
    /// Whether there is anything to write: a sidecar without either side is not
    /// written.
    pub fn worth_writing(&self) -> (r: bool)
        ensures
            r == (self.base is Some || self.remote is Some),
    {
        self.base.is_some() || self.remote.is_some()
    }
}

/// Path of the metadata sidecar file for a given base path.
pub fn sidecar_path(base_path: &str) -> (r: String)
    ensures
        r@ == base_path@ + CONFLICT_META_SUFFIX@,
{
    concat(base_path, CONFLICT_META_SUFFIX)
}

pub struct ConflictListOptions {
    pub work_dir: String,
}

pub struct ConflictCleanOptions {
    pub work_dir: String,
    pub current_dir: String,
    pub paths: Vec<String>,
    pub dry_run: bool,
}

pub struct ConflictAcceptOptions {
    pub work_dir: String,
    pub current_dir: String,
    pub paths: Vec<String>,
    pub dry_run: bool,
    pub side: AcceptSide,
}

/// Which version of a conflicting file to keep.
#[derive(Clone, Copy, Debug, PartialEq, Eq, Structural)]
pub enum AcceptSide {
    Remote,
    Local,
    Base,
}

impl AcceptSide {
    pub open spec fn suffix_text(self) -> Seq<char> {
        match self {
            AcceptSide::Remote => CONFLICT_SUFFIX_REMOTE@,
            AcceptSide::Local => CONFLICT_SUFFIX_LOCAL@,
            AcceptSide::Base => CONFLICT_SUFFIX_BASE@,
        }
    }

    pub open spec fn label_text(self) -> Seq<char> {
        match self {
            AcceptSide::Remote => "remote"@,
            AcceptSide::Local => "local"@,
            AcceptSide::Base => "base"@,
        }
    }

    /// The suffix of the helper file of this side.
    pub fn suffix(&self) -> (r: &'static str)
        ensures
            r@ == self.suffix_text(),
    {
        match self {
            AcceptSide::Remote => CONFLICT_SUFFIX_REMOTE,
            AcceptSide::Local => CONFLICT_SUFFIX_LOCAL,
            AcceptSide::Base => CONFLICT_SUFFIX_BASE,
        }
    }

    /// The name of this side.
    pub fn label(&self) -> (r: &'static str)
        ensures
            r@ == self.label_text(),
    {
        match self {
            AcceptSide::Remote => "remote",
            AcceptSide::Local => "local",
            AcceptSide::Base => "base",
        }
    }
}

// ---------------------------------------------------------------------------
// Names of helper files
// ---------------------------------------------------------------------------

/// Whether `name` ends in one of the three helper suffixes.
pub open spec fn helper_name(name: Seq<char>) -> bool {
    ||| text::has_suffix(name, CONFLICT_SUFFIX_BASE@)
    ||| text::has_suffix(name, CONFLICT_SUFFIX_LOCAL@)
    ||| text::has_suffix(name, CONFLICT_SUFFIX_REMOTE@)
}

/// The name that a helper file belongs to.
pub open spec fn without_suffix(name: Seq<char>) -> Option<Seq<char>> {
    if text::has_suffix(name, CONFLICT_SUFFIX_BASE@) {
        Some(name.take(name.len() - CONFLICT_SUFFIX_BASE@.len()))
    } else if text::has_suffix(name, CONFLICT_SUFFIX_LOCAL@) {
        Some(name.take(name.len() - CONFLICT_SUFFIX_LOCAL@.len()))
    } else if text::has_suffix(name, CONFLICT_SUFFIX_REMOTE@) {
        Some(name.take(name.len() - CONFLICT_SUFFIX_REMOTE@.len()))
    } else {
        None
    }
}

/// Whether `name` ends in one of the three helper suffixes.
pub fn is_conflict_helper(name: &str) -> (r: bool)
    ensures
        r == helper_name(name@),
{
    ends_with(name, CONFLICT_SUFFIX_BASE) || ends_with(name, CONFLICT_SUFFIX_LOCAL) || ends_with(
        name,
        CONFLICT_SUFFIX_REMOTE,
    )
}

/// The name that a helper file belongs to; `None` for any other file.
pub fn strip_conflict_suffix(name: &str) -> (r: Option<String>)
    ensures
        match r {
            Some(s) => without_suffix(name@) == Some(s@),
            None => without_suffix(name@) == None::<Seq<char>>,
        },
{
    match strip_suffix(name, CONFLICT_SUFFIX_BASE) {
        Some(s) => Some(s),
        None => match strip_suffix(name, CONFLICT_SUFFIX_LOCAL) {
            Some(s) => Some(s),
            None => strip_suffix(name, CONFLICT_SUFFIX_REMOTE),
        },
    }
}

/// The path that a helper path belongs to; any other path belongs to itself.
pub open spec fn helper_base(helper: Seq<char>) -> Seq<char> {
    match without_suffix(helper) {
        Some(b) => b,
        None => helper,
    }
}

/// The path that a helper path belongs to; any other path belongs to itself.
pub fn base_path_of_helper(helper_rel: &str) -> (r: String)
    ensures
        r@ == helper_base(helper_rel@),
{
    match strip_conflict_suffix(helper_rel) {
        Some(s) => s,
        None => helper_rel.to_owned(),
    }
}

/// The helper file of each side belongs to the path it was written for.
pub proof fn law_helper_base(base: Seq<char>, side: AcceptSide)
    ensures
        helper_name(base + side.suffix_text()),
        helper_base(base + side.suffix_text()) == base,
{
    reveal_strlit(".omemfs-conflict-base");
    reveal_strlit(".omemfs-conflict-local");
    reveal_strlit(".omemfs-conflict-remote");
    let b = CONFLICT_SUFFIX_BASE@;
    let l = CONFLICT_SUFFIX_LOCAL@;
    let m = CONFLICT_SUFFIX_REMOTE@;
    let s = side.suffix_text();
    let h = base + s;
    assert(h.skip(h.len() - s.len()) =~= s);
    assert(h.take(h.len() - s.len()) =~= base);
    assert(h[h.len() - 1] == s[s.len() - 1]);
    assert(h[h.len() - 3] == s[s.len() - 3]);
    if text::has_suffix(h, b) {
        assert(h.skip(h.len() - b.len())[b.len() - 1] == h[h.len() - 1]);
        assert(h.skip(h.len() - b.len())[b.len() - 3] == h[h.len() - 3]);
    }
    if text::has_suffix(h, l) {
        assert(h.skip(h.len() - l.len())[l.len() - 1] == h[h.len() - 1]);
    }
    if text::has_suffix(h, m) {
        assert(h.skip(h.len() - m.len())[m.len() - 1] == h[h.len() - 1]);
        assert(h.skip(h.len() - m.len())[m.len() - 3] == h[h.len() - 3]);
    }
}

// ---------------------------------------------------------------------------
// Walks
// ---------------------------------------------------------------------------

/// `prefix/name`, or the one of the two that is not empty.
pub open spec fn under(prefix: Seq<char>, name: Seq<char>) -> Seq<char> {
    if name.len() == 0 {
        prefix
    } else {
        text::joined(prefix, name)
    }
}

fn path_under(prefix: &str, name: &str) -> (r: String)
    ensures
        r@ == under(prefix@, name@),
{
    if name.is_empty() {
        prefix.to_owned()
    } else {
        join_path(prefix, name)
    }
}

/// `acc` with the paths in conflict among the first `n` entries of a directory
/// and all that they hold.
pub open spec fn conflicts_in(
    es: Seq<DiskEntry>,
    n: nat,
    prefix: Seq<char>,
    acc: Set<Seq<char>>,
) -> Set<Seq<char>>
    decreases es, n,
{
    if n == 0 || n > es.len() {
        acc
    } else {
        let prev = conflicts_in(es, (n - 1) as nat, prefix, acc);
        let e = es[n - 1];
        if e.name@ == STATE_DIR@ {
            prev
        } else {
            match e.kind {
                DiskKind::Dir(sub) => conflicts_in(
                    sub@,
                    sub@.len(),
                    text::joined(prefix, e.name@),
                    prev,
                ),
                _ => match without_suffix(e.name@) {
                    Some(base) => prev.insert(under(prefix, base)),
                    None => prev,
                },
            }
        }
    }
}

/// `acc` with the helper files among the first `n` entries of a directory and
/// all that they hold.
pub open spec fn helpers_in(
    es: Seq<DiskEntry>,
    n: nat,
    prefix: Seq<char>,
    acc: Set<Seq<char>>,
) -> Set<Seq<char>>
    decreases es, n,
{
    if n == 0 || n > es.len() {
        acc
    } else {
        let prev = helpers_in(es, (n - 1) as nat, prefix, acc);
        let e = es[n - 1];
        if e.name@ == STATE_DIR@ {
            prev
        } else {
            match e.kind {
                DiskKind::Dir(sub) => helpers_in(sub@, sub@.len(), text::joined(prefix, e.name@), prev),
                _ => if helper_name(e.name@) {
                    prev.insert(text::joined(prefix, e.name@))
                } else {
                    prev
                },
            }
        }
    }
}

fn collect_conflicting_recursive(dir: &Vec<DiskEntry>, prefix: &str, result: &mut PathSet)
    requires
        old(result).wf(),
    ensures
        final(result).wf(),
        final(result)@ == conflicts_in(dir@, dir@.len(), prefix@, old(result)@),
    decreases dir,
{
    let ghost acc = result@;
    let mut i: usize = 0;
    while i < dir.len()
        invariant
            i <= dir@.len(),
            result.wf(),
            result@ == conflicts_in(dir@, i as nat, prefix@, acc),
        decreases dir.len() - i,
    {
        let e = &dir[i];
        if !str_eq(e.name.as_str(), STATE_DIR) {
            match &e.kind {
                DiskKind::Dir(sub) => {
                    let path = join_path(prefix, e.name.as_str());
                    collect_conflicting_recursive(sub, path.as_str(), result);
                },
                _ => {
                    if let Some(base) = strip_conflict_suffix(e.name.as_str()) {
                        result.insert(path_under(prefix, base.as_str()));
                    }
                },
            }
        }
        i = i + 1;
    }
}

fn collect_helper_files_recursive(dir: &Vec<DiskEntry>, prefix: &str, result: &mut PathSet)
    requires
        old(result).wf(),
    ensures
        final(result).wf(),
        final(result)@ == helpers_in(dir@, dir@.len(), prefix@, old(result)@),
    decreases dir,
{
    let ghost acc = result@;
    let mut i: usize = 0;
    while i < dir.len()
        invariant
            i <= dir@.len(),
            result.wf(),
            result@ == helpers_in(dir@, i as nat, prefix@, acc),
        decreases dir.len() - i,
    {
        let e = &dir[i];
        if !str_eq(e.name.as_str(), STATE_DIR) {
            match &e.kind {
                DiskKind::Dir(sub) => {
                    let path = join_path(prefix, e.name.as_str());
                    collect_helper_files_recursive(sub, path.as_str(), result);
                },
                _ => {
                    if is_conflict_helper(e.name.as_str()) {
                        result.insert(join_path(prefix, e.name.as_str()));
                    }
                },
            }
        }
        i = i + 1;
    }
}

/// The directory that a scope names; the empty scope names the whole tree.
pub open spec fn scope_dir(root: Seq<DiskEntry>, scope: Seq<char>) -> Option<Seq<DiskEntry>> {
    if text::components(scope).len() == 0 {
        Some(root)
    } else {
        match worktree::at_path(root, text::components(scope), 0) {
            Some(e) => match e.kind {
                DiskKind::Dir(sub) => Some(sub@),
                _ => None,
            },
            None => None,
        }
    }
}

/// Whether a regular file, or a link to one, stands at a path.
pub open spec fn is_file_at(root: Seq<DiskEntry>, path: Seq<char>) -> bool {
    match worktree::at_path(root, text::components(path), 0) {
        Some(e) => match e.kind {
            DiskKind::File { .. } => true,
            DiskKind::Symlink { to_file, .. } => to_file,
            _ => false,
        },
        None => false,
    }
}

/// Whether any of the three helper files of a path is there.
pub open spec fn has_helpers(root: Seq<DiskEntry>, base: Seq<char>) -> bool {
    ||| is_file_at(root, base + CONFLICT_SUFFIX_BASE@)
    ||| is_file_at(root, base + CONFLICT_SUFFIX_LOCAL@)
    ||| is_file_at(root, base + CONFLICT_SUFFIX_REMOTE@)
}

fn directory_of<'a>(root: &'a Vec<DiskEntry>, scope: &str) -> (r: Option<&'a Vec<DiskEntry>>)
    ensures
        match r {
            Some(d) => scope_dir(root@, scope@) == Some(d@),
            None => scope_dir(root@, scope@) == None::<Seq<DiskEntry>>,
        },
{
    let comps = path_components(scope);
    assert(comps@.len() == text::components(scope@).len());
    if comps.len() == 0 {
        return Some(root);
    }
    match find_path(root, &comps, 0) {
        Some(e) => match &e.kind {
            DiskKind::Dir(sub) => Some(sub),
            _ => None,
        },
        None => None,
    }
}

fn file_at(root: &Vec<DiskEntry>, path: &str) -> (r: bool)
    ensures
        r == is_file_at(root@, path@),
{
    let comps = path_components(path);
    match find_path(root, &comps, 0) {
        Some(e) => match &e.kind {
            DiskKind::File { .. } => true,
            DiskKind::Symlink { to_file, .. } => *to_file,
            _ => false,
        },
        None => false,
    }
}

/// Whether any of the three helper files of `base` is there.
fn base_has_conflict_helpers(root: &Vec<DiskEntry>, base: &str) -> (r: bool)
    ensures
        r == has_helpers(root@, base@),
{
    file_at(root, concat(base, CONFLICT_SUFFIX_BASE).as_str()) || file_at(
        root,
        concat(base, CONFLICT_SUFFIX_LOCAL).as_str(),
    ) || file_at(root, concat(base, CONFLICT_SUFFIX_REMOTE).as_str())
}

/// The paths in conflict in the whole tree.
pub open spec fn all_conflicts(root: Seq<DiskEntry>) -> Set<Seq<char>> {
    conflicts_in(root, root.len(), ""@, Set::empty())
}

/// The paths in conflict within the first `n` scopes.
pub open spec fn scoped_conflicts(root: Seq<DiskEntry>, scopes: Seq<Seq<char>>, n: nat) -> Set<
    Seq<char>,
>
    decreases n,
{
    if n == 0 || n > scopes.len() {
        Set::empty()
    } else {
        let prev = scoped_conflicts(root, scopes, (n - 1) as nat);
        let scope = scopes[n - 1];
        match scope_dir(root, scope) {
            Some(dir) => conflicts_in(dir, dir.len(), scope, prev),
            None => if has_helpers(root, scope) {
                prev.insert(scope)
            } else {
                prev
            },
        }
    }
}

/// The paths in conflict; without scopes, those of the whole tree.
pub open spec fn conflicts(root: Seq<DiskEntry>, scopes: Seq<Seq<char>>) -> Set<Seq<char>> {
    if scopes.len() == 0 {
        all_conflicts(root)
    } else {
        scoped_conflicts(root, scopes, scopes.len())
    }
}

/// The paths in conflict in the whole tree.
pub fn collect_conflicting_base_paths(root: &Vec<DiskEntry>) -> (r: PathSet)
    ensures
        r.wf(),
        r@ == all_conflicts(root@),
{
    let mut result = PathSet::new();
    collect_conflicting_recursive(root, "", &mut result);
    result
}

/// The paths in conflict within the given scopes. No scope means the entire
/// working tree. A scope that is no directory names a file, which may be absent
/// itself: its helper files tell whether it is in conflict.
pub fn collect_conflicting_base_paths_scoped(root: &Vec<DiskEntry>, scopes: &Vec<String>) -> (r:
    PathSet)
    ensures
        r.wf(),
        r@ == conflicts(root@, text::views(scopes@)),
{
    if scopes.len() == 0 {
        return collect_conflicting_base_paths(root);
    }
    let mut result = PathSet::new();
    let mut i: usize = 0;
    while i < scopes.len()
        invariant
            i <= scopes@.len(),
            result.wf(),
            result@ == scoped_conflicts(root@, text::views(scopes@), i as nat),
        decreases scopes.len() - i,
    {
        let scope = &scopes[i];
        match directory_of(root, scope.as_str()) {
            Some(dir) => {
                collect_conflicting_recursive(dir, scope.as_str(), &mut result);
            },
            None => {
                if base_has_conflict_helpers(root, scope.as_str()) {
                    result.insert(scope.clone());
                }
            },
        }
        i = i + 1;
    }
    result
}

/// `acc` with the helper files of one path that are there.
pub open spec fn own_helpers(root: Seq<DiskEntry>, base: Seq<char>, acc: Set<Seq<char>>) -> Set<
    Seq<char>,
> {
    let a = if is_file_at(root, base + CONFLICT_SUFFIX_BASE@) {
        acc.insert(base + CONFLICT_SUFFIX_BASE@)
    } else {
        acc
    };
    let b = if is_file_at(root, base + CONFLICT_SUFFIX_LOCAL@) {
        a.insert(base + CONFLICT_SUFFIX_LOCAL@)
    } else {
        a
    };
    if is_file_at(root, base + CONFLICT_SUFFIX_REMOTE@) {
        b.insert(base + CONFLICT_SUFFIX_REMOTE@)
    } else {
        b
    }
}

/// The helper files within the first `n` scopes.
pub open spec fn scoped_helpers(root: Seq<DiskEntry>, scopes: Seq<Seq<char>>, n: nat) -> Set<
    Seq<char>,
>
    decreases n,
{
    if n == 0 || n > scopes.len() {
        Set::empty()
    } else {
        let prev = scoped_helpers(root, scopes, (n - 1) as nat);
        let scope = scopes[n - 1];
        match scope_dir(root, scope) {
            Some(dir) => helpers_in(dir, dir.len(), scope, prev),
            None => own_helpers(root, scope, prev),
        }
    }
}

/// The helper files; without scopes, those of the whole tree.
pub open spec fn helper_files(root: Seq<DiskEntry>, scopes: Seq<Seq<char>>) -> Set<Seq<char>> {
    if scopes.len() == 0 {
        helpers_in(root, root.len(), ""@, Set::empty())
    } else {
        scoped_helpers(root, scopes, scopes.len())
    }
}

fn add_if_file(root: &Vec<DiskEntry>, path: String, result: &mut PathSet)
    requires
        old(result).wf(),
    ensures
        final(result).wf(),
        final(result)@ == if is_file_at(root@, path@) {
            old(result)@.insert(path@)
        } else {
            old(result)@
        },
{
    if file_at(root, path.as_str()) {
        result.insert(path);
    }
}

/// The helper files within the given scopes, each once and in order. No scope
/// means the entire working tree.
pub fn collect_helper_files(root: &Vec<DiskEntry>, scopes: &Vec<String>) -> (r: Vec<String>)
    ensures
        text::views(r@) == collections::listing(helper_files(root@, text::views(scopes@))),
        crate::collections::is_listing(text::views(r@), helper_files(root@, text::views(scopes@))),
{
    let mut result = PathSet::new();
    if scopes.len() == 0 {
        collect_helper_files_recursive(root, "", &mut result);
    } else {
        let mut i: usize = 0;
        while i < scopes.len()
            invariant
                i <= scopes@.len(),
                result.wf(),
                result@ == scoped_helpers(root@, text::views(scopes@), i as nat),
            decreases scopes.len() - i,
        {
            let scope = &scopes[i];
            match directory_of(root, scope.as_str()) {
                Some(dir) => {
                    collect_helper_files_recursive(dir, scope.as_str(), &mut result);
                },
                None => {
                    add_if_file(root, concat(scope.as_str(), CONFLICT_SUFFIX_BASE), &mut result);
                    add_if_file(root, concat(scope.as_str(), CONFLICT_SUFFIX_LOCAL), &mut result);
                    add_if_file(root, concat(scope.as_str(), CONFLICT_SUFFIX_REMOTE), &mut result);
                },
            }
            i = i + 1;
        }
    }
    result.sorted()
}

// ---------------------------------------------------------------------------
// Scopes
// ---------------------------------------------------------------------------

/// Why a scope cannot be used.
#[derive(Clone, Copy, Debug, PartialEq, Eq, Structural)]
pub enum ScopeFault {
    /// It leads through a symlink.
    Link,
    /// It leads through something that is not a directory.
    NotADirectory,
}

/// What keeps the path of the components from `from` on from being followed. A path
/// that is not there is fine.
pub open spec fn scope_fault(es: Seq<DiskEntry>, comps: Seq<Seq<char>>, from: nat) -> Option<
    ScopeFault,
>
    decreases es,
{
    if from >= comps.len() {
        None
    } else {
        match worktree::first_named(es, comps[from as int], 0) {
            Some(i) => if i >= es.len() {
                None
            } else {
                match es[i as int].kind {
                    DiskKind::Symlink { .. } => Some(ScopeFault::Link),
                    DiskKind::Dir(sub) => scope_fault(sub@, comps, from + 1),
                    _ => if from + 1 < comps.len() {
                        Some(ScopeFault::NotADirectory)
                    } else {
                        None
                    },
                }
            },
            None => None,
        }
    }
}

fn fault_on_path(es: &Vec<DiskEntry>, comps: &Vec<String>, from: usize) -> (r: Option<ScopeFault>)
    ensures
        r == scope_fault(es@, text::views(comps@), from as nat),
    decreases es,
{
    if from >= comps.len() {
        return None;
    }
    let ghost wanted = text::views(comps@)[from as int];
    let mut i: usize = 0;
    while i < es.len()
        invariant
            from < comps.len(),
            i <= es@.len(),
            wanted == comps@[from as int]@,
            wanted == text::views(comps@)[from as int],
            worktree::first_named(es@, wanted, 0) == worktree::first_named(es@, wanted, i as nat),
        decreases es.len() - i,
    {
        if str_eq(es[i].name.as_str(), comps[from].as_str()) {
            return match &es[i].kind {
                DiskKind::Symlink { .. } => Some(ScopeFault::Link),
                DiskKind::Dir(sub) => fault_on_path(sub, comps, from + 1),
                _ => if from + 1 < comps.len() {
                    Some(ScopeFault::NotADirectory)
                } else {
                    None
                },
            };
        }
        i = i + 1;
    }
    None
}

/// What is said of a scope that leads through a symlink.
pub open spec fn link_message(scope: Seq<char>) -> Seq<char> {
    "path "@ + scope + " traverses a symlink"@
}

/// What is wrong with a scope.
pub open spec fn fault_of(root: Seq<DiskEntry>, scope: Seq<char>) -> Option<ScopeFault> {
    scope_fault(root, text::components(scope), 0)
}

/// Whether an error is the one about a scope.
pub open spec fn is_fault(e: Error, fault: Option<ScopeFault>, scope: Seq<char>) -> bool {
    match fault {
        Some(ScopeFault::Link) => e matches Error::Other(m) && m@ == link_message(scope),
        Some(ScopeFault::NotADirectory) => e matches Error::Io(kind, m) && kind
            == IoKind::NotADirectory && m@ == "Not a directory (os error 20)"@,
        None => false,
    }
}

/// Rejects a scope that would reach its target through a symlink, or that leads through
/// something that is not a directory.
pub fn ensure_scope_is_physical(root: &Vec<DiskEntry>, scope: &str) -> (r: Result<(), Error>)
    ensures
        match r {
            Ok(()) => fault_of(root@, scope@) is None,
            Err(e) => is_fault(e, fault_of(root@, scope@), scope@),
        },
{
    let comps = path_components(scope);
    match fault_on_path(root, &comps, 0) {
        None => Ok(()),
        Some(ScopeFault::Link) => Err(
            Error::Other(concat3("path ", scope, " traverses a symlink")),
        ),
        Some(ScopeFault::NotADirectory) => Err(
            Error::Io(IoKind::NotADirectory, "Not a directory (os error 20)".to_owned()),
        ),
    }
}

/// Checks the scopes, relative to the repository root, one after the other.
///
/// A scope that is not accepted is an error: it must never be taken for the
/// empty list of scopes, which means the entire working tree.
pub fn resolve_scope_paths(root: &Vec<DiskEntry>, scopes: &Vec<String>) -> (r: Result<
    Vec<String>,
    Error,
>)
    ensures
        match r {
            Ok(v) => v@ == scopes@ && forall|i: int|
                0 <= i < scopes@.len() ==> fault_of(root@, (#[trigger] scopes@[i])@) is None,
            Err(e) => exists|i: int|
                0 <= i < scopes@.len() && is_fault(
                    e,
                    fault_of(root@, (#[trigger] scopes@[i])@),
                    scopes@[i]@,
                ) && forall|k: int|
                    0 <= k < i ==> fault_of(root@, (#[trigger] scopes@[k])@) is None,
        },
{
    let mut i: usize = 0;
    while i < scopes.len()
        invariant
            i <= scopes@.len(),
            forall|k: int| 0 <= k < i ==> fault_of(root@, (#[trigger] scopes@[k])@) is None,
        decreases scopes.len() - i,
    {
        match ensure_scope_is_physical(root, scopes[i].as_str()) {
            Ok(()) => {},
            Err(e) => {
                assert(is_fault(e, fault_of(root@, scopes@[i as int]@), scopes@[i as int]@));
                return Err(e);
            },
        }
        i = i + 1;
    }
    Ok(copy_strings(scopes))
}

// ---------------------------------------------------------------------------
// list
// ---------------------------------------------------------------------------

/// The ending that makes a noun plural, unless there is just one.
pub open spec fn plural(n: nat) -> Seq<char> {
    if n == 1 {
        ""@
    } else {
        "s"@
    }
}

fn plural_of(n: usize) -> (r: &'static str)
    ensures
        r@ == plural(n as nat),
{
    if n == 1 {
        ""
    } else {
        "s"
    }
}

/// Each text with `lead` before it.
pub open spec fn lead_each(lead: Seq<char>, ps: Seq<Seq<char>>) -> Seq<Seq<char>> {
    Seq::new(ps.len(), |i: int| lead + ps[i])
}

/// Each text with `lead` before it.
pub fn with_lead(lead: &str, ps: &Vec<String>) -> (r: Vec<String>)
    ensures
        text::views(r@) == lead_each(lead@, text::views(ps@)),
{
    let mut out: Vec<String> = Vec::new();
    let mut i: usize = 0;
    while i < ps.len()
        invariant
            i <= ps@.len(),
            out@.len() == i,
            forall|k: int| 0 <= k < i ==> (#[trigger] out@[k])@ == lead@ + ps@[k]@,
        decreases ps.len() - i,
    {
        out.push(concat(lead, ps[i].as_str()));
        i = i + 1;
    }
    assert(text::views(out@) =~= lead_each(lead@, text::views(ps@)));
    out
}

/// What listing the conflicts prints: nothing when there are none, else the
/// paths and how many they are.
pub open spec fn list_lines(ps: Seq<Seq<char>>) -> Seq<Seq<char>> {
    if ps.len() == 0 {
        seq![]
    } else {
        lead_each("  "@, ps).push(
            text::decimal(ps.len()) + " path"@ + plural(ps.len()) + " with unresolved conflicts."@,
        )
    }
}

fn count_line(n: usize, noun: &str, rest: &str) -> (r: String)
    ensures
        r@ == text::decimal(n as nat) + noun@ + plural(n as nat) + rest@,
{
    let mut s = decimal_of(n as u64);
    s.append(noun);
    s.append(plural_of(n));
    s.append(rest);
    s
}

fn push_line(lines: &mut Vec<String>, line: String)
    ensures
        text::views(final(lines)@) == text::views(old(lines)@).push(line@),
{
    let ghost before = text::views(lines@);
    lines.push(line);
    assert(text::views(lines@) =~= before.push(line@));
}

/// Lists the paths with unresolved conflicts.
pub fn run_list(root: &Vec<DiskEntry>) -> (r: Vec<String>)
    ensures
        text::views(r@) == list_lines(collections::listing(all_conflicts(root@))),
{
    let paths = collect_conflicting_base_paths(root).sorted();
    if paths.len() == 0 {
        let none: Vec<String> = Vec::new();
        assert(text::views(none@) =~= seq![]);
        assert(text::views(paths@).len() == 0);
        return none;
    }
    let mut lines = with_lead("  ", &paths);
    assert(text::views(paths@).len() == paths@.len());
    push_line(&mut lines, count_line(paths.len(), " path", " with unresolved conflicts."));
    lines
}

// ---------------------------------------------------------------------------
// clean
// ---------------------------------------------------------------------------

/// What cleaning conflicts does and prints.
pub struct CleanPlan {
    /// The helper files to delete; none in a dry run.
    pub delete: Vec<String>,
    /// The metadata sidecars to delete where they are there; none in a dry run.
    pub sidecars: Vec<String>,
    pub lines: Vec<String>,
}

/// The paths that a list of helper files belongs to.
pub open spec fn bases_of(helpers: Seq<Seq<char>>, n: nat) -> Set<Seq<char>>
    decreases n,
{
    if n == 0 || n > helpers.len() {
        Set::empty()
    } else {
        bases_of(helpers, (n - 1) as nat).insert(helper_base(helpers[n - 1]))
    }
}

/// What cleaning conflicts prints, for these helper files.
pub open spec fn clean_lines(helpers: Seq<Seq<char>>, dry_run: bool) -> Seq<Seq<char>> {
    let each = lead_each(
        if dry_run {
            "  would delete: "@
        } else {
            "  deleted: "@
        },
        helpers,
    );
    let n = collections::listing(bases_of(helpers, helpers.len())).len();
    if n == 0 {
        each
    } else {
        each.push(
            text::decimal(n) + " conflict"@ + plural(n) + (if dry_run {
                " would be cleaned (dry run)."@
            } else {
                " cleaned."@
            }),
        )
    }
}

fn with_tail(ps: &Vec<String>, tail: &str) -> (r: Vec<String>)
    ensures
        text::views(r@) == Seq::new(ps@.len(), |i: int| ps@[i]@ + tail@),
{
    let mut out: Vec<String> = Vec::new();
    let mut i: usize = 0;
    while i < ps.len()
        invariant
            i <= ps@.len(),
            out@.len() == i,
            forall|k: int| 0 <= k < i ==> (#[trigger] out@[k])@ == ps@[k]@ + tail@,
        decreases ps.len() - i,
    {
        out.push(concat(ps[i].as_str(), tail));
        i = i + 1;
    }
    assert(text::views(out@) =~= Seq::new(ps@.len(), |k: int| ps@[k]@ + tail@));
    out
}

/// Cleans the helper files within `scopes`: each of them is deleted, and the
/// sidecar of each path that one belongs to. A dry run deletes nothing.
pub fn run_clean(root: &Vec<DiskEntry>, scopes: &Vec<String>, dry_run: bool) -> (r: CleanPlan)
    ensures
        ({
            let helpers = collections::listing(helper_files(root@, text::views(scopes@)));
            let bases = collections::listing(bases_of(helpers, helpers.len()));
            &&& text::views(r.lines@) == clean_lines(helpers, dry_run)
            &&& dry_run ==> r.delete@.len() == 0 && r.sidecars@.len() == 0
            &&& !dry_run ==> text::views(r.delete@) == helpers && text::views(r.sidecars@) == Seq::new(
                bases.len(),
                |i: int| bases[i] + CONFLICT_META_SUFFIX@,
            )
        }),
{
    let helpers = collect_helper_files(root, scopes);
    let mut bases = PathSet::new();
    let mut i: usize = 0;
    while i < helpers.len()
        invariant
            i <= helpers@.len(),
            bases.wf(),
            bases@ == bases_of(text::views(helpers@), i as nat),
        decreases helpers.len() - i,
    {
        bases.insert(base_path_of_helper(helpers[i].as_str()));
        i = i + 1;
    }
    assert(text::views(helpers@).len() == helpers@.len());
    let base_list = bases.sorted();
    assert(text::views(base_list@).len() == base_list@.len());
    let mut lines = with_lead(
        if dry_run {
            "  would delete: "
        } else {
            "  deleted: "
        },
        &helpers,
    );
    let n: usize = base_list.len();
    if n > 0 {
        push_line(
            &mut lines,
            count_line(
                n,
                " conflict",
                if dry_run {
                    " would be cleaned (dry run)."
                } else {
                    " cleaned."
                },
            ),
        );
    }
    if dry_run {
        CleanPlan { delete: Vec::new(), sidecars: Vec::new(), lines }
    } else {
        let sidecars = with_tail(&base_list, CONFLICT_META_SUFFIX);
        assert(text::views(sidecars@) =~= Seq::new(
            text::views(base_list@).len(),
            |k: int| text::views(base_list@)[k] + CONFLICT_META_SUFFIX@,
        ));
        CleanPlan { delete: helpers, sidecars, lines }
    }
}

// ---------------------------------------------------------------------------
// accept-remote / accept-local / accept-base
// ---------------------------------------------------------------------------

/// How one conflict is resolved.
pub struct AcceptStep {
    /// The path in conflict.
    pub base: String,
    /// Whether the accepted side has a version of it: if so it replaces the
    /// file, if not the file is deleted.
    pub present: bool,
}

/// What accepting a side does and prints.
pub struct AcceptPlan {
    /// The conflicts to resolve; none in a dry run.
    pub steps: Vec<AcceptStep>,
    pub lines: Vec<String>,
}

/// Whether anything stands at a path. A link that leads nowhere does not count.
pub open spec fn exists_at(root: Seq<DiskEntry>, path: Seq<char>) -> bool {
    match worktree::at_path(root, text::components(path), 0) {
        Some(e) => match e.kind {
            DiskKind::Symlink { leads, .. } => leads,
            _ => true,
        },
        None => false,
    }
}

fn is_there(root: &Vec<DiskEntry>, path: &str) -> (r: bool)
    ensures
        r == exists_at(root@, path@),
{
    let comps = path_components(path);
    match find_path(root, &comps, 0) {
        Some(e) => match &e.kind {
            DiskKind::Symlink { leads, .. } => *leads,
            _ => true,
        },
        None => false,
    }
}

/// The line about one conflict.
pub open spec fn accept_line(base: Seq<char>, side: AcceptSide, present: bool, dry_run: bool) -> Seq<
    char,
> {
    if !dry_run {
        "  accepted "@ + side.label_text() + ": "@ + base
    } else if present {
        "  would accept "@ + side.label_text() + ": "@ + base
    } else {
        "  would delete (no "@ + side.label_text() + " version): "@ + base
    }
}

/// What accepting a side prints, for these paths in conflict.
pub open spec fn accept_lines(
    root: Seq<DiskEntry>,
    bases: Seq<Seq<char>>,
    side: AcceptSide,
    dry_run: bool,
) -> Seq<Seq<char>> {
    Seq::new(
        bases.len(),
        |i: int|
            accept_line(bases[i], side, exists_at(root, bases[i] + side.suffix_text()), dry_run),
    ).push(
        text::decimal(bases.len()) + " conflict"@ + plural(bases.len()) + (if dry_run {
            " would be resolved (dry run)."@
        } else {
            " resolved."@
        }),
    )
}

/// How the scope of a command is called in a message.
pub open spec fn scope_text(paths: Seq<Seq<char>>) -> Seq<char> {
    if paths.len() == 0 {
        "working tree"@
    } else {
        text::join_with(paths, ", "@)
    }
}

fn one_accept_line(base: &str, side: AcceptSide, present: bool, dry_run: bool) -> (r: String)
    ensures
        r@ == accept_line(base@, side, present, dry_run),
{
    let mut s = if !dry_run {
        concat3("  accepted ", side.label(), ": ")
    } else if present {
        concat3("  would accept ", side.label(), ": ")
    } else {
        concat3("  would delete (no ", side.label(), " version): ")
    };
    s.append(base);
    s
}

/// Resolves the conflicts within `scopes` by accepting one side. It is an error
/// if there are none.
pub fn run_accept(opts: &ConflictAcceptOptions, root: &Vec<DiskEntry>, scopes: &Vec<String>) -> (r:
    Result<AcceptPlan, Error>)
    ensures
        ({
            let bases = collections::listing(conflicts(root@, text::views(scopes@)));
            match r {
                Err(e) => bases.len() == 0 && (e matches Error::Other(m) && m@
                    == "no conflict files found for '"@ + scope_text(text::views(opts.paths@)) + "'"@),
                Ok(plan) => {
                    &&& bases.len() > 0
                    &&& text::views(plan.lines@) == accept_lines(root@, bases, opts.side, opts.dry_run)
                    &&& opts.dry_run ==> plan.steps@.len() == 0
                    &&& !opts.dry_run ==> plan.steps@.len() == bases.len() && forall|i: int|
                        0 <= i < bases.len() ==> (#[trigger] plan.steps@[i]).base@ == bases[i]
                            && plan.steps@[i].present == exists_at(
                            root@,
                            bases[i] + opts.side.suffix_text(),
                        )
                },
            }
        }),
{
    let bases = collect_conflicting_base_paths_scoped(root, scopes).sorted();
    let ghost want = text::views(bases@);
    assert(want.len() == bases@.len());
    if bases.len() == 0 {
        assert(text::views(opts.paths@).len() == opts.paths@.len());
        let scope = if opts.paths.len() == 0 {
            "working tree".to_owned()
        } else {
            join(&opts.paths, ", ")
        };
        return Err(Error::Other(concat3("no conflict files found for '", scope.as_str(), "'")));
    }
    let mut steps: Vec<AcceptStep> = Vec::new();
    let mut lines: Vec<String> = Vec::new();
    let mut i: usize = 0;
    let ghost all = Seq::new(
        want.len(),
        |k: int|
            accept_line(
                want[k],
                opts.side,
                exists_at(root@, want[k] + opts.side.suffix_text()),
                opts.dry_run,
            ),
    );
    while i < bases.len()
        invariant
            i <= bases@.len(),
            want == text::views(bases@),
            all.len() == want.len(),
            forall|k: int|
                0 <= k < want.len() ==> all[k] == accept_line(
                    #[trigger] want[k],
                    opts.side,
                    exists_at(root@, want[k] + opts.side.suffix_text()),
                    opts.dry_run,
                ),
            text::views(lines@) == all.take(i as int),
            opts.dry_run ==> steps@.len() == 0,
            !opts.dry_run ==> steps@.len() == i && forall|k: int|
                0 <= k < i ==> (#[trigger] steps@[k]).base@ == want[k] && steps@[k].present
                    == exists_at(root@, want[k] + opts.side.suffix_text()),
        decreases bases.len() - i,
    {
        let base = &bases[i];
        let helper = concat(base.as_str(), opts.side.suffix());
        let present = is_there(root, helper.as_str());
        assert(want[i as int] == base@);
        let line = one_accept_line(base.as_str(), opts.side, present, opts.dry_run);
        push_line(&mut lines, line);
        if !opts.dry_run {
            steps.push(AcceptStep { base: base.clone(), present });
        }
        i = i + 1;
        assert(text::views(lines@) =~= all.take(i as int));
    }
    assert(all.take(i as int) =~= all);
    push_line(
        &mut lines,
        count_line(
            bases.len(),
            " conflict",
            if opts.dry_run {
                " would be resolved (dry run)."
            } else {
                " resolved."
            },
        ),
    );
    Ok(AcceptPlan { steps, lines })
}

/// The metadata to restore on an accepted file: that of the accepted side, where
/// it is recorded. Nothing is recorded of the local side.
pub fn accepted_meta<'a>(side: AcceptSide, meta: Option<&'a ConflictMeta>) -> (r: Option<
    &'a SideMeta,
>)
    ensures
        match (side, meta) {
            (AcceptSide::Remote, Some(m)) => match m.remote {
                Some(s) => r == Some(&s),
                None => r is None,
            },
            (AcceptSide::Base, Some(m)) => match m.base {
                Some(s) => r == Some(&s),
                None => r is None,
            },
            _ => r is None,
        },
{
    match meta {
        Some(m) => match side {
            AcceptSide::Remote => m.remote.as_ref(),
            AcceptSide::Base => m.base.as_ref(),
            AcceptSide::Local => None,
        },
        None => None,
    }
}

} // verus!
