//! Putting content back in place of stubs.

use crate::commands::clone::populate::{self, CloneStep, CloneStepView};
use crate::commands::pull::{leaves, leaves::Leaf};
use crate::commands::stub::{self, Found};
use crate::commands::transfer::HashNames;
use crate::object::{
    blob_stub, tree_stub, Content, Halt, ObjectHash, StubRecord, StubTargetType, Timestamp,
    TreeEntry, TreeNode,
};
use crate::text::{self, concat, concat3, decimal_of, join_path, opt_copy, starts_with, str_eq};
use crate::worktree::DIR_STUB_NAME;
use vstd::prelude::*;
use vstd::string::*;

pub mod dealt;

verus! {

/// What the command was asked for.
pub struct ExpandOptions {
    pub work_dir: String,
    /// The directory that paths are relative to.
    pub current_dir: String,
    /// The paths to expand; without any, all stubs are expanded.
    pub paths: Vec<String>,
    pub remote_name: String,
    pub dry_run: bool,
    /// Stubs of at least this size stay; zero expands all.
    pub stub_threshold: u64,
}

// ---------------------------------------------------------------------------
// Which stubs
// ---------------------------------------------------------------------------

/// A stub in the working tree.
pub struct StubItem {
    pub path: String,
    pub record: StubRecord,
}

/// Whether a path is a scope or lies below it. The empty scope is the whole tree.
pub open spec fn covers(scope: Seq<char>, path: Seq<char>) -> bool {
    scope.len() == 0 || path == scope || text::has_prefix(path, scope + "/"@)
}

/// Whether a path is asked for: without scopes every path is.
pub open spec fn in_scope(scopes: Seq<Seq<char>>, path: Seq<char>) -> bool {
    scopes.len() == 0 || exists|i: int| 0 <= i < scopes.len() && covers(#[trigger] scopes[i], path)
}

/// Whether a stub is expanded whatever its size: nothing bounds the size, or the path
/// itself was asked for.
pub open spec fn size_passes(scopes: Seq<Seq<char>>, item: StubItem, threshold: u64) -> bool {
    threshold == 0 || item.record.size < threshold || scopes.contains(item.path@)
}

/// The first `n` stubs that are in scope and expanded (`wanted`), or in scope and kept.
pub open spec fn picked(
    items: Seq<StubItem>,
    scopes: Seq<Seq<char>>,
    threshold: u64,
    wanted: bool,
    n: nat,
) -> Seq<usize>
    decreases n,
{
    if n == 0 || n > items.len() {
        seq![]
    } else {
        let before = picked(items, scopes, threshold, wanted, (n - 1) as nat);
        let item = items[n - 1];
        if in_scope(scopes, item.path@) && size_passes(scopes, item, threshold) == wanted {
            before.push((n - 1) as usize)
        } else {
            before
        }
    }
}

fn scope_covers(scope: &str, path: &str) -> (r: bool)
    ensures
        r == covers(scope@, path@),
{
    proof {
        reveal_strlit("");
        assert(scope@.len() == 0 ==> scope@ =~= ""@);
    }
    str_eq(scope, "") || str_eq(path, scope) || starts_with(path, concat(scope, "/").as_str())
}

fn asked_for(scopes: &Vec<String>, path: &str) -> (r: bool)
    ensures
        r == in_scope(text::views(scopes@), path@),
{
    if scopes.len() == 0 {
        return true;
    }
    let mut i: usize = 0;
    while i < scopes.len()
        invariant
            i <= scopes@.len(),
            scopes@.len() > 0,
            forall|k: int| 0 <= k < i ==> !covers(#[trigger] text::views(scopes@)[k], path@),
        decreases scopes.len() - i,
    {
        assert(text::views(scopes@)[i as int] == scopes@[i as int]@);
        if scope_covers(scopes[i].as_str(), path) {
            return true;
        }
        i = i + 1;
    }
    false
}

fn names_path(scopes: &Vec<String>, path: &str) -> (r: bool)
    ensures
        r == text::views(scopes@).contains(path@),
{
    let mut i: usize = 0;
    while i < scopes.len()
        invariant
            i <= scopes@.len(),
            forall|k: int| 0 <= k < i ==> #[trigger] text::views(scopes@)[k] != path@,
        decreases scopes.len() - i,
    {
        assert(text::views(scopes@)[i as int] == scopes@[i as int]@);
        if str_eq(scopes[i].as_str(), path) {
            return true;
        }
        i = i + 1;
    }
    false
}

/// Which stubs are expanded, and which stay for their size.
pub struct Selection {
    pub expand: Vec<usize>,
    pub kept: Vec<usize>,
}

/// Parts the stubs in scope into those that are expanded and those that stay.
pub fn run(items: &Vec<StubItem>, scopes: &Vec<String>, stub_threshold: u64) -> (r: Selection)
    ensures
        r.expand@ == picked(
            items@,
            text::views(scopes@),
            stub_threshold,
            true,
            items@.len(),
        ),
        r.kept@ == picked(items@, text::views(scopes@), stub_threshold, false, items@.len()),
{
    let ghost sc = text::views(scopes@);
    let mut expand: Vec<usize> = Vec::new();
    let mut kept: Vec<usize> = Vec::new();
    let mut i: usize = 0;
    while i < items.len()
        invariant
            i <= items@.len(),
            sc == text::views(scopes@),
            expand@ == picked(items@, sc, stub_threshold, true, i as nat),
            kept@ == picked(items@, sc, stub_threshold, false, i as nat),
        decreases items.len() - i,
    {
        let item: &StubItem = &items[i];
        if asked_for(scopes, item.path.as_str()) {
            if stub_threshold == 0 || item.record.size < stub_threshold || names_path(
                scopes,
                item.path.as_str(),
            ) {
                expand.push(i);
            } else {
                kept.push(i);
            }
        }
        i = i + 1;
    }
    Selection { expand, kept }
}

/// A stub is expanded or kept exactly where one of the scopes is the root, its own path or
/// a directory above it, or where no scope is given; kept exactly where the threshold bounds
/// its size and it was not asked for by its own path.
pub proof fn law_stubs_in_scope_are_selected(
    items: Seq<StubItem>,
    scopes: Seq<Seq<char>>,
    threshold: u64,
    i: int,
)
    requires
        0 <= i < items.len() <= usize::MAX,
    ensures
        ({
            let path = items[i].path@;
            let wanted = scopes.len() == 0 || exists|s: Seq<char>| #[trigger]
                scopes.contains(s) && (s.len() == 0 || s == path || text::has_prefix(
                    path,
                    s.push('/'),
                ));
            let large = threshold > 0 && items[i].record.size >= threshold && !scopes.contains(
                path,
            );
            &&& picked(items, scopes, threshold, true, items.len()).contains(i as usize) <==> wanted
                && !large
            &&& picked(items, scopes, threshold, false, items.len()).contains(i as usize) <==> wanted
                && large
        }),
{
    let path = items[i].path@;
    reveal_strlit("/");
    assert("/"@ =~= seq!['/']);
    assert forall|s: Seq<char>| s + "/"@ == #[trigger] s.push('/') by {
        assert(s + "/"@ =~= s.push('/'));
    }
    if scopes.len() > 0 && in_scope(scopes, path) {
        let k = choose|k: int| 0 <= k < scopes.len() && covers(#[trigger] scopes[k], path);
        assert(scopes.contains(scopes[k]));
    }
    if exists|s: Seq<char>| #[trigger]
        scopes.contains(s) && (s.len() == 0 || s == path || text::has_prefix(path, s.push('/'))) {
        let s = choose|s: Seq<char>| #[trigger]
            scopes.contains(s) && (s.len() == 0 || s == path || text::has_prefix(
                path,
                s.push('/'),
            ));
        let k = choose|k: int| 0 <= k < scopes.len() && scopes[k] == s;
        assert(covers(scopes[k], path));
    }
    lemma_picked_iff(items, scopes, threshold, true, i, items.len());
    lemma_picked_iff(items, scopes, threshold, false, i, items.len());
}

/// The order in which scopes are given, and how often, does not matter.
pub proof fn law_order_of_scopes_does_not_matter(
    items: Seq<StubItem>,
    a: Seq<Seq<char>>,
    b: Seq<Seq<char>>,
    threshold: u64,
    wanted: bool,
    n: nat,
)
    requires
        forall|s: Seq<char>| a.contains(s) <==> b.contains(s),
    ensures
        picked(items, a, threshold, wanted, n) == picked(items, b, threshold, wanted, n),
    decreases n,
{
    if n > 0 && n <= items.len() {
        law_order_of_scopes_does_not_matter(items, a, b, threshold, wanted, (n - 1) as nat);
        let path = items[n - 1].path@;
        if in_scope(a, path) {
            lemma_scope_of_same(a, b, path);
        }
        if in_scope(b, path) {
            lemma_scope_of_same(b, a, path);
        }
    }
}

proof fn lemma_scope_of_same(a: Seq<Seq<char>>, b: Seq<Seq<char>>, path: Seq<char>)
    requires
        forall|s: Seq<char>| a.contains(s) <==> b.contains(s),
        in_scope(a, path),
    ensures
        in_scope(b, path),
{
    if a.len() == 0 {
        if b.len() > 0 {
            assert(b.contains(b[0]));
            assert(a.contains(b[0]));
        }
    } else {
        let k = choose|k: int| 0 <= k < a.len() && covers(#[trigger] a[k], path);
        assert(a.contains(a[k]));
        assert(b.contains(a[k]));
        let j = choose|j: int| 0 <= j < b.len() && b[j] == a[k];
        assert(covers(b[j], path));
    }
}

/// Each stub is selected at most once, and the stubs stay in order.
pub proof fn law_selection_is_in_order(
    items: Seq<StubItem>,
    scopes: Seq<Seq<char>>,
    threshold: u64,
    wanted: bool,
    n: nat,
)
    requires
        n <= items.len() <= usize::MAX,
    ensures
        forall|i: int, j: int|
            0 <= i < j < picked(items, scopes, threshold, wanted, n).len() ==> picked(
                items,
                scopes,
                threshold,
                wanted,
                n,
            )[i] < picked(items, scopes, threshold, wanted, n)[j],
        forall|i: int|
            0 <= i < picked(items, scopes, threshold, wanted, n).len() ==> (#[trigger] picked(
                items,
                scopes,
                threshold,
                wanted,
                n,
            )[i]) < n,
    decreases n,
{
    if n > 0 {
        law_selection_is_in_order(items, scopes, threshold, wanted, (n - 1) as nat);
        let now = picked(items, scopes, threshold, wanted, n);
        let before = picked(items, scopes, threshold, wanted, (n - 1) as nat);
        assert forall|i: int| 0 <= i < now.len() implies (#[trigger] now[i]) < n by {
            if i < before.len() {
                assert(now[i] == before[i]);
            }
        }
        assert forall|i: int, j: int| 0 <= i < j < now.len() implies now[i] < now[j] by {
            assert(now[i] == before[i]);
            if j < before.len() {
                assert(now[j] == before[j]);
            }
        }
    }
}

proof fn lemma_picked_iff(
    items: Seq<StubItem>,
    scopes: Seq<Seq<char>>,
    threshold: u64,
    wanted: bool,
    i: int,
    n: nat,
)
    requires
        0 <= i < items.len() <= usize::MAX,
        n <= items.len(),
    ensures
        picked(items, scopes, threshold, wanted, n).contains(i as usize) <==> i < n && in_scope(
            scopes,
            items[i].path@,
        ) && size_passes(scopes, items[i], threshold) == wanted,
    decreases n,
{
    if n > 0 {
        lemma_picked_iff(items, scopes, threshold, wanted, i, (n - 1) as nat);
        let now = picked(items, scopes, threshold, wanted, n);
        let before = picked(items, scopes, threshold, wanted, (n - 1) as nat);
        if now.len() > before.len() {
            assert(now[before.len() as int] == (n - 1) as usize);
        }
        if before.contains(i as usize) {
            let j = choose|j: int| 0 <= j < before.len() && before[j] == i as usize;
            assert(now[j] == i as usize);
        }
        if now.contains(i as usize) {
            let j = choose|j: int| 0 <= j < now.len() && now[j] == i as usize;
            if j < before.len() {
                assert(before[j] == i as usize);
            }
        }
    }
}

/// With a threshold of zero every stub in scope is expanded.
pub proof fn law_zero_threshold_keeps_none(items: Seq<StubItem>, scopes: Seq<Seq<char>>, n: nat)
    ensures
        picked(items, scopes, 0, false, n).len() == 0,
    decreases n,
{
    if n > 0 && n <= items.len() {
        law_zero_threshold_keeps_none(items, scopes, (n - 1) as nat);
    }
}

/// A stub that was asked for by its own path is expanded whatever its size.
pub proof fn law_named_path_is_expanded(
    items: Seq<StubItem>,
    scopes: Seq<Seq<char>>,
    threshold: u64,
    i: int,
)
    requires
        0 <= i < items.len() <= usize::MAX,
        scopes.contains(items[i].path@),
    ensures
        picked(items, scopes, threshold, true, items.len()).contains(i as usize),
{
    let path = items[i].path@;
    let k = choose|k: int| 0 <= k < scopes.len() && scopes[k] == path;
    assert(covers(scopes[k], path));
    lemma_picked_contains(items, scopes, threshold, i, items.len());
}

proof fn lemma_picked_contains(
    items: Seq<StubItem>,
    scopes: Seq<Seq<char>>,
    threshold: u64,
    i: int,
    n: nat,
)
    requires
        0 <= i < n <= items.len() <= usize::MAX,
        in_scope(scopes, items[i].path@),
        size_passes(scopes, items[i], threshold),
    ensures
        picked(items, scopes, threshold, true, n).contains(i as usize),
    decreases n,
{
    let now = picked(items, scopes, threshold, true, n);
    let before = picked(items, scopes, threshold, true, (n - 1) as nat);
    if i == n - 1 {
        assert(now[before.len() as int] == i as usize);
    } else {
        lemma_picked_contains(items, scopes, threshold, i, (n - 1) as nat);
        let j = choose|j: int| 0 <= j < before.len() && before[j] == i as usize;
        assert(now[j] == i as usize);
    }
}

// ---------------------------------------------------------------------------
// What is fetched
// ---------------------------------------------------------------------------

/// Whether an entry of this size is expanded without asking.
pub open spec fn unconditional(size: u64, threshold: u64) -> bool {
    threshold == 0 || size < threshold
}

/// The files below a tree that are not in the cache and are written without asking.
pub open spec fn planned(node: TreeNode, threshold: u64, cached: Set<ObjectHash>) -> Set<ObjectHash>
    decreases node, 0nat,
{
    match node.content {
        Content::Entries(es) => planned_upto(es@, es@.len(), threshold, cached),
        _ => Set::empty(),
    }
}

/// The same for the first `n` entries of a tree.
pub open spec fn planned_upto(
    es: Seq<TreeEntry>,
    n: nat,
    threshold: u64,
    cached: Set<ObjectHash>,
) -> Set<ObjectHash>
    decreases es, n,
{
    if n == 0 || n > es.len() {
        Set::empty()
    } else {
        planned_upto(es, (n - 1) as nat, threshold, cached).union(
            match es[n - 1] {
                TreeEntry::Blob { hash, size, .. } => if unconditional(size, threshold)
                    && !cached.contains(hash) {
                    set![hash]
                } else {
                    Set::empty()
                },
                TreeEntry::Tree { size, node, .. } => if unconditional(size, threshold) {
                    planned(node, threshold, cached)
                } else {
                    Set::empty()
                },
                TreeEntry::Symlink { .. } => Set::empty(),
            },
        )
    }
}

/// The first tree on the walk whose entries are not known.
pub open spec fn blocked(node: TreeNode, threshold: u64) -> Option<Halt>
    decreases node, 0nat,
{
    match node.content {
        Content::Unread => Some(Halt::Unread(node.hash)),
        Content::Missing => Some(Halt::Missing(node.hash)),
        Content::Entries(es) => blocked_upto(es@, es@.len(), threshold),
    }
}

/// The same for the first `n` entries of a tree.
pub open spec fn blocked_upto(es: Seq<TreeEntry>, n: nat, threshold: u64) -> Option<Halt>
    decreases es, n,
{
    if n == 0 || n > es.len() {
        None
    } else {
        match blocked_upto(es, (n - 1) as nat, threshold) {
            Some(h) => Some(h),
            None => match es[n - 1] {
                TreeEntry::Tree { size, node, .. } => if unconditional(size, threshold) {
                    blocked(node, threshold)
                } else {
                    None
                },
                _ => None,
            },
        }
    }
}

proof fn lemma_blocked_halts(es: Seq<TreeEntry>, n: nat, m: nat, threshold: u64)
    requires
        n <= m <= es.len(),
        blocked_upto(es, n, threshold) is Some,
    ensures
        blocked_upto(es, m, threshold) == blocked_upto(es, n, threshold),
    decreases m - n,
{
    if n < m {
        lemma_blocked_halts(es, n, (m - 1) as nat, threshold);
    }
}

/// Adds the files below a tree that have to be fetched. An entry at or above the
/// threshold is left to the moment when it is written.
#[verifier::loop_isolation(false)]
pub fn collect_tree_fetches(
    node: &TreeNode,
    cached: &HashNames,
    stub_threshold: u64,
    out: &mut HashNames,
) -> (r: Result<(), Halt>)
    ensures
        match r {
            Ok(()) => blocked(*node, stub_threshold) is None && final(out)@ == old(out)@.union(
                planned(*node, stub_threshold, cached@),
            ),
            Err(h) => blocked(*node, stub_threshold) == Some(h),
        },
    decreases node,
{
    let ghost start = out@;
    let es = match node.entries() {
        Ok(es) => es,
        Err(h) => {
            return Err(h);
        },
    };
    let mut i: usize = 0;
    assert(out@ =~= start.union(planned_upto(es@, 0, stub_threshold, cached@)));
    while i < es.len()
        invariant
            i <= es@.len(),
            blocked_upto(es@, i as nat, stub_threshold) is None,
            out@ == start.union(planned_upto(es@, i as nat, stub_threshold, cached@)),
        decreases es.len() - i,
    {
        match &es[i] {
            TreeEntry::Blob { hash, size, .. } => {
                if (stub_threshold == 0 || *size < stub_threshold) && !cached.contains(*hash) {
                    out.insert(*hash);
                }
            },
            TreeEntry::Tree { size, node: sub, .. } => {
                if stub_threshold == 0 || *size < stub_threshold {
                    match collect_tree_fetches(sub, cached, stub_threshold, out) {
                        Ok(()) => {},
                        Err(h) => {
                            proof {
                                lemma_blocked_halts(
                                    es@,
                                    (i + 1) as nat,
                                    es@.len(),
                                    stub_threshold,
                                );
                            }
                            return Err(h);
                        },
                    }
                }
            },
            TreeEntry::Symlink { .. } => {},
        }
        proof {
            assert(out@ =~= start.union(
                planned_upto(es@, (i + 1) as nat, stub_threshold, cached@),
            ));
        }
        i = i + 1;
    }
    Ok(())
}

// ---------------------------------------------------------------------------
// What is written
// ---------------------------------------------------------------------------

/// How far the writing of a tree has come. Whether a stub would be visible to Git is
/// asked at the moment when it would be written.
#[verifier::ext_equal]
pub struct WalkView {
    pub steps: Seq<CloneStepView>,
    /// How many answers were used.
    pub used: nat,
    /// The stub file that is asked about next, where the answers have run out.
    pub asked: Option<Seq<char>>,
}

/// The name of the stub of a file.
pub open spec fn file_stub(path: Seq<char>) -> Seq<char> {
    path + DIR_STUB_NAME@
}

/// The step of a file that is written.
pub open spec fn write_blob(path: Seq<char>, e: TreeEntry) -> CloneStepView {
    match e {
        TreeEntry::Blob { hash, mtime, mode, .. } => CloneStepView::WriteFile {
            path,
            hash,
            mtime,
            mode,
        },
        _ => CloneStepView::CreateDir { path },
    }
}

/// The step of an entry that is stubbed.
pub open spec fn stub_step(path: Seq<char>, e: TreeEntry) -> CloneStepView {
    match e {
        TreeEntry::Blob { hash, size, mtime, mode, .. } => CloneStepView::StubFile {
            path,
            record: StubRecord {
                target_type: StubTargetType::Blob,
                hash,
                size,
                mtime,
                mode,
                blob_count: 0,
            },
        },
        TreeEntry::Tree { size, mtime, blob_count, node, .. } => CloneStepView::StubDir {
            path,
            record: StubRecord {
                target_type: StubTargetType::Tree,
                hash: node.hash,
                size,
                mtime,
                mode: None,
                blob_count,
            },
        },
        _ => CloneStepView::CreateDir { path },
    }
}

/// The walk with one more step.
pub open spec fn with_step(w: WalkView, s: CloneStepView) -> WalkView {
    WalkView { steps: w.steps.push(s), used: w.used, asked: w.asked }
}

/// The walk with one more answer used.
pub open spec fn with_answer(w: WalkView) -> WalkView {
    WalkView { steps: w.steps, used: w.used + 1, asked: w.asked }
}

/// The walk that waits for an answer.
pub open spec fn waiting(w: WalkView, stub: Seq<char>) -> WalkView {
    WalkView { steps: w.steps, used: w.used, asked: Some(stub) }
}

/// Writing out a tree at `base`.
pub open spec fn walk_tree(
    node: TreeNode,
    base: Seq<char>,
    threshold: u64,
    answers: Seq<bool>,
    w: WalkView,
) -> Result<WalkView, Halt>
    decreases node, 0nat,
{
    match node.content {
        Content::Unread => Err(Halt::Unread(node.hash)),
        Content::Missing => Err(Halt::Missing(node.hash)),
        Content::Entries(es) => walk_listing(
            es@,
            es@.len(),
            base,
            threshold,
            answers,
            with_step(w, CloneStepView::CreateDir { path: base }),
        ),
    }
}

/// Writing out the first `n` entries of a tree. An entry below the threshold is
/// written; another one stays a stub unless that would be visible to Git.
pub open spec fn walk_listing(
    es: Seq<TreeEntry>,
    n: nat,
    base: Seq<char>,
    threshold: u64,
    answers: Seq<bool>,
    w: WalkView,
) -> Result<WalkView, Halt>
    decreases es, n,
{
    if n == 0 || n > es.len() {
        Ok(w)
    } else {
        match walk_listing(es, (n - 1) as nat, base, threshold, answers, w) {
            Err(h) => Err(h),
            Ok(v) => if v.asked is Some {
                Ok(v)
            } else {
                let e = es[n - 1];
                let path = text::joined(base, e.name_text());
                match e {
                    TreeEntry::Blob { size, .. } => if unconditional(size, threshold) {
                        Ok(with_step(v, write_blob(path, e)))
                    } else if v.used >= answers.len() {
                        Ok(waiting(v, file_stub(path)))
                    } else if answers[v.used as int] {
                        Ok(with_step(with_answer(v), write_blob(path, e)))
                    } else {
                        Ok(with_step(with_answer(v), stub_step(path, e)))
                    },
                    TreeEntry::Tree { size, mtime, node, .. } => if !unconditional(size, threshold)
                        && v.used >= answers.len() {
                        Ok(waiting(v, text::joined(path, DIR_STUB_NAME@)))
                    } else if !unconditional(size, threshold) && !answers[v.used as int] {
                        Ok(with_step(with_answer(v), stub_step(path, e)))
                    } else {
                        match walk_tree(
                            node,
                            path,
                            threshold,
                            answers,
                            if unconditional(size, threshold) {
                                v
                            } else {
                                with_answer(v)
                            },
                        ) {
                            Err(h) => Err(h),
                            Ok(u) => match mtime {
                                Some(t) => if u.asked is Some {
                                    Ok(u)
                                } else {
                                    Ok(
                                        with_step(u, CloneStepView::SetDirTime { path, mtime: t }),
                                    )
                                },
                                None => Ok(u),
                            },
                        }
                    },
                    TreeEntry::Symlink { target, mtime, .. } => Ok(
                        with_step(v, CloneStepView::WriteLink { path, target, mtime }),
                    ),
                }
            },
        }
    }
}

proof fn lemma_walk_halts(
    es: Seq<TreeEntry>,
    a: nat,
    b: nat,
    base: Seq<char>,
    threshold: u64,
    answers: Seq<bool>,
    w: WalkView,
    h: Halt,
)
    requires
        a <= b <= es.len(),
        walk_listing(es, a, base, threshold, answers, w) == Err::<WalkView, Halt>(h),
    ensures
        walk_listing(es, b, base, threshold, answers, w) == Err::<WalkView, Halt>(h),
    decreases b - a,
{
    if a < b {
        lemma_walk_halts(es, a, (b - 1) as nat, base, threshold, answers, w, h);
    }
}

proof fn lemma_walk_waits(
    es: Seq<TreeEntry>,
    a: nat,
    b: nat,
    base: Seq<char>,
    threshold: u64,
    answers: Seq<bool>,
    w: WalkView,
)
    requires
        a <= b <= es.len(),
        walk_listing(es, a, base, threshold, answers, w) is Ok,
        walk_listing(es, a, base, threshold, answers, w)->Ok_0.asked is Some,
    ensures
        walk_listing(es, b, base, threshold, answers, w) == walk_listing(
            es,
            a,
            base,
            threshold,
            answers,
            w,
        ),
    decreases b - a,
{
    if a < b {
        lemma_walk_waits(es, a, (b - 1) as nat, base, threshold, answers, w);
    }
}

/// How far the writing of a tree has come.
pub struct Walk {
    pub steps: Vec<CloneStep>,
    pub used: usize,
    pub asked: Option<String>,
}

impl View for Walk {
    type V = WalkView;

    open spec fn view(&self) -> WalkView {
        WalkView {
            steps: populate::clone_views(self.steps@),
            used: self.used as nat,
            asked: text::opt_view(self.asked),
        }
    }
}

impl Walk {
    /// The start of a walk.
    pub fn new() -> (r: Walk)
        ensures
            r@ == (WalkView { steps: seq![], used: 0, asked: None }),
    {
        let r = Walk { steps: Vec::new(), used: 0, asked: None };
        assert(r@ =~= WalkView { steps: seq![], used: 0, asked: None });
        r
    }

    fn step(&mut self, s: CloneStep)
        ensures
            final(self)@ == with_step(old(self)@, s@),
    {
        let ghost before = self@.steps;
        self.steps.push(s);
        assert(self@.steps =~= before.push(s@));
    }
}

/// Writes out a tree at `base` as far as the answers go. Each answer says whether a
/// stub would be visible to Git.
#[verifier::loop_isolation(false)]
#[verifier::rlimit(40)]
pub fn expand_tree_materialise(
    node: &TreeNode,
    base: &str,
    stub_threshold: u64,
    answers: &Vec<bool>,
    walk: &mut Walk,
) -> (r: Result<(), Halt>)
    requires
        old(walk).asked is None,
        old(walk).used <= answers@.len(),
    ensures
        walk_tree(*node, base@, stub_threshold, answers@, old(walk)@) == match r {
            Ok(()) => Ok::<WalkView, Halt>(final(walk)@),
            Err(h) => Err::<WalkView, Halt>(h),
        },
        final(walk).used <= answers@.len(),
    decreases node,
{
    let es = match node.entries() {
        Ok(es) => es,
        Err(h) => {
            return Err(h);
        },
    };
    walk.step(CloneStep::CreateDir { path: base.to_owned() });
    let ghost w = walk@;
    let ghost total = es@.len();
    let mut i: usize = 0;
    while i < es.len()
        invariant
            i <= es@.len(),
            walk.asked is None,
            walk.used <= answers@.len(),
            walk_listing(es@, i as nat, base@, stub_threshold, answers@, w) == Ok::<
                WalkView,
                Halt,
            >(walk@),
        decreases es.len() - i,
    {
        let entry = &es[i];
        let path = join_path(base, entry.name().as_str());
        let ghost v = walk@;
        match entry {
            TreeEntry::Blob { hash, size, mtime, mode, .. } => {
                let mut visible: bool = true;
                if stub_threshold > 0 && *size >= stub_threshold {
                    if walk.used >= answers.len() {
                        walk.asked = Some(concat(path.as_str(), DIR_STUB_NAME));
                        proof {
                            assert(walk@ =~= waiting(v, file_stub(path@)));
                            lemma_walk_waits(
                                es@,
                                (i + 1) as nat,
                                total,
                                base@,
                                stub_threshold,
                                answers@,
                                w,
                            );
                        }
                        return Ok(());
                    }
                    visible = answers[walk.used];
                    walk.used = walk.used + 1;
                    assert(walk@ =~= with_answer(v));
                }
                if visible {
                    walk.step(
                        CloneStep::WriteFile {
                            path,
                            hash: *hash,
                            mtime: *mtime,
                            mode: opt_copy(mode),
                        },
                    );
                } else {
                    walk.step(
                        CloneStep::StubFile { path, record: blob_stub(*hash, *size, *mtime, mode) },
                    );
                }
            },
            TreeEntry::Tree { size, mtime, blob_count, node: sub, .. } => {
                let mut visible: bool = true;
                if stub_threshold > 0 && *size >= stub_threshold {
                    if walk.used >= answers.len() {
                        walk.asked = Some(join_path(path.as_str(), DIR_STUB_NAME));
                        proof {
                            assert(walk@ =~= waiting(v, text::joined(path@, DIR_STUB_NAME@)));
                            lemma_walk_waits(
                                es@,
                                (i + 1) as nat,
                                total,
                                base@,
                                stub_threshold,
                                answers@,
                                w,
                            );
                        }
                        return Ok(());
                    }
                    visible = answers[walk.used];
                    walk.used = walk.used + 1;
                    assert(walk@ =~= with_answer(v));
                }
                if visible {
                    match expand_tree_materialise(
                        sub,
                        path.as_str(),
                        stub_threshold,
                        answers,
                        walk,
                    ) {
                        Ok(()) => {},
                        Err(h) => {
                            proof {
                                lemma_walk_halts(
                                    es@,
                                    (i + 1) as nat,
                                    total,
                                    base@,
                                    stub_threshold,
                                    answers@,
                                    w,
                                    h,
                                );
                            }
                            return Err(h);
                        },
                    }
                    if walk.asked.is_some() {
                        proof {
                            lemma_walk_waits(
                                es@,
                                (i + 1) as nat,
                                total,
                                base@,
                                stub_threshold,
                                answers@,
                                w,
                            );
                        }
                        return Ok(());
                    }
                    if let Some(t) = mtime {
                        walk.step(CloneStep::SetDirTime { path, mtime: *t });
                    }
                } else {
                    walk.step(
                        CloneStep::StubDir {
                            path,
                            record: tree_stub(sub.hash, *size, *mtime, *blob_count),
                        },
                    );
                }
            },
            TreeEntry::Symlink { target, mtime, .. } => {
                walk.step(CloneStep::WriteLink { path, target: target.clone(), mtime: *mtime });
            },
        }
        i = i + 1;
    }
    Ok(())
}

/// Whether a step puts a file or a link in place.
pub open spec fn is_materialised(s: CloneStepView) -> bool {
    s is WriteFile || s is WriteLink
}

/// How many steps put a file or a link in place.
pub open spec fn materialised(steps: Seq<CloneStepView>) -> nat
    decreases steps.len(),
{
    if steps.len() == 0 {
        0
    } else {
        materialised(steps.drop_last()) + if is_materialised(steps.last()) {
            1nat
        } else {
            0
        }
    }
}

/// How many files and links were put in place.
pub fn count_materialised(steps: &Vec<CloneStep>) -> (r: usize)
    ensures
        r == materialised(populate::clone_views(steps@)),
{
    let ghost all = populate::clone_views(steps@);
    let n: usize = steps.len();
    let mut count: usize = 0;
    let mut i: usize = 0;
    while i < n
        invariant
            i <= n == steps@.len(),
            all == populate::clone_views(steps@),
            count <= i,
            count == materialised(all.take(i as int)),
        decreases n - i,
    {
        proof {
            assert(all.take(i + 1).drop_last() =~= all.take(i as int));
            assert(all.take(i + 1).last() == steps@[i as int]@);
        }
        let hit: bool = match &steps[i] {
            CloneStep::WriteFile { .. } => true,
            CloneStep::WriteLink { .. } => true,
            _ => false,
        };
        if hit {
            count = count + 1;
        }
        i = i + 1;
    }
    assert(all.take(i as int) =~= all);
    count
}

// ---------------------------------------------------------------------------
// The plan and the walk agree
// ---------------------------------------------------------------------------

/// The objects that steps write out as files.
pub open spec fn written(steps: Seq<CloneStepView>) -> Set<ObjectHash>
    decreases steps.len(),
{
    if steps.len() == 0 {
        Set::empty()
    } else {
        match steps.last() {
            CloneStepView::WriteFile { hash, .. } => written(steps.drop_last()).insert(hash),
            _ => written(steps.drop_last()),
        }
    }
}

proof fn lemma_written_push(steps: Seq<CloneStepView>, s: CloneStepView)
    ensures
        written(steps.push(s)) == match s {
            CloneStepView::WriteFile { hash, .. } => written(steps).insert(hash),
            _ => written(steps),
        },
{
    assert(steps.push(s).drop_last() =~= steps);
}

/// With a threshold of zero nothing is asked, and every file that is written out is in
/// the cache or was planned to be fetched.
pub proof fn law_plan_covers_walk(
    node: TreeNode,
    base: Seq<char>,
    answers: Seq<bool>,
    cached: Set<ObjectHash>,
    w: WalkView,
)
    requires
        w.asked is None,
        walk_tree(node, base, 0, answers, w) is Ok,
    ensures
        ({
            let v = walk_tree(node, base, 0, answers, w)->Ok_0;
            &&& v.asked is None
            &&& v.used == w.used
            &&& written(v.steps).subset_of(
                written(w.steps).union(cached).union(planned(node, 0, cached)),
            )
        }),
    decreases node, 0nat,
{
    if let Content::Entries(es) = node.content {
        let start = with_step(w, CloneStepView::CreateDir { path: base });
        lemma_written_push(w.steps, CloneStepView::CreateDir { path: base });
        lemma_plan_covers_listing(es@, es@.len(), base, answers, cached, start);
    }
}

proof fn lemma_plan_covers_listing(
    es: Seq<TreeEntry>,
    n: nat,
    base: Seq<char>,
    answers: Seq<bool>,
    cached: Set<ObjectHash>,
    w: WalkView,
)
    requires
        n <= es.len(),
        w.asked is None,
        walk_listing(es, n, base, 0, answers, w) is Ok,
    ensures
        ({
            let v = walk_listing(es, n, base, 0, answers, w)->Ok_0;
            &&& v.asked is None
            &&& v.used == w.used
            &&& written(v.steps).subset_of(
                written(w.steps).union(cached).union(planned_upto(es, n, 0, cached)),
            )
        }),
    decreases es, n,
{
    if n > 0 {
        lemma_plan_covers_listing(es, (n - 1) as nat, base, answers, cached, w);
        let v = walk_listing(es, (n - 1) as nat, base, 0, answers, w)->Ok_0;
        let e = es[n - 1];
        let path = text::joined(base, e.name_text());
        match e {
            TreeEntry::Blob { .. } => {
                lemma_written_push(v.steps, write_blob(path, e));
            },
            TreeEntry::Tree { mtime, node, .. } => {
                law_plan_covers_walk(node, path, answers, cached, v);
                let u = walk_tree(node, path, 0, answers, v)->Ok_0;
                if let Some(t) = mtime {
                    lemma_written_push(u.steps, CloneStepView::SetDirTime { path, mtime: t });
                }
            },
            TreeEntry::Symlink { target, mtime, .. } => {
                lemma_written_push(v.steps, CloneStepView::WriteLink { path, target, mtime });
            },
        }
    }
}

/// An expansion that has come to its end is complete: every file and symlink of the
/// tree is written or stubbed with the content and mode that the tree gives it, or lies in
/// a directory of the tree whose hash a stub names.
pub proof fn law_expansion_is_complete(
    node: TreeNode,
    base: Seq<char>,
    threshold: u64,
    answers: Seq<bool>,
    w: WalkView,
    k: Seq<char>,
    l: Leaf,
)
    requires
        walk_tree(node, base, threshold, answers, w) is Ok,
        walk_tree(node, base, threshold, answers, w)->Ok_0.asked is None,
        leaves::leaf_at(node, base, k) == Some(l),
    ensures
        w.asked is None,
        populate::shown(
            walk_tree(node, base, threshold, answers, w)->Ok_0.steps,
            node,
            base,
            k,
            l,
            false,
        ),
{
    lemma_tree_complete(node, base, node, base, threshold, answers, w, k, l);
}

proof fn lemma_tree_complete(
    root: TreeNode,
    top: Seq<char>,
    node: TreeNode,
    base: Seq<char>,
    threshold: u64,
    answers: Seq<bool>,
    w: WalkView,
    k: Seq<char>,
    l: Leaf,
)
    requires
        leaves::reaches_dir(root, top, base, node),
        walk_tree(node, base, threshold, answers, w) is Ok,
        walk_tree(node, base, threshold, answers, w)->Ok_0.asked is None,
        leaves::leaf_at(node, base, k) == Some(l) || populate::shown(
            w.steps,
            root,
            top,
            k,
            l,
            false,
        ),
    ensures
        w.asked is None,
        populate::shown(
            walk_tree(node, base, threshold, answers, w)->Ok_0.steps,
            root,
            top,
            k,
            l,
            false,
        ),
    decreases node, 0nat,
{
    if let Content::Entries(es) = node.content {
        let start = with_step(w, CloneStepView::CreateDir { path: base });
        populate::lemma_shown_push(
            w.steps,
            CloneStepView::CreateDir { path: base },
            root,
            top,
            k,
            l,
            false,
        );
        lemma_walk_complete(
            root,
            top,
            node,
            es@,
            es@.len(),
            base,
            threshold,
            answers,
            start,
            k,
            l,
        );
    }
}

proof fn lemma_walk_complete(
    root: TreeNode,
    top: Seq<char>,
    own_node: TreeNode,
    es: Seq<TreeEntry>,
    n: nat,
    base: Seq<char>,
    threshold: u64,
    answers: Seq<bool>,
    w: WalkView,
    k: Seq<char>,
    l: Leaf,
)
    requires
        leaves::reaches_dir(root, top, base, own_node),
        own_node.content matches Content::Entries(v) && v@ == es,
        n <= es.len(),
        walk_listing(es, n, base, threshold, answers, w) is Ok,
        walk_listing(es, n, base, threshold, answers, w)->Ok_0.asked is None,
        leaves::leaf_in(es, n, base, k) == Some(l) || populate::shown(
            w.steps,
            root,
            top,
            k,
            l,
            false,
        ),
    ensures
        w.asked is None,
        populate::shown(
            walk_listing(es, n, base, threshold, answers, w)->Ok_0.steps,
            root,
            top,
            k,
            l,
            false,
        ),
    decreases es, n,
{
    if n > 0 {
        let v = walk_listing(es, (n - 1) as nat, base, threshold, answers, w)->Ok_0;
        let all = walk_listing(es, n, base, threshold, answers, w)->Ok_0;
        let e = es[n - 1];
        let path = text::joined(base, e.name_text());
        let own = leaves::entry_leaf(e, base, k);
        lemma_walk_not_asked(es, (n - 1) as nat, base, threshold, answers, w);
        if populate::shown(w.steps, root, top, k, l, false) || own is None {
            lemma_walk_complete(
                root,
                top,
                own_node,
                es,
                (n - 1) as nat,
                base,
                threshold,
                answers,
                w,
                k,
                l,
            );
        }
        match e {
            TreeEntry::Tree { size, mtime, node, .. } => {
                leaves::lemma_dir_of_dir(root, top, base, own_node, es, n - 1);
                if !unconditional(size, threshold) && !answers[v.used as int] {
                    if own == Some(l) {
                        populate::lemma_stub_holds(root, top, path, node, k, l);
                    }
                    populate::lemma_shown_push(
                        v.steps,
                        stub_step(path, e),
                        root,
                        top,
                        k,
                        l,
                        false,
                    );
                } else {
                    let start = if unconditional(size, threshold) {
                        v
                    } else {
                        with_answer(v)
                    };
                    let u = walk_tree(node, path, threshold, answers, start)->Ok_0;
                    lemma_tree_complete(
                        root,
                        top,
                        node,
                        path,
                        threshold,
                        answers,
                        start,
                        k,
                        l,
                    );
                    if let Some(t) = mtime {
                        populate::lemma_shown_push(
                            u.steps,
                            CloneStepView::SetDirTime { path, mtime: t },
                            root,
                            top,
                            k,
                            l,
                            false,
                        );
                    }
                }
            },
            _ => {
                populate::lemma_shown_push(
                    v.steps,
                    all.steps.last(),
                    root,
                    top,
                    k,
                    l,
                    false,
                );
            },
        }
    }
}

proof fn lemma_walk_not_asked(
    es: Seq<TreeEntry>,
    n: nat,
    base: Seq<char>,
    threshold: u64,
    answers: Seq<bool>,
    w: WalkView,
)
    requires
        n <= es.len(),
        walk_listing(es, n, base, threshold, answers, w) is Ok,
        walk_listing(es, n, base, threshold, answers, w)->Ok_0.asked is None,
    ensures
        w.asked is None,
    decreases n,
{
    if n > 0 {
        let v = walk_listing(es, (n - 1) as nat, base, threshold, answers, w)->Ok_0;
        assert(v.asked is None);
        lemma_walk_not_asked(es, (n - 1) as nat, base, threshold, answers, w);
    }
}

/// The step that puts a file back in place of its stub.
pub open spec fn file_step(path: Seq<char>, record: StubRecord) -> CloneStepView {
    CloneStepView::WriteFile { path, hash: record.hash, mtime: record.mtime, mode: record.mode }
}

/// Puts a file back in place of its stub.
pub fn expand_file(path: &str, record: &StubRecord) -> (r: CloneStep)
    ensures
        r@ == file_step(path@, *record),
{
    CloneStep::WriteFile {
        path: path.to_owned(),
        hash: record.hash,
        mtime: record.mtime,
        mode: opt_copy(&record.mode),
    }
}

/// Writes out what a stub stands for: a file, or the tree of a directory. `node` is
/// the tree that the stub of a directory stands for.
pub fn expand_stub(
    item: &StubItem,
    node: &TreeNode,
    stub_threshold: u64,
    answers: &Vec<bool>,
    walk: &mut Walk,
) -> (r: Result<(), Halt>)
    requires
        old(walk).asked is None,
        old(walk).used <= answers@.len(),
    ensures
        match item.record.target_type {
            StubTargetType::Tree => match walk_tree(
                *node,
                item.path@,
                stub_threshold,
                answers@,
                old(walk)@,
            ) {
                Ok(w) => r is Ok && final(walk)@ == w,
                Err(h) => r == Err::<(), Halt>(h),
            },
            StubTargetType::Blob => r is Ok && final(walk)@ == with_step(
                old(walk)@,
                file_step(item.path@, item.record),
            ),
        },
{
    match item.record.target_type {
        StubTargetType::Tree => expand_tree_materialise(
            node,
            item.path.as_str(),
            stub_threshold,
            answers,
            walk,
        ),
        StubTargetType::Blob => {
            walk.step(expand_file(item.path.as_str(), &item.record));
            Ok(())
        },
    }
}

/// What is done once all that a stub stands for is in place.
#[derive(Clone, Copy, Debug, PartialEq, Eq, Structural)]
pub enum LastStep {
    /// Remove the stub beside a file.
    RemoveStub,
    /// Remove the stub in a directory.
    RemoveDirStub,
    /// Give the directory its time.
    SetDirTime(Timestamp),
}

/// What is done once all that a stub stands for is in place. The stub goes only then,
/// so that an expansion that fails can be tried again.
pub fn last_steps(record: &StubRecord) -> (r: Vec<LastStep>)
    ensures
        r@ == match record.target_type {
            StubTargetType::Blob => seq![LastStep::RemoveStub],
            StubTargetType::Tree => match record.mtime {
                Some(t) => seq![LastStep::RemoveDirStub, LastStep::SetDirTime(t)],
                None => seq![LastStep::RemoveDirStub],
            },
        },
{
    let mut out: Vec<LastStep> = Vec::new();
    match record.target_type {
        StubTargetType::Blob => {
            out.push(LastStep::RemoveStub);
            assert(out@ =~= seq![LastStep::RemoveStub]);
        },
        StubTargetType::Tree => {
            out.push(LastStep::RemoveDirStub);
            assert(out@ =~= seq![LastStep::RemoveDirStub]);
            if let Some(t) = record.mtime {
                out.push(LastStep::SetDirTime(t));
                assert(out@ =~= seq![LastStep::RemoveDirStub, LastStep::SetDirTime(t)]);
            }
        },
    }
    out
}

/// Stubbing undoes nothing: a file that was stubbed and is expanded again has the
/// content, the time and the mode that the last sync recorded for it, and a directory
/// is written out from the tree that the last sync recorded.
pub proof fn law_stub_round_trip(rel: Seq<char>, e: TreeEntry)
    requires
        !(e is Symlink),
    ensures
        match e {
            TreeEntry::Tree { node, .. } => {
                &&& stub::record_of(rel, Found::Dir, Some(e)) is Ok
                &&& stub::record_of(rel, Found::Dir, Some(e))->Ok_0.target_type
                    == StubTargetType::Tree
                &&& stub::record_of(rel, Found::Dir, Some(e))->Ok_0.hash == node.hash
            },
            _ => {
                &&& stub::record_of(rel, Found::File, Some(e)) is Ok
                &&& stub::record_of(rel, Found::File, Some(e))->Ok_0.target_type
                    == StubTargetType::Blob
                &&& file_step(rel, stub::record_of(rel, Found::File, Some(e))->Ok_0)
                    == write_blob(rel, e)
            },
        },
{
}

/// Adds what the expansion of a stub needs to have fetched. `node` is the tree that
/// the stub of a directory stands for.
pub fn plan_stub(
    record: &StubRecord,
    node: &TreeNode,
    cached: &HashNames,
    stub_threshold: u64,
    out: &mut HashNames,
) -> (r: Result<(), Halt>)
    ensures
        match record.target_type {
            StubTargetType::Tree => match r {
                Ok(()) => blocked(*node, stub_threshold) is None && final(out)@ == old(out)@.union(
                    planned(*node, stub_threshold, cached@),
                ),
                Err(h) => blocked(*node, stub_threshold) == Some(h),
            },
            StubTargetType::Blob => r is Ok && final(out)@ == if cached@.contains(record.hash) {
                old(out)@
            } else {
                old(out)@.insert(record.hash)
            },
        },
{
    match record.target_type {
        StubTargetType::Tree => collect_tree_fetches(node, cached, stub_threshold, out),
        StubTargetType::Blob => {
            if !cached.contains(record.hash) {
                out.insert(record.hash);
            }
            Ok(())
        },
    }
}

// ---------------------------------------------------------------------------
// What is said
// ---------------------------------------------------------------------------

/// What is said when there is nothing to expand.
pub fn nothing_line(kept: usize) -> (r: String)
    ensures
        r@ == if kept > 0 {
            "Nothing to expand ("@ + text::decimal(kept as nat)
                + " stub(s) at or above threshold kept)."@
        } else {
            "Nothing to expand."@
        },
{
    if kept > 0 {
        concat3(
            "Nothing to expand (",
            decimal_of(kept as u64).as_str(),
            " stub(s) at or above threshold kept).",
        )
    } else {
        "Nothing to expand.".to_owned()
    }
}

/// What is said of a stub that would be expanded.
pub fn would_expand(path: &str) -> (r: String)
    ensures
        r@ == "  would expand: "@ + path@,
{
    concat("  would expand: ", path)
}

/// What stands at the phase when it is over.
pub open spec fn phase_text(dry_run: bool, stubs: nat, files: nat, kept: nat) -> Seq<char> {
    let head = if dry_run {
        text::decimal(stubs) + " would expand"@
    } else {
        text::decimal(files) + " expanded"@
    };
    if kept > 0 {
        head + ", "@ + text::decimal(kept) + " kept"@
    } else {
        head
    }
}

/// The last line of a run.
pub open spec fn final_text(dry_run: bool, stubs: nat, files: nat, kept: nat) -> Seq<char> {
    let head = if dry_run {
        text::decimal(stubs) + " stub(s) would be expanded"@
    } else {
        text::decimal(files) + " file(s) expanded"@
    };
    if kept > 0 {
        head + ", "@ + text::decimal(kept) + " stub(s) at or above threshold kept."@
    } else {
        head + "."@
    }
}

/// What is said at the end: at the phase, and in the last line.
pub fn expand_report(dry_run: bool, stubs: usize, files: usize, kept: usize) -> (r: (String, String))
    ensures
        r.0@ == phase_text(dry_run, stubs as nat, files as nat, kept as nat),
        r.1@ == final_text(dry_run, stubs as nat, files as nat, kept as nat),
{
    let shown: usize = if dry_run {
        stubs
    } else {
        files
    };
    let mut phase: String = decimal_of(shown as u64);
    let mut line: String = decimal_of(shown as u64);
    if dry_run {
        phase.append(" would expand");
        line.append(" stub(s) would be expanded");
    } else {
        phase.append(" expanded");
        line.append(" file(s) expanded");
    }
    if kept > 0 {
        phase.append(", ");
        phase.append(decimal_of(kept as u64).as_str());
        phase.append(" kept");
        line.append(", ");
        line.append(decimal_of(kept as u64).as_str());
        line.append(" stub(s) at or above threshold kept.");
    } else {
        line.append(".");
    }
    (phase, line)
}

} // verus!
