//! What an expansion fetches, writes and leaves as a stub.

use crate::commands::clone::populate::CloneStepView;
use crate::commands::expand::{self, WalkView};
use crate::object::{Content, ObjectHash, StubTargetType, TreeEntry, TreeNode};
use crate::text;
use vstd::prelude::*;

verus! {

/// Whether a tree holds a file with this content that stands, with every directory on the
/// way to it, below the threshold. A threshold of zero bounds nothing.
pub open spec fn holds_small(node: TreeNode, threshold: u64, h: ObjectHash) -> bool
    decreases node,
{
    match node.content {
        Content::Entries(es) => exists|i: int|
            0 <= i < es@.len() && small_in(#[trigger] es@[i], threshold, h),
        _ => false,
    }
}

/// The same of one entry.
pub open spec fn small_in(e: TreeEntry, threshold: u64, h: ObjectHash) -> bool
    decreases e,
{
    match e {
        TreeEntry::Blob { hash, size, .. } => hash == h && (threshold == 0 || size < threshold),
        TreeEntry::Tree { size, node, .. } => (threshold == 0 || size < threshold) && holds_small(
            node,
            threshold,
            h,
        ),
        TreeEntry::Symlink { .. } => false,
    }
}

/// What is fetched is the content of the small files that the cache lacks, and nothing else.
pub proof fn law_small_files_are_fetched(
    node: TreeNode,
    threshold: u64,
    cached: Set<ObjectHash>,
    h: ObjectHash,
)
    ensures
        expand::planned(node, threshold, cached).contains(h) <==> !cached.contains(h)
            && holds_small(node, threshold, h),
    decreases node, 0nat,
{
    reveal_with_fuel(holds_small, 2);
    reveal_with_fuel(small_in, 2);
    if let Content::Entries(es) = node.content {
        lemma_small_upto(es@, es@.len(), threshold, cached, h);
    }
}

proof fn lemma_small_upto(
    es: Seq<TreeEntry>,
    n: nat,
    threshold: u64,
    cached: Set<ObjectHash>,
    h: ObjectHash,
)
    requires
        n <= es.len(),
    ensures
        expand::planned_upto(es, n, threshold, cached).contains(h) <==> !cached.contains(h)
            && exists|i: int| 0 <= i < n && small_in(#[trigger] es[i], threshold, h),
    decreases es, n,
{
    reveal_with_fuel(holds_small, 2);
    reveal_with_fuel(small_in, 2);
    if n > 0 {
        lemma_small_upto(es, (n - 1) as nat, threshold, cached, h);
        if let TreeEntry::Tree { node, .. } = es[n - 1] {
            law_small_files_are_fetched(node, threshold, cached, h);
        }
    }
}

/// Whether a tree and every directory below it that stands below the threshold are known.
pub open spec fn known(node: TreeNode, threshold: u64) -> bool
    decreases node,
{
    match node.content {
        Content::Entries(es) => forall|i: int|
            0 <= i < es@.len() ==> known_in(#[trigger] es@[i], threshold),
        _ => false,
    }
}

/// The same of one entry.
pub open spec fn known_in(e: TreeEntry, threshold: u64) -> bool
    decreases e,
{
    match e {
        TreeEntry::Tree { size, node, .. } => (threshold == 0 || size < threshold) ==> known(
            node,
            threshold,
        ),
        _ => true,
    }
}

/// The files to fetch can be told exactly where every directory that is expanded without
/// asking is known.
pub proof fn law_only_unknown_directories_stop(node: TreeNode, threshold: u64)
    ensures
        expand::blocked(node, threshold) is None <==> known(node, threshold),
    decreases node, 0nat,
{
    reveal_with_fuel(known, 2);
    reveal_with_fuel(known_in, 2);
    if let Content::Entries(es) = node.content {
        lemma_known_upto(es@, es@.len(), threshold);
    }
}

proof fn lemma_known_upto(es: Seq<TreeEntry>, n: nat, threshold: u64)
    requires
        n <= es.len(),
    ensures
        expand::blocked_upto(es, n, threshold) is None <==> forall|i: int|
            0 <= i < n ==> known_in(#[trigger] es[i], threshold),
    decreases es, n,
{
    reveal_with_fuel(known, 2);
    reveal_with_fuel(known_in, 2);
    if n > 0 {
        lemma_known_upto(es, (n - 1) as nat, threshold);
        if let TreeEntry::Tree { node, .. } = es[n - 1] {
            law_only_unknown_directories_stop(node, threshold);
        }
    }
}

spec fn goes_on(a: WalkView, b: WalkView) -> bool {
    &&& a.used <= b.used
    &&& a.steps.len() <= b.steps.len()
    &&& forall|i: int| 0 <= i < a.steps.len() ==> #[trigger] b.steps[i] == a.steps[i]
}

/// Whether a step leaves a stub.
pub open spec fn leaves_stub(s: CloneStepView) -> bool {
    s is StubFile || s is StubDir
}

spec fn stubs_are_large(a: WalkView, b: WalkView, threshold: u64) -> bool {
    forall|i: int|
        #![trigger b.steps[i]]
        a.steps.len() <= i < b.steps.len() && leaves_stub(b.steps[i]) ==> threshold > 0
            && match b.steps[i] {
            CloneStepView::StubFile { record, .. } => record.size >= threshold,
            CloneStepView::StubDir { record, .. } => record.size >= threshold,
            _ => true,
        }
}

spec fn no_stubs(a: WalkView, b: WalkView) -> bool {
    forall|i: int|
        #![trigger b.steps[i]]
        a.steps.len() <= i < b.steps.len() ==> !leaves_stub(b.steps[i])
}

proof fn lemma_tree_goes_on(
    node: TreeNode,
    base: Seq<char>,
    threshold: u64,
    answers: Seq<bool>,
    w: WalkView,
)
    requires
        expand::walk_tree(node, base, threshold, answers, w) is Ok,
    ensures
        ({
            let v = expand::walk_tree(node, base, threshold, answers, w)->Ok_0;
            &&& goes_on(w, v)
            &&& stubs_are_large(w, v, threshold)
            &&& (forall|i: int| 0 <= i < answers.len() ==> answers[i]) ==> no_stubs(w, v)
            &&& v.steps.len() > w.steps.len()
            &&& v.steps[w.steps.len() as int] == (CloneStepView::CreateDir { path: base })
        }),
    decreases node, 0nat,
{
    if let Content::Entries(es) = node.content {
        let start = expand::with_step(w, CloneStepView::CreateDir { path: base });
        lemma_listing_goes_on(es@, es@.len(), base, threshold, answers, start);
        let v = expand::walk_tree(node, base, threshold, answers, w)->Ok_0;
        assert(v.steps[w.steps.len() as int] == start.steps[w.steps.len() as int]);
        assert forall|i: int| 0 <= i < w.steps.len() implies #[trigger] v.steps[i]
            == w.steps[i] by {
            assert(start.steps[i] == w.steps[i]);
        }
    }
}

proof fn lemma_listing_goes_on(
    es: Seq<TreeEntry>,
    n: nat,
    base: Seq<char>,
    threshold: u64,
    answers: Seq<bool>,
    w: WalkView,
)
    requires
        expand::walk_listing(es, n, base, threshold, answers, w) is Ok,
    ensures
        ({
            let v = expand::walk_listing(es, n, base, threshold, answers, w)->Ok_0;
            &&& goes_on(w, v)
            &&& stubs_are_large(w, v, threshold)
            &&& (forall|i: int| 0 <= i < answers.len() ==> answers[i]) ==> no_stubs(w, v)
        }),
    decreases es, n,
{
    if n > 0 && n <= es.len() {
        lemma_listing_goes_on(es, (n - 1) as nat, base, threshold, answers, w);
        let prev = expand::walk_listing(es, (n - 1) as nat, base, threshold, answers, w)->Ok_0;
        let v = expand::walk_listing(es, n, base, threshold, answers, w)->Ok_0;
        if prev.asked is None {
            lemma_entry_goes_on(es, n, base, threshold, answers, w);
            assert forall|i: int| 0 <= i < w.steps.len() implies #[trigger] v.steps[i]
                == w.steps[i] by {
                assert(prev.steps[i] == w.steps[i]);
            }
            assert forall|i: int|
                #![trigger v.steps[i]]
                w.steps.len() <= i < prev.steps.len() implies v.steps[i] == prev.steps[i] by {}
        }
    }
}

proof fn lemma_entry_goes_on(
    es: Seq<TreeEntry>,
    n: nat,
    base: Seq<char>,
    threshold: u64,
    answers: Seq<bool>,
    w: WalkView,
)
    requires
        0 < n <= es.len(),
        expand::walk_listing(es, n, base, threshold, answers, w) is Ok,
        expand::walk_listing(es, (n - 1) as nat, base, threshold, answers, w)->Ok_0.asked is None,
    ensures
        ({
            let a = expand::walk_listing(es, (n - 1) as nat, base, threshold, answers, w)->Ok_0;
            let b = expand::walk_listing(es, n, base, threshold, answers, w)->Ok_0;
            let path = text::joined(base, es[n - 1].name_text());
            &&& goes_on(a, b)
            &&& stubs_are_large(a, b, threshold)
            &&& (forall|i: int| 0 <= i < answers.len() ==> answers[i]) ==> no_stubs(a, b)
            &&& b.asked is None ==> b.steps.len() > a.steps.len() && deals_with(
                b.steps[a.steps.len() as int],
                path,
                es[n - 1],
                threshold,
                answers,
            )
        }),
    decreases es[n - 1], 1nat,
{
    let a = expand::walk_listing(es, (n - 1) as nat, base, threshold, answers, w)->Ok_0;
    let b = expand::walk_listing(es, n, base, threshold, answers, w)->Ok_0;
    let path = text::joined(base, es[n - 1].name_text());
    if let TreeEntry::Tree { size, node, .. } = es[n - 1] {
        let mid = if expand::unconditional(size, threshold) {
            a
        } else {
            expand::with_answer(a)
        };
        if expand::unconditional(size, threshold) || (a.used < answers.len()
            && answers[a.used as int]) {
            lemma_tree_goes_on(node, path, threshold, answers, mid);
            let u = expand::walk_tree(node, path, threshold, answers, mid)->Ok_0;
            assert forall|i: int| 0 <= i < a.steps.len() implies #[trigger] b.steps[i]
                == a.steps[i] by {
                assert(u.steps[i] == mid.steps[i]);
            }
            assert forall|i: int|
                #![trigger b.steps[i]]
                a.steps.len() <= i < u.steps.len() implies b.steps[i] == u.steps[i] by {}
        }
    }
}

/// Whether a step is what is to be done with an entry at a path: a file below the threshold
/// is written with the content, the time and the mode that the tree records, and a directory
/// below it is created. A larger one is written where the answer says that its stub would
/// be visible to Git, and otherwise left as a stub that says all that the tree records. A
/// link is made.
pub open spec fn deals_with(
    s: CloneStepView,
    path: Seq<char>,
    e: TreeEntry,
    threshold: u64,
    answers: Seq<bool>,
) -> bool {
    let all = forall|i: int| 0 <= i < answers.len() ==> answers[i];
    let none = forall|i: int| 0 <= i < answers.len() ==> !answers[i];
    match e {
        TreeEntry::Blob { hash, size, mtime, mode, .. } => {
            let small = threshold == 0 || size < threshold;
            match s {
                CloneStepView::WriteFile { path: p, hash: h, mtime: t, mode: m } => (small
                    || !none) && p == path && h == hash && t == mtime && m == mode,
                CloneStepView::StubFile { path: p, record } => !small && !all && p == path
                    && record.target_type == StubTargetType::Blob && record.hash == hash
                    && record.size == size && record.mtime == mtime && record.mode == mode,
                _ => false,
            }
        },
        TreeEntry::Tree { size, mtime, blob_count, node, .. } => {
            let small = threshold == 0 || size < threshold;
            match s {
                CloneStepView::CreateDir { path: p } => (small || !none) && p == path,
                CloneStepView::StubDir { path: p, record } => !small && !all && p == path
                    && record.target_type == StubTargetType::Tree && record.hash == node.hash
                    && record.size == size && record.mtime == mtime && record.blob_count
                    == blob_count,
                _ => false,
            }
        },
        TreeEntry::Symlink { target, mtime, .. } => s == (CloneStepView::WriteLink {
            path,
            target,
            mtime,
        }),
    }
}

/// An expansion leaves no stub of anything below the threshold, wherever it stands in the
/// tree, and no stub at all where every stub would be visible to Git.
pub proof fn law_only_large_entries_stay_stubs(
    node: TreeNode,
    base: Seq<char>,
    threshold: u64,
    answers: Seq<bool>,
    w: WalkView,
    i: int,
)
    requires
        expand::walk_tree(node, base, threshold, answers, w) is Ok,
        w.steps.len() <= i < expand::walk_tree(
            node,
            base,
            threshold,
            answers,
            w,
        )->Ok_0.steps.len(),
    ensures
        match expand::walk_tree(node, base, threshold, answers, w)->Ok_0.steps[i] {
            CloneStepView::StubFile { record, .. } => 0 < threshold <= record.size && exists|
                j: int,
            |
                0 <= j < answers.len() && !answers[j],
            CloneStepView::StubDir { record, .. } => 0 < threshold <= record.size && exists|j: int|
                0 <= j < answers.len() && !answers[j],
            _ => true,
        },
{
    lemma_tree_goes_on(node, base, threshold, answers, w);
}

/// A finished expansion has done with each entry of the directory what is to be done with
/// it.
pub proof fn law_each_entry_is_dealt_with(
    node: TreeNode,
    base: Seq<char>,
    threshold: u64,
    answers: Seq<bool>,
    w: WalkView,
    i: int,
)
    requires
        expand::walk_tree(node, base, threshold, answers, w) is Ok,
        expand::walk_tree(node, base, threshold, answers, w)->Ok_0.asked is None,
        node.content matches Content::Entries(es) && 0 <= i < es@.len(),
    ensures
        ({
            let e = node.content->Entries_0@[i];
            let steps = expand::walk_tree(node, base, threshold, answers, w)->Ok_0.steps;
            exists|j: int|
                w.steps.len() <= j < steps.len() && deals_with(
                    #[trigger] steps[j],
                    text::joined(base, e.name_text()),
                    e,
                    threshold,
                    answers,
                )
        }),
{
    let es = node.content->Entries_0@;
    let start = expand::with_step(w, CloneStepView::CreateDir { path: base });
    lemma_dealt_upto(es, es.len(), base, threshold, answers, start, i);
}

proof fn lemma_dealt_upto(
    es: Seq<TreeEntry>,
    n: nat,
    base: Seq<char>,
    threshold: u64,
    answers: Seq<bool>,
    w: WalkView,
    i: int,
)
    requires
        0 <= i < n <= es.len(),
        expand::walk_listing(es, n, base, threshold, answers, w) is Ok,
        expand::walk_listing(es, n, base, threshold, answers, w)->Ok_0.asked is None,
    ensures
        ({
            let steps = expand::walk_listing(es, n, base, threshold, answers, w)->Ok_0.steps;
            exists|j: int|
                w.steps.len() <= j < steps.len() && deals_with(
                    #[trigger] steps[j],
                    text::joined(base, es[i].name_text()),
                    es[i],
                    threshold,
                    answers,
                )
        }),
    decreases n,
{
    let a = expand::walk_listing(es, (n - 1) as nat, base, threshold, answers, w)->Ok_0;
    let b = expand::walk_listing(es, n, base, threshold, answers, w)->Ok_0;
    assert(a.asked is None);
    lemma_listing_goes_on(es, (n - 1) as nat, base, threshold, answers, w);
    lemma_entry_goes_on(es, n, base, threshold, answers, w);
    if i == n - 1 {
        let j: int = a.steps.len() as int;
        assert(deals_with(
            b.steps[j],
            text::joined(base, es[i].name_text()),
            es[i],
            threshold,
            answers,
        ));
    } else {
        lemma_dealt_upto(es, (n - 1) as nat, base, threshold, answers, w, i);
        let j = choose|j: int|
            w.steps.len() <= j < a.steps.len() && deals_with(
                #[trigger] a.steps[j],
                text::joined(base, es[i].name_text()),
                es[i],
                threshold,
                answers,
            );
        assert(b.steps[j] == a.steps[j]);
    }
}

/// What is counted as expanded is each file that was written and each link that was made.
pub proof fn law_written_files_are_counted(a: Seq<CloneStepView>, b: Seq<CloneStepView>)
    ensures
        expand::materialised(a + b) == expand::materialised(a) + expand::materialised(b),
        forall|s: CloneStepView| #[trigger]
            expand::materialised(seq![s]) == if s is WriteFile || s is WriteLink {
                1nat
            } else {
                0
            },
    decreases b.len(),
{
    assert forall|s: CloneStepView| #[trigger]
        expand::materialised(seq![s]) == if s is WriteFile || s is WriteLink {
            1nat
        } else {
            0
        } by {
        reveal_with_fuel(expand::materialised, 2);
        assert(seq![s].drop_last() =~= seq![]);
        assert(seq![s].last() == s);
    }
    if b.len() == 0 {
        assert(a + b =~= a);
    } else {
        law_written_files_are_counted(a, b.drop_last());
        assert((a + b).drop_last() =~= a + b.drop_last());
        assert((a + b).last() == b.last());
    }
}

/// The last line says how many files were expanded, or how many stubs a dry run would
/// expand, and speaks of kept stubs exactly where there are some.
pub proof fn law_last_line_counts(stubs: nat, files: nat, kept: nat)
    ensures
        text::has_prefix(expand::final_text(true, stubs, files, kept), text::decimal(stubs)),
        text::has_prefix(expand::final_text(false, stubs, files, kept), text::decimal(files)),
        text::has_suffix(
            expand::final_text(false, stubs, files, kept),
            text::decimal(kept) + " stub(s) at or above threshold kept."@,
        ) || kept == 0,
        expand::final_text(false, stubs, files, 0) == text::decimal(files)
            + " file(s) expanded"@ + "."@,
{
    let d = text::decimal(stubs);
    let f = text::decimal(files);
    let tail = text::decimal(kept) + " stub(s) at or above threshold kept."@;
    let a = expand::final_text(true, stubs, files, kept);
    let b = expand::final_text(false, stubs, files, kept);
    assert(a.take(d.len() as int) =~= d);
    assert(b.take(f.len() as int) =~= f);
    if kept > 0 {
        assert(b.skip(b.len() - tail.len()) =~= tail);
    }
}

} // verus!
