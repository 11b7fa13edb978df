//! What is in use, and what of the packs is regrouped.

use super::consolidate::{self, PackBytes, PackView, Regrouping};
use super::index::{self, EntryView};
use super::reach::{self, Manifest};
use super::shards;
use crate::object::{Content, ObjectHash, TreeEntry, TreeNode};
use crate::text;
use crate::worktree::{DiskEntry, DiskKind};
use vstd::prelude::*;

verus! {

// ---------------------------------------------------------------------------
// Hot and cold
// ---------------------------------------------------------------------------

proof fn lemma_filter_contains(es: Seq<EntryView>, keep: spec_fn(EntryView) -> bool, e: EntryView)
    ensures
        es.filter(keep).contains(e) <==> es.contains(e) && keep(e),
    decreases es.len(),
{
    reveal(Seq::filter);
    if es.len() > 0 {
        let init = es.drop_last();
        lemma_filter_contains(init, keep, e);
        let r = es.filter(keep);
        let prev = init.filter(keep);
        if r.contains(e) {
            let i = choose|i: int| 0 <= i < r.len() && r[i] == e;
            if i < prev.len() {
                assert(prev[i] == e);
                let j = choose|j: int| 0 <= j < init.len() && init[j] == e;
                assert(es[j] == e);
            } else {
                assert(es[es.len() - 1] == e);
            }
        }
        if es.contains(e) && keep(e) {
            let j = choose|j: int| 0 <= j < es.len() && es[j] == e;
            if j < init.len() {
                assert(init[j] == e);
                let i = choose|i: int| 0 <= i < prev.len() && prev[i] == e;
                assert(r[i] == e);
            } else {
                assert(r[prev.len() as int] == e);
            }
        }
    }
}

/// What is in use stays hot, and so does what stands alone; everything else goes cold.
pub proof fn law_what_is_used_stays_hot(es: Seq<EntryView>, used: Set<ObjectHash>, e: EntryView)
    requires
        es.contains(e),
    ensures
        used.contains(e.named()) || e is Standalone ==> index::hot_part(es, used).contains(e)
            && !index::cold_part(es, used).contains(e),
        !used.contains(e.named()) && !(e is Standalone) ==> index::cold_part(es, used).contains(e)
            && !index::hot_part(es, used).contains(e),
{
    lemma_filter_contains(es, |x: EntryView| index::stays_hot(x, used), e);
    lemma_filter_contains(es, |x: EntryView| !index::stays_hot(x, used), e);
}

/// The shards that slots lead to are listed once each; an empty slot leads to none.
pub proof fn law_shards_are_listed_once(slots: Seq<ObjectHash>, h: ObjectHash)
    ensures
        shards::shards_in(slots).no_duplicates(),
        shards::shards_in(slots).contains(h) <==> slots.contains(h) && !(h.w0 == 0 && h.w1 == 0
            && h.w2 == 0 && h.w3 == 0),
    decreases slots.len(),
{
    if slots.len() > 0 {
        let init = slots.drop_last();
        law_shards_are_listed_once(init, h);
        law_shards_are_listed_once(init, slots.last());
        let prev = shards::shards_in(init);
        let r = shards::shards_in(slots);
        lemma_push_once(prev, slots.last(), h);
        if slots.contains(h) {
            let i = choose|i: int| 0 <= i < slots.len() && slots[i] == h;
            if i < init.len() {
                assert(init[i] == h);
            }
        }
        if init.contains(h) {
            let i = choose|i: int| 0 <= i < init.len() && init[i] == h;
            assert(slots[i] == h);
        }
        assert(slots[slots.len() - 1] == slots.last());
    }
}

proof fn lemma_push_once(s: Seq<ObjectHash>, x: ObjectHash, h: ObjectHash)
    ensures
        s.push(x).contains(h) <==> s.contains(h) || x == h,
        s.no_duplicates() && !s.contains(x) ==> s.push(x).no_duplicates(),
{
    let r = s.push(x);
    if s.contains(h) {
        let i = choose|i: int| 0 <= i < s.len() && s[i] == h;
        assert(r[i] == h);
    }
    assert(r[s.len() as int] == x);
    if r.contains(h) {
        let i = choose|i: int| 0 <= i < r.len() && r[i] == h;
        if i < s.len() {
            assert(s[i] == h);
        }
    }
}

/// The packs that entries refer to are listed once each.
pub proof fn law_packs_are_listed_once(es: Seq<EntryView>, h: ObjectHash)
    ensures
        consolidate::packs_in(es).no_duplicates(),
        consolidate::packs_in(es).contains(h) <==> exists|i: int|
            0 <= i < es.len() && (#[trigger] es[i] matches EntryView::Pack { pack_hash, .. }
                && pack_hash == h),
    decreases es.len(),
{
    if es.len() > 0 {
        let init = es.drop_last();
        law_packs_are_listed_once(init, h);
        let prev = consolidate::packs_in(init);
        if let EntryView::Pack { pack_hash, .. } = es.last() {
            lemma_push_once(prev, pack_hash, h);
            if pack_hash == h {
                assert(es[es.len() - 1] matches EntryView::Pack { pack_hash, .. } && pack_hash == h);
            }
        }
        if exists|i: int|
            0 <= i < init.len() && (#[trigger] init[i] matches EntryView::Pack { pack_hash, .. }
                && pack_hash == h) {
            let i = choose|i: int|
                0 <= i < init.len() && (#[trigger] init[i] matches EntryView::Pack {
                    pack_hash,
                    ..
                } && pack_hash == h);
            assert(es[i] == init[i]);
        }
        if exists|i: int|
            0 <= i < es.len() && (#[trigger] es[i] matches EntryView::Pack { pack_hash, .. }
                && pack_hash == h) {
            let i = choose|i: int|
                0 <= i < es.len() && (#[trigger] es[i] matches EntryView::Pack { pack_hash, .. }
                    && pack_hash == h);
            if i < init.len() {
                assert(init[i] == es[i]);
            }
        }
    }
}

/// How many names have a first byte is how many entries go to its shard when a shard is
/// split.
pub proof fn law_population_is_what_is_split_off(es: Seq<EntryView>, p: u8)
    ensures
        shards::population(es, p) == shards::dedicated_part(es, p).len(),
        shards::dedicated_part(es, p).len() + shards::shared_part(es, p).len() == es.len(),
    decreases es.len(),
{
    reveal(Seq::filter);
    if es.len() > 0 {
        law_population_is_what_is_split_off(es.drop_last(), p);
    }
}

// ---------------------------------------------------------------------------
// What is in use
// ---------------------------------------------------------------------------

/// Whether an entry of a directory uses an object: a file itself or a chunk of it, a directory
/// itself, or what it holds where no stub stands for it on disk.
pub open spec fn uses(
    e: TreeEntry,
    prefix: Seq<char>,
    stubbed: Set<Seq<char>>,
    ms: Seq<Manifest>,
    h: ObjectHash,
) -> bool
    decreases e, 0nat,
{
    let path = text::joined(prefix, e.name_text());
    match e {
        TreeEntry::Blob { hash, .. } => h == hash || exists|i: int|
            0 <= i < ms.len() && (#[trigger] ms[i]).blob == hash && ms[i].chunks@.contains(h),
        TreeEntry::Symlink { .. } => false,
        TreeEntry::Tree { node, .. } => h == node.hash || !stubbed.contains(path) && (
        node.content matches Content::Entries(es) && exists|i: int|
            0 <= i < es@.len() && uses(#[trigger] es@[i], path, stubbed, ms, h)),
    }
}

proof fn lemma_chunks(ms: Seq<Manifest>, blob: ObjectHash, h: ObjectHash)
    ensures
        reach::chunks_of(ms, blob).contains(h) <==> exists|i: int|
            0 <= i < ms.len() && (#[trigger] ms[i]).blob == blob && ms[i].chunks@.contains(h),
    decreases ms.len(),
{
    if ms.len() > 0 {
        let init = ms.drop_last();
        lemma_chunks(init, blob, h);
        if exists|i: int|
            0 <= i < init.len() && (#[trigger] init[i]).blob == blob && init[i].chunks@.contains(h) {
            let i = choose|i: int|
                0 <= i < init.len() && (#[trigger] init[i]).blob == blob
                    && init[i].chunks@.contains(h);
            assert(ms[i] == init[i]);
        }
        if exists|i: int|
            0 <= i < ms.len() && (#[trigger] ms[i]).blob == blob && ms[i].chunks@.contains(h) {
            let i = choose|i: int|
                0 <= i < ms.len() && (#[trigger] ms[i]).blob == blob && ms[i].chunks@.contains(h);
            if i < init.len() {
                assert(init[i] == ms[i]);
            }
        }
        if ms.last().blob == blob && ms.last().chunks@.contains(h) {
            assert(ms[ms.len() - 1] == ms.last());
        }
    }
}

proof fn lemma_used(
    node: TreeNode,
    prefix: Seq<char>,
    stubbed: Set<Seq<char>>,
    ms: Seq<Manifest>,
    h: ObjectHash,
)
    ensures
        reach::used(node, prefix, stubbed, ms).contains(h) <==> h == node.hash || (
        node.content matches Content::Entries(es) && exists|i: int|
            0 <= i < es@.len() && uses(#[trigger] es@[i], prefix, stubbed, ms, h)),
    decreases node, 1nat,
{
    if let Content::Entries(es) = node.content {
        lemma_used_upto(es@, es@.len(), prefix, stubbed, ms, h);
    }
}

proof fn lemma_used_upto(
    es: Seq<TreeEntry>,
    n: nat,
    prefix: Seq<char>,
    stubbed: Set<Seq<char>>,
    ms: Seq<Manifest>,
    h: ObjectHash,
)
    requires
        n <= es.len(),
    ensures
        reach::used_upto(es, n, prefix, stubbed, ms).contains(h) <==> exists|i: int|
            0 <= i < n && uses(#[trigger] es[i], prefix, stubbed, ms, h),
    decreases es, n,
{
    if n > 0 {
        lemma_used_upto(es, (n - 1) as nat, prefix, stubbed, ms, h);
        let e = es[n - 1];
        match e {
            TreeEntry::Blob { hash, .. } => {
                lemma_chunks(ms, hash, h);
            },
            TreeEntry::Tree { node, .. } => {
                lemma_used(node, text::joined(prefix, e.name_text()), stubbed, ms, h);
            },
            _ => {},
        }
        if uses(e, prefix, stubbed, ms, h) {
            assert(uses(es[n - 1], prefix, stubbed, ms, h));
        }
        if exists|i: int| 0 <= i < n - 1 && uses(#[trigger] es[i], prefix, stubbed, ms, h) {
            let i = choose|i: int|
                0 <= i < n - 1 && uses(#[trigger] es[i], prefix, stubbed, ms, h);
            assert(uses(es[i], prefix, stubbed, ms, h));
        }
    }
}

/// An object is hot exactly where one of the two roots uses it: it is the root, or an entry
/// of it, or of a directory of it, uses it, and no stub stands for a directory on the way.
pub proof fn law_hot_is_what_a_root_uses(
    clone_root: Option<&TreeNode>,
    remote_root: Option<&TreeNode>,
    stubbed: Set<Seq<char>>,
    ms: Seq<Manifest>,
    h: ObjectHash,
)
    ensures
        reach::hot_set(clone_root, remote_root, stubbed, ms).contains(h) <==> root_holds(
            clone_root,
            stubbed,
            ms,
            h,
        ) || root_holds(remote_root, stubbed, ms, h),
{
    if let Some(node) = clone_root {
        lemma_used(*node, seq![], stubbed, ms, h);
    }
    if let Some(node) = remote_root {
        lemma_used(*node, seq![], stubbed, ms, h);
    }
}

/// Whether a root is an object, or one of its entries uses it.
pub open spec fn root_holds(
    root: Option<&TreeNode>,
    stubbed: Set<Seq<char>>,
    ms: Seq<Manifest>,
    h: ObjectHash,
) -> bool {
    root matches Some(node) && (h == node.hash || (node.content matches Content::Entries(es)
        && exists|i: int|
        0 <= i < es@.len() && uses(#[trigger] es@[i], Seq::<char>::empty(), stubbed, ms, h)))
}

// ---------------------------------------------------------------------------
// Stubs on disk
// ---------------------------------------------------------------------------

/// Whether an entry on disk is the stub of a path, or a directory with such a stub in it: the
/// marker stands for the directory that it lies in, any other stub for the file of its name.
/// The state of the repository is not looked into.
pub open spec fn stubs(e: DiskEntry, prefix: Seq<char>, p: Seq<char>) -> bool
    decreases e,
{
    e.name@ != ".omemfs"@ && match e.kind {
        DiskKind::Dir(sub) => exists|i: int|
            0 <= i < sub@.len() && stubs(#[trigger] sub@[i], text::joined(prefix, e.name@), p),
        DiskKind::File { .. } => stub_of(e.name@, prefix, p),
        DiskKind::Symlink { to_file, .. } => to_file && stub_of(e.name@, prefix, p),
        _ => false,
    }
}

/// Whether a file name is that of the stub of a path.
pub open spec fn stub_of(name: Seq<char>, prefix: Seq<char>, p: Seq<char>) -> bool {
    exists|stem: Seq<char>|
        name == #[trigger] (stem + ".omemfs-stub"@) && p == with_slashes(
            if stem.len() == 0 {
                prefix
            } else {
                text::joined(prefix, stem)
            },
        )
}

/// A path with slashes only.
pub open spec fn with_slashes(s: Seq<char>) -> Seq<char> {
    Seq::new(
        s.len(),
        |i: int|
            if s[i] == '\\' {
                '/'
            } else {
                s[i]
            },
    )
}

proof fn lemma_stub_of(name: Seq<char>, prefix: Seq<char>, p: Seq<char>)
    ensures
        stub_of(name, prefix, p) <==> crate::worktree::stub_name(name) && p == reach::stubbed_path(
            prefix,
            name,
        ),
{
    let suffix = ".omemfs-stub"@;
    assert forall|s: Seq<char>| with_slashes(s) =~= #[trigger] text::replaced(s, '\\', '/') by {}
    if stub_of(name, prefix, p) {
        let stem = choose|stem: Seq<char>|
            name == #[trigger] (stem + suffix) && p == with_slashes(
                if stem.len() == 0 {
                    prefix
                } else {
                    text::joined(prefix, stem)
                },
            );
        assert(name.skip(name.len() - suffix.len()) =~= suffix);
        assert(name.take(name.len() - suffix.len()) =~= stem);
        let at = if stem.len() == 0 {
            prefix
        } else {
            text::joined(prefix, stem)
        };
        assert(with_slashes(at) =~= text::replaced(at, '\\', '/'));
    }
    if crate::worktree::stub_name(name) && p == reach::stubbed_path(prefix, name) {
        let stem = name.take(name.len() - suffix.len());
        assert(name =~= stem + suffix);
        let at = if stem.len() == 0 {
            prefix
        } else {
            text::joined(prefix, stem)
        };
        assert(with_slashes(at) =~= text::replaced(at, '\\', '/'));
    }
}

/// The stubbed paths are those that a stub on disk stands for.
pub proof fn law_stubbed_paths_have_stubs(
    es: Seq<DiskEntry>,
    n: nat,
    prefix: Seq<char>,
    p: Seq<char>,
)
    requires
        n <= es.len(),
    ensures
        reach::stub_paths(es, n, prefix).contains(p) <==> exists|i: int|
            0 <= i < n && stubs(#[trigger] es[i], prefix, p),
    decreases es, n,
{
    if n > 0 {
        law_stubbed_paths_have_stubs(es, (n - 1) as nat, prefix, p);
        let e = es[n - 1];
        match e.kind {
            DiskKind::Dir(sub) => {
                law_stubbed_paths_have_stubs(
                    sub@,
                    sub@.len(),
                    text::joined(prefix, e.name@),
                    p,
                );
            },
            _ => {
                lemma_stub_of(e.name@, prefix, p);
            },
        }
        if stubs(e, prefix, p) {
            assert(stubs(es[n - 1], prefix, p));
        }
        if exists|i: int| 0 <= i < n - 1 && stubs(#[trigger] es[i], prefix, p) {
            let i = choose|i: int| 0 <= i < n - 1 && stubs(#[trigger] es[i], prefix, p);
            assert(stubs(es[i], prefix, p));
        }
    }
}

// ---------------------------------------------------------------------------
// Regrouping
// ---------------------------------------------------------------------------

/// How many bytes packs hold in all.
pub open spec fn bytes_in(ps: Seq<PackView>) -> nat
    decreases ps.len(),
{
    if ps.len() == 0 {
        0
    } else {
        bytes_in(ps.drop_last()) + ps.last().body.len()
    }
}

proof fn lemma_regrouped(es: Seq<EntryView>, bufs: Seq<PackBytes>, target: usize, max: usize)
    requires
        consolidate::regroup_all(es, bufs, target, max) is Some,
        target > 0,
        max > 0,
    ensures
        ({
            let g = consolidate::regroup_all(es, bufs, target, max)->0;
            &&& bytes_in(g.done) + g.open.body.len() == consolidate::moved_bytes(es, bufs)
            &&& forall|i: int|
                0 <= i < g.done.len() ==> (#[trigger] g.done[i]).body.len() >= target
                    || g.done[i].body.len() >= max
            &&& g.open.body.len() < target && g.open.body.len() < max
            &&& g.open.slices.len() == 0 ==> g.open.body.len() == 0
        }),
    decreases es.len(),
{
    if es.len() > 0 {
        lemma_regrouped(es.drop_last(), bufs, target, max);
        let g = consolidate::regroup_all(es.drop_last(), bufs, target, max)->0;
        let r = consolidate::regroup_all(es, bufs, target, max)->0;
        if r.done.len() > g.done.len() {
            assert(r.done.drop_last() =~= g.done);
        }
    }
}

/// The new packs hold just the bytes that are moved, and each but the last is full: it has
/// reached the size that is aimed at, or the largest that is allowed.
pub proof fn law_new_packs_are_filled(
    es: Seq<EntryView>,
    bufs: Seq<PackBytes>,
    target: usize,
    max: usize,
)
    requires
        consolidate::regroup_all(es, bufs, target, max) is Some,
        target > 0,
        max > 0,
    ensures
        ({
            let packs = consolidate::all_packs(
                consolidate::regroup_all(es, bufs, target, max)->0,
            );
            &&& bytes_in(packs) == consolidate::moved_bytes(es, bufs)
            &&& forall|i: int|
                0 <= i < packs.len() - 1 ==> (#[trigger] packs[i]).body.len() >= target
                    || packs[i].body.len() >= max
        }),
{
    lemma_regrouped(es, bufs, target, max);
    let g = consolidate::regroup_all(es, bufs, target, max)->0;
    let packs = consolidate::all_packs(g);
    if g.open.slices.len() > 0 {
        assert(packs.drop_last() =~= g.done);
    }
    assert forall|i: int| 0 <= i < packs.len() - 1 implies (#[trigger] packs[i]).body.len()
        >= target || packs[i].body.len() >= max by {
        assert(packs[i] == g.done[i]);
    }
}

/// Packs are regrouped unless an entry leads out of its pack; the first that does is found.
pub proof fn law_only_bad_entries_stop(
    es: Seq<EntryView>,
    bufs: Seq<PackBytes>,
    target: usize,
    max: usize,
)
    ensures
        consolidate::regroup_all(es, bufs, target, max) is None <==> exists|i: int|
            0 <= i < es.len() && consolidate::points_out(#[trigger] es[i], bufs),
        match consolidate::first_fault(es, bufs, 0) {
            Some(i) => 0 <= i < es.len() && consolidate::points_out(es[i], bufs) && forall|j: int|
                0 <= j < i ==> !consolidate::points_out(#[trigger] es[j], bufs),
            None => forall|j: int|
                0 <= j < es.len() ==> !consolidate::points_out(#[trigger] es[j], bufs),
        },
{
    lemma_stopped(es, bufs, target, max);
    lemma_first_fault(es, bufs, 0);
}

proof fn lemma_stopped(es: Seq<EntryView>, bufs: Seq<PackBytes>, target: usize, max: usize)
    ensures
        consolidate::regroup_all(es, bufs, target, max) is None <==> exists|i: int|
            0 <= i < es.len() && consolidate::points_out(#[trigger] es[i], bufs),
    decreases es.len(),
{
    if es.len() > 0 {
        let init = es.drop_last();
        lemma_stopped(init, bufs, target, max);
        if exists|i: int| 0 <= i < init.len() && consolidate::points_out(#[trigger] init[i], bufs) {
            let i = choose|i: int|
                0 <= i < init.len() && consolidate::points_out(#[trigger] init[i], bufs);
            assert(es[i] == init[i]);
        }
        if exists|i: int| 0 <= i < es.len() && consolidate::points_out(#[trigger] es[i], bufs) {
            let i = choose|i: int|
                0 <= i < es.len() && consolidate::points_out(#[trigger] es[i], bufs);
            if i < init.len() {
                assert(init[i] == es[i]);
            }
        }
        if consolidate::points_out(es.last(), bufs) {
            assert(es[es.len() - 1] == es.last());
        }
    }
}

proof fn lemma_first_fault(es: Seq<EntryView>, bufs: Seq<PackBytes>, from: int)
    requires
        0 <= from <= es.len(),
    ensures
        match consolidate::first_fault(es, bufs, from) {
            Some(i) => from <= i < es.len() && consolidate::points_out(es[i], bufs) && forall|
                j: int,
            |
                from <= j < i ==> !consolidate::points_out(#[trigger] es[j], bufs),
            None => forall|j: int|
                from <= j < es.len() ==> !consolidate::points_out(#[trigger] es[j], bufs),
        },
    decreases es.len() - from,
{
    if from < es.len() && !consolidate::points_out(es[from], bufs) {
        lemma_first_fault(es, bufs, from + 1);
    }
}

/// An entry leads out of its pack exactly where its bytes would end behind the file's end; the
/// file begins with two bytes that are no object's.
pub proof fn law_entries_are_measured(
    hash: ObjectHash,
    pack: PackBytes,
    offset: u32,
    length: u32,
)
    ensures
        consolidate::points_out(
            EntryView::Pack { hash, pack_hash: pack.hash, offset, length },
            seq![pack],
        ) <==> pack.bytes@.len() < 2 + offset + length,
{
    reveal_with_fuel(consolidate::file_of, 2);
    assert(consolidate::file_of(seq![pack], pack.hash, 0) == Some(pack.bytes@));
}

/// The name of an encrypted index root is its nonce, filled up with zeros.
pub proof fn law_padded_nonce(nonce: Seq<u8>, i: int)
    requires
        nonce.len() == 12,
        0 <= i < 32,
    ensures
        super::padded_nonce(nonce).len() == 32,
        super::padded_nonce(nonce)[i] == if i < 12 {
            nonce[i]
        } else {
            0
        },
{
}

} // verus!
