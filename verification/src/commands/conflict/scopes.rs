//! What a scope has to do with the conflicts of the whole tree.

use super::AcceptSide;
use crate::commands::pull::leaves;
use crate::text;
use crate::worktree::{self, DiskEntry, DiskKind};
use vstd::prelude::*;

verus! {

/// Whether a name is a proper one.
pub open spec fn proper(name: Seq<char>) -> bool {
    name.len() > 0 && !name.contains('/')
}

/// Whether all names of a directory, and of what it holds, are proper, and no two in one
/// directory are the same.
pub open spec fn named(es: Seq<DiskEntry>) -> bool
    decreases es,
{
    &&& forall|i: int| 0 <= i < es.len() ==> proper((#[trigger] es[i]).name@)
    &&& forall|i: int, j: int|
        0 <= i < j < es.len() ==> (#[trigger] es[i]).name@ != (#[trigger] es[j]).name@
    &&& forall|i: int|
        0 <= i < es.len() ==> match (#[trigger] es[i]).kind {
            DiskKind::Dir(sub) => named(sub@),
            _ => true,
        }
}

/// Whether the names of a path are proper, and none is that of the repository's state.
pub open spec fn plain(comps: Seq<Seq<char>>) -> bool {
    forall|i: int|
        0 <= i < comps.len() ==> proper(#[trigger] comps[i]) && comps[i] != ".omemfs"@
}

/// The path of names, one below the other.
pub open spec fn path_of(comps: Seq<Seq<char>>) -> Seq<char>
    decreases comps.len(),
{
    if comps.len() == 0 {
        seq![]
    } else {
        text::joined(path_of(comps.drop_last()), comps.last())
    }
}

/// The names of the path of the helper file of a side.
pub open spec fn helper_of(comps: Seq<Seq<char>>, side: AcceptSide) -> Seq<Seq<char>> {
    comps.drop_last().push(comps.last() + side.suffix_text())
}

/// Whether a file, and no directory, stands at a path.
pub open spec fn file_stands(es: Seq<DiskEntry>, comps: Seq<Seq<char>>, from: nat) -> bool {
    worktree::at_path(es, comps, from) matches Some(e) && !(e.kind is Dir)
}

/// The directory that stands at a path.
pub open spec fn dir_stands(es: Seq<DiskEntry>, comps: Seq<Seq<char>>, from: nat) -> Option<
    Seq<DiskEntry>,
> {
    match worktree::at_path(es, comps, from) {
        Some(e) => match e.kind {
            DiskKind::Dir(sub) => Some(sub@),
            _ => None,
        },
        None => None,
    }
}

/// Whether a directory has a helper file that belongs to no name.
pub open spec fn has_bare_helper(es: Seq<DiskEntry>) -> bool {
    exists|i: int|
        0 <= i < es.len() && !((#[trigger] es[i]).kind is Dir) && super::without_suffix(es[i].name@)
            == Some(Seq::<char>::empty())
}

/// Whether the helper file of some side of a path is there, or the path is a directory
/// with a helper file that belongs to no name.
pub open spec fn in_conflict(es: Seq<DiskEntry>, comps: Seq<Seq<char>>, from: nat) -> bool {
    ||| exists|side: AcceptSide| file_stands(es, #[trigger] helper_of(comps, side), from)
    ||| dir_stands(es, comps, from) matches Some(sub) && has_bare_helper(sub)
}

// ---------------------------------------------------------------------------
// Paths
// ---------------------------------------------------------------------------

/// The components of the path of names are the names.
pub proof fn lemma_components_of_path(comps: Seq<Seq<char>>)
    requires
        forall|i: int| 0 <= i < comps.len() ==> proper(#[trigger] comps[i]),
    ensures
        text::components(path_of(comps)) == comps,
        comps.len() > 0 ==> path_of(comps).len() > 0,
    decreases comps.len(),
{
    if comps.len() == 0 {
        text::lemma_components_of_empty(path_of(comps));
        assert(comps =~= Seq::<Seq<char>>::empty());
    } else {
        let init = comps.drop_last();
        assert forall|i: int| 0 <= i < init.len() implies proper(#[trigger] init[i]) by {
            assert(init[i] == comps[i]);
        }
        lemma_components_of_path(init);
        assert(proper(comps[comps.len() - 1]));
        text::lemma_components_joined(path_of(init), comps.last());
        assert(init.push(comps.last()) =~= comps);
    }
}

/// A path lies in the region of each of its names.
proof fn lemma_in_region(comps: Seq<Seq<char>>, from: nat)
    requires
        forall|i: int| 0 <= i < comps.len() ==> proper(#[trigger] comps[i]),
        from < comps.len(),
    ensures
        leaves::in_region(path_of(comps.take(from as int)), comps[from as int], path_of(comps)),
        path_of(comps.take(from as int + 1)) == text::joined(
            path_of(comps.take(from as int)),
            comps[from as int],
        ),
        path_of(comps) == path_of(comps.take(from as int + 1)) <==> from + 1 == comps.len(),
        path_of(comps).len() > path_of(comps.take(from as int)).len(),
    decreases comps.len() - from,
{
    let here = comps.take(from as int + 1);
    assert(here.drop_last() =~= comps.take(from as int));
    assert(here.last() == comps[from as int]);
    assert(proper(comps[from as int]));
    let path = path_of(here);
    assert(path.len() > path_of(comps.take(from as int)).len());
    if from + 1 == comps.len() {
        assert(here =~= comps);
    } else {
        lemma_in_region(comps, from + 1);
        let next = comps[from as int + 1];
        let q = path_of(comps);
        let deeper = text::joined(path, next);
        assert(leaves::at_or_above(deeper, q));
        assert(deeper.take(path.len() as int + 1) =~= path.push('/'));
        assert(leaves::at_or_above(path, deeper));
        leaves::lemma_at_or_above_twice(path, deeper, q);
        assert(q.len() > path.len());
    }
}

proof fn lemma_helper_path(comps: Seq<Seq<char>>, side: AcceptSide)
    requires
        comps.len() > 0,
        forall|i: int| 0 <= i < comps.len() ==> proper(#[trigger] comps[i]),
    ensures
        path_of(helper_of(comps, side)) == path_of(comps) + side.suffix_text(),
        forall|i: int| 0 <= i < comps.len() ==> proper(#[trigger] helper_of(comps, side)[i]),
        helper_of(comps, side).len() == comps.len(),
{
    let h = helper_of(comps, side);
    let s = side.suffix_text();
    assert(h.drop_last() =~= comps.drop_last());
    let p = path_of(comps.drop_last());
    assert(path_of(h) =~= path_of(comps) + s) by {
        if p.len() > 0 {
            assert(p.push('/') + (comps.last() + s) =~= (p.push('/') + comps.last()) + s);
        }
    }
    assert(proper(comps[comps.len() - 1]));
    assert forall|i: int| 0 <= i < comps.len() implies proper(#[trigger] h[i]) by {
        if i < comps.len() - 1 {
            assert(h[i] == comps[i]);
        } else {
            lemma_suffix_is_proper(side);
            assert(h[i] == comps.last() + s);
            if h[i].contains('/') {
                let j = choose|j: int| 0 <= j < h[i].len() && h[i][j] == '/';
                if j < comps.last().len() {
                    assert(comps.last()[j] == '/');
                } else {
                    assert(s[j - comps.last().len()] == '/');
                }
            }
        }
    }
}

proof fn lemma_suffix_is_proper(side: AcceptSide)
    ensures
        proper(side.suffix_text()),
        side.suffix_text().len() > 10,
{
    reveal_strlit(".omemfs-conflict-base");
    reveal_strlit(".omemfs-conflict-local");
    reveal_strlit(".omemfs-conflict-remote");
}

/// The first entry with a name is the only one.
proof fn lemma_first_named(es: Seq<DiskEntry>, i: int, from: nat)
    requires
        from <= i < es.len(),
        forall|a: int, b: int|
            0 <= a < b < es.len() ==> (#[trigger] es[a]).name@ != (#[trigger] es[b]).name@,
    ensures
        worktree::first_named(es, es[i].name@, from) == Some(i as nat),
    decreases i - from,
{
    if from < i {
        assert(es[from as int].name@ != es[i].name@);
        lemma_first_named(es, i, from + 1);
    }
}

proof fn lemma_found_is_named(es: Seq<DiskEntry>, name: Seq<char>, from: nat)
    ensures
        worktree::first_named(es, name, from) matches Some(i) ==> from <= i < es.len()
            && es[i as int].name@ == name,
    decreases es.len() - from,
{
    if from < es.len() && es[from as int].name@ != name {
        lemma_found_is_named(es, name, from + 1);
    }
}

// ---------------------------------------------------------------------------
// Walks
// ---------------------------------------------------------------------------

/// Whether an entry brings a path into conflict.
spec fn contributes(e: DiskEntry, prefix: Seq<char>, q: Seq<char>) -> bool {
    e.name@ != ".omemfs"@ && match e.kind {
        DiskKind::Dir(sub) => super::conflicts_in(
            sub@,
            sub@.len(),
            text::joined(prefix, e.name@),
            Set::empty(),
        ).contains(q),
        _ => super::without_suffix(e.name@) matches Some(b) && super::under(prefix, b) == q,
    }
}

proof fn lemma_conflicts_sum(
    es: Seq<DiskEntry>,
    n: nat,
    prefix: Seq<char>,
    acc: Set<Seq<char>>,
    q: Seq<char>,
)
    ensures
        super::conflicts_in(es, n, prefix, acc).contains(q) <==> acc.contains(q)
            || super::conflicts_in(es, n, prefix, Set::empty()).contains(q),
    decreases es, n,
{
    if n > 0 && n <= es.len() {
        lemma_conflicts_sum(es, (n - 1) as nat, prefix, acc, q);
        let e = es[n - 1];
        if let DiskKind::Dir(sub) = e.kind {
            let a = super::conflicts_in(es, (n - 1) as nat, prefix, acc);
            let b = super::conflicts_in(es, (n - 1) as nat, prefix, Set::empty());
            let path = text::joined(prefix, e.name@);
            lemma_conflicts_sum(sub@, sub@.len(), path, a, q);
            lemma_conflicts_sum(sub@, sub@.len(), path, b, q);
        }
    }
}

proof fn lemma_conflicts_by_entry(es: Seq<DiskEntry>, n: nat, prefix: Seq<char>, q: Seq<char>)
    requires
        n <= es.len(),
    ensures
        super::conflicts_in(es, n, prefix, Set::empty()).contains(q) <==> exists|i: int|
            0 <= i < n && contributes(#[trigger] es[i], prefix, q),
    decreases n,
{
    if n > 0 {
        lemma_conflicts_by_entry(es, (n - 1) as nat, prefix, q);
        let e = es[n - 1];
        let prev = super::conflicts_in(es, (n - 1) as nat, prefix, Set::empty());
        if let DiskKind::Dir(sub) = e.kind {
            lemma_conflicts_sum(sub@, sub@.len(), text::joined(prefix, e.name@), prev, q);
        }
        if contributes(e, prefix, q) {
            assert(contributes(es[n - 1], prefix, q));
        }
        if prev.contains(q) {
            let i = choose|i: int| 0 <= i < n - 1 && contributes(#[trigger] es[i], prefix, q);
            assert(contributes(es[i], prefix, q));
        }
    }
}

/// What a name without its suffix is.
proof fn lemma_without_suffix(name: Seq<char>)
    ensures
        super::without_suffix(name) matches Some(b) ==> exists|side: AcceptSide| #[trigger]
            side.suffix_text() == name.skip(b.len() as int) && name == b + side.suffix_text(),
        super::without_suffix(name) matches Some(b) ==> (proper(name) ==> !b.contains('/')),
{
    if let Some(b) = super::without_suffix(name) {
        let side = if text::has_suffix(name, super::CONFLICT_SUFFIX_BASE@) {
            AcceptSide::Base
        } else if text::has_suffix(name, super::CONFLICT_SUFFIX_LOCAL@) {
            AcceptSide::Local
        } else {
            AcceptSide::Remote
        };
        let s = side.suffix_text();
        assert(name =~= b + s);
        assert(name.skip(b.len() as int) =~= s);
        if b.contains('/') {
            let j = choose|j: int| 0 <= j < b.len() && b[j] == '/';
            assert(name[j] == '/');
        }
    }
}

/// What a directory brings into conflict is the directory or lies below it.
proof fn lemma_conflicts_lie_below(es: Seq<DiskEntry>, prefix: Seq<char>, q: Seq<char>)
    requires
        named(es),
        prefix.len() > 0,
        super::conflicts_in(es, es.len(), prefix, Set::empty()).contains(q),
    ensures
        leaves::at_or_above(prefix, q),
    decreases es,
{
    lemma_conflicts_by_entry(es, es.len(), prefix, q);
    let i = choose|i: int| 0 <= i < es.len() && contributes(#[trigger] es[i], prefix, q);
    let e = es[i];
    let path = text::joined(prefix, e.name@);
    match e.kind {
        DiskKind::Dir(sub) => {
            lemma_conflicts_lie_below(sub@, path, q);
            assert(path.take(prefix.len() as int + 1) =~= prefix.push('/'));
            assert(leaves::at_or_above(prefix, path));
            leaves::lemma_at_or_above_twice(prefix, path, q);
        },
        _ => {
            let b = super::without_suffix(e.name@)->0;
            if b.len() > 0 {
                assert(q.take(prefix.len() as int + 1) =~= prefix.push('/'));
            }
        },
    }
}

/// A directory is in conflict by what it holds only where it has a helper file that
/// belongs to no name.
proof fn lemma_conflict_of_own_path(es: Seq<DiskEntry>, prefix: Seq<char>)
    requires
        named(es),
        prefix.len() > 0,
    ensures
        super::conflicts_in(es, es.len(), prefix, Set::empty()).contains(prefix)
            <==> has_bare_helper(es),
{
    lemma_conflicts_by_entry(es, es.len(), prefix, prefix);
    if super::conflicts_in(es, es.len(), prefix, Set::empty()).contains(prefix) {
        let i = choose|i: int| 0 <= i < es.len() && contributes(#[trigger] es[i], prefix, prefix);
        let e = es[i];
        let path = text::joined(prefix, e.name@);
        match e.kind {
            DiskKind::Dir(sub) => {
                lemma_conflicts_lie_below(sub@, path, prefix);
                assert(path.len() > prefix.len());
            },
            _ => {
                let b = super::without_suffix(e.name@)->0;
                assert(b.len() == 0);
                assert(b =~= Seq::<char>::empty());
            },
        }
    }
    if has_bare_helper(es) {
        let i = choose|i: int|
            0 <= i < es.len() && !((#[trigger] es[i]).kind is Dir) && super::without_suffix(
                es[i].name@,
            ) == Some(Seq::<char>::empty());
        lemma_without_suffix(es[i].name@);
        reveal_strlit(".omemfs");
        let side = choose|side: AcceptSide| #[trigger]
            side.suffix_text() == es[i].name@.skip(0) && es[i].name@ == Seq::<char>::empty()
                + side.suffix_text();
        lemma_suffix_is_proper(side);
        assert(es[i].name@.len() > 10);
        assert(contributes(es[i], prefix, prefix));
    }
}

/// A path is in conflict, from a directory above it on, exactly where the helper file of
/// some side is there, or a helper file that belongs to no name.
proof fn lemma_conflict_iff(es: Seq<DiskEntry>, comps: Seq<Seq<char>>, from: nat)
    requires
        named(es),
        plain(comps),
        from < comps.len(),
    ensures
        super::conflicts_in(
            es,
            es.len(),
            path_of(comps.take(from as int)),
            Set::empty(),
        ).contains(path_of(comps)) <==> in_conflict(es, comps, from),
    decreases es,
{
    let q = path_of(comps);
    let prefix = path_of(comps.take(from as int));
    let name = comps[from as int];
    let all = super::conflicts_in(es, es.len(), prefix, Set::empty());
    assert(proper(name) && name != ".omemfs"@);
    assert forall|i: int| 0 <= i < comps.len() implies proper(#[trigger] comps[i]) by {
        assert(proper(comps[i]) && comps[i] != ".omemfs"@);
    }
    lemma_in_region(comps, from);
    lemma_conflicts_by_entry(es, es.len(), prefix, q);
    let path = text::joined(prefix, name);
    if all.contains(q) {
        let i = choose|i: int| 0 <= i < es.len() && contributes(#[trigger] es[i], prefix, q);
        let e = es[i];
        assert(proper(e.name@));
        lemma_first_named(es, i, 0);
        match e.kind {
            DiskKind::Dir(sub) => {
                let at = text::joined(prefix, e.name@);
                lemma_conflicts_lie_below(sub@, at, q);
                assert(leaves::in_region(prefix, e.name@, q));
                leaves::lemma_regions_disjoint(prefix, name, e.name@, q);
                if from + 1 == comps.len() {
                    lemma_conflict_of_own_path(sub@, at);
                    assert(worktree::at_path(es, comps, from) == Some(e));
                } else {
                    lemma_conflict_iff(sub@, comps, from + 1);
                    lemma_step_down(es, comps, from, i);
                }
            },
            _ => {
                let b = super::without_suffix(e.name@)->0;
                lemma_without_suffix(e.name@);
                let side = choose|side: AcceptSide| #[trigger]
                    side.suffix_text() == e.name@.skip(b.len() as int) && e.name@ == b
                        + side.suffix_text();
                assert(b.len() > 0);
                assert(leaves::in_region(prefix, b, q));
                leaves::lemma_regions_disjoint(prefix, name, b, q);
                assert(from + 1 == comps.len());
                let h = helper_of(comps, side);
                assert(h[from as int] == e.name@);
                assert(worktree::at_path(es, h, from) == Some(e));
                assert(file_stands(es, helper_of(comps, side), from));
            },
        }
    }
    if in_conflict(es, comps, from) {
        if from + 1 == comps.len() {
            if exists|side: AcceptSide| file_stands(es, #[trigger] helper_of(comps, side), from) {
                let side = choose|side: AcceptSide|
                    file_stands(es, #[trigger] helper_of(comps, side), from);
                let h = helper_of(comps, side);
                assert(h[from as int] == name + side.suffix_text());
                lemma_found_is_named(es, h[from as int], 0);
                let i = worktree::first_named(es, h[from as int], 0)->0 as int;
                super::law_helper_base(name, side);
                lemma_helper_is_no_state(name, side);
                assert(contributes(es[i], prefix, q));
            } else {
                lemma_found_is_named(es, name, 0);
                let i = worktree::first_named(es, name, 0)->0 as int;
                if let DiskKind::Dir(sub) = es[i].kind {
                    lemma_conflict_of_own_path(sub@, path);
                    assert(contributes(es[i], prefix, q));
                }
            }
        } else {
            lemma_found_is_named(es, name, 0);
            lemma_conflict_names_dir(es, comps, from);
            let i = worktree::first_named(es, name, 0)->0 as int;
            if let DiskKind::Dir(sub) = es[i].kind {
                lemma_step_down(es, comps, from, i);
                lemma_conflict_iff(sub@, comps, from + 1);
                assert(contributes(es[i], prefix, q));
            }
        }
    }
}

proof fn lemma_helper_is_no_state(name: Seq<char>, side: AcceptSide)
    ensures
        name + side.suffix_text() != ".omemfs"@,
{
    lemma_suffix_is_proper(side);
    reveal_strlit(".omemfs");
    assert((name + side.suffix_text()).len() > ".omemfs"@.len());
}

/// Where a deeper path is in conflict, its first name is a directory.
proof fn lemma_conflict_names_dir(es: Seq<DiskEntry>, comps: Seq<Seq<char>>, from: nat)
    requires
        from + 1 < comps.len(),
        in_conflict(es, comps, from),
    ensures
        worktree::first_named(es, comps[from as int], 0) matches Some(i) && i < es.len()
            && es[i as int].kind is Dir,
{
    if exists|side: AcceptSide| file_stands(es, #[trigger] helper_of(comps, side), from) {
        let side = choose|side: AcceptSide|
            file_stands(es, #[trigger] helper_of(comps, side), from);
        assert(helper_of(comps, side)[from as int] == comps[from as int]);
    }
}

/// A walk to a path goes on in the directory of its first name.
proof fn lemma_step_down(es: Seq<DiskEntry>, comps: Seq<Seq<char>>, from: nat, i: int)
    requires
        from + 1 < comps.len(),
        0 <= i < es.len(),
        worktree::first_named(es, comps[from as int], 0) == Some(i as nat),
        es[i].kind is Dir,
    ensures
        in_conflict(es, comps, from) <==> in_conflict(es[i].kind->Dir_0@, comps, from + 1),
{
    let sub = es[i].kind->Dir_0@;
    assert forall|side: AcceptSide|
        file_stands(es, #[trigger] helper_of(comps, side), from) <==> file_stands(
            sub,
            helper_of(comps, side),
            from + 1,
        ) by {
        assert(helper_of(comps, side)[from as int] == comps[from as int]);
    }
    if exists|side: AcceptSide| file_stands(es, #[trigger] helper_of(comps, side), from) {
        let side = choose|side: AcceptSide|
            file_stands(es, #[trigger] helper_of(comps, side), from);
        assert(file_stands(sub, helper_of(comps, side), from + 1));
    }
    if exists|side: AcceptSide| file_stands(sub, #[trigger] helper_of(comps, side), from + 1) {
        let side = choose|side: AcceptSide|
            file_stands(sub, #[trigger] helper_of(comps, side), from + 1);
        assert(file_stands(es, helper_of(comps, side), from));
    }
}

// ---------------------------------------------------------------------------
// The laws
// ---------------------------------------------------------------------------

/// A path is in conflict exactly where the helper file of any of the three sides is there,
/// for whatever side, or where it is a directory with a helper file that belongs to no name.
pub proof fn law_any_helper_makes_a_conflict(root: Seq<DiskEntry>, comps: Seq<Seq<char>>)
    requires
        named(root),
        plain(comps),
        comps.len() > 0,
    ensures
        super::all_conflicts(root).contains(path_of(comps)) <==> in_conflict(root, comps, 0),
{
    reveal_strlit("");
    assert(comps.take(0) =~= Seq::<Seq<char>>::empty());
    assert(""@ =~= path_of(comps.take(0)));
    lemma_conflict_iff(root, comps, 0);
}

/// Whether the helper files of a path are regular files or links to such.
pub open spec fn regular_helpers(root: Seq<DiskEntry>, comps: Seq<Seq<char>>) -> bool {
    forall|side: AcceptSide|
        (worktree::at_path(root, #[trigger] helper_of(comps, side), 0) matches Some(e)
            && !(e.kind is Dir)) ==> match worktree::at_path(root, helper_of(comps, side), 0)->0.kind {
            DiskKind::File { .. } => true,
            DiskKind::Symlink { to_file, .. } => to_file,
            _ => false,
        }
}

/// A path at which no directory stands can be asked for by itself: the conflicts within it
/// are the path, where the whole tree has it in conflict, and none otherwise.
pub proof fn law_scope_of_one_path(root: Seq<DiskEntry>, comps: Seq<Seq<char>>)
    requires
        named(root),
        plain(comps),
        comps.len() > 0,
        regular_helpers(root, comps),
        dir_stands(root, comps, 0) is None,
    ensures
        super::conflicts(root, seq![path_of(comps)]) == if super::all_conflicts(root).contains(
            path_of(comps),
        ) {
            set![path_of(comps)]
        } else {
            Set::empty()
        },
{
    let q = path_of(comps);
    assert forall|i: int| 0 <= i < comps.len() implies proper(#[trigger] comps[i]) by {
        assert(proper(comps[i]) && comps[i] != ".omemfs"@);
    }
    law_any_helper_makes_a_conflict(root, comps);
    lemma_components_of_path(comps);
    assert forall|side: AcceptSide|
        super::is_file_at(root, q + #[trigger] side.suffix_text()) <==> file_stands(
            root,
            helper_of(comps, side),
            0,
        ) by {
        lemma_helper_path(comps, side);
        lemma_components_of_path(helper_of(comps, side));
    }
    let base = AcceptSide::Base.suffix_text();
    let local = AcceptSide::Local.suffix_text();
    let remote = AcceptSide::Remote.suffix_text();
    assert(super::is_file_at(root, q + base) <==> file_stands(
        root,
        helper_of(comps, AcceptSide::Base),
        0,
    ));
    assert(super::is_file_at(root, q + local) <==> file_stands(
        root,
        helper_of(comps, AcceptSide::Local),
        0,
    ));
    assert(super::is_file_at(root, q + remote) <==> file_stands(
        root,
        helper_of(comps, AcceptSide::Remote),
        0,
    ));
    if exists|side: AcceptSide| file_stands(root, #[trigger] helper_of(comps, side), 0) {
        let side = choose|side: AcceptSide|
            file_stands(root, #[trigger] helper_of(comps, side), 0);
        match side {
            AcceptSide::Base => {},
            AcceptSide::Local => {},
            AcceptSide::Remote => {},
        }
    }
    reveal_with_fuel(super::scoped_conflicts, 2);
    assert(super::conflicts(root, seq![q]) =~= if super::all_conflicts(root).contains(q) {
        set![q]
    } else {
        Set::empty()
    });
}

/// A walk to a path goes on in the directory that the first names lead to.
proof fn lemma_walk_on(es: Seq<DiskEntry>, comps: Seq<Seq<char>>, m: nat, from: nat)
    requires
        from < m < comps.len(),
        dir_stands(es, comps.take(m as int), from) is Some,
    ensures
        in_conflict(es, comps, from) <==> in_conflict(
            dir_stands(es, comps.take(m as int), from)->0,
            comps,
            m,
        ),
    decreases es,
{
    let top = comps.take(m as int);
    assert(top[from as int] == comps[from as int]);
    lemma_found_is_named(es, comps[from as int], 0);
    let i = worktree::first_named(es, comps[from as int], 0)->0 as int;
    lemma_step_down(es, comps, from, i);
    if let DiskKind::Dir(sub) = es[i].kind {
        if from + 1 < m {
            lemma_walk_on(sub@, comps, m, from + 1);
        }
    }
}

proof fn lemma_dir_is_named(es: Seq<DiskEntry>, comps: Seq<Seq<char>>, from: nat)
    requires
        named(es),
        dir_stands(es, comps, from) is Some,
    ensures
        named(dir_stands(es, comps, from)->0),
    decreases es,
{
    lemma_found_is_named(es, comps[from as int], 0);
    let i = worktree::first_named(es, comps[from as int], 0)->0 as int;
    if let DiskKind::Dir(sub) = es[i].kind {
        if from + 1 < comps.len() {
            lemma_dir_is_named(sub@, comps, from + 1);
        }
    }
}

/// A directory can be asked for by itself: the conflicts within it are those of the whole
/// tree that lie below it.
pub proof fn law_scope_of_directory(root: Seq<DiskEntry>, comps: Seq<Seq<char>>, m: nat)
    requires
        named(root),
        plain(comps),
        0 < m < comps.len(),
        dir_stands(root, comps.take(m as int), 0) is Some,
    ensures
        super::conflicts(root, seq![path_of(comps.take(m as int))]).contains(path_of(comps))
            <==> super::all_conflicts(root).contains(path_of(comps)),
{
    let top = comps.take(m as int);
    let scope = path_of(top);
    let dir = dir_stands(root, top, 0)->0;
    assert forall|i: int| 0 <= i < top.len() implies proper(#[trigger] top[i]) by {
        assert(top[i] == comps[i]);
        assert(proper(comps[i]) && comps[i] != ".omemfs"@);
    }
    lemma_components_of_path(top);
    lemma_dir_is_named(root, top, 0);
    law_any_helper_makes_a_conflict(root, comps);
    lemma_walk_on(root, comps, m, 0);
    lemma_conflict_iff(dir, comps, m);
    reveal_with_fuel(super::scoped_conflicts, 2);
}

/// The conflicts within several scopes are those within each of them; the order does not
/// matter.
pub proof fn law_scopes_add_up(
    root: Seq<DiskEntry>,
    scopes: Seq<Seq<char>>,
    n: nat,
    q: Seq<char>,
)
    requires
        n <= scopes.len(),
    ensures
        super::scoped_conflicts(root, scopes, n).contains(q) <==> exists|i: int|
            0 <= i < n && super::conflicts(root, seq![#[trigger] scopes[i]]).contains(q),
    decreases n,
{
    if n > 0 {
        law_scopes_add_up(root, scopes, (n - 1) as nat, q);
        let scope = scopes[n - 1];
        let prev = super::scoped_conflicts(root, scopes, (n - 1) as nat);
        reveal_with_fuel(super::scoped_conflicts, 2);
        if let Some(dir) = super::scope_dir(root, scope) {
            lemma_conflicts_sum(dir, dir.len(), scope, prev, q);
        }
        if super::conflicts(root, seq![scope]).contains(q) {
            assert(super::conflicts(root, seq![scopes[n - 1]]).contains(q));
        }
        if prev.contains(q) {
            let i = choose|i: int|
                0 <= i < n - 1 && super::conflicts(root, seq![#[trigger] scopes[i]]).contains(q);
            assert(super::conflicts(root, seq![scopes[i]]).contains(q));
        }
    }
}

/// What a scope brings up lies in it: a directory's conflicts at or below it, a path's own at
/// the path.
pub proof fn law_conflicts_lie_in_their_scope(
    root: Seq<DiskEntry>,
    comps: Seq<Seq<char>>,
    q: Seq<char>,
)
    requires
        named(root),
        plain(comps),
        comps.len() > 0,
        super::conflicts(root, seq![path_of(comps)]).contains(q),
    ensures
        leaves::at_or_above(path_of(comps), q),
{
    assert forall|i: int| 0 <= i < comps.len() implies proper(#[trigger] comps[i]) by {
        assert(proper(comps[i]) && comps[i] != ".omemfs"@);
    }
    lemma_components_of_path(comps);
    reveal_with_fuel(super::scoped_conflicts, 2);
    if let Some(dir) = dir_stands(root, comps, 0) {
        lemma_dir_is_named(root, comps, 0);
        lemma_conflicts_lie_below(dir, path_of(comps), q);
    }
}

// ---------------------------------------------------------------------------
// Helper files
// ---------------------------------------------------------------------------

/// Whether an entry is, or holds, a helper file.
spec fn brings(e: DiskEntry, prefix: Seq<char>, q: Seq<char>) -> bool {
    e.name@ != ".omemfs"@ && match e.kind {
        DiskKind::Dir(sub) => super::helpers_in(
            sub@,
            sub@.len(),
            text::joined(prefix, e.name@),
            Set::empty(),
        ).contains(q),
        _ => super::helper_name(e.name@) && text::joined(prefix, e.name@) == q,
    }
}

proof fn lemma_helpers_sum(
    es: Seq<DiskEntry>,
    n: nat,
    prefix: Seq<char>,
    acc: Set<Seq<char>>,
    q: Seq<char>,
)
    ensures
        super::helpers_in(es, n, prefix, acc).contains(q) <==> acc.contains(q)
            || super::helpers_in(es, n, prefix, Set::empty()).contains(q),
    decreases es, n,
{
    if n > 0 && n <= es.len() {
        lemma_helpers_sum(es, (n - 1) as nat, prefix, acc, q);
        let e = es[n - 1];
        if let DiskKind::Dir(sub) = e.kind {
            let a = super::helpers_in(es, (n - 1) as nat, prefix, acc);
            let b = super::helpers_in(es, (n - 1) as nat, prefix, Set::empty());
            let path = text::joined(prefix, e.name@);
            lemma_helpers_sum(sub@, sub@.len(), path, a, q);
            lemma_helpers_sum(sub@, sub@.len(), path, b, q);
        }
    }
}

proof fn lemma_helpers_by_entry(es: Seq<DiskEntry>, n: nat, prefix: Seq<char>, q: Seq<char>)
    requires
        n <= es.len(),
    ensures
        super::helpers_in(es, n, prefix, Set::empty()).contains(q) <==> exists|i: int|
            0 <= i < n && brings(#[trigger] es[i], prefix, q),
    decreases n,
{
    if n > 0 {
        lemma_helpers_by_entry(es, (n - 1) as nat, prefix, q);
        let e = es[n - 1];
        let prev = super::helpers_in(es, (n - 1) as nat, prefix, Set::empty());
        if let DiskKind::Dir(sub) = e.kind {
            lemma_helpers_sum(sub@, sub@.len(), text::joined(prefix, e.name@), prev, q);
        }
        if brings(e, prefix, q) {
            assert(brings(es[n - 1], prefix, q));
        }
        if prev.contains(q) {
            let i = choose|i: int| 0 <= i < n - 1 && brings(#[trigger] es[i], prefix, q);
            assert(brings(es[i], prefix, q));
        }
    }
}

proof fn lemma_helpers_lie_below(es: Seq<DiskEntry>, prefix: Seq<char>, q: Seq<char>)
    requires
        named(es),
        prefix.len() > 0,
        super::helpers_in(es, es.len(), prefix, Set::empty()).contains(q),
    ensures
        leaves::at_or_above(prefix, q),
        q.len() > prefix.len(),
    decreases es,
{
    lemma_helpers_by_entry(es, es.len(), prefix, q);
    let i = choose|i: int| 0 <= i < es.len() && brings(#[trigger] es[i], prefix, q);
    let e = es[i];
    let path = text::joined(prefix, e.name@);
    assert(path.take(prefix.len() as int + 1) =~= prefix.push('/'));
    assert(leaves::at_or_above(prefix, path));
    if let DiskKind::Dir(sub) = e.kind {
        lemma_helpers_lie_below(sub@, path, q);
        leaves::lemma_at_or_above_twice(prefix, path, q);
    }
}

/// A path is a helper file, from a directory above it on, exactly where a file with a
/// helper's name stands there.
proof fn lemma_helper_iff(es: Seq<DiskEntry>, comps: Seq<Seq<char>>, from: nat)
    requires
        named(es),
        plain(comps),
        from < comps.len(),
    ensures
        super::helpers_in(
            es,
            es.len(),
            path_of(comps.take(from as int)),
            Set::empty(),
        ).contains(path_of(comps)) <==> file_stands(es, comps, from) && super::helper_name(
            comps.last(),
        ),
    decreases es,
{
    let q = path_of(comps);
    let prefix = path_of(comps.take(from as int));
    let name = comps[from as int];
    assert(proper(name) && name != ".omemfs"@);
    assert forall|i: int| 0 <= i < comps.len() implies proper(#[trigger] comps[i]) by {
        assert(proper(comps[i]) && comps[i] != ".omemfs"@);
    }
    lemma_in_region(comps, from);
    lemma_helpers_by_entry(es, es.len(), prefix, q);
    if super::helpers_in(es, es.len(), prefix, Set::empty()).contains(q) {
        let i = choose|i: int| 0 <= i < es.len() && brings(#[trigger] es[i], prefix, q);
        let e = es[i];
        assert(proper(e.name@));
        lemma_first_named(es, i, 0);
        let at = text::joined(prefix, e.name@);
        if let DiskKind::Dir(sub) = e.kind {
            lemma_helpers_lie_below(sub@, at, q);
            assert(leaves::in_region(prefix, e.name@, q));
            leaves::lemma_regions_disjoint(prefix, name, e.name@, q);
            assert(from + 1 < comps.len());
            lemma_helper_iff(sub@, comps, from + 1);
        } else {
            assert(leaves::in_region(prefix, e.name@, q));
            leaves::lemma_regions_disjoint(prefix, name, e.name@, q);
            assert(from + 1 == comps.len());
        }
    }
    if file_stands(es, comps, from) && super::helper_name(comps.last()) {
        lemma_found_is_named(es, name, 0);
        let i = worktree::first_named(es, name, 0)->0 as int;
        if let DiskKind::Dir(sub) = es[i].kind {
            lemma_helper_iff(sub@, comps, from + 1);
        }
        assert(brings(es[i], prefix, q));
    }
}

/// Every file with a helper's name, and no other file, is a helper file of the tree: the
/// names are those that the three suffixes are appended to.
pub proof fn law_helper_files_of_tree(root: Seq<DiskEntry>, comps: Seq<Seq<char>>)
    requires
        named(root),
        plain(comps),
        comps.len() > 0,
    ensures
        super::helper_files(root, seq![]).contains(path_of(comps)) <==> file_stands(root, comps, 0)
            && exists|base: Seq<char>, side: AcceptSide|
            comps.last() == #[trigger] (base + side.suffix_text()),
{
    reveal_strlit("");
    assert(comps.take(0) =~= Seq::<Seq<char>>::empty());
    assert(""@ =~= path_of(comps.take(0)));
    lemma_helper_iff(root, comps, 0);
    let name = comps.last();
    lemma_without_suffix(name);
    if super::helper_name(name) {
        let b = super::without_suffix(name)->0;
        let side = choose|side: AcceptSide| #[trigger]
            side.suffix_text() == name.skip(b.len() as int) && name == b + side.suffix_text();
        assert(name == b + side.suffix_text());
    }
    if exists|base: Seq<char>, side: AcceptSide| name == #[trigger] (base + side.suffix_text()) {
        let (base, side) = choose|base: Seq<char>, side: AcceptSide|
            name == #[trigger] (base + side.suffix_text());
        super::law_helper_base(base, side);
    }
}

/// Whether neither a directory nor a link that leads nowhere stands at a path.
pub open spec fn no_dir_or_dangling(root: Seq<DiskEntry>, comps: Seq<Seq<char>>) -> bool {
    worktree::at_path(root, comps, 0) matches Some(e) ==> !(e.kind is Dir) && !(
    e.kind matches DiskKind::Symlink { leads, .. } && !leads)
}

/// A path at which no directory stands is in conflict exactly where the tree has a helper
/// file of it, and accepting a side finds that side's version exactly where its helper file
/// is one of the tree.
pub proof fn law_conflicts_are_told_by_helper_files(root: Seq<DiskEntry>, comps: Seq<Seq<char>>)
    requires
        named(root),
        plain(comps),
        comps.len() > 0,
        dir_stands(root, comps, 0) is None,
    ensures
        super::all_conflicts(root).contains(path_of(comps)) <==> exists|side: AcceptSide|
            super::helper_files(root, seq![]).contains(
                path_of(comps) + #[trigger] side.suffix_text(),
            ),
        forall|side: AcceptSide|
            no_dir_or_dangling(root, helper_of(comps, side)) ==> super::exists_at(
                root,
                path_of(comps) + #[trigger] side.suffix_text(),
            ) == super::helper_files(root, seq![]).contains(
                path_of(comps) + side.suffix_text(),
            ),
{
    let q = path_of(comps);
    assert forall|i: int| 0 <= i < comps.len() implies proper(#[trigger] comps[i]) by {
        assert(proper(comps[i]) && comps[i] != ".omemfs"@);
    }
    law_any_helper_makes_a_conflict(root, comps);
    assert forall|side: AcceptSide|
        super::helper_files(root, seq![]).contains(q + #[trigger] side.suffix_text())
            <==> file_stands(root, helper_of(comps, side), 0) by {
        lemma_helper_path(comps, side);
        let h = helper_of(comps, side);
        lemma_helper_is_no_state(comps.last(), side);
        assert forall|i: int| 0 <= i < h.len() implies proper(#[trigger] h[i]) && h[i]
            != ".omemfs"@ by {
            if i < comps.len() - 1 {
                assert(h[i] == comps[i]);
            }
        }
        law_helper_files_of_tree(root, h);
        assert(h.last() == comps.last() + side.suffix_text());
    }
    assert forall|side: AcceptSide|
        no_dir_or_dangling(root, helper_of(comps, side)) implies super::exists_at(
        root,
        q + #[trigger] side.suffix_text(),
    ) == super::helper_files(root, seq![]).contains(q + side.suffix_text()) by {
        lemma_helper_path(comps, side);
        lemma_components_of_path(helper_of(comps, side));
    }
    if exists|side: AcceptSide| file_stands(root, #[trigger] helper_of(comps, side), 0) {
        let side = choose|side: AcceptSide|
            file_stands(root, #[trigger] helper_of(comps, side), 0);
        assert(super::helper_files(root, seq![]).contains(q + side.suffix_text()));
    }
}

/// The helper files within a path at which no directory stands are those of its three
/// helper files that the tree has.
pub proof fn law_helpers_of_one_path(root: Seq<DiskEntry>, comps: Seq<Seq<char>>, h: Seq<char>)
    requires
        named(root),
        plain(comps),
        comps.len() > 0,
        regular_helpers(root, comps),
        dir_stands(root, comps, 0) is None,
    ensures
        super::helper_files(root, seq![path_of(comps)]).contains(h) <==> (
        super::helper_files(root, seq![]).contains(h) && exists|side: AcceptSide|
            h == path_of(comps) + #[trigger] side.suffix_text()),
{
    let q = path_of(comps);
    assert forall|i: int| 0 <= i < comps.len() implies proper(#[trigger] comps[i]) by {
        assert(proper(comps[i]) && comps[i] != ".omemfs"@);
    }
    lemma_components_of_path(comps);
    assert forall|side: AcceptSide|
        super::is_file_at(root, q + #[trigger] side.suffix_text()) == super::helper_files(
            root,
            seq![],
        ).contains(q + side.suffix_text()) by {
        lemma_helper_path(comps, side);
        let path = helper_of(comps, side);
        lemma_components_of_path(path);
        lemma_helper_is_no_state(comps.last(), side);
        assert forall|i: int| 0 <= i < path.len() implies proper(#[trigger] path[i]) && path[i]
            != ".omemfs"@ by {
            if i < comps.len() - 1 {
                assert(path[i] == comps[i]);
            }
        }
        law_helper_files_of_tree(root, path);
        assert(path.last() == comps.last() + side.suffix_text());
    }
    reveal_with_fuel(super::scoped_helpers, 2);
    let base = q + AcceptSide::Base.suffix_text();
    let local = q + AcceptSide::Local.suffix_text();
    let remote = q + AcceptSide::Remote.suffix_text();
    assert(super::is_file_at(root, base) == super::helper_files(root, seq![]).contains(base));
    assert(super::is_file_at(root, local) == super::helper_files(root, seq![]).contains(local));
    assert(super::is_file_at(root, remote) == super::helper_files(root, seq![]).contains(remote));
    if exists|side: AcceptSide| h == q + #[trigger] side.suffix_text() {
        let side = choose|side: AcceptSide| h == q + #[trigger] side.suffix_text();
        match side {
            AcceptSide::Base => {},
            AcceptSide::Local => {},
            AcceptSide::Remote => {},
        }
    }
}

proof fn lemma_file_walk_on(es: Seq<DiskEntry>, comps: Seq<Seq<char>>, m: nat, from: nat)
    requires
        from < m < comps.len(),
        dir_stands(es, comps.take(m as int), from) is Some,
    ensures
        worktree::at_path(es, comps, from) == worktree::at_path(
            dir_stands(es, comps.take(m as int), from)->0,
            comps,
            m,
        ),
    decreases es,
{
    let top = comps.take(m as int);
    assert(top[from as int] == comps[from as int]);
    lemma_found_is_named(es, comps[from as int], 0);
    let i = worktree::first_named(es, comps[from as int], 0)->0 as int;
    if let DiskKind::Dir(sub) = es[i].kind {
        if from + 1 < m {
            lemma_file_walk_on(sub@, comps, m, from + 1);
        }
    }
}

/// The helper files within a directory are those of the whole tree that lie below it.
pub proof fn law_helpers_of_directory(root: Seq<DiskEntry>, comps: Seq<Seq<char>>, m: nat)
    requires
        named(root),
        plain(comps),
        0 < m < comps.len(),
        dir_stands(root, comps.take(m as int), 0) is Some,
    ensures
        super::helper_files(root, seq![path_of(comps.take(m as int))]).contains(path_of(comps))
            <==> super::helper_files(root, seq![]).contains(path_of(comps)),
{
    let top = comps.take(m as int);
    let dir = dir_stands(root, top, 0)->0;
    assert forall|i: int| 0 <= i < top.len() implies proper(#[trigger] top[i]) by {
        assert(top[i] == comps[i]);
        assert(proper(comps[i]) && comps[i] != ".omemfs"@);
    }
    lemma_components_of_path(top);
    lemma_dir_is_named(root, top, 0);
    reveal_strlit("");
    assert(comps.take(0) =~= Seq::<Seq<char>>::empty());
    assert(""@ =~= path_of(comps.take(0)));
    lemma_helper_iff(root, comps, 0);
    lemma_helper_iff(dir, comps, m);
    lemma_file_walk_on(root, comps, m, 0);
    reveal_with_fuel(super::scoped_helpers, 2);
}

/// The helper files within several scopes are those within each of them.
pub proof fn law_helper_scopes_add_up(
    root: Seq<DiskEntry>,
    scopes: Seq<Seq<char>>,
    n: nat,
    q: Seq<char>,
)
    requires
        n <= scopes.len(),
    ensures
        super::scoped_helpers(root, scopes, n).contains(q) <==> exists|i: int|
            0 <= i < n && super::helper_files(root, seq![#[trigger] scopes[i]]).contains(q),
    decreases n,
{
    if n > 0 {
        law_helper_scopes_add_up(root, scopes, (n - 1) as nat, q);
        let scope = scopes[n - 1];
        let prev = super::scoped_helpers(root, scopes, (n - 1) as nat);
        reveal_with_fuel(super::scoped_helpers, 2);
        if let Some(dir) = super::scope_dir(root, scope) {
            lemma_helpers_sum(dir, dir.len(), scope, prev, q);
        }
        if super::helper_files(root, seq![scope]).contains(q) {
            assert(super::helper_files(root, seq![scopes[n - 1]]).contains(q));
        }
        if prev.contains(q) {
            let i = choose|i: int|
                0 <= i < n - 1 && super::helper_files(root, seq![#[trigger] scopes[i]]).contains(q);
            assert(super::helper_files(root, seq![scopes[i]]).contains(q));
        }
    }
}

/// The paths that cleaning counts, and whose sidecars it removes, are those that the helper
/// files belong to.
pub proof fn law_bases_are_those_of_the_helpers(helpers: Seq<Seq<char>>, n: nat, base: Seq<char>)
    requires
        n <= helpers.len(),
        forall|i: int| 0 <= i < n ==> super::helper_name(#[trigger] helpers[i]),
    ensures
        super::bases_of(helpers, n).contains(base) <==> exists|i: int, side: AcceptSide|
            0 <= i < n && #[trigger] helpers[i] == base + #[trigger] side.suffix_text(),
    decreases n,
{
    if n > 0 {
        law_bases_are_those_of_the_helpers(helpers, (n - 1) as nat, base);
        let h = helpers[n - 1];
        lemma_without_suffix(h);
        let b = super::without_suffix(h)->0;
        let own = choose|side: AcceptSide| #[trigger]
            side.suffix_text() == h.skip(b.len() as int) && h == b + side.suffix_text();
        if super::helper_base(h) == base {
            assert(helpers[n - 1] == base + own.suffix_text());
        }
        if exists|i: int, side: AcceptSide|
            0 <= i < n && #[trigger] helpers[i] == base + #[trigger] side.suffix_text() {
            let (i, side) = choose|i: int, side: AcceptSide|
                0 <= i < n && #[trigger] helpers[i] == base + #[trigger] side.suffix_text();
            super::law_helper_base(base, side);
            if i < n - 1 {
                assert(super::bases_of(helpers, (n - 1) as nat).contains(base));
            }
        }
    }
}

// ---------------------------------------------------------------------------
// Faults
// ---------------------------------------------------------------------------

/// What stands at the first `m` names of a path.
pub open spec fn on_the_way(root: Seq<DiskEntry>, comps: Seq<Seq<char>>, m: int) -> Option<DiskKind> {
    match worktree::at_path(root, comps.take(m), 0) {
        Some(e) => Some(e.kind),
        None => None,
    }
}

proof fn lemma_faults(es: Seq<DiskEntry>, comps: Seq<Seq<char>>, from: nat, m: int)
    requires
        from < m <= comps.len(),
    ensures
        (worktree::at_path(es, comps.take(m), from) matches Some(e) && e.kind is Symlink)
            ==> super::scope_fault(es, comps, from) == Some(super::ScopeFault::Link),
        (worktree::at_path(es, comps.take(m), from) matches Some(e) && (e.kind is File || e.kind
            is Other)) && m < comps.len() ==> super::scope_fault(es, comps, from) == Some(
            super::ScopeFault::NotADirectory,
        ),
    decreases es,
{
    let top = comps.take(m);
    assert(top[from as int] == comps[from as int]);
    lemma_found_is_named(es, comps[from as int], 0);
    if let Some(i) = worktree::first_named(es, comps[from as int], 0) {
        if let DiskKind::Dir(sub) = es[i as int].kind {
            if from + 1 < m {
                lemma_faults(sub@, comps, from + 1, m);
            }
        }
    }
}

proof fn lemma_fault_is_somewhere(es: Seq<DiskEntry>, comps: Seq<Seq<char>>, from: nat) -> (m: int)
    requires
        super::scope_fault(es, comps, from) is Some,
    ensures
        from < m <= comps.len(),
        worktree::at_path(es, comps.take(m), from) matches Some(e) && match super::scope_fault(
            es,
            comps,
            from,
        )->0 {
            super::ScopeFault::Link => e.kind is Symlink,
            super::ScopeFault::NotADirectory => m < comps.len() && (e.kind is File || e.kind
                is Other),
        },
    decreases es,
{
    lemma_found_is_named(es, comps[from as int], 0);
    let i = worktree::first_named(es, comps[from as int], 0)->0;
    if let DiskKind::Dir(sub) = es[i as int].kind {
        let m = lemma_fault_is_somewhere(sub@, comps, from + 1);
        assert(comps.take(m)[from as int] == comps[from as int]);
        m
    } else {
        let m: int = from as int + 1;
        assert(comps.take(m)[from as int] == comps[from as int]);
        m
    }
}

/// A scope is rejected exactly where a symlink stands on the way to it or at it, or
/// something other than a directory stands on the way.
pub proof fn law_scopes_are_physical(root: Seq<DiskEntry>, scope: Seq<char>)
    ensures
        super::fault_of(root, scope) == Some(super::ScopeFault::Link) <==> exists|m: int|
            0 < m <= text::components(scope).len() && (#[trigger] on_the_way(
                root,
                text::components(scope),
                m,
            ) matches Some(k) && k is Symlink),
        super::fault_of(root, scope) == Some(super::ScopeFault::NotADirectory) <==> exists|m: int|
            0 < m < text::components(scope).len() && (#[trigger] on_the_way(
                root,
                text::components(scope),
                m,
            ) matches Some(k) && (k is File || k is Other)),
{
    let comps = text::components(scope);
    assert forall|m: int| 0 < m <= comps.len() implies (#[trigger] on_the_way(root, comps, m) matches Some(
        k,
    ) ==> (k is Symlink ==> super::fault_of(root, scope) == Some(super::ScopeFault::Link)) && ((
    k is File || k is Other) && m < comps.len() ==> super::fault_of(root, scope) == Some(
        super::ScopeFault::NotADirectory,
    ))) by {
        lemma_faults(root, comps, 0, m);
    }
    if super::fault_of(root, scope) is Some {
        let m = lemma_fault_is_somewhere(root, comps, 0);
        assert(on_the_way(root, comps, m) is Some);
    }
}

} // verus!
