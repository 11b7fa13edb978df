//! What a push refuses, and what it takes over.

use super::scoped::{self, ScopedResult, Splices, TreeEdits};
use super::{FullPush, StubFacts};
use crate::commands::conflict::scopes;
use crate::object::{ObjectHash, StubTargetType};
use crate::text;
use crate::worktree::DIR_STUB_NAME;
use vstd::prelude::*;

verus! {

/// A clone with sync history takes part in a sync only where the remote has an index root;
/// any other clone always does.
pub proof fn law_history_needs_an_index_root(
    clone_root: Option<ObjectHash>,
    present: bool,
    empty_tree: ObjectHash,
)
    ensures
        present ==> super::sync_allowed(clone_root, present, empty_tree),
        !present ==> (super::sync_allowed(clone_root, present, empty_tree) <==> (
        clone_root matches Some(h) ==> h == empty_tree)),
{
}

/// A push of the whole tree is one of the tree as it stands: it pushes its root, unless the
/// clone root is that root already, and a dry run pushes nothing.
pub proof fn law_full_push_is_of_the_tree(
    clone_root: Option<ObjectHash>,
    new_root: ObjectHash,
    dry_run: bool,
)
    ensures
        super::full_push(clone_root, new_root, dry_run) is NothingToPush <==> clone_root == Some(
            new_root,
        ),
        super::full_push(clone_root, new_root, dry_run) matches FullPush::Push(h) ==> h == new_root
            && !dry_run,
        super::full_push(clone_root, new_root, dry_run) matches FullPush::WouldPush(h) ==> h
            == new_root && dry_run,
{
}

// ---------------------------------------------------------------------------
// Refused paths
// ---------------------------------------------------------------------------

proof fn lemma_one_piece(name: Seq<char>)
    requires
        !name.contains('/'),
    ensures
        text::split_from(name, '/', 0) == seq![name],
{
    text::lemma_find_from(name, '/', 0);
    if text::find_from(name, '/', 0) < name.len() {
        assert(name.contains(name[text::find_from(name, '/', 0) as int]));
    }
    assert(name.subrange(0, name.len() as int) =~= name);
    assert(text::split_from(name, '/', 0) =~= seq![name]);
}

/// The state of the repository, and all that lies below it, is refused; no other path is
/// taken for it.
pub proof fn law_state_is_refused(name: Seq<char>, rest: Seq<char>)
    requires
        name.len() > 0,
        !name.contains('/'),
    ensures
        super::system_path(name) <==> name == ".omemfs"@,
        super::system_path(name.push('/') + rest) <==> name == ".omemfs"@,
{
    lemma_one_piece(name);
    text::lemma_split_joined(name, rest, '/', 0);
    assert((seq![name] + text::split_from(rest, '/', 0))[0] == name);
}

/// The name of a path is the last name that it was joined from.
pub proof fn law_leaf_of_joined(dir: Seq<char>, name: Seq<char>)
    requires
        !name.contains('/'),
    ensures
        super::leaf_of(text::joined(dir, name)) == name,
        name.len() > 0 ==> scoped::leaf_name(text::joined(dir, name)) == name,
{
    lemma_one_piece(name);
    if dir.len() > 0 {
        text::lemma_split_joined(dir, name, '/', 0);
        assert((text::split_from(dir, '/', 0) + seq![name]).last() == name);
    }
    if name.len() > 0 {
        text::lemma_components_joined(dir, name);
    }
}

proof fn lemma_joined_names(comps: Seq<Seq<char>>)
    requires
        forall|i: int| 0 <= i < comps.len() ==> scopes::proper(#[trigger] comps[i]),
    ensures
        text::join_with(comps, "/"@) == scopes::path_of(comps),
    decreases comps.len(),
{
    reveal_strlit("/");
    if comps.len() == 1 {
        assert(comps.drop_last() =~= Seq::<Seq<char>>::empty());
        assert(scopes::path_of(comps.drop_last()) =~= seq![]);
        assert(comps.last() == comps[0]);
    } else if comps.len() > 1 {
        let init = comps.drop_last();
        assert forall|i: int| 0 <= i < init.len() implies scopes::proper(#[trigger] init[i]) by {
            assert(init[i] == comps[i]);
        }
        lemma_joined_names(init);
        scopes::lemma_components_of_path(init);
        let p = scopes::path_of(init);
        assert(p + "/"@ + comps.last() =~= p.push('/') + comps.last());
    }
}

/// A path is refused where it is ignored itself or a directory on the way to it is, and an
/// ignored path that does not lead to it does not matter.
pub proof fn law_ignored_is_refused(comps: Seq<Seq<char>>, ignored: Set<Seq<char>>)
    requires
        scopes::plain(comps),
    ensures
        super::ignored_path(scopes::path_of(comps), ignored) <==> exists|n: int|
            1 <= n <= comps.len() && ignored.contains(scopes::path_of(#[trigger] comps.take(n))),
{
    let rel = scopes::path_of(comps);
    assert forall|i: int| 0 <= i < comps.len() implies scopes::proper(#[trigger] comps[i]) by {
        assert(scopes::proper(comps[i]) && comps[i] != ".omemfs"@);
    }
    scopes::lemma_components_of_path(comps);
    assert forall|n: int| 1 <= n <= comps.len() implies #[trigger] super::lead_path(rel, n)
        == scopes::path_of(comps.take(n)) by {
        let top = comps.take(n);
        assert forall|i: int| 0 <= i < top.len() implies scopes::proper(#[trigger] top[i]) by {
            assert(top[i] == comps[i]);
        }
        lemma_joined_names(top);
    }
    if super::ignored_path(rel, ignored) {
        let n = choose|n: int|
            1 <= n <= text::components(rel).len() && ignored.contains(
                #[trigger] super::lead_path(rel, n),
            );
        assert(ignored.contains(scopes::path_of(comps.take(n))));
    }
    if exists|n: int|
        1 <= n <= comps.len() && ignored.contains(scopes::path_of(#[trigger] comps.take(n))) {
        let n = choose|n: int|
            1 <= n <= comps.len() && ignored.contains(scopes::path_of(#[trigger] comps.take(n)));
        assert(ignored.contains(super::lead_path(rel, n)));
    }
}

// ---------------------------------------------------------------------------
// Stubs
// ---------------------------------------------------------------------------

/// What stands on disk goes before a stub: a path with a file is no stubbed file, and a
/// directory that holds anything beside its marker is no stubbed directory.
pub proof fn law_content_goes_before_stubs(facts: StubFacts, i: int)
    ensures
        facts.exists ==> !super::is_file_stub(facts),
        facts.names matches Some(v) && 0 <= i < v@.len() && v@[i]@ != DIR_STUB_NAME@
            ==> !super::is_dir_stub(facts),
        !facts.is_dir ==> !super::is_dir_stub(facts),
{
}

/// A file that is gone and has the stub of a file beside it is a stubbed file. A directory
/// with the stub of a directory in it, and nothing else that can be seen, is a stubbed
/// directory. A stub of the other kind makes neither.
pub proof fn law_stubs_stand_for_what_is_gone(facts: StubFacts)
    ensures
        super::is_file_stub(facts) <==> !facts.exists && facts.file_stub is Some
            && facts.file_stub->0.target_type == StubTargetType::Blob,
        super::is_dir_stub(facts) <==> facts.is_dir && facts.names is Some && facts.dir_stub
            is Some && facts.dir_stub->0.target_type == StubTargetType::Tree && !(exists|i: int|
            0 <= i < facts.names->0@.len() && (#[trigger] facts.names->0@[i])@
                != ".omemfs-stub"@),
{
}

// ---------------------------------------------------------------------------
// Roots
// ---------------------------------------------------------------------------

/// Each change is made to both roots: what is put is in both, and what is removed from the
/// remote root is removed from the clone root too, where it has it. The roots change only so.
pub proof fn law_changes_are_made_to_both_roots(
    s: Splices,
    results: Seq<ScopedResult>,
    edits: TreeEdits,
)
    requires
        results.len() == 1,
    ensures
        ({
            let end = scoped::applied_from(s, results, 0, edits);
            &&& results[0].put is Some ==> end.any_change && end.remote == Some(
                (edits.put)(s.remote, 0),
            ) && end.clone == Some((edits.put)(s.clone, 0))
            &&& results[0].put is None ==> match s.remote {
                None => end == s,
                Some(h) => match (edits.remove)(h, 0) {
                    None => end == s,
                    Some(without) => end.any_change && end.remote == Some(without) && match s.clone {
                        None => end.clone is None,
                        Some(c) => match (edits.remove)(c, 0) {
                            None => end.clone == s.clone,
                            Some(less) => end.clone == Some(less),
                        },
                    },
                },
            }
        }),
{
    reveal_with_fuel(scoped::applied_from, 2);
}

/// Changes are made one after the other: those up to some point, and then the rest on what
/// they left.
pub proof fn law_changes_are_made_in_turn(
    s: Splices,
    results: Seq<ScopedResult>,
    i: int,
    edits: TreeEdits,
)
    requires
        0 <= i < results.len(),
    ensures
        scoped::applied_from(s, results, i, edits) == scoped::applied_from(
            scoped::applied(s, results[i].put is None, i, edits),
            results,
            i + 1,
            edits,
        ),
        scoped::applied_from(s, results, results.len() as int, edits) == s,
{
}

/// A path is refused exactly where its first name is that of the repository's state, or
/// where it or a directory above it is ignored, and the refusal names the path.
pub proof fn law_refused_paths(comps: Seq<Seq<char>>, ignored: Set<Seq<char>>)
    requires
        comps.len() > 0,
        forall|i: int| 0 <= i < comps.len() ==> scopes::proper(#[trigger] comps[i]),
    ensures
        ({
            let rel = scopes::path_of(comps);
            let below_ignored = exists|n: int|
                1 <= n <= comps.len() && ignored.contains(scopes::path_of(#[trigger] comps.take(n)));
            &&& super::push_refusal(rel, ignored) is Some <==> comps[0] == ".omemfs"@
                || below_ignored
            &&& super::push_refusal(rel, ignored) matches Some(m) ==> text::has_suffix(m, rel)
        }),
{
    let rel = scopes::path_of(comps);
    scopes::lemma_components_of_path(comps);
    assert forall|n: int| 1 <= n <= comps.len() implies #[trigger] super::lead_path(rel, n)
        == scopes::path_of(comps.take(n)) by {
        let top = comps.take(n);
        assert forall|i: int| 0 <= i < top.len() implies scopes::proper(#[trigger] top[i]) by {
            assert(top[i] == comps[i]);
        }
        lemma_joined_names(top);
    }
    let below_ignored = exists|n: int|
        1 <= n <= comps.len() && ignored.contains(scopes::path_of(#[trigger] comps.take(n)));
    if super::ignored_path(rel, ignored) {
        let n = choose|n: int|
            1 <= n <= text::components(rel).len() && ignored.contains(
                #[trigger] super::lead_path(rel, n),
            );
        assert(ignored.contains(scopes::path_of(comps.take(n))));
    }
    if below_ignored {
        let n = choose|n: int|
            1 <= n <= comps.len() && ignored.contains(scopes::path_of(#[trigger] comps.take(n)));
        assert(ignored.contains(super::lead_path(rel, n)));
    }
    lemma_first_piece(comps);
    if let Some(m) = super::push_refusal(rel, ignored) {
        assert(m.skip(m.len() - rel.len()) =~= rel);
        assert(m.subrange(m.len() - rel.len(), m.len() as int) =~= rel);
    }
}

proof fn lemma_first_piece(comps: Seq<Seq<char>>)
    requires
        comps.len() > 0,
        forall|i: int| 0 <= i < comps.len() ==> scopes::proper(#[trigger] comps[i]),
    ensures
        text::split_from(scopes::path_of(comps), '/', 0)[0] == comps[0],
    decreases comps.len(),
{
    let rel = scopes::path_of(comps);
    if comps.len() == 1 {
        reveal_with_fuel(scopes::path_of, 2);
        assert(scopes::proper(comps[0]));
        lemma_one_piece(comps[0]);
        assert(comps.drop_last().len() == 0);
        assert(scopes::path_of(comps.drop_last()).len() == 0);
        assert(rel == comps[0]);
    } else {
        let front = comps.drop_last();
        assert forall|i: int| 0 <= i < front.len() implies scopes::proper(#[trigger] front[i]) by {
            assert(front[i] == comps[i]);
        }
        lemma_first_piece(front);
        let head = scopes::path_of(front);
        assert(head.len() > 0) by {
            if head.len() == 0 {
                lemma_one_piece(head);
                assert(scopes::proper(comps[0]));
                assert(seq![head][0] == head);
            }
        }
        reveal_strlit("/");
        text::lemma_split_joined(head, comps.last(), '/', 0);
        text::parts::law_pieces_make_the_text(head, '/');
        assert(rel =~= head.push('/') + comps.last());
    }
}

} // verus!
