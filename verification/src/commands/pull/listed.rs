//! What a pull lists.

use crate::collections;
use crate::commands::conflict::scopes;
use crate::commands::pull::{self, DiffEntry, PathDiff};
use crate::object::{self, Content, Halt, TreeEntry, TreeNode};
use crate::text;
use vstd::prelude::*;

verus! {

/// What is said of a change: `deleted` where nothing is left, `modified` where something
/// takes the place of what stood there, `added` otherwise.
pub open spec fn says(label: Seq<char>, change: DiffEntry) -> bool {
    match change {
        DiffEntry::Deleted => label == "deleted"@,
        DiffEntry::Modified { .. } => label == "modified"@,
        DiffEntry::Symlink { was_present: true, .. } => label == "modified"@,
        _ => label == "added"@,
    }
}

/// Every change is listed once, under its path and with what it does, in the order of the
/// paths; nothing else is listed.
pub proof fn law_every_change_is_listed(diff: Map<Seq<char>, DiffEntry>, k: Seq<char>)
    requires
        diff.dom().finite(),
    ensures
        pull::change_lines(diff).len() == diff.dom().len(),
        diff.dom().contains(k) <==> exists|i: int|
            0 <= i < pull::change_lines(diff).len() && (#[trigger] pull::change_lines(diff)[i]).1
                == k,
        forall|i: int|
            0 <= i < pull::change_lines(diff).len() ==> {
                let line = #[trigger] pull::change_lines(diff)[i];
                diff.dom().contains(line.1) && says(line.0, diff[line.1])
            },
        forall|i: int, j: int|
            0 <= i < j < pull::change_lines(diff).len() ==> collections::lex_le(
                (#[trigger] pull::change_lines(diff)[i]).1,
                (#[trigger] pull::change_lines(diff)[j]).1,
            ) && pull::change_lines(diff)[i].1 != pull::change_lines(diff)[j].1,
{
    let ps = collections::listing(diff.dom());
    let lines = pull::change_lines(diff);
    collections::lemma_listing_exists(diff.dom());
    assert(ps.to_set() =~= diff.dom());
    ps.unique_seq_to_set();
    assert forall|i: int| 0 <= i < lines.len() implies {
        let line = #[trigger] lines[i];
        diff.dom().contains(line.1) && says(line.0, diff[line.1])
    } by {
        assert(ps.contains(ps[i]));
    }
    if diff.dom().contains(k) {
        assert(ps.contains(k));
        let i = choose|i: int| 0 <= i < ps.len() && ps[i] == k;
        assert(lines[i].1 == k);
    }
}

/// The listing of several scopes is that of each of them, one behind the other.
pub proof fn law_scopes_are_listed_in_turn(pds: Seq<PathDiff>, n: nat, i: int, j: int)
    requires
        0 <= i < n <= pds.len(),
        0 <= j < pull::change_lines(pds[i].remote_diff@).len(),
    ensures
        pull::scoped_lines(pds, n).contains(pull::change_lines(pds[i].remote_diff@)[j]),
        n == 1 ==> pull::scoped_lines(pds, n) == pull::change_lines(pds[0].remote_diff@),
    decreases n,
{
    let before = pull::scoped_lines(pds, (n - 1) as nat);
    let last = pull::change_lines(pds[n - 1].remote_diff@);
    let now = pull::scoped_lines(pds, n);
    let line = pull::change_lines(pds[i].remote_diff@)[j];
    if i == n - 1 {
        assert(now[before.len() + j] == line);
    } else {
        law_scopes_are_listed_in_turn(pds, (n - 1) as nat, i, j);
        let at = choose|at: int| 0 <= at < before.len() && before[at] == line;
        assert(now[at] == line);
    }
    if n == 1 {
        assert(pull::scoped_lines(pds, 0) =~= seq![]);
        assert(now =~= last);
    }
}

/// A local change is kept exactly where the remote did not change the path, so every local
/// change is kept or meets one of the remote.
pub proof fn law_local_changes_are_kept_or_met(
    remote: Map<Seq<char>, DiffEntry>,
    local: Map<Seq<char>, DiffEntry>,
    k: Seq<char>,
)
    ensures
        local.dom().contains(k) ==> (pull::preserved_set(remote, local).contains(k)
            <==> !remote.dom().contains(k)),
        !local.dom().contains(k) ==> !pull::preserved_set(remote, local).contains(k),
{
}

/// A command works on the paths that it was given, and on the current directory where it
/// was given none.
pub proof fn law_given_paths_are_requested(paths: Seq<Seq<char>>, dir: Seq<char>, k: Seq<char>)
    ensures
        paths.contains(k) ==> pull::requested(paths, dir).contains(k),
        pull::requested(paths, dir).contains(k) ==> paths.contains(k) || k == dir,
        pull::requested(seq![], dir) == seq![dir],
{
}

/// Where something was deleted in a directory, that directory and every one above it is
/// looked at, and no other.
pub proof fn law_directories_above_deletions_are_looked_at(
    comps: Seq<Seq<char>>,
    n: int,
    d: Seq<char>,
)
    requires
        1 <= n <= comps.len(),
        forall|i: int| 0 <= i < comps.len() ==> scopes::proper(#[trigger] comps[i]),
    ensures
        pull::cleanup_set(set![scopes::path_of(comps)]).contains(scopes::path_of(comps.take(n))),
        pull::cleanup_set(set![scopes::path_of(comps)]).contains(d) ==> d.len() > 0 && (d
            == scopes::path_of(comps) || text::has_prefix(scopes::path_of(comps), d.push('/'))),
    decreases comps.len(),
{
    let p = scopes::path_of(comps);
    let dirs = set![p];
    assert(dirs.contains(p));
    lemma_above(comps, n);
}

proof fn lemma_above(comps: Seq<Seq<char>>, n: int)
    requires
        1 <= n <= comps.len(),
        forall|i: int| 0 <= i < comps.len() ==> scopes::proper(#[trigger] comps[i]),
    ensures
        scopes::path_of(comps.take(n)).len() > 0,
        scopes::path_of(comps.take(n)) == scopes::path_of(comps) || text::has_prefix(
            scopes::path_of(comps),
            scopes::path_of(comps.take(n)).push('/'),
        ),
    decreases comps.len(),
{
    reveal_strlit("/");
    if n == comps.len() {
        assert(comps.take(n) =~= comps);
        assert(scopes::proper(comps.last()));
        assert(scopes::path_of(comps).len() > 0);
    } else {
        let front = comps.drop_last();
        assert(front.take(n) =~= comps.take(n));
        assert forall|i: int| 0 <= i < front.len() implies scopes::proper(#[trigger] front[i]) by {
            assert(front[i] == comps[i]);
        }
        lemma_above(front, n);
        let top = scopes::path_of(comps.take(n));
        let head = scopes::path_of(front);
        let p = scopes::path_of(comps);
        assert(head.len() > 0);
        assert(p =~= head.push('/') + comps.last());
        if top == head {
            assert(p.take(top.len() as int + 1) =~= top.push('/'));
        } else {
            assert(p.take(top.len() as int + 1) =~= head.take(top.len() as int + 1));
        }
    }
}

/// The base of a conflict is what the tree of the last sync has at its path; there is none
/// where there was no sync.
pub proof fn law_base_of_a_conflict(node: TreeNode, comps: Seq<Seq<char>>)
    requires
        forall|i: int| 0 <= i < comps.len() ==> scopes::proper(#[trigger] comps[i]),
    ensures
        pull::base_entry_at(Some(node), scopes::path_of(comps)) == object::entry_at(node, comps, 0),
        pull::base_entry_at(None, scopes::path_of(comps)) == Ok::<_, Halt>(None::<TreeEntry>),
{
    scopes::lemma_components_of_path(comps);
}

/// The metadata kept for a conflict is the time and the mode of the file on each side, and
/// none where that side has no file.
pub proof fn law_metadata_of_a_conflict(base: Option<TreeEntry>, remote: Option<DiffEntry>)
    ensures
        ({
            let m = pull::meta_of(base, remote);
            &&& m.base is Some <==> base is Some && base->0 is Blob
            &&& base is Some && base->0 is Blob ==> m.base->0.mtime == base->0->Blob_mtime
                && m.base->0.mode == base->0->Blob_mode
            &&& m.remote is Some <==> remote is Some && pull::new_content(remote->0) is Some
                && (remote->0 is Added || remote->0 is Modified)
            &&& remote is Some && remote->0 is Added ==> m.remote->0.mtime
                == remote->0->Added_mtime && m.remote->0.mode == remote->0->Added_mode
            &&& remote is Some && remote->0 is Modified ==> m.remote->0.mtime
                == remote->0->Modified_mtime && m.remote->0.mode == remote->0->Modified_mode
        }),
{
}

/// What lies in a Git repository is known by its directory of that name, beside it or above
/// it; a tree that is not in the store has none.
pub proof fn law_git_repositories_are_known(in_git: bool, name: Seq<char>, node: TreeNode)
    ensures
        in_git || name == ".git"@ ==> pull::git_context(in_git, name, node) == Ok::<bool, Halt>(
            true,
        ),
        !in_git && name != ".git"@ ==> match node.content {
            Content::Entries(es) => pull::git_context(in_git, name, node) == Ok::<bool, Halt>(
                exists|i: int|
                    0 <= i < es@.len() && (#[trigger] es@[i] is Tree) && es@[i].name_text()
                        == ".git"@,
            ),
            Content::Missing => pull::git_context(in_git, name, node) == Ok::<bool, Halt>(false),
            Content::Unread => pull::git_context(in_git, name, node) is Err,
        },
{
}

} // verus!
