//! Where a path leads in a tree.

use crate::object::{self, Content, Halt, ObjectHash, TreeEntry, TreeNode};
use crate::text;
use vstd::prelude::*;

verus! {

/// A name leads to the last entry that has it. It leads nowhere where no entry has it, and
/// is not known where the entries are not.
pub proof fn law_name_leads_to_its_entry(node: TreeNode, name: Seq<char>)
    ensures
        match object::entry_at(node, seq![name], 0) {
            Ok(Some(e)) => node.content matches Content::Entries(es) && exists|i: int|
                0 <= i < es@.len() && #[trigger] es@[i] == e && e.name_text() == name && forall|
                    j: int,
                |
                    i < j < es@.len() ==> (#[trigger] es@[j]).name_text() != name,
            Ok(None) => node.content matches Content::Entries(es) && forall|i: int|
                0 <= i < es@.len() ==> (#[trigger] es@[i]).name_text() != name,
            Err(Halt::Unread(h)) => node.content is Unread && h == node.hash,
            Err(Halt::Missing(h)) => node.content is Missing && h == node.hash,
        },
{
    if let Content::Entries(es) = node.content {
        object::lemma_last_named(es@, name);
        lemma_last_is_last(es@, name);
    }
}

proof fn lemma_last_is_last(es: Seq<TreeEntry>, name: Seq<char>)
    ensures
        match object::last_named(es, name) {
            Some(i) => 0 <= i < es.len() && es[i].name_text() == name && forall|j: int|
                i < j < es.len() ==> (#[trigger] es[j]).name_text() != name,
            None => forall|j: int| 0 <= j < es.len() ==> (#[trigger] es[j]).name_text() != name,
        },
    decreases es.len(),
{
    if es.len() > 0 && es.last().name_text() != name {
        let rest = es.drop_last();
        lemma_last_is_last(rest, name);
        assert forall|j: int|
            0 <= j < es.len() && (object::last_named(es, name) matches Some(i) ==> i
                < j) implies (#[trigger] es[j]).name_text() != name by {
            if j < es.len() - 1 {
                assert(rest[j] == es[j]);
            }
        }
    }
}

/// A path leads on from a directory to what its next name leads to there, and from anything
/// else nowhere.
pub proof fn law_paths_go_through_directories(
    node: TreeNode,
    comps: Seq<Seq<char>>,
    name: Seq<char>,
)
    requires
        comps.len() > 0,
    ensures
        object::entry_at(node, comps.push(name), 0) == match object::entry_at(node, comps, 0) {
            Ok(Some(TreeEntry::Tree { node: sub, .. })) => object::entry_at(sub, seq![name], 0),
            Ok(_) => Ok(None),
            Err(h) => Err(h),
        },
{
    lemma_one_more(node, comps, name, 0);
}

proof fn lemma_one_more(node: TreeNode, comps: Seq<Seq<char>>, name: Seq<char>, from: nat)
    requires
        from < comps.len(),
    ensures
        object::entry_at(node, comps.push(name), from) == match object::entry_at(
            node,
            comps,
            from,
        ) {
            Ok(Some(TreeEntry::Tree { node: sub, .. })) => object::entry_at(sub, seq![name], 0),
            Ok(_) => Ok(None),
            Err(h) => Err(h),
        },
    decreases node,
{
    let more = comps.push(name);
    assert(more[from as int] == comps[from as int]);
    if let Content::Entries(es) = node.content {
        lemma_last_is_last(es@, comps[from as int]);
        if let Some(i) = object::last_named(es@, comps[from as int]) {
            if let TreeEntry::Tree { node: sub, .. } = es@[i] {
                if from + 1 < comps.len() {
                    lemma_one_more(sub, comps, name, from + 1);
                } else {
                    assert(more[from as int + 1] == name);
                    lemma_last_name(sub, more, from + 1, name);
                }
            }
        }
    }
}

proof fn lemma_last_name(node: TreeNode, comps: Seq<Seq<char>>, from: nat, name: Seq<char>)
    requires
        from + 1 == comps.len(),
        comps[from as int] == name,
    ensures
        object::entry_at(node, comps, from) == object::entry_at(node, seq![name], 0),
{
    assert(seq![name][0] == name);
}

/// The object at a path is that of the file or the directory which stands there; the empty
/// path leads to the root, and a link has no object.
pub proof fn law_object_at_a_path(node: TreeNode, comps: Seq<Seq<char>>)
    ensures
        comps.len() == 0 ==> object::hash_at(node, comps) == Ok::<_, Halt>(Some(node.hash)),
        comps.len() > 0 ==> object::hash_at(node, comps) == match object::entry_at(
            node,
            comps,
            0,
        ) {
            Ok(Some(TreeEntry::Blob { hash, .. })) => Ok(Some(hash)),
            Ok(Some(TreeEntry::Tree { node: sub, .. })) => Ok(Some(sub.hash)),
            Ok(_) => Ok(None),
            Err(h) => Err(h),
        },
{
}

/// The short form of a hash is how its full form begins, eight digits long.
pub proof fn law_short_form_begins_the_full_one(h: ObjectHash)
    ensures
        h.short().len() == 8,
        text::has_prefix(h.hex(), h.short()),
{
    object::law_hash_text(h);
}

} // verus!
