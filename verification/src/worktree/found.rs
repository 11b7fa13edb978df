//! Where a path leads on disk.

use crate::worktree::{self, DiskEntry, DiskKind};
use vstd::prelude::*;

verus! {

/// A name leads to the first entry that has it, and nowhere where no entry has it.
pub proof fn law_name_leads_to_its_entry(es: Seq<DiskEntry>, name: Seq<char>)
    ensures
        match worktree::at_path(es, seq![name], 0) {
            Some(e) => exists|i: int|
                0 <= i < es.len() && #[trigger] es[i] == e && e.name@ == name && forall|j: int|
                    0 <= j < i ==> (#[trigger] es[j]).name@ != name,
            None => forall|i: int| 0 <= i < es.len() ==> (#[trigger] es[i]).name@ != name,
        },
{
    lemma_first_is_first(es, name, 0);
    assert(seq![name][0] == name);
}

proof fn lemma_first_is_first(es: Seq<DiskEntry>, name: Seq<char>, from: nat)
    ensures
        match worktree::first_named(es, name, from) {
            Some(i) => from <= i < es.len() && es[i as int].name@ == name && forall|j: int|
                from <= j < i ==> (#[trigger] es[j]).name@ != name,
            None => forall|j: int| from <= j < es.len() ==> (#[trigger] es[j]).name@ != name,
        },
    decreases es.len() - from,
{
    if from < es.len() && es[from as int].name@ != name {
        lemma_first_is_first(es, name, from + 1);
    }
}

/// A path leads on from a directory to what its next name leads to there, and from anything
/// else nowhere.
pub proof fn law_paths_go_through_directories(
    es: Seq<DiskEntry>,
    comps: Seq<Seq<char>>,
    name: Seq<char>,
)
    requires
        comps.len() > 0,
    ensures
        worktree::at_path(es, comps.push(name), 0) == match worktree::at_path(es, comps, 0) {
            Some(e) => match e.kind {
                DiskKind::Dir(sub) => worktree::at_path(sub@, seq![name], 0),
                _ => None,
            },
            None => None,
        },
{
    lemma_one_more(es, comps, name, 0);
}

proof fn lemma_one_more(es: Seq<DiskEntry>, comps: Seq<Seq<char>>, name: Seq<char>, from: nat)
    requires
        from < comps.len(),
    ensures
        worktree::at_path(es, comps.push(name), from) == match worktree::at_path(
            es,
            comps,
            from,
        ) {
            Some(e) => match e.kind {
                DiskKind::Dir(sub) => worktree::at_path(sub@, seq![name], 0),
                _ => None,
            },
            None => None,
        },
    decreases es,
{
    let more = comps.push(name);
    assert(more[from as int] == comps[from as int]);
    lemma_first_is_first(es, comps[from as int], 0);
    if let Some(i) = worktree::first_named(es, comps[from as int], 0) {
        if let DiskKind::Dir(sub) = es[i as int].kind {
            if from + 1 < comps.len() {
                lemma_one_more(sub@, comps, name, from + 1);
            } else {
                assert(more[from as int + 1] == name);
                lemma_last_name(sub@, more, from + 1, name);
            }
        }
    }
}

proof fn lemma_last_name(es: Seq<DiskEntry>, comps: Seq<Seq<char>>, from: nat, name: Seq<char>)
    requires
        from + 1 == comps.len(),
        comps[from as int] == name,
    ensures
        worktree::at_path(es, comps, from) == worktree::at_path(es, seq![name], 0),
{
    assert(seq![name][0] == name);
}

/// A name with the marker behind it is that of a stub, and without it is the name that the
/// stub stands for.
pub proof fn law_stub_names(name: Seq<char>)
    ensures
        worktree::stub_name(name + ".omemfs-stub"@),
        worktree::stub_name(name) <==> exists|base: Seq<char>|
            name == #[trigger] (base + ".omemfs-stub"@),
{
    let marker = ".omemfs-stub"@;
    let whole = name + marker;
    assert(whole.subrange(whole.len() - marker.len(), whole.len() as int) =~= marker);
    assert(whole.skip(whole.len() - marker.len()) =~= marker);
    if worktree::stub_name(name) {
        let base = name.take(name.len() - marker.len());
        assert(name =~= base + marker);
    }
    if exists|base: Seq<char>| name == #[trigger] (base + marker) {
        let base = choose|base: Seq<char>| name == #[trigger] (base + marker);
        assert(name.subrange(name.len() - marker.len(), name.len() as int) =~= marker);
        assert(name.skip(name.len() - marker.len()) =~= marker);
    }
}

} // verus!
