//! What is said of stubbing.

use crate::commands::stub::{self, Found, StubTarget};
use crate::object::{self, Halt, TreeEntry, TreeNode};
use crate::text;
use vstd::prelude::*;

verus! {

/// A dry run names each path that would be stubbed in a line of its own, and their number
/// behind them. Otherwise only the number is said, and that there is nothing to stub where
/// it is zero.
pub proof fn law_targets_are_named_or_counted(ts: Seq<StubTarget>, i: int)
    requires
        0 <= i < ts.len(),
    ensures
        stub::report_of(ts, true).0.len() == ts.len() + 1,
        text::has_suffix(stub::report_of(ts, true).0[i], ts[i].rel@),
        text::has_prefix(stub::report_of(ts, true).0.last(), text::decimal(ts.len())),
        stub::report_of(ts, false).0.len() == 1,
        text::has_prefix(stub::report_of(ts, false).0[0], text::decimal(ts.len())),
        text::has_prefix(stub::report_of(ts, false).1, text::decimal(ts.len())),
        stub::report_of(seq![], true) == stub::report_of(seq![], false),
{
    let n = text::decimal(ts.len());
    let line = "  would stub: "@ + ts[i].rel@;
    assert(stub::target_paths(ts)[i] == ts[i].rel@);
    assert(stub::report_of(ts, true).0[i] == line);
    assert(line.skip(line.len() - ts[i].rel@.len()) =~= ts[i].rel@);
    assert((n + " file(s) would be stubbed."@).take(n.len() as int) =~= n);
    assert((n + " file(s) stubbed."@).take(n.len() as int) =~= n);
    assert((n + " files"@).take(n.len() as int) =~= n);
}

/// A path at which nothing stands is refused unless it is stubbed already, and so is one
/// whose stub Git would see; no other is refused at first sight.
pub proof fn law_refused_at_first_sight(
    rel: Seq<char>,
    given: Seq<char>,
    found: Found,
    stubbed: bool,
    visible: bool,
)
    ensures
        stub::first_refusal(rel, given, found, stubbed, visible) is Some <==> !stubbed && (visible
            || found == Found::Nothing),
{
}

/// What the last sync recorded at a path is what the tree has there, but a directory is no
/// record of a file, and one that is not in the store hides what a file below it had.
pub proof fn law_records_are_those_of_the_tree(root: TreeNode, rel: Seq<char>, e: TreeEntry)
    ensures
        object::entry_at(root, text::components(rel), 0) == Ok::<_, Halt>(Some(e)) ==> {
            &&& stub::synced_entry(root, rel, Found::Dir) == Ok::<_, Halt>(Some(e))
            &&& e is Tree ==> stub::synced_entry(root, rel, Found::File) == Ok::<_, Halt>(
                None::<TreeEntry>,
            )
            &&& !(e is Tree) ==> stub::synced_entry(root, rel, Found::File) == Ok::<_, Halt>(
                Some(e),
            )
        },
        object::entry_at(root, text::components(rel), 0) == Ok::<_, Halt>(None::<TreeEntry>)
            ==> stub::synced_entry(root, rel, Found::File) == Ok::<_, Halt>(None::<TreeEntry>)
            && stub::synced_entry(root, rel, Found::Dir) == Ok::<_, Halt>(None::<TreeEntry>),
        object::entry_at(root, text::components(rel), 0) matches Err(h) ==> {
            &&& stub::synced_entry(root, rel, Found::Dir) == Err::<Option<TreeEntry>, Halt>(h)
            &&& h is Unread ==> stub::synced_entry(root, rel, Found::File) == Err::<
                Option<TreeEntry>,
                Halt,
            >(h)
            &&& h is Missing ==> stub::synced_entry(root, rel, Found::File) == Ok::<_, Halt>(
                None::<TreeEntry>,
            )
        },
{
}

} // verus!
