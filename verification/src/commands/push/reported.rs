//! What is said of a push.

use super::scoped::{self, ScopedResult};
use super::{Transfer, TransferEvent};
use crate::text;
use vstd::prelude::*;

verus! {

proof fn lemma_ends_with(lead: Seq<char>, p: Seq<char>)
    ensures
        text::has_suffix(lead + p, p),
{
    assert((lead + p).skip((lead + p).len() - p.len()) =~= p);
}

/// Each path that changed while it was pushed is named behind one warning; where there is
/// none, nothing is said.
pub proof fn law_unstable_paths_are_named(ps: Seq<Seq<char>>, i: int)
    requires
        0 <= i < ps.len(),
    ensures
        super::unstable_lines(ps).len() == ps.len() + 1,
        text::has_suffix(super::unstable_lines(ps)[i + 1], ps[i]),
        super::unstable_lines(seq![]).len() == 0,
{
    lemma_ends_with("  "@, ps[i]);
}

/// A dry run names each path in a line of its own, and tells what would be deleted from what
/// would be pushed, with the start of its hash.
pub proof fn law_dry_run_names_each_path(results: Seq<ScopedResult>, i: int)
    requires
        0 <= i < results.len(),
    ensures
        scoped::would_lines(results).len() == results.len(),
        results[i].put is None ==> scoped::would_lines(results)[i] == "Would delete "@
            + results[i].rel@,
        results[i].put is Some ==> text::has_prefix(
            scoped::would_lines(results)[i],
            "Would push "@ + results[i].rel@,
        ) && text::has_suffix(
            scoped::would_lines(results)[i],
            results[i].put->0.hash.hex().take(8),
        ),
{
    if results[i].put is Some {
        let lead = "Would push "@ + results[i].rel@;
        let hash = results[i].put->0.hash.short();
        let line = scoped::would_lines(results)[i];
        assert(line =~= lead + " → "@ + hash);
        assert(line.take(lead.len() as int) =~= lead);
        lemma_ends_with(lead + " → "@, hash);
    }
}

/// Only an object that is there already, or was copied, brings a line.
pub proof fn law_lines_of_an_upload(event: TransferEvent, after: Transfer)
    ensures
        super::detail_of(event, after) is Some <==> match event {
            TransferEvent::Looked { exists, .. } => exists,
            TransferEvent::Copied { .. } => true,
            _ => false,
        },
{
}

} // verus!
