//! What is said of conflicts.

use crate::collections;
use crate::commands::conflict::{self, AcceptSide};
use crate::text;
use crate::worktree::DiskEntry;
use vstd::prelude::*;

verus! {

proof fn lemma_ends_with(lead: Seq<char>, p: Seq<char>)
    ensures
        text::has_suffix(lead + p, p),
{
    assert((lead + p).skip((lead + p).len() - p.len()) =~= p);
}

proof fn lemma_begins_with(head: Seq<char>, rest: Seq<char>)
    ensures
        text::has_prefix(head + rest, head),
{
    assert((head + rest).take(head.len() as int) =~= head);
}

/// Each conflict is listed in a line of its own, in order, and their number behind them;
/// where there is none, nothing is said.
pub proof fn law_every_conflict_is_listed(ps: Seq<Seq<char>>, i: int)
    requires
        0 <= i < ps.len(),
    ensures
        conflict::list_lines(ps).len() == ps.len() + 1,
        text::has_suffix(conflict::list_lines(ps)[i], ps[i]),
        text::has_prefix(conflict::list_lines(ps).last(), text::decimal(ps.len())),
        conflict::list_lines(seq![]).len() == 0,
{
    lemma_ends_with("  "@, ps[i]);
    let n = text::decimal(ps.len());
    let noun = conflict::plural(ps.len());
    assert(n + " path"@ + noun + " with unresolved conflicts."@ =~= n + (" path"@ + noun
        + " with unresolved conflicts."@));
    lemma_begins_with(n, " path"@ + noun + " with unresolved conflicts."@);
}

/// Each helper file that is deleted, or would be, is named in a line of its own, and behind
/// them stands how many conflicts they belong to.
pub proof fn law_every_helper_is_named(helpers: Seq<Seq<char>>, dry_run: bool, i: int)
    requires
        0 <= i < helpers.len(),
    ensures
        ({
            let lines = conflict::clean_lines(helpers, dry_run);
            let n = collections::listing(conflict::bases_of(helpers, helpers.len())).len();
            &&& text::has_suffix(lines[i], helpers[i])
            &&& n > 0 ==> lines.len() == helpers.len() + 1 && text::has_prefix(
                lines.last(),
                text::decimal(n),
            )
            &&& n == 0 ==> lines.len() == helpers.len()
            &&& conflict::clean_lines(helpers, true)[i] != conflict::clean_lines(helpers, false)[i]
        }),
{
    reveal_strlit("  would delete: ");
    reveal_strlit("  deleted: ");
    lemma_ends_with("  would delete: "@, helpers[i]);
    lemma_ends_with("  deleted: "@, helpers[i]);
    let a = "  would delete: "@ + helpers[i];
    let b = "  deleted: "@ + helpers[i];
    assert(a[2] == 'w' && b[2] == 'd');
    let n = collections::listing(conflict::bases_of(helpers, helpers.len())).len();
    let d = text::decimal(n);
    let noun = conflict::plural(n);
    let tail = if dry_run {
        " would be cleaned (dry run)."@
    } else {
        " cleaned."@
    };
    assert(d + " conflict"@ + noun + tail =~= d + (" conflict"@ + noun + tail));
    lemma_begins_with(d, " conflict"@ + noun + tail);
}

/// Each conflict that is resolved, or would be, is named in a line of its own, and their
/// number stands behind them. A dry run tells whether the accepted side has a version.
pub proof fn law_every_resolution_is_named(
    root: Seq<DiskEntry>,
    bases: Seq<Seq<char>>,
    side: AcceptSide,
    dry_run: bool,
    i: int,
)
    requires
        0 <= i < bases.len(),
    ensures
        ({
            let lines = conflict::accept_lines(root, bases, side, dry_run);
            &&& lines.len() == bases.len() + 1
            &&& text::has_suffix(lines[i], bases[i])
            &&& text::has_prefix(lines.last(), text::decimal(bases.len()))
            &&& dry_run ==> (text::has_prefix(lines[i], "  would accept "@)
                <==> conflict::exists_at(root, bases[i] + side.suffix_text()))
            &&& !dry_run ==> text::has_prefix(lines[i], "  accepted "@)
        }),
{
    reveal_strlit("  accepted ");
    reveal_strlit("  would accept ");
    reveal_strlit("  would delete (no ");
    let label = side.label_text();
    let present = conflict::exists_at(root, bases[i] + side.suffix_text());
    let line = conflict::accept_line(bases[i], side, present, dry_run);
    let lead = if !dry_run {
        "  accepted "@
    } else if present {
        "  would accept "@
    } else {
        "  would delete (no "@
    };
    let mid = if dry_run && !present {
        " version): "@
    } else {
        ": "@
    };
    assert(line =~= (lead + label + mid) + bases[i]);
    lemma_ends_with(lead + label + mid, bases[i]);
    assert(line =~= lead + (label + mid + bases[i]));
    lemma_begins_with(lead, label + mid + bases[i]);
    if dry_run && !present {
        assert(line[8] == 'd');
        assert("  would accept "@[8] == 'a');
        if text::has_prefix(line, "  would accept "@) {
            assert(line.take("  would accept "@.len() as int)[8] == line[8]);
        }
    }
    let d = text::decimal(bases.len());
    let noun = conflict::plural(bases.len());
    let tail = if dry_run {
        " would be resolved (dry run)."@
    } else {
        " resolved."@
    };
    assert(d + " conflict"@ + noun + tail =~= d + (" conflict"@ + noun + tail));
    lemma_begins_with(d, " conflict"@ + noun + tail);
}

/// The paths that a command was given are all named as its scope.
pub proof fn law_scope_is_named(paths: Seq<Seq<char>>, path: Seq<char>)
    ensures
        conflict::scope_text(seq![path]) == path,
        paths.len() > 0 ==> conflict::scope_text(paths.push(path)) == conflict::scope_text(paths)
            + ", "@ + path,
{
    assert(paths.push(path).drop_last() =~= paths);
}

} // verus!
