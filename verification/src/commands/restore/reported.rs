//! What is said of a restore, and when a stub is out of date.

use crate::commands::restore::{self, Verb};
use crate::object::{ObjectHash, StubRecord, Timestamp};
use crate::text;
use vstd::prelude::*;

verus! {

/// The last line says how many paths there were, and no number where there were none; a dry
/// run is told from a run, and a restored path from a deleted one.
pub proof fn law_restored_paths_are_counted(total: nat)
    requires
        total > 0,
    ensures
        text::has_prefix(restore::summary_text(total, true), text::decimal(total)),
        text::has_prefix(restore::summary_text(total, false), text::decimal(total)),
        restore::summary_text(total, true) != restore::summary_text(total, false),
        restore::summary_text(0, true) == restore::summary_text(0, false),
        restore::verb_text(Verb::Restore, true) == "would restore"@,
        restore::verb_text(Verb::Delete, true) == "would delete"@,
        restore::verb_text(Verb::Restore, false) == "restored"@,
        restore::verb_text(Verb::Delete, false) == "deleted"@,
{
    reveal_strlit(" path(s) would be restored.");
    reveal_strlit(" path(s) restored.");
    let n = text::decimal(total);
    let a = n + " path(s) would be restored."@;
    let b = n + " path(s) restored."@;
    assert(a.take(n.len() as int) =~= n);
    assert(b.take(n.len() as int) =~= n);
    assert(a.len() != b.len());
}

/// A stub stays as it is exactly where it says all that the clone root does.
pub proof fn law_only_true_stubs_stay(
    s: StubRecord,
    hash: ObjectHash,
    size: u64,
    mtime: Option<Timestamp>,
    mode: Option<String>,
    blob_count: u64,
)
    ensures
        restore::stub_is_stale(None, hash, size, mtime, mode),
        !restore::stub_is_stale(Some(s), hash, size, mtime, mode) <==> s.hash == hash && s.size
            == size && s.mtime == mtime && text::opt_view(s.mode) == text::opt_view(mode),
        restore::dir_stub_is_stale(None, hash, size, mtime, blob_count),
        !restore::dir_stub_is_stale(Some(s), hash, size, mtime, blob_count) <==> s.hash == hash
            && s.size == size && s.mtime == mtime && s.blob_count == blob_count,
{
}

} // verus!
