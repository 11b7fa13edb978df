//! What settings read as, and what an object leads to.

use crate::commands::transfer::{self, ObjectContent};
use crate::object::{ObjectHash, TreeEntry};
use crate::text;
use vstd::prelude::*;

verus! {

/// A setting that writes a number reads as that number where it is at least one and not too
/// large, and is ignored otherwise; so is a setting that is absent.
pub proof fn law_settings_read_back(n: nat, max: nat)
    ensures
        transfer::setting(Some(text::decimal(n)), max) == if 1 <= n <= max {
            Some(n)
        } else {
            None
        },
        transfer::setting(None, max) is None,
{
    text::law_decimal_round_trip(n);
    let d = text::decimal(n);
    assert('0' <= d[0] <= '9');
    assert('0' <= d[d.len() - 1] <= '9');
    assert(text::trimmed(d) == d);
    assert(text::unsigned(d) == d);
}

/// A setting that holds, besides white space at its ends and one sign, anything but digits
/// is ignored.
pub proof fn law_other_settings_are_ignored(s: Seq<char>, max: nat, i: int)
    requires
        1 <= i < text::trimmed(s).len(),
        !('0' <= text::trimmed(s)[i] <= '9'),
    ensures
        transfer::setting(Some(s), max) is None,
{
    let t = text::trimmed(s);
    let d = text::unsigned(t);
    if t[0] == '+' {
        assert(d[i - 1] == t[i]);
    } else {
        assert(d[i] == t[i]);
    }
}

/// What a setting reads as lies in its bounds.
pub proof fn law_settings_are_bounded(s: Option<Seq<char>>, max: nat)
    ensures
        transfer::setting(s, max) matches Some(n) ==> 1 <= n <= max,
{
}

/// A manifest leads to its chunks, a tree to the content of its files and to its
/// directories, and a leaf to nothing.
pub proof fn law_objects_lead_on(c: ObjectContent, h: ObjectHash)
    ensures
        transfer::children(c).contains(h) <==> match c {
            ObjectContent::Manifest(hs) => hs@.contains(h),
            ObjectContent::Tree(es) => exists|i: int|
                0 <= i < es@.len() && match #[trigger] es@[i] {
                    TreeEntry::Blob { hash, .. } => hash == h,
                    TreeEntry::Tree { node, .. } => node.hash == h,
                    TreeEntry::Symlink { .. } => false,
                },
            ObjectContent::Leaf(_) => false,
        },
{
    if let ObjectContent::Tree(es) = c {
        lemma_entry_hashes(es@, es@.len(), h);
    }
}

proof fn lemma_entry_hashes(es: Seq<TreeEntry>, n: nat, h: ObjectHash)
    requires
        n <= es.len(),
    ensures
        transfer::entry_hashes(es, n).contains(h) <==> exists|i: int|
            0 <= i < n && match #[trigger] es[i] {
                TreeEntry::Blob { hash, .. } => hash == h,
                TreeEntry::Tree { node, .. } => node.hash == h,
                TreeEntry::Symlink { .. } => false,
            },
    decreases n,
{
    if n > 0 {
        lemma_entry_hashes(es, (n - 1) as nat, h);
        let before = transfer::entry_hashes(es, (n - 1) as nat);
        let now = transfer::entry_hashes(es, n);
        if let Some(x) = es[n - 1].hash_of() {
            assert(now[before.len() as int] == x);
            if before.contains(h) {
                let k = choose|k: int| 0 <= k < before.len() && before[k] == h;
                assert(now[k] == h);
            }
            if now.contains(h) && x != h {
                let k = choose|k: int| 0 <= k < now.len() && now[k] == h;
                assert(before[k] == h);
            }
        }
    }
}

/// Only claimed objects are dropped from the front of a queue, and all of them.
pub proof fn law_only_claimed_are_dropped(queue: Seq<ObjectHash>, claimed: Set<ObjectHash>)
    ensures
        ({
            let left = transfer::unclaimed(queue, claimed);
            &&& left.len() <= queue.len()
            &&& left == queue.skip(queue.len() - left.len())
            &&& left.len() > 0 ==> !claimed.contains(left[0])
            &&& forall|i: int|
                0 <= i < queue.len() - left.len() ==> claimed.contains(#[trigger] queue[i])
        }),
    decreases queue.len(),
{
    if queue.len() > 0 && claimed.contains(queue[0]) {
        let rest = queue.drop_first();
        law_only_claimed_are_dropped(rest, claimed);
        let left = transfer::unclaimed(queue, claimed);
        let n = queue.len() - left.len();
        assert(queue.skip(n) =~= rest.skip(n - 1));
        assert forall|i: int| 0 <= i < n implies claimed.contains(#[trigger] queue[i]) by {
            if i > 0 {
                assert(rest[i - 1] == queue[i]);
            }
        }
    } else {
        assert(queue.skip(0) =~= queue);
    }
}

} // verus!
