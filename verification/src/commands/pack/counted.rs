//! What a run of packing counts, chooses and looks for.

use super::consolidate;
use super::index::EntryView;
use super::reach;
use super::shards;
use super::PackFacts;
use crate::object::{self, Content, ObjectHash, TreeEntry, TreeNode};
use crate::text;
use vstd::prelude::*;

verus! {

/// The sizes that are known add up, whatever stands between them; one that is not known
/// adds nothing.
pub proof fn law_known_sizes_add_up(a: Seq<Option<u64>>, b: Seq<Option<u64>>, size: u64)
    ensures
        super::known_sum(a + b) == super::known_sum(a) + super::known_sum(b),
        super::known_sum(seq![Some(size)]) == size,
        super::known_sum(seq![None]) == 0,
        super::known_sum(seq![]) == 0,
    decreases b.len(),
{
    reveal_with_fuel(super::known_sum, 2);
    assert(seq![Some(size)].drop_last() =~= seq![]);
    assert(seq![None::<u64>].drop_last() =~= seq![]);
    if b.len() == 0 {
        assert(a + b =~= a);
    } else {
        law_known_sizes_add_up(a, b.drop_last(), size);
        assert((a + b).drop_last() =~= a + b.drop_last());
        assert((a + b).last() == b.last());
    }
}

/// What a run leaves behind is all that it replaced: the hot index, the deltas, the Bloom
/// filter, and what it moved out of pack files.
pub proof fn law_all_that_is_replaced_is_left_behind(facts: PackFacts)
    ensures
        super::orphaned(facts) == super::known_sum(facts.old_deltas@) + (match facts.old_hot {
            Some(n) => n as nat,
            None => 0,
        }) + (match facts.old_bloom {
            Some(n) => n as nat,
            None => 0,
        }) + facts.bytes_in as nat,
{
}

/// A pack file is consolidated exactly where it has less than two mebibytes.
pub proof fn law_small_packs_are_chosen(sizes: Seq<(ObjectHash, u64)>, h: ObjectHash)
    ensures
        consolidate::small_packs(sizes).contains(h) <==> exists|i: int|
            0 <= i < sizes.len() && (#[trigger] sizes[i]).0 == h && sizes[i].1 < 2 * 1024 * 1024,
{
    let small = |s: (ObjectHash, u64)| s.1 < 2097152u64;
    let kept = sizes.filter(|s: (ObjectHash, u64)| s.1 < consolidate::CONSOLIDATION_THRESHOLD);
    let chosen = consolidate::small_packs(sizes);
    assert(kept =~= sizes.filter(small)) by {
        assert((|s: (ObjectHash, u64)| s.1 < consolidate::CONSOLIDATION_THRESHOLD) =~= small);
    }
    broadcast use vstd::seq_lib::group_filter_ensures;

    if chosen.contains(h) {
        let j = choose|j: int| 0 <= j < chosen.len() && chosen[j] == h;
        assert(kept[j].0 == h);
        assert(sizes.filter(small).contains(kept[j]));
        sizes.lemma_filter_contains_rev(small, kept[j]);
        let i = choose|i: int| 0 <= i < sizes.len() && sizes[i] == kept[j];
        assert(sizes[i].0 == h);
    }
    if exists|i: int|
        0 <= i < sizes.len() && (#[trigger] sizes[i]).0 == h && sizes[i].1 < 2 * 1024 * 1024 {
        let i = choose|i: int|
            0 <= i < sizes.len() && (#[trigger] sizes[i]).0 == h && sizes[i].1 < 2 * 1024 * 1024;
        assert(small(sizes[i]));
        assert(sizes.filter(small).contains(sizes[i]));
        let j = choose|j: int| 0 <= j < kept.len() && kept[j] == sizes[i];
        assert(chosen[j] == h);
    }
}

/// The Bloom filter is made of every object that a shard speaks of, and of no other.
pub proof fn law_filter_holds_what_shards_speak_of(
    all: Seq<Seq<EntryView>>,
    n: nat,
    h: ObjectHash,
)
    requires
        n <= all.len(),
    ensures
        shards::named_in(all, n).contains(h) <==> exists|i: int, j: int|
            0 <= i < n && 0 <= j < all[i].len() && (#[trigger] all[i][j]).named() == h,
    decreases n,
{
    if n > 0 {
        law_filter_holds_what_shards_speak_of(all, (n - 1) as nat, h);
        let before = shards::named_in(all, (n - 1) as nat);
        let last = shards::named_all(all[n - 1]);
        let now = shards::named_in(all, n);
        if now.contains(h) {
            let k = choose|k: int| 0 <= k < now.len() && now[k] == h;
            if k < before.len() {
                assert(before[k] == h);
            } else {
                assert(last[k - before.len()] == h);
                assert(all[n - 1][k - before.len()].named() == h);
            }
        }
        if exists|i: int, j: int|
            0 <= i < n && 0 <= j < all[i].len() && (#[trigger] all[i][j]).named() == h {
            let (i, j) = choose|i: int, j: int|
                0 <= i < n && 0 <= j < all[i].len() && (#[trigger] all[i][j]).named() == h;
            if i == n - 1 {
                assert(last[j] == h);
                assert(now[before.len() + j] == h);
            } else {
                assert(before.contains(h));
                let k = choose|k: int| 0 <= k < before.len() && before[k] == h;
                assert(now[k] == h);
            }
        }
    }
}

proof fn lemma_first_digits(w: nat, n: nat)
    requires
        n >= 2,
    ensures
        object::hex_digits(w, n).len() == n,
        object::hex_digits(w, n).take(2) == object::hex_digits(
            w / (vstd::arithmetic::power::pow(16, (n - 2) as nat) as nat),
            2,
        ),
        vstd::arithmetic::power::pow(16, (n - 2) as nat) > 0,
    decreases n,
{
    reveal(vstd::arithmetic::power::pow);
    if n == 2 {
        reveal_with_fuel(object::hex_digits, 4);
        assert(vstd::arithmetic::power::pow(16, 0) == 1);
        assert(object::hex_digits(w, 2).take(2) =~= object::hex_digits(w, 2));
    } else {
        lemma_first_digits(w / 16, (n - 1) as nat);
        let p = vstd::arithmetic::power::pow(16, (n - 3) as nat);
        assert(vstd::arithmetic::power::pow(16, (n - 2) as nat) == 16 * p);
        vstd::arithmetic::div_mod::lemma_div_denominator(w as int, 16, p);
        assert(object::hex_digits(w, n).take(2) =~= object::hex_digits(
            w / 16,
            (n - 1) as nat,
        ).take(2));
    }
}

/// The first byte of an object's name is what its first two hexadecimal digits write.
pub proof fn law_first_byte_is_written_first(h: ObjectHash)
    ensures
        object::hex_number(h.hex().take(2)) == shards::first_byte(h),
{
    let w = h.w0 as nat;
    lemma_first_digits(w, 16);
    assert(vstd::arithmetic::power::pow(16, 14) == 0x100_0000_0000_0000) by {
        reveal_with_fuel(vstd::arithmetic::power::pow, 16);
    }
    let b = w / 0x100_0000_0000_0000;
    assert(b < 256);
    assert(h.hex().take(2) =~= object::hex_digits(w, 16).take(2));
    object::lemma_hex_round_trip(b, 2);
    assert(vstd::arithmetic::power::pow(16, 2) == 256) by {
        reveal_with_fuel(vstd::arithmetic::power::pow, 4);
    }
    vstd::arithmetic::div_mod::lemma_small_mod(b, 256);
}

/// Whether all of a tree that is not stubbed was looked for.
pub open spec fn looked_for(node: TreeNode, prefix: Seq<char>, stubbed: Set<Seq<char>>) -> bool
    decreases node,
{
    match node.content {
        Content::Unread => false,
        Content::Missing => true,
        Content::Entries(es) => forall|i: int|
            0 <= i < es@.len() ==> looked_for_in(#[trigger] es@[i], prefix, stubbed),
    }
}

/// The same of one entry.
pub open spec fn looked_for_in(e: TreeEntry, prefix: Seq<char>, stubbed: Set<Seq<char>>) -> bool
    decreases e,
{
    match e {
        TreeEntry::Tree { name, node, .. } => stubbed.contains(text::joined(prefix, name@))
            || looked_for(node, text::joined(prefix, name@), stubbed),
        _ => true,
    }
}

/// A run goes on to look for objects until all of the tree that is not stubbed was looked
/// for.
pub proof fn law_everything_in_use_is_looked_for(
    node: TreeNode,
    prefix: Seq<char>,
    stubbed: Set<Seq<char>>,
)
    ensures
        reach::unread(node, prefix, stubbed) is None <==> looked_for(node, prefix, stubbed),
    decreases node, 0nat,
{
    reveal_with_fuel(looked_for, 2);
    reveal_with_fuel(looked_for_in, 2);
    if let Content::Entries(es) = node.content {
        lemma_looked_upto(es@, es@.len(), prefix, stubbed);
    }
}

proof fn lemma_looked_upto(
    es: Seq<TreeEntry>,
    n: nat,
    prefix: Seq<char>,
    stubbed: Set<Seq<char>>,
)
    requires
        n <= es.len(),
    ensures
        reach::unread_upto(es, n, prefix, stubbed) is None <==> forall|i: int|
            0 <= i < n ==> looked_for_in(#[trigger] es[i], prefix, stubbed),
    decreases es, n,
{
    reveal_with_fuel(looked_for, 2);
    reveal_with_fuel(looked_for_in, 2);
    if n > 0 {
        lemma_looked_upto(es, (n - 1) as nat, prefix, stubbed);
        if let TreeEntry::Tree { name, node, .. } = es[n - 1] {
            law_everything_in_use_is_looked_for(node, text::joined(prefix, name@), stubbed);
        }
    }
}

} // verus!
