//! The cold shards: which entries lie in which, and how an oversized one is split.

use super::index::{self, EntryView, IndexEntry};
use crate::commands::pack::consolidate::holds;
use crate::object::ObjectHash;
use vstd::prelude::*;

verus! {

/// A cold shard above this many bytes is split.
pub const COLD_SHARD_SPLIT_THRESHOLD: u64 = 4194304;

/// The name that stands for no shard.
pub open spec fn no_shard() -> ObjectHash {
    ObjectHash { w0: 0, w1: 0, w2: 0, w3: 0 }
}

/// The cold part of the index: by the leading `prefix_bits` of an object's name, the
/// shard that holds its entry.
pub struct ColdIndex {
    pub prefix_bits: u8,
    pub shards: Vec<ObjectHash>,
}

/// How many slots `bits` address.
pub open spec fn slot_count(bits: nat) -> nat
    decreases bits,
{
    if bits == 0 {
        1
    } else {
        2 * slot_count((bits - 1) as nat)
    }
}

impl ColdIndex {
    /// There is a slot for every prefix.
    pub open spec fn wf(self) -> bool {
        self.prefix_bits <= 8 && self.shards@.len() == slot_count(self.prefix_bits as nat)
    }
}

proof fn lemma_slot_count(bits: nat)
    requires
        bits <= 8,
    ensures
        0 < slot_count(bits) <= 256,
        bits == 8 <==> slot_count(bits) == 256,
        (256int / slot_count(bits) as int) * slot_count(bits) == 256,
        0 < 256int / slot_count(bits) as int,
{
    reveal_with_fuel(slot_count, 10);
    let c = slot_count(bits) as int;
    assert(c == 1 || c == 2 || c == 4 || c == 8 || c == 16 || c == 32 || c == 64 || c == 128 || c
        == 256);
    assert(0 < 256int / c && (256int / c) * c == 256) by (nonlinear_arith)
        requires
            c == 1 || c == 2 || c == 4 || c == 8 || c == 16 || c == 32 || c == 64 || c == 128 || c
                == 256,
    ;
}

// ---------------------------------------------------------------------------
// Adding entries
// ---------------------------------------------------------------------------

/// What is to be done with entries that went cold.
#[derive(Clone, Copy, Debug, PartialEq, Eq, Structural)]
pub enum ColdStep {
    /// Nothing.
    Done,
    /// Write a shard that holds the entries of this one, if any, and the new ones. It
    /// takes the place of the shard of the first slot.
    Rewrite { base: Option<ObjectHash> },
}

/// Decides on entries that went cold. Where there are none, at least one slot is
/// made sure of.
pub fn apply_cold_entries(none: bool, shards: &mut Vec<ObjectHash>) -> (r: ColdStep)
    ensures
        none ==> r is Done && final(shards)@ == if old(shards)@.len() == 0 {
            seq![no_shard()]
        } else {
            old(shards)@
        },
        !none ==> final(shards)@ == old(shards)@ && r == (ColdStep::Rewrite {
            base: if old(shards)@.len() > 0 && old(shards)@[0] != no_shard() {
                Some(old(shards)@[0])
            } else {
                None
            },
        }),
{
    if none {
        if shards.len() == 0 {
            shards.push(ObjectHash { w0: 0, w1: 0, w2: 0, w3: 0 });
            assert(shards@ =~= seq![no_shard()]);
        }
        return ColdStep::Done;
    }
    if shards.len() > 0 && !shards[0].is_zero() {
        ColdStep::Rewrite { base: Some(shards[0]) }
    } else {
        ColdStep::Rewrite { base: None }
    }
}

/// The entries of the new shard: those of the old one, then those that went cold.
pub fn shard_entries(existing: &Vec<IndexEntry>, cold: &Vec<IndexEntry>) -> (r: Vec<IndexEntry>)
    ensures
        index::entry_views(r@) == index::entry_views(existing@) + index::entry_views(cold@),
{
    let mut out: Vec<IndexEntry> = Vec::new();
    append_copies(&mut out, existing);
    append_copies(&mut out, cold);
    assert(index::entry_views(out@) =~= index::entry_views(existing@) + index::entry_views(cold@));
    out
}

fn append_copies(out: &mut Vec<IndexEntry>, from: &Vec<IndexEntry>)
    ensures
        index::entry_views(final(out)@) == index::entry_views(old(out)@) + index::entry_views(
            from@,
        ),
{
    let ghost before = index::entry_views(out@);
    let ghost all = index::entry_views(from@);
    let mut i: usize = 0;
    assert(index::entry_views(out@) =~= before + all.take(0));
    while i < from.len()
        invariant
            i <= from@.len(),
            all == index::entry_views(from@),
            index::entry_views(out@) == before + all.take(i as int),
        decreases from.len() - i,
    {
        let ghost now = index::entry_views(out@);
        out.push(from[i].copy());
        proof {
            assert(index::entry_views(out@) =~= now.push(all[i as int]));
            assert(all.take(i + 1) =~= all.take(i as int).push(all[i as int]));
        }
        i = i + 1;
    }
    assert(all.take(i as int) =~= all);
}

/// The slots with `shard` in the place of the shard of the first slot. Where there is no
/// slot, one is made.
pub open spec fn repointed(slots: Seq<ObjectHash>, shard: ObjectHash) -> Seq<ObjectHash> {
    if slots.len() == 0 {
        seq![shard]
    } else {
        Seq::new(
            slots.len(),
            |i: int|
                if slots[i] == slots[0] {
                    shard
                } else {
                    slots[i]
                },
        )
    }
}

/// Points the slots that share the shard of the first slot to `shard`.
pub fn point_shared(shards: &mut Vec<ObjectHash>, shard: ObjectHash)
    ensures
        final(shards)@ == repointed(old(shards)@, shard),
{
    if shards.len() == 0 {
        shards.push(shard);
        assert(shards@ =~= seq![shard]);
        return ;
    }
    let ghost before = shards@;
    let shared = shards[0];
    let mut i: usize = 0;
    while i < shards.len()
        invariant
            i <= shards@.len(),
            shards@.len() == before.len(),
            before.len() > 0,
            shared == before[0],
            forall|j: int| i <= j < before.len() ==> shards@[j] == before[j],
            forall|j: int| 0 <= j < i ==> shards@[j] == repointed(before, shard)[j],
        decreases shards.len() - i,
    {
        if shards[i] == shared {
            shards[i] = shard;
        }
        i = i + 1;
    }
    assert(shards@ =~= repointed(before, shard));
}

// ---------------------------------------------------------------------------
// The shards there are
// ---------------------------------------------------------------------------

/// The shards that slots point to, each once, in the order of first mention.
pub open spec fn shards_in(slots: Seq<ObjectHash>) -> Seq<ObjectHash>
    decreases slots.len(),
{
    if slots.len() == 0 {
        seq![]
    } else {
        let before = shards_in(slots.drop_last());
        if slots.last() == no_shard() || before.contains(slots.last()) {
            before
        } else {
            before.push(slots.last())
        }
    }
}

/// The shards that slots point to, each once.
pub fn distinct_shards(slots: &Vec<ObjectHash>) -> (r: Vec<ObjectHash>)
    ensures
        r@ == shards_in(slots@),
{
    let mut out: Vec<ObjectHash> = Vec::new();
    let mut i: usize = 0;
    while i < slots.len()
        invariant
            i <= slots@.len(),
            out@ == shards_in(slots@.take(i as int)),
        decreases slots.len() - i,
    {
        let s = slots[i];
        proof {
            assert(slots@.take(i + 1).drop_last() =~= slots@.take(i as int));
            assert(slots@.take(i + 1).last() == s);
        }
        if !s.is_zero() && !holds(&out, s) {
            out.push(s);
        }
        i = i + 1;
    }
    assert(slots@.take(i as int) =~= slots@);
    out
}

/// Which of the shards, given by their sizes, is to be split: the largest above the
/// threshold, and of several the first.
pub fn largest_oversized(sizes: &Vec<u64>) -> (r: Option<usize>)
    ensures
        match r {
            Some(i) => {
                &&& i < sizes@.len()
                &&& sizes@[i as int] > COLD_SHARD_SPLIT_THRESHOLD
                &&& forall|j: int| 0 <= j < sizes@.len() ==> sizes@[j] <= sizes@[i as int]
                &&& forall|j: int| 0 <= j < i ==> sizes@[j] < sizes@[i as int]
            },
            None => forall|j: int|
                0 <= j < sizes@.len() ==> sizes@[j] <= COLD_SHARD_SPLIT_THRESHOLD,
        },
{
    let mut best: Option<usize> = None;
    let mut largest: u64 = 0;
    let mut i: usize = 0;
    while i < sizes.len()
        invariant
            i <= sizes@.len(),
            match best {
                Some(b) => {
                    &&& b < i
                    &&& sizes@[b as int] == largest
                    &&& largest > COLD_SHARD_SPLIT_THRESHOLD
                    &&& forall|j: int| 0 <= j < i ==> sizes@[j] <= largest
                    &&& forall|j: int| 0 <= j < b ==> sizes@[j] < largest
                },
                None => largest == 0 && forall|j: int|
                    0 <= j < i ==> sizes@[j] <= COLD_SHARD_SPLIT_THRESHOLD,
            },
        decreases sizes.len() - i,
    {
        if sizes[i] > COLD_SHARD_SPLIT_THRESHOLD && sizes[i] > largest {
            largest = sizes[i];
            best = Some(i);
        }
        i = i + 1;
    }
    best
}

// ---------------------------------------------------------------------------
// Splitting
// ---------------------------------------------------------------------------

/// The first byte of an object's name.
pub open spec fn first_byte(h: ObjectHash) -> u8 {
    (h.w0 as nat / 0x100_0000_0000_0000) as u8
}

/// The first byte of an object's name.
pub fn leading_byte(h: ObjectHash) -> (r: u8)
    ensures
        r == first_byte(h),
{
    (h.w0 / 0x100_0000_0000_0000) as u8
}

/// How many entries have a name that starts with `p`.
pub open spec fn population(es: Seq<EntryView>, p: u8) -> nat
    decreases es.len(),
{
    if es.len() == 0 {
        0
    } else {
        population(es.drop_last(), p) + if first_byte(es.last().named()) == p {
            1nat
        } else {
            0
        }
    }
}

fn count_prefix(entries: &Vec<IndexEntry>, p: u8) -> (r: usize)
    ensures
        r == population(index::entry_views(entries@), p),
{
    let ghost all = index::entry_views(entries@);
    let n: usize = entries.len();
    let mut count: usize = 0;
    let mut i: usize = 0;
    while i < n
        invariant
            i <= n == entries@.len(),
            all == index::entry_views(entries@),
            count <= i,
            count == population(all.take(i as int), p),
        decreases n - i,
    {
        proof {
            assert(all.take(i + 1).drop_last() =~= all.take(i as int));
            assert(all.take(i + 1).last() == entries@[i as int]@);
        }
        if leading_byte(entries[i].hash()) == p {
            count = count + 1;
        }
        i = i + 1;
    }
    assert(all.take(i as int) =~= all);
    count
}

proof fn lemma_populated(es: Seq<EntryView>)
    requires
        es.len() > 0,
    ensures
        population(es, first_byte(es.last().named())) > 0,
{
}


/// A first byte that no other byte outnumbers; `None` where there are no entries.
/// Which of several equally frequent bytes it is, is left open.
pub fn most_populous(entries: &Vec<IndexEntry>) -> (r: Option<u8>)
    ensures
        match r {
            Some(p) => population(index::entry_views(entries@), p) > 0 && forall|q: u8|
                #[trigger] population(index::entry_views(entries@), q) <= population(
                    index::entry_views(entries@),
                    p,
                ),
            None => entries@.len() == 0,
        },
{
    let ghost all = index::entry_views(entries@);
    if entries.len() == 0 {
        return None;
    }
    let mut best: u8 = 0;
    let mut best_count: usize = count_prefix(entries, 0);
    let mut p: u16 = 1;
    while p < 256
        invariant
            1 <= p <= 256,
            all == index::entry_views(entries@),
            best_count == population(all, best),
            forall|q: u8| q < p ==> #[trigger] population(all, q) <= best_count,
        decreases 256 - p,
    {
        let c: usize = count_prefix(entries, p as u8);
        if c > best_count {
            best_count = c;
            best = p as u8;
        }
        p = p + 1;
    }
    proof {
        lemma_populated(all);
    }
    Some(best)
}

/// The entries whose name starts with `p`, in order.
pub open spec fn dedicated_part(es: Seq<EntryView>, p: u8) -> Seq<EntryView> {
    es.filter(|e: EntryView| first_byte(e.named()) == p)
}

/// The other entries, in order.
pub open spec fn shared_part(es: Seq<EntryView>, p: u8) -> Seq<EntryView> {
    es.filter(|e: EntryView| first_byte(e.named()) != p)
}

/// Parts the entries of a shard by whether their name starts with `p`.
pub fn split_by_prefix(entries: &Vec<IndexEntry>, p: u8) -> (r: (Vec<IndexEntry>, Vec<IndexEntry>))
    ensures
        index::entry_views(r.0@) == dedicated_part(index::entry_views(entries@), p),
        index::entry_views(r.1@) == shared_part(index::entry_views(entries@), p),
{
    let mut dedicated: Vec<IndexEntry> = Vec::new();
    let mut shared: Vec<IndexEntry> = Vec::new();
    let ghost all = index::entry_views(entries@);
    let mut i: usize = 0;
    proof {
        reveal(Seq::filter);
        assert(all.take(0) =~= Seq::<EntryView>::empty());
        assert(index::entry_views(dedicated@) =~= Seq::<EntryView>::empty());
        assert(index::entry_views(shared@) =~= Seq::<EntryView>::empty());
    }
    while i < entries.len()
        invariant
            i <= entries@.len(),
            all == index::entry_views(entries@),
            index::entry_views(dedicated@) == dedicated_part(all.take(i as int), p),
            index::entry_views(shared@) == shared_part(all.take(i as int), p),
        decreases entries.len() - i,
    {
        let e: &IndexEntry = &entries[i];
        let ghost dedicated0 = index::entry_views(dedicated@);
        let ghost shared0 = index::entry_views(shared@);
        if leading_byte(e.hash()) == p {
            dedicated.push(e.copy());
            assert(index::entry_views(dedicated@) =~= dedicated0.push(e@));
        } else {
            shared.push(e.copy());
            assert(index::entry_views(shared@) =~= shared0.push(e@));
        }
        proof {
            reveal(Seq::filter);
            assert(all.take(i + 1).drop_last() =~= all.take(i as int));
            assert(all.take(i + 1).last() == e@);
        }
        i = i + 1;
    }
    assert(all.take(i as int) =~= all);
    (dedicated, shared)
}

/// The slots, widened to one for every first byte.
pub open spec fn widened(slots: Seq<ObjectHash>) -> Seq<ObjectHash> {
    Seq::new(256, |k: int| slots[k / (256int / slots.len() as int)])
}

/// The slots with those of the shard `old` pointed to its two parts.
pub open spec fn retargeted(
    slots: Seq<ObjectHash>,
    old_shard: ObjectHash,
    p: u8,
    dedicated: ObjectHash,
    shared: ObjectHash,
) -> Seq<ObjectHash> {
    Seq::new(
        slots.len(),
        |k: int|
            if slots[k] != old_shard {
                slots[k]
            } else if k == p {
                dedicated
            } else {
                shared
            },
    )
}

fn widen(slots: &Vec<ObjectHash>) -> (r: Vec<ObjectHash>)
    requires
        0 < slots@.len() <= 256,
        (256int / slots@.len() as int) * slots@.len() == 256,
    ensures
        r@ == widened(slots@),
{
    let n: usize = slots.len();
    let scale: usize = 256 / n;
    let mut out: Vec<ObjectHash> = Vec::new();
    let mut k: usize = 0;
    assert(0 < 256int / (n as int)) by (nonlinear_arith)
        requires
            0 < n <= 256,
    ;
    while k < 256
        invariant
            k <= 256,
            n == slots@.len(),
            0 < n <= 256,
            scale == 256int / (n as int),
            0 < scale,
            scale * n == 256,
            out@.len() == k,
            forall|j: int| 0 <= j < k ==> out@[j] == slots@[j / (scale as int)],
        decreases 256 - k,
    {
        assert(k / scale < n) by (nonlinear_arith)
            requires
                k < 256,
                0 < scale,
                scale * n == 256,
        ;
        out.push(slots[k / scale]);
        k = k + 1;
    }
    assert(out@ =~= widened(slots@));
    out
}

/// The slots, at least one for every first byte.
pub open spec fn byte_slots(cold: ColdIndex) -> Seq<ObjectHash> {
    if cold.prefix_bits < 8 {
        widened(cold.shards@)
    } else {
        cold.shards@
    }
}

/// Points the slots of a shard to the two parts that it was split into: that of the
/// first byte `p` to the dedicated part, the others to the shared part. There is a
/// slot for every first byte afterwards.
pub fn retarget(
    cold: &mut ColdIndex,
    old_shard: ObjectHash,
    p: u8,
    dedicated: ObjectHash,
    shared: ObjectHash,
)
    requires
        old(cold).prefix_bits < 8 ==> old(cold).wf(),
    ensures
        old(cold).wf() ==> final(cold).wf(),
        final(cold).prefix_bits == if old(cold).prefix_bits < 8 {
            8
        } else {
            old(cold).prefix_bits
        },
        final(cold).shards@ == retargeted(
            byte_slots(*old(cold)),
            old_shard,
            p,
            dedicated,
            shared,
        ),
{
    proof {
        if cold.prefix_bits <= 8 {
            lemma_slot_count(cold.prefix_bits as nat);
        }
        lemma_slot_count(8);
    }
    if cold.prefix_bits < 8 {
        let wide = widen(&cold.shards);
        cold.shards = wide;
        cold.prefix_bits = 8;
    }
    let ghost wide = cold.shards@;
    let ghost bits = cold.prefix_bits;
    let mut i: usize = 0;
    while i < cold.shards.len()
        invariant
            i <= cold.shards@.len(),
            cold.shards@.len() == wide.len(),
            cold.prefix_bits == bits,
            forall|j: int| i <= j < wide.len() ==> cold.shards@[j] == wide[j],
            forall|j: int|
                0 <= j < i ==> cold.shards@[j] == retargeted(
                    wide,
                    old_shard,
                    p,
                    dedicated,
                    shared,
                )[j],
        decreases cold.shards.len() - i,
    {
        if cold.shards[i] == old_shard {
            if i == p as usize {
                cold.shards[i] = dedicated;
            } else {
                cold.shards[i] = shared;
            }
        }
        i = i + 1;
    }
    assert(cold.shards@ =~= retargeted(wide, old_shard, p, dedicated, shared));
}

/// The shard that a lookup of an object goes to.
pub open spec fn shard_for(slots: Seq<ObjectHash>, h: ObjectHash) -> ObjectHash {
    slots[first_byte(h) as int / (256int / slots.len() as int)]
}

/// A split keeps every lookup: an object whose entry was looked for in the shard that
/// was split is afterwards looked for in the part that holds its entry, and every other
/// object in the shard where it was looked for before.
pub proof fn law_split_keeps_lookups(
    cold: ColdIndex,
    es: Seq<EntryView>,
    old_shard: ObjectHash,
    p: u8,
    dedicated: ObjectHash,
    shared: ObjectHash,
    e: EntryView,
)
    requires
        cold.wf(),
        es.contains(e),
    ensures
        ({
            let after = retargeted(byte_slots(cold), old_shard, p, dedicated, shared);
            let h = e.named();
            if shard_for(cold.shards@, h) != old_shard {
                shard_for(after, h) == shard_for(cold.shards@, h)
            } else {
                ||| shard_for(after, h) == dedicated && dedicated_part(es, p).contains(e)
                ||| shard_for(after, h) == shared && shared_part(es, p).contains(e)
            }
        }),
{
    lemma_slot_count(cold.prefix_bits as nat);
    let after = retargeted(byte_slots(cold), old_shard, p, dedicated, shared);
    let b = first_byte(e.named());
    assert(after.len() == 256);
    assert(b as int / (256int / 256int) == b);
    if b == p {
        lemma_kept_by_filter(es, |x: EntryView| first_byte(x.named()) == p, e);
    } else {
        lemma_kept_by_filter(es, |x: EntryView| first_byte(x.named()) != p, e);
    }
}

/// Whether the slots lead to an entry; `holds` says what the shards hold.
pub open spec fn reached(
    slots: Seq<ObjectHash>,
    holds: spec_fn(ObjectHash) -> Seq<EntryView>,
    e: EntryView,
) -> bool {
    let shard = shard_for(slots, e.named());
    shard != no_shard() && holds(shard).contains(e)
}

/// What the shard of the first slot holds.
pub open spec fn shared_entries(
    slots: Seq<ObjectHash>,
    holds: spec_fn(ObjectHash) -> Seq<EntryView>,
) -> Seq<EntryView> {
    if slots.len() > 0 && slots[0] != no_shard() {
        holds(slots[0])
    } else {
        seq![]
    }
}

proof fn lemma_slot_in_range(cold: ColdIndex, h: ObjectHash)
    requires
        cold.wf(),
    ensures
        ({
            let n = cold.shards@.len() as int;
            0 < n && 0 <= first_byte(h) as int / (256int / n) < n
        }),
{
    lemma_slot_count(cold.prefix_bits as nat);
    let n = cold.shards@.len() as int;
    let b = first_byte(h) as int;
    assert(0 <= b / (256int / n) < n) by (nonlinear_arith)
        requires
            0 <= b < 256,
            0 < n,
            0 < 256int / n,
            (256int / n) * n == 256,
    ;
}

/// Nothing is lost when entries go cold: what the slots led to they still lead to, each
/// new entry is in the new shard, and the slots lead to it there unless its name belongs
/// to a slot with a shard of its own.
pub proof fn law_cold_entries_are_kept(
    cold: ColdIndex,
    holds: spec_fn(ObjectHash) -> Seq<EntryView>,
    added: Seq<EntryView>,
    shard: ObjectHash,
    e: EntryView,
)
    requires
        cold.wf(),
        shard != no_shard(),
        holds(shard) == shared_entries(cold.shards@, holds) + added,
    ensures
        ({
            let after = repointed(cold.shards@, shard);
            &&& after.len() == cold.shards@.len()
            &&& reached(cold.shards@, holds, e) ==> reached(after, holds, e)
            &&& added.contains(e) ==> after[0] == shard && holds(shard).contains(e)
            &&& added.contains(e) && shard_for(cold.shards@, e.named()) == cold.shards@[0]
                ==> reached(after, holds, e)
        }),
{
    lemma_slot_in_range(cold, e.named());
    let existing = shared_entries(cold.shards@, holds);
    if added.contains(e) {
        let i = choose|i: int| 0 <= i < added.len() && added[i] == e;
        assert((existing + added)[existing.len() + i] == e);
    }
    if existing.contains(e) {
        let i = choose|i: int| 0 <= i < existing.len() && existing[i] == e;
        assert((existing + added)[i] == e);
    }
}

/// A split loses nothing: what the slots led to they still lead to.
pub proof fn law_split_keeps_entries(
    cold: ColdIndex,
    holds: spec_fn(ObjectHash) -> Seq<EntryView>,
    old_shard: ObjectHash,
    p: u8,
    dedicated: ObjectHash,
    shared: ObjectHash,
    e: EntryView,
)
    requires
        cold.wf(),
        dedicated != no_shard(),
        shared != no_shard(),
        holds(dedicated) == dedicated_part(holds(old_shard), p),
        holds(shared) == shared_part(holds(old_shard), p),
        reached(cold.shards@, holds, e),
    ensures
        reached(retargeted(byte_slots(cold), old_shard, p, dedicated, shared), holds, e),
{
    let es = holds(shard_for(cold.shards@, e.named()));
    law_split_keeps_lookups(cold, es, old_shard, p, dedicated, shared, e);
}

proof fn lemma_kept_by_filter(es: Seq<EntryView>, keep: spec_fn(EntryView) -> bool, e: EntryView)
    requires
        es.contains(e),
        keep(e),
    ensures
        es.filter(keep).contains(e),
    decreases es.len(),
{
    reveal(Seq::filter);
    let es0 = es.drop_last();
    let i = choose|i: int| 0 <= i < es.len() && es[i] == e;
    if i == es.len() - 1 {
        let f = es.filter(keep);
        assert(f[f.len() - 1] == e);
    } else {
        assert(es0[i] == e);
        lemma_kept_by_filter(es0, keep, e);
        let j = choose|j: int| 0 <= j < es0.filter(keep).len() && es0.filter(keep)[j] == e;
        assert(es.filter(keep)[j] == e);
    }
}

// ---------------------------------------------------------------------------
// Bloom filter
// ---------------------------------------------------------------------------

/// The objects that entries speak of, in order.
pub open spec fn named_all(es: Seq<EntryView>) -> Seq<ObjectHash> {
    es.map_values(|e: EntryView| e.named())
}

/// The objects that the first `n` shards speak of.
pub open spec fn named_in(shards: Seq<Seq<EntryView>>, n: nat) -> Seq<ObjectHash>
    decreases n,
{
    if n == 0 || n > shards.len() {
        seq![]
    } else {
        named_in(shards, (n - 1) as nat) + named_all(shards[n - 1])
    }
}

fn append_names(out: &mut Vec<ObjectHash>, es: &Vec<IndexEntry>)
    ensures
        final(out)@ == old(out)@ + named_all(index::entry_views(es@)),
{
    let ghost before = out@;
    let ghost all = named_all(index::entry_views(es@));
    let mut i: usize = 0;
    assert(out@ =~= before + all.take(0));
    while i < es.len()
        invariant
            i <= es@.len(),
            all == named_all(index::entry_views(es@)),
            out@ == before + all.take(i as int),
        decreases es.len() - i,
    {
        out.push(es[i].hash());
        assert(all.take(i + 1) =~= all.take(i as int).push(all[i as int]));
        i = i + 1;
    }
    assert(all.take(i as int) =~= all);
}

/// The objects that go into the new Bloom filter: those of the hot index, then those
/// of every cold shard.
pub fn regenerate_bloom(hot: &Vec<IndexEntry>, cold: &Vec<Vec<IndexEntry>>) -> (r: Vec<ObjectHash>)
    ensures
        r@ == named_all(index::entry_views(hot@)) + named_in(
            index::index_views(cold@),
            cold@.len(),
        ),
{
    let mut out: Vec<ObjectHash> = Vec::new();
    append_names(&mut out, hot);
    let ghost base = named_all(index::entry_views(hot@));
    let ghost shards = index::index_views(cold@);
    let mut i: usize = 0;
    assert(out@ =~= base + named_in(shards, 0));
    while i < cold.len()
        invariant
            i <= cold@.len(),
            shards == index::index_views(cold@),
            out@ == base + named_in(shards, i as nat),
        decreases cold.len() - i,
    {
        append_names(&mut out, &cold[i]);
        proof {
            assert(shards[i as int] == index::entry_views(cold@[i as int]@));
            assert(out@ =~= base + named_in(shards, (i + 1) as nat));
        }
        i = i + 1;
    }
    out
}

} // verus!
