//! Index entries: where each object of the remote is stored.

use crate::commands::transfer::HashNames;
use crate::object::ObjectHash;
use vstd::prelude::*;

verus! {

/// Where an object is stored.
pub enum IndexEntry {
    /// In the index itself.
    Inline { hash: ObjectHash, data: Vec<u8> },
    /// In a pack file: `length` bytes at `offset` behind the magic.
    Pack { hash: ObjectHash, pack_hash: ObjectHash, offset: u32, length: u32 },
    /// In a file of its own.
    Standalone { hash: ObjectHash },
}

/// The value of an index entry.
#[verifier::ext_equal]
pub enum EntryView {
    Inline { hash: ObjectHash, data: Seq<u8> },
    Pack { hash: ObjectHash, pack_hash: ObjectHash, offset: u32, length: u32 },
    Standalone { hash: ObjectHash },
}

impl EntryView {
    /// The object that the entry speaks of.
    pub open spec fn named(self) -> ObjectHash {
        match self {
            EntryView::Inline { hash, .. } => hash,
            EntryView::Pack { hash, .. } => hash,
            EntryView::Standalone { hash } => hash,
        }
    }
}

impl View for IndexEntry {
    type V = EntryView;

    open spec fn view(&self) -> EntryView {
        match self {
            IndexEntry::Inline { hash, data } => EntryView::Inline { hash: *hash, data: data@ },
            IndexEntry::Pack { hash, pack_hash, offset, length } => EntryView::Pack {
                hash: *hash,
                pack_hash: *pack_hash,
                offset: *offset,
                length: *length,
            },
            IndexEntry::Standalone { hash } => EntryView::Standalone { hash: *hash },
        }
    }
}

/// The values of a list of entries.
pub open spec fn entry_views(es: Seq<IndexEntry>) -> Seq<EntryView> {
    es.map_values(|e: IndexEntry| e@)
}

/// A copy of a row of bytes.
pub fn copy_bytes(from: &Vec<u8>) -> (r: Vec<u8>)
    ensures
        r@ == from@,
{
    let mut out: Vec<u8> = Vec::new();
    let mut i: usize = 0;
    while i < from.len()
        invariant
            i <= from@.len(),
            out@ == from@.take(i as int),
        decreases from.len() - i,
    {
        out.push(from[i]);
        assert(from@.take(i + 1) =~= from@.take(i as int).push(from@[i as int]));
        i = i + 1;
    }
    assert(from@.take(i as int) =~= from@);
    out
}

impl IndexEntry {
    /// The object that the entry speaks of.
    pub fn hash(&self) -> (r: ObjectHash)
        ensures
            r == self@.named(),
    {
        match self {
            IndexEntry::Inline { hash, .. } => *hash,
            IndexEntry::Pack { hash, .. } => *hash,
            IndexEntry::Standalone { hash } => *hash,
        }
    }

    /// A copy of the entry.
    pub fn copy(&self) -> (r: IndexEntry)
        ensures
            r@ == self@,
    {
        match self {
            IndexEntry::Inline { hash, data } => IndexEntry::Inline {
                hash: *hash,
                data: copy_bytes(data),
            },
            IndexEntry::Pack { hash, pack_hash, offset, length } => IndexEntry::Pack {
                hash: *hash,
                pack_hash: *pack_hash,
                offset: *offset,
                length: *length,
            },
            IndexEntry::Standalone { hash } => IndexEntry::Standalone { hash: *hash },
        }
    }
}

// ---------------------------------------------------------------------------
// Looking up
// ---------------------------------------------------------------------------

/// The last entry of a list that speaks of `k`.
pub open spec fn last_of(es: Seq<EntryView>, k: ObjectHash) -> Option<EntryView>
    decreases es.len(),
{
    if es.len() == 0 {
        None
    } else if es.last().named() == k {
        Some(es.last())
    } else {
        last_of(es.drop_last(), k)
    }
}

/// Whether no two entries speak of the same object.
pub open spec fn distinct(es: Seq<EntryView>) -> bool {
    forall|i: int, j: int|
        0 <= i < j < es.len() ==> (#[trigger] es[i]).named() != (#[trigger] es[j]).named()
}

/// In a list without duplicates every entry is the one that is found of its object.
pub proof fn lemma_last_of_found(es: Seq<EntryView>, i: int)
    requires
        distinct(es),
        0 <= i < es.len(),
    ensures
        last_of(es, es[i].named()) == Some(es[i]),
    decreases es.len(),
{
    if i < es.len() - 1 {
        assert(es[i].named() != es[es.len() - 1].named());
        assert(es.drop_last()[i] == es[i]);
        lemma_last_of_found(es.drop_last(), i);
    }
}

/// Nothing is found of an object that no entry speaks of.
pub proof fn lemma_last_of_absent(es: Seq<EntryView>, k: ObjectHash)
    requires
        forall|i: int| 0 <= i < es.len() ==> (#[trigger] es[i]).named() != k,
    ensures
        last_of(es, k) == None::<EntryView>,
    decreases es.len(),
{
    if es.len() > 0 {
        assert(es[es.len() - 1].named() != k);
        assert forall|i: int| 0 <= i < es.drop_last().len() implies (
        #[trigger] es.drop_last()[i]).named() != k by {
            assert(es.drop_last()[i] == es[i]);
        }
        lemma_last_of_absent(es.drop_last(), k);
    }
}

/// What is found of an object is an entry of the list that speaks of it.
pub proof fn lemma_last_of_contained(es: Seq<EntryView>, k: ObjectHash)
    requires
        last_of(es, k) is Some,
    ensures
        last_of(es, k)->0.named() == k,
        es.contains(last_of(es, k)->0),
    decreases es.len(),
{
    if es.last().named() == k {
        assert(es[es.len() - 1] == es.last());
    } else {
        lemma_last_of_contained(es.drop_last(), k);
        let e = last_of(es, k)->0;
        let i = choose|i: int| 0 <= i < es.drop_last().len() && es.drop_last()[i] == e;
        assert(es[i] == e);
    }
}

/// A part of a list without duplicates has none, and its entries are of the list.
pub proof fn lemma_part_distinct(es: Seq<EntryView>, keep: spec_fn(EntryView) -> bool)
    requires
        distinct(es),
    ensures
        distinct(es.filter(keep)),
        forall|e: EntryView| #[trigger]
            es.filter(keep).contains(e) <==> es.contains(e) && keep(e),
    decreases es.len(),
{
    reveal(Seq::filter);
    if es.len() > 0 {
        let es0 = es.drop_last();
        let x = es.last();
        assert forall|i: int, j: int| 0 <= i < j < es0.len() implies (#[trigger] es0[i]).named()
            != (#[trigger] es0[j]).named() by {
            assert(es[i].named() != es[j].named());
        }
        lemma_part_distinct(es0, keep);
        let f0 = es0.filter(keep);
        let f = es.filter(keep);
        assert(es =~= es0.push(x));
        assert forall|e: EntryView| #[trigger] f.contains(e) <==> es.contains(e) && keep(e) by {
            lemma_push_contains(es0, x, e);
            lemma_push_contains(f0, x, e);
            assert(f0.contains(e) <==> es0.contains(e) && keep(e));
        }
        if keep(x) {
            assert forall|i: int, j: int| 0 <= i < j < f.len() implies (#[trigger] f[i]).named()
                != (#[trigger] f[j]).named() by {
                if j < f0.len() {
                    assert(f0[i].named() != f0[j].named());
                } else {
                    assert(f0.contains(f0[i]));
                    let k = choose|k: int| 0 <= k < es0.len() && es0[k] == f0[i];
                    assert(es[k].named() != es[es.len() - 1].named());
                }
            }
        }
    }
}

/// What is found of two lists in a row is found in the second, else in the first.
pub proof fn lemma_last_of_append(a: Seq<EntryView>, b: Seq<EntryView>, k: ObjectHash)
    ensures
        last_of(a + b, k) == match last_of(b, k) {
            Some(e) => Some(e),
            None => last_of(a, k),
        },
    decreases b.len(),
{
    if b.len() == 0 {
        assert(a + b =~= a);
    } else {
        assert((a + b).last() == b.last());
        assert((a + b).drop_last() =~= a + b.drop_last());
        lemma_last_of_append(a, b.drop_last(), k);
    }
}

proof fn lemma_replaced(es: Seq<EntryView>, i: int, e: EntryView, k: ObjectHash)
    requires
        distinct(es),
        0 <= i < es.len(),
        es[i].named() == e.named(),
    ensures
        distinct(es.update(i, e)),
        last_of(es.update(i, e), k) == if k == e.named() {
            Some(e)
        } else {
            last_of(es, k)
        },
{
    let new = es.update(i, e);
    assert forall|a: int, b: int| 0 <= a < b < new.len() implies (#[trigger] new[a]).named() != (
    #[trigger] new[b]).named() by {
        assert(es[a].named() != es[b].named());
    }
    if k == e.named() {
        lemma_last_of_found(new, i);
    } else if exists|j: int| 0 <= j < es.len() && (#[trigger] es[j]).named() == k {
        let j = choose|j: int| 0 <= j < es.len() && (#[trigger] es[j]).named() == k;
        lemma_last_of_found(es, j);
        assert(new[j] == es[j]);
        lemma_last_of_found(new, j);
    } else {
        lemma_last_of_absent(es, k);
        assert forall|j: int| 0 <= j < new.len() implies (#[trigger] new[j]).named() != k by {
            assert(es[j].named() != k);
        }
        lemma_last_of_absent(new, k);
    }
}

/// Puts an entry into a table, in place of the one that speaks of the same object.
pub fn put_entry(table: &mut Vec<IndexEntry>, e: &IndexEntry)
    requires
        distinct(entry_views(old(table)@)),
    ensures
        distinct(entry_views(final(table)@)),
        forall|k: ObjectHash| #[trigger]
            last_of(entry_views(final(table)@), k) == if k == e@.named() {
                Some(e@)
            } else {
                last_of(entry_views(old(table)@), k)
            },
{
    let ghost before = entry_views(table@);
    let mut i: usize = 0;
    let h: ObjectHash = e.hash();
    while i < table.len()
        invariant
            i <= table@.len(),
            h == e@.named(),
            before == entry_views(table@),
            forall|j: int| 0 <= j < i ==> (#[trigger] before[j]).named() != h,
            before == entry_views(old(table)@),
            distinct(before),
            table@ == old(table)@,
        ensures
            i <= table@.len(),
            table@ == old(table)@,
            forall|j: int| 0 <= j < i ==> (#[trigger] before[j]).named() != h,
            i < table@.len() ==> before[i as int].named() == h,
        decreases table.len() - i,
    {
        if table[i].hash() == h {
            break;
        }
        i = i + 1;
    }
    if i < table.len() {
        table[i] = e.copy();
        proof {
            assert(entry_views(table@) =~= before.update(i as int, e@));
            assert forall|k: ObjectHash| #[trigger]
                last_of(entry_views(table@), k) == if k == e@.named() {
                    Some(e@)
                } else {
                    last_of(before, k)
                } by {
                lemma_replaced(before, i as int, e@, k);
            }
            lemma_replaced(before, i as int, e@, h);
        }
    } else {
        table.push(e.copy());
        proof {
            let new = entry_views(table@);
            assert(new =~= before.push(e@));
            assert(new.drop_last() =~= before);
            assert(new.last() == e@);
        }
    }
}

// ---------------------------------------------------------------------------
// Merging
// ---------------------------------------------------------------------------

/// What the deltas from the `from`-th on say of `k`: the first that speaks of it
/// decides.
pub open spec fn in_deltas(deltas: Seq<Seq<EntryView>>, from: int, k: ObjectHash) -> Option<EntryView>
    decreases deltas.len() - from,
{
    if from >= deltas.len() || from < 0 {
        None
    } else {
        match last_of(deltas[from], k) {
            Some(e) => Some(e),
            None => in_deltas(deltas, from + 1, k),
        }
    }
}

/// What the merged index says of `k`: the newest delta that speaks of it decides,
/// and the hot index where none does.
pub open spec fn merged_entry(
    hot: Seq<EntryView>,
    deltas: Seq<Seq<EntryView>>,
    k: ObjectHash,
) -> Option<EntryView> {
    match in_deltas(deltas, 0, k) {
        Some(e) => Some(e),
        None => last_of(hot, k),
    }
}

/// The values of a list of indexes.
pub open spec fn index_views(ls: Seq<Vec<IndexEntry>>) -> Seq<Seq<EntryView>> {
    ls.map_values(|l: Vec<IndexEntry>| entry_views(l@))
}

/// Puts every entry of `es` into a table.
pub fn put_all(table: &mut Vec<IndexEntry>, es: &Vec<IndexEntry>)
    requires
        distinct(entry_views(old(table)@)),
    ensures
        distinct(entry_views(final(table)@)),
        forall|k: ObjectHash| #[trigger]
            last_of(entry_views(final(table)@), k) == match last_of(entry_views(es@), k) {
                Some(e) => Some(e),
                None => last_of(entry_views(old(table)@), k),
            },
{
    let ghost start = entry_views(table@);
    let ghost all = entry_views(es@);
    let mut i: usize = 0;
    while i < es.len()
        invariant
            i <= es@.len(),
            all == entry_views(es@),
            distinct(entry_views(table@)),
            forall|k: ObjectHash| #[trigger]
                last_of(entry_views(table@), k) == match last_of(all.take(i as int), k) {
                    Some(e) => Some(e),
                    None => last_of(start, k),
                },
        decreases es.len() - i,
    {
        put_entry(table, &es[i]);
        proof {
            let now = all.take(i + 1);
            assert(now.drop_last() =~= all.take(i as int));
            assert(now.last() == es@[i as int]@);
        }
        i = i + 1;
    }
    assert(all.take(i as int) =~= all);
}

/// Merges the deltas, newest listed first, into the hot index.
///
/// The order of the result is not part of the contract.
pub fn merge_deltas_into_hot(hot: &Vec<IndexEntry>, deltas: &Vec<Vec<IndexEntry>>) -> (r: Vec<
    IndexEntry,
>)
    ensures
        distinct(entry_views(r@)),
        forall|k: ObjectHash| #[trigger]
            last_of(entry_views(r@), k) == merged_entry(
                entry_views(hot@),
                index_views(deltas@),
                k,
            ),
{
    let mut out: Vec<IndexEntry> = Vec::new();
    put_all(&mut out, hot);
    let ghost ds = index_views(deltas@);
    let mut i: usize = deltas.len();
    while i > 0
        invariant
            i <= deltas@.len(),
            ds == index_views(deltas@),
            distinct(entry_views(out@)),
            forall|k: ObjectHash| #[trigger]
                last_of(entry_views(out@), k) == match in_deltas(ds, i as int, k) {
                    Some(e) => Some(e),
                    None => last_of(entry_views(hot@), k),
                },
        decreases i,
    {
        i = i - 1;
        put_all(&mut out, &deltas[i]);
        assert(ds[i as int] == entry_views(deltas@[i as int]@));
    }
    out
}

/// Every object of the hot index and of the deltas stays in the merged index, and
/// no other comes in.
pub proof fn law_merge_keeps_objects(
    hot: Seq<EntryView>,
    deltas: Seq<Seq<EntryView>>,
    k: ObjectHash,
)
    ensures
        merged_entry(hot, deltas, k) is Some <==> (last_of(hot, k) is Some || exists|i: int|
            0 <= i < deltas.len() && last_of(#[trigger] deltas[i], k) is Some),
{
    lemma_in_deltas(deltas, 0, k);
}

/// A delta overrides every delta that is listed behind it, and the hot index.
pub proof fn law_newest_delta_wins(
    hot: Seq<EntryView>,
    deltas: Seq<Seq<EntryView>>,
    i: int,
    k: ObjectHash,
)
    requires
        0 <= i < deltas.len(),
        last_of(deltas[i], k) is Some,
        forall|j: int| 0 <= j < i ==> last_of(#[trigger] deltas[j], k) is None,
    ensures
        merged_entry(hot, deltas, k) == last_of(deltas[i], k),
{
    lemma_first_delta(deltas, 0, i, k);
}

proof fn lemma_first_delta(deltas: Seq<Seq<EntryView>>, from: int, i: int, k: ObjectHash)
    requires
        0 <= from <= i < deltas.len(),
        last_of(deltas[i], k) is Some,
        forall|j: int| 0 <= j < i ==> last_of(#[trigger] deltas[j], k) is None,
    ensures
        in_deltas(deltas, from, k) == last_of(deltas[i], k),
    decreases i - from,
{
    if from < i {
        assert(last_of(deltas[from], k) is None);
        lemma_first_delta(deltas, from + 1, i, k);
    }
}

proof fn lemma_in_deltas(deltas: Seq<Seq<EntryView>>, from: int, k: ObjectHash)
    requires
        0 <= from,
    ensures
        in_deltas(deltas, from, k) is Some <==> exists|i: int|
            from <= i < deltas.len() && last_of(#[trigger] deltas[i], k) is Some,
    decreases deltas.len() - from,
{
    if from < deltas.len() {
        lemma_in_deltas(deltas, from + 1, k);
        if last_of(deltas[from], k) is None && (exists|i: int|
            from <= i < deltas.len() && last_of(#[trigger] deltas[i], k) is Some) {
            let i = choose|i: int|
                from <= i < deltas.len() && last_of(#[trigger] deltas[i], k) is Some;
            assert(from + 1 <= i);
        }
    }
}

// ---------------------------------------------------------------------------
// Hot and cold
// ---------------------------------------------------------------------------

/// Whether an entry stays in the hot index: its object is in use on this clone,
/// or it stands alone.
pub open spec fn stays_hot(e: EntryView, hot: Set<ObjectHash>) -> bool {
    e is Standalone || hot.contains(e.named())
}

/// The entries that stay hot, in order.
pub open spec fn hot_part(es: Seq<EntryView>, hot: Set<ObjectHash>) -> Seq<EntryView> {
    es.filter(|e: EntryView| stays_hot(e, hot))
}

/// The entries that go cold, in order.
pub open spec fn cold_part(es: Seq<EntryView>, hot: Set<ObjectHash>) -> Seq<EntryView> {
    es.filter(|e: EntryView| !stays_hot(e, hot))
}

/// Parts the entries into those that stay hot and those that go cold.
pub fn split_hot_cold(entries: &Vec<IndexEntry>, hot_hashes: &HashNames) -> (r: (
    Vec<IndexEntry>,
    Vec<IndexEntry>,
))
    ensures
        entry_views(r.0@) == hot_part(entry_views(entries@), hot_hashes@),
        entry_views(r.1@) == cold_part(entry_views(entries@), hot_hashes@),
{
    let mut hot: Vec<IndexEntry> = Vec::new();
    let mut cold: Vec<IndexEntry> = Vec::new();
    let ghost all = entry_views(entries@);
    let mut i: usize = 0;
    proof {
        reveal(Seq::filter);
        assert(all.take(0) =~= Seq::<EntryView>::empty());
        assert(entry_views(hot@) =~= Seq::<EntryView>::empty());
        assert(entry_views(cold@) =~= Seq::<EntryView>::empty());
    }
    while i < entries.len()
        invariant
            i <= entries@.len(),
            all == entry_views(entries@),
            entry_views(hot@) == hot_part(all.take(i as int), hot_hashes@),
            entry_views(cold@) == cold_part(all.take(i as int), hot_hashes@),
        decreases entries.len() - i,
    {
        let e: &IndexEntry = &entries[i];
        let stays: bool = match e {
            IndexEntry::Standalone { .. } => true,
            IndexEntry::Inline { hash, .. } => hot_hashes.contains(*hash),
            IndexEntry::Pack { hash, .. } => hot_hashes.contains(*hash),
        };
        let ghost hot0 = entry_views(hot@);
        let ghost cold0 = entry_views(cold@);
        if stays {
            hot.push(e.copy());
            assert(entry_views(hot@) =~= hot0.push(e@));
        } else {
            cold.push(e.copy());
            assert(entry_views(cold@) =~= cold0.push(e@));
        }
        proof {
            reveal(Seq::filter);
            assert(all.take(i + 1).drop_last() =~= all.take(i as int));
            assert(all.take(i + 1).last() == e@);
        }
        i = i + 1;
    }
    assert(all.take(i as int) =~= all);
    (hot, cold)
}

/// Every entry goes to exactly one side, and one that stands alone never goes cold.
pub proof fn law_split_partitions(es: Seq<EntryView>, hot: Set<ObjectHash>, e: EntryView)
    ensures
        hot_part(es, hot).len() + cold_part(es, hot).len() == es.len(),
        es.contains(e) <==> hot_part(es, hot).contains(e) || cold_part(es, hot).contains(e),
        !(hot_part(es, hot).contains(e) && cold_part(es, hot).contains(e)),
        e is Standalone ==> !cold_part(es, hot).contains(e),
    decreases es.len(),
{
    reveal(Seq::filter);
    if es.len() > 0 {
        let es0 = es.drop_last();
        law_split_partitions(es0, hot, e);
        lemma_push_contains(hot_part(es0, hot), es.last(), e);
        lemma_push_contains(cold_part(es0, hot), es.last(), e);
        lemma_push_contains(es0, es.last(), e);
        assert(es =~= es0.push(es.last()));
        if cold_part(es, hot).contains(e) {
            lemma_filtered(es, |x: EntryView| !stays_hot(x, hot), e);
        }
        if hot_part(es, hot).contains(e) {
            lemma_filtered(es, |x: EntryView| stays_hot(x, hot), e);
        }
    }
}

proof fn lemma_push_contains(s: Seq<EntryView>, x: EntryView, e: EntryView)
    ensures
        s.push(x).contains(e) <==> s.contains(e) || x == e,
{
    if s.contains(e) {
        let i = choose|i: int| 0 <= i < s.len() && s[i] == e;
        assert(s.push(x)[i] == e);
    }
    if x == e {
        assert(s.push(x)[s.len() as int] == e);
    }
}

proof fn lemma_filtered(es: Seq<EntryView>, keep: spec_fn(EntryView) -> bool, e: EntryView)
    requires
        es.filter(keep).contains(e),
    ensures
        keep(e),
    decreases es.len(),
{
    reveal(Seq::filter);
    if es.len() > 0 {
        let es0 = es.drop_last();
        lemma_push_contains(es0.filter(keep), es.last(), e);
        if es0.filter(keep).contains(e) {
            lemma_filtered(es0, keep, e);
        }
    }
}

} // verus!
