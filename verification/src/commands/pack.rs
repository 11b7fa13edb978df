//! Compaction and maintenance of the pack layer of the remote.
//!
//! The deltas are merged into the hot index, what this clone does not use goes to the
//! cold shards, small pack files are put together, an oversized cold shard is split,
//! and the Bloom filter is made anew.

pub mod consolidate;
pub mod counted;
pub mod hot;
pub mod index;
pub mod reach;
pub mod shards;

use crate::commands::cat::IndexRootInfo;
use crate::commands::stats::figures::{self, total_of};
use crate::commands::stats::report::PackDetail;
use crate::commands::transfer::HashNames;
use crate::error::Error;
use crate::object::ObjectHash;
use consolidate::{consolidate_pack_files, place_packs, NewPack, PackBytes, PackView};
use index::{merge_deltas_into_hot, split_hot_cold, EntryView, IndexEntry};
use shards::{apply_cold_entries, point_shared, retarget, shard_entries, ColdIndex, ColdStep};
use vstd::prelude::*;

verus! {

/// What the command was asked for.
pub struct PackOptions {
    pub work_dir: String,
}

/// A run: the index root as it changes, the entries that stay hot and those that go
/// cold, and what was observed.
pub struct PackRun {
    pub root: IndexRootInfo,
    pub hot: Vec<IndexEntry>,
    pub cold: Vec<IndexEntry>,
    pub facts: PackFacts,
}

/// How a run goes on once the index root was looked for.
pub enum PackStart {
    /// There is no index root; this is told and nothing is done.
    Nothing(String),
    /// The steps follow.
    Go(PackRun),
}

/// What is told at the end of a run.
pub const DONE_LINE: &'static str = "omemfs pack: done.";

/// Starts a run, if there is an index root.
pub fn run(found: Option<IndexRootInfo>) -> (r: PackStart)
    ensures
        match found {
            None => r matches PackStart::Nothing(s) && s@
                == "omemfs pack: no index root found; nothing to do."@,
            Some(root) => r matches PackStart::Go(run) && run.root == root && run.hot@.len() == 0
                && run.cold@.len() == 0 && run.facts.deltas == root.delta_hashes@.len(),
        },
{
    match found {
        None => PackStart::Nothing("omemfs pack: no index root found; nothing to do.".to_owned()),
        Some(root) => {
            let deltas: usize = root.delta_hashes.len();
            PackStart::Go(
                PackRun {
                    root,
                    hot: Vec::new(),
                    cold: Vec::new(),
                    facts: PackFacts {
                        deltas,
                        candidates: 0,
                        bytes_in: 0,
                        new_sizes: Vec::new(),
                        hot_entries: 0,
                        old_hot: None,
                        old_deltas: Vec::new(),
                        old_bloom: None,
                        did_split: false,
                        bloom_elements: 0,
                    },
                },
            )
        },
    }
}

/// Whether `hot1` and `cold1` are what becomes of a hot index and its deltas: each object
/// once, by its newest entry, with the hot ones apart from the cold ones.
pub open spec fn sorted_out(
    hot0: Seq<EntryView>,
    deltas: Seq<Seq<EntryView>>,
    used: Set<ObjectHash>,
    hot1: Seq<EntryView>,
    cold1: Seq<EntryView>,
) -> bool {
    exists|merged: Seq<EntryView>| #[trigger]
        index::distinct(merged) && (forall|k: ObjectHash| #[trigger]
            index::last_of(merged, k) == index::merged_entry(hot0, deltas, k)) && hot1
            == index::hot_part(merged, used) && cold1 == index::cold_part(merged, used)
}

/// Whether `after` is an index of the kept entries and of the new packs.
pub open spec fn indexes(
    after: Seq<EntryView>,
    kept: Seq<EntryView>,
    packs: Seq<PackView>,
    hashes: Seq<ObjectHash>,
) -> bool {
    &&& index::distinct(after)
    &&& forall|k: ObjectHash| #[trigger]
        index::last_of(after, k) == index::last_of(
            kept + consolidate::placed(packs, hashes, packs.len()),
            k,
        )
}

/// The sizes of pack files.
pub open spec fn file_sizes(packs: Seq<PackView>) -> Seq<nat> {
    Seq::new(packs.len(), |i: int| 2 + packs[i].body.len())
}

impl PackRun {
    /// The hot index to load, if there is one.
    pub fn hot_index(&self) -> (r: Option<ObjectHash>)
        ensures
            r == if self.root.hot_hash == shards::no_shard() {
                None::<ObjectHash>
            } else {
                Some(self.root.hot_hash)
            },
    {
        if self.root.hot_hash.is_zero() {
            None
        } else {
            Some(self.root.hot_hash)
        }
    }

    /// Merges the deltas into the hot index, and sets what is not used apart.
    pub fn merge(
        &mut self,
        hot: &Vec<IndexEntry>,
        deltas: &Vec<Vec<IndexEntry>>,
        used: &HashNames,
    )
        ensures
            final(self).root == old(self).root,
            final(self).facts == old(self).facts,
            sorted_out(
                index::entry_views(hot@),
                index::index_views(deltas@),
                used@,
                index::entry_views(final(self).hot@),
                index::entry_views(final(self).cold@),
            ),
    {
        let merged = merge_deltas_into_hot(hot, deltas);
        let (hot1, cold1) = split_hot_cold(&merged, used);
        self.hot = hot1;
        self.cold = cold1;
        assert(index::distinct(index::entry_views(merged@)));
    }

    /// Takes the contents of small pack files out of the hot index, and gives the pack
    /// files to write in their place. `bufs` are the small pack files.
    pub fn regroup(&mut self, bufs: &Vec<PackBytes>, target: usize, max: usize) -> (r: Result<
        Vec<NewPack>,
        Error,
    >)
        requires
            target <= u32::MAX,
            consolidate::moved_bytes(index::entry_views(old(self).hot@), bufs@) <= u64::MAX,
        ensures
            final(self).root == old(self).root,
            final(self).cold == old(self).cold,
            match r {
                Ok(packs) => {
                    let es = index::entry_views(old(self).hot@);
                    &&& consolidate::regroup_all(es, bufs@, target, max) is Some
                    &&& index::entry_views(final(self).hot@) == consolidate::regroup_all(
                        es,
                        bufs@,
                        target,
                        max,
                    )->0.kept
                    &&& consolidate::pack_views(packs@) == consolidate::all_packs(
                        consolidate::regroup_all(es, bufs@, target, max)->0,
                    )
                    &&& final(self).facts == (PackFacts {
                        candidates: bufs.len(),
                        bytes_in: consolidate::moved_bytes(es, bufs@) as u64,
                        ..old(self).facts
                    })
                },
                Err(e) => {
                    let es = index::entry_views(old(self).hot@);
                    let at = consolidate::first_fault(es, bufs@, 0);
                    &&& at is Some
                    &&& e matches Error::InvalidObject(s) && s@ == consolidate::range_error(
                        es[at->0],
                        bufs@,
                    )
                },
            },
    {
        let done = match consolidate_pack_files(&self.hot, bufs, target, max) {
            Ok(done) => done,
            Err(e) => {
                return Err(e);
            },
        };
        self.hot = done.kept;
        self.facts.candidates = bufs.len();
        self.facts.bytes_in = done.bytes_in;
        Ok(done.packs)
    }

    /// Takes up the names of the pack files that were written: the hot index leads to
    /// what they hold.
    pub fn packs_written(&mut self, packs: &Vec<NewPack>, hashes: &Vec<ObjectHash>)
        requires
            packs@.len() == hashes@.len(),
            forall|i: int|
                0 <= i < packs@.len() ==> 2 + (#[trigger] packs@[i]).body@.len() <= u64::MAX,
        ensures
            final(self).root == old(self).root,
            final(self).cold == old(self).cold,
            indexes(
                index::entry_views(final(self).hot@),
                index::entry_views(old(self).hot@),
                consolidate::pack_views(packs@),
                hashes@,
            ),
            final(self).facts.hot_entries == final(self).hot@.len(),
            final(self).facts.new_sizes@.map_values(|n: u64| n as nat) == file_sizes(
                consolidate::pack_views(packs@),
            ),
            final(self).facts == (PackFacts {
                new_sizes: final(self).facts.new_sizes,
                hot_entries: final(self).facts.hot_entries,
                ..old(self).facts
            }),
    {
        let placed = place_packs(&self.hot, packs, hashes);
        self.hot = placed;
        self.facts.hot_entries = self.hot.len();
        let mut sizes: Vec<u64> = Vec::new();
        let mut i: usize = 0;
        while i < packs.len()
            invariant
                i <= packs@.len(),
                sizes@.len() == i,
                forall|k: int|
                    0 <= k < packs@.len() ==> 2 + (#[trigger] packs@[k]).body@.len() <= u64::MAX,
                forall|k: int| 0 <= k < i ==> sizes@[k] == 2 + (#[trigger] packs@[k]).body@.len(),
            decreases packs.len() - i,
        {
            sizes.push(packs[i].body.len() as u64 + 2);
            i = i + 1;
        }
        assert(sizes@.map_values(|n: u64| n as nat) =~= file_sizes(
            consolidate::pack_views(packs@),
        ));
        self.facts.new_sizes = sizes;
    }

    /// Takes up the name of the hot index that was written: it stands for the old one
    /// and its deltas.
    pub fn hot_written(&mut self, hash: ObjectHash)
        ensures
            final(self).root.hot_hash == hash,
            final(self).root.delta_hashes@.len() == 0,
            final(self).root.remote_root == old(self).root.remote_root,
            final(self).root.bloom_hash == old(self).root.bloom_hash,
            final(self).root.cold_prefix_bits == old(self).root.cold_prefix_bits,
            final(self).root.cold_shards == old(self).root.cold_shards,
            final(self).hot == old(self).hot,
            final(self).cold == old(self).cold,
            final(self).facts == old(self).facts,
    {
        self.root.hot_hash = hash;
        self.root.delta_hashes = Vec::new();
    }

    /// What is to be done with the entries that went cold.
    pub fn cold_step(&mut self) -> (r: ColdStep)
        ensures
            ({
                let slots = old(self).root.cold_shards@;
                if old(self).cold@.len() == 0 {
                    r is Done && final(self).root.cold_shards@ == if slots.len() == 0 {
                        seq![shards::no_shard()]
                    } else {
                        slots
                    }
                } else {
                    final(self).root.cold_shards@ == slots && r == (ColdStep::Rewrite {
                        base: if slots.len() > 0 && slots[0] != shards::no_shard() {
                            Some(slots[0])
                        } else {
                            None
                        },
                    })
                }
            }),
            final(self).root.hot_hash == old(self).root.hot_hash,
            final(self).root.delta_hashes == old(self).root.delta_hashes,
            final(self).root.remote_root == old(self).root.remote_root,
            final(self).root.bloom_hash == old(self).root.bloom_hash,
            final(self).root.cold_prefix_bits == old(self).root.cold_prefix_bits,
            final(self).hot == old(self).hot,
            final(self).cold == old(self).cold,
            final(self).facts == old(self).facts,
    {
        apply_cold_entries(self.cold.len() == 0, &mut self.root.cold_shards)
    }

    /// The shard that holds the entries that went cold, behind those of an old shard.
    pub fn cold_shard(&self, existing: &Vec<IndexEntry>) -> (r: Vec<IndexEntry>)
        ensures
            index::entry_views(r@) == index::entry_views(existing@) + index::entry_views(
                self.cold@,
            ),
    {
        shard_entries(existing, &self.cold)
    }

    /// Takes up the name of that shard, in the place of the old one.
    pub fn cold_written(&mut self, shard: ObjectHash)
        ensures
            final(self).root.cold_shards@ == shards::repointed(
                old(self).root.cold_shards@,
                shard,
            ),
            final(self).root.hot_hash == old(self).root.hot_hash,
            final(self).root.delta_hashes == old(self).root.delta_hashes,
            final(self).root.remote_root == old(self).root.remote_root,
            final(self).root.bloom_hash == old(self).root.bloom_hash,
            final(self).root.cold_prefix_bits == old(self).root.cold_prefix_bits,
            final(self).hot == old(self).hot,
            final(self).cold == old(self).cold,
            final(self).facts == old(self).facts,
    {
        point_shared(&mut self.root.cold_shards, shard);
    }

    /// Takes up the names of the two parts that a shard was split into by the first byte
    /// `p` of the names.
    pub fn split_written(
        &mut self,
        old_shard: ObjectHash,
        p: u8,
        dedicated: ObjectHash,
        shared: ObjectHash,
    )
        requires
            old(self).root.cold_prefix_bits < 8 ==> cold_index(old(self).root).wf(),
        ensures
            final(self).root.cold_shards@ == shards::retargeted(
                shards::byte_slots(cold_index(old(self).root)),
                old_shard,
                p,
                dedicated,
                shared,
            ),
            final(self).root.cold_prefix_bits == if old(self).root.cold_prefix_bits < 8 {
                8
            } else {
                old(self).root.cold_prefix_bits
            },
            final(self).root.hot_hash == old(self).root.hot_hash,
            final(self).root.delta_hashes == old(self).root.delta_hashes,
            final(self).root.remote_root == old(self).root.remote_root,
            final(self).root.bloom_hash == old(self).root.bloom_hash,
            final(self).hot == old(self).hot,
            final(self).cold == old(self).cold,
            final(self).facts == (PackFacts { did_split: true, ..old(self).facts }),
    {
        let mut slots: Vec<ObjectHash> = Vec::new();
        std::mem::swap(&mut slots, &mut self.root.cold_shards);
        let mut cold = ColdIndex { prefix_bits: self.root.cold_prefix_bits, shards: slots };
        retarget(&mut cold, old_shard, p, dedicated, shared);
        self.root.cold_prefix_bits = cold.prefix_bits;
        self.root.cold_shards = cold.shards;
        self.facts.did_split = true;
    }

    /// Takes up the name of the Bloom filter that was written, and how many objects
    /// went into it.
    pub fn bloom_written(&mut self, hash: ObjectHash, elements: u64)
        ensures
            final(self).root == (IndexRootInfo { bloom_hash: hash, ..old(self).root }),
            final(self).hot == old(self).hot,
            final(self).cold == old(self).cold,
            final(self).facts == (PackFacts { bloom_elements: elements, ..old(self).facts }),
    {
        self.root.bloom_hash = hash;
        self.facts.bloom_elements = elements;
    }
}

/// The cold part of an index root.
pub open spec fn cold_index(root: IndexRootInfo) -> ColdIndex {
    ColdIndex { prefix_bits: root.cold_prefix_bits, shards: root.cold_shards }
}

/// A run loses no object: each that the hot index or a delta led to goes to the cold
/// shards with the entry that it had, or the new hot index leads to it, by the entry
/// that it had or by one that leads to the same bytes in a new pack file.
pub proof fn law_pack_keeps_every_object(
    hot0: Seq<EntryView>,
    deltas: Seq<Seq<EntryView>>,
    used: Set<ObjectHash>,
    hot1: Seq<EntryView>,
    cold1: Seq<EntryView>,
    bufs: Seq<PackBytes>,
    target: usize,
    max: usize,
    hashes: Seq<ObjectHash>,
    after: Seq<EntryView>,
    k: ObjectHash,
)
    requires
        target <= u32::MAX,
        sorted_out(hot0, deltas, used, hot1, cold1),
        consolidate::regroup_all(hot1, bufs, target, max) is Some,
        ({
            let g = consolidate::regroup_all(hot1, bufs, target, max)->0;
            let packs = consolidate::all_packs(g);
            hashes.len() == packs.len() && indexes(after, g.kept, packs, hashes)
        }),
        index::merged_entry(hot0, deltas, k) is Some,
    ensures
        ({
            let e = index::merged_entry(hot0, deltas, k)->0;
            let packs = consolidate::all_packs(
                consolidate::regroup_all(hot1, bufs, target, max)->0,
            );
            &&& e.named() == k
            &&& cold1.contains(e) || match index::last_of(after, k) {
                Some(f) => f == e || consolidate::moved(e, f, bufs, packs, hashes),
                None => false,
            }
        }),
{
    let merged = choose|merged: Seq<EntryView>| #[trigger]
        index::distinct(merged) && (forall|k: ObjectHash| #[trigger]
            index::last_of(merged, k) == index::merged_entry(hot0, deltas, k)) && hot1
            == index::hot_part(merged, used) && cold1 == index::cold_part(merged, used);
    assert(index::last_of(merged, k) == index::merged_entry(hot0, deltas, k));
    index::lemma_last_of_contained(merged, k);
    let e = index::merged_entry(hot0, deltas, k)->0;
    index::lemma_part_distinct(merged, |x: EntryView| index::stays_hot(x, used));
    index::lemma_part_distinct(merged, |x: EntryView| !index::stays_hot(x, used));
    if index::stays_hot(e, used) {
        assert(hot1.contains(e));
        consolidate::law_consolidated_index_finds_all(hot1, bufs, target, max, hashes, after, e);
    } else {
        assert(cold1.contains(e));
    }
}

/// A run keeps what lies in the cold shards: every entry that the slots led to, they lead
/// to once the entries that went cold are written, and still once a shard is split.
/// `holds` says what the shards hold.
pub proof fn law_pack_keeps_cold_entries(
    before: IndexRootInfo,
    written: IndexRootInfo,
    holds: spec_fn(ObjectHash) -> Seq<EntryView>,
    cold1: Seq<EntryView>,
    shard: ObjectHash,
    old_shard: ObjectHash,
    p: u8,
    dedicated: ObjectHash,
    shared: ObjectHash,
    e: EntryView,
)
    requires
        cold_index(before).wf(),
        shard != shards::no_shard(),
        holds(shard) == shards::shared_entries(before.cold_shards@, holds) + cold1,
        written.cold_prefix_bits == before.cold_prefix_bits,
        written.cold_shards@ == shards::repointed(before.cold_shards@, shard),
        dedicated != shards::no_shard(),
        shared != shards::no_shard(),
        holds(dedicated) == shards::dedicated_part(holds(old_shard), p),
        holds(shared) == shards::shared_part(holds(old_shard), p),
        shards::reached(before.cold_shards@, holds, e),
    ensures
        shards::reached(written.cold_shards@, holds, e),
        shards::reached(
            shards::retargeted(
                shards::byte_slots(cold_index(written)),
                old_shard,
                p,
                dedicated,
                shared,
            ),
            holds,
            e,
        ),
{
    shards::law_cold_entries_are_kept(cold_index(before), holds, cold1, shard, e);
    shards::law_split_keeps_entries(
        cold_index(written),
        holds,
        old_shard,
        p,
        dedicated,
        shared,
        e,
    );
}

// ---------------------------------------------------------------------------
// What a run did
// ---------------------------------------------------------------------------

/// What was observed during a run.
pub struct PackFacts {
    /// How many deltas were merged.
    pub deltas: usize,
    /// How many pack files were small enough to be consolidated.
    pub candidates: usize,
    /// How many bytes were moved out of them.
    pub bytes_in: u64,
    /// The sizes of the new pack files.
    pub new_sizes: Vec<u64>,
    /// How many entries the hot index has.
    pub hot_entries: usize,
    /// The sizes of the objects that were replaced, where they are known: the hot
    /// index, the deltas and the Bloom filter.
    pub old_hot: Option<u64>,
    pub old_deltas: Vec<Option<u64>>,
    pub old_bloom: Option<u64>,
    /// Whether a cold shard was split.
    pub did_split: bool,
    /// How many objects went into the Bloom filter.
    pub bloom_elements: u64,
}

/// A size, zero where it is not known.
pub open spec fn or_zero(size: Option<u64>) -> nat {
    match size {
        Some(n) => n as nat,
        None => 0,
    }
}

/// The sum of the sizes that are known.
pub open spec fn known_sum(sizes: Seq<Option<u64>>) -> nat
    decreases sizes.len(),
{
    if sizes.len() == 0 {
        0
    } else {
        known_sum(sizes.drop_last()) + or_zero(sizes.last())
    }
}

/// The bytes of the objects that a run replaced.
pub open spec fn orphaned(facts: PackFacts) -> nat {
    or_zero(facts.old_hot) + known_sum(facts.old_deltas@) + or_zero(facts.old_bloom)
        + facts.bytes_in as nat
}

fn size_or_zero(size: Option<u64>) -> (r: u64)
    ensures
        r == or_zero(size),
{
    match size {
        Some(n) => n,
        None => 0,
    }
}

fn sum_known(sizes: &Vec<Option<u64>>) -> (r: u64)
    requires
        known_sum(sizes@) <= u64::MAX,
    ensures
        r == known_sum(sizes@),
{
    let mut total: u64 = 0;
    let mut i: usize = 0;
    assert(known_sum(sizes@.take(0)) == 0);
    while i < sizes.len()
        invariant
            i <= sizes@.len(),
            known_sum(sizes@) <= u64::MAX,
            total == known_sum(sizes@.take(i as int)),
        decreases sizes.len() - i,
    {
        proof {
            assert(sizes@.take(i + 1).drop_last() =~= sizes@.take(i as int));
            assert(sizes@.take(i + 1).last() == sizes@[i as int]);
            lemma_known_monotone(sizes@, i + 1);
        }
        total = total + size_or_zero(sizes[i]);
        i = i + 1;
    }
    assert(sizes@.take(i as int) =~= sizes@);
    total
}

proof fn lemma_known_monotone(sizes: Seq<Option<u64>>, n: int)
    requires
        0 <= n <= sizes.len(),
    ensures
        known_sum(sizes.take(n)) <= known_sum(sizes),
    decreases sizes.len(),
{
    if n < sizes.len() {
        assert(sizes.drop_last().take(n) =~= sizes.take(n));
        lemma_known_monotone(sizes.drop_last(), n);
    } else {
        assert(sizes.take(n) =~= sizes);
    }
}

/// The record of a run.
pub fn summarise(facts: PackFacts) -> (r: PackDetail)
    requires
        figures::sum(facts.new_sizes@) <= u64::MAX,
        orphaned(facts) <= u64::MAX,
    ensures
        r.deltas_merged == facts.deltas,
        r.packs_before == facts.candidates,
        r.packs_after == facts.new_sizes@.len(),
        r.consolidated_bytes_in == facts.bytes_in,
        r.consolidated_bytes_out == figures::sum(facts.new_sizes@),
        r.pack_sizes_after@ == facts.new_sizes@,
        r.cold_splits == if facts.did_split { 1int } else { 0 },
        r.hot_index_entries == facts.hot_entries,
        r.bloom_elements == facts.bloom_elements,
        r.orphaned_bytes == orphaned(facts),
{
    PackDetail {
        deltas_merged: facts.deltas as u64,
        packs_before: facts.candidates as u64,
        packs_after: facts.new_sizes.len() as u64,
        consolidated_bytes_in: facts.bytes_in,
        consolidated_bytes_out: total_of(facts.new_sizes.as_slice()),
        cold_splits: if facts.did_split {
            1
        } else {
            0
        },
        hot_index_entries: facts.hot_entries as u64,
        bloom_elements: facts.bloom_elements,
        orphaned_bytes: size_or_zero(facts.old_hot) + sum_known(&facts.old_deltas) + size_or_zero(
            facts.old_bloom,
        ) + facts.bytes_in,
        pack_sizes_after: facts.new_sizes,
    }
}

// ---------------------------------------------------------------------------
// The index root
// ---------------------------------------------------------------------------

/// How many bytes the nonce in front of an encrypted index root has.
pub const NONCE_LEN: usize = 12;

/// Calls `rand::RngCore::fill_bytes` on `rand::rng()`: twelve random bytes. That they
/// are fresh and unpredictable is left unsaid.
#[verifier::external_body]
fn random_nonce() -> (r: Vec<u8>)
    ensures
        r@.len() == 12,
{
    let mut nonce = [0u8; 12];
    rand::RngCore::fill_bytes(&mut rand::rng(), &mut nonce);
    nonce.to_vec()
}

/// What is needed to encrypt an index root.
pub struct RootSeal {
    /// What stands in front of the encrypted bytes.
    pub nonce: Vec<u8>,
    /// What the encryption takes in place of an object's name: the nonce, filled up
    /// with zeros.
    pub pseudo_hash: Vec<u8>,
}

/// A nonce filled up with zeros to the length of an object's name.
pub open spec fn padded_nonce(nonce: Seq<u8>) -> Seq<u8> {
    Seq::new(32, |i: int| if i < nonce.len() { nonce[i] } else { 0u8 })
}

/// The pseudo name that belongs to a nonce.
pub fn pseudo_hash(nonce: &Vec<u8>) -> (r: Vec<u8>)
    ensures
        r@ == padded_nonce(nonce@),
{
    let mut out: Vec<u8> = Vec::new();
    let mut i: usize = 0;
    while i < 32
        invariant
            i <= 32,
            out@ =~= padded_nonce(nonce@).take(i as int),
        decreases 32 - i,
    {
        if i < nonce.len() {
            out.push(nonce[i]);
        } else {
            out.push(0);
        }
        i = i + 1;
    }
    out
}

/// Starts the encryption of an index root; without a key there is none.
pub fn seal_start(has_key: bool) -> (r: Option<RootSeal>)
    ensures
        r is Some <==> has_key,
        r is Some ==> r->0.nonce@.len() == NONCE_LEN && r->0.pseudo_hash@ == padded_nonce(
            r->0.nonce@,
        ),
{
    if !has_key {
        return None;
    }
    let nonce = random_nonce();
    let pseudo_hash = pseudo_hash(&nonce);
    Some(RootSeal { nonce, pseudo_hash })
}

/// The bytes that are written: the nonce, then what was encrypted with it; without
/// encryption the plain bytes as they are.
pub fn encrypt_index_root(seal: Option<RootSeal>, bytes: Vec<u8>) -> (r: Vec<u8>)
    ensures
        r@ == match seal {
            Some(s) => s.nonce@ + bytes@,
            None => bytes@,
        },
{
    match seal {
        None => bytes,
        Some(s) => {
            let mut out = s.nonce;
            let mut rest = bytes;
            out.append(&mut rest);
            out
        },
    }
}

/// A reader of an encrypted index root finds the nonce, and with it the pseudo name,
/// in its first bytes, and the encrypted bytes behind them.
pub proof fn law_root_frame(nonce: Seq<u8>, encrypted: Seq<u8>)
    requires
        nonce.len() == NONCE_LEN,
    ensures
        (nonce + encrypted).take(NONCE_LEN as int) == nonce,
        (nonce + encrypted).skip(NONCE_LEN as int) == encrypted,
        padded_nonce((nonce + encrypted).take(NONCE_LEN as int)) == padded_nonce(nonce),
{
    assert((nonce + encrypted).take(NONCE_LEN as int) =~= nonce);
    assert((nonce + encrypted).skip(NONCE_LEN as int) =~= encrypted);
}

/// Words a failed swap of the index root for this command: it says to run the command
/// again. Any other error stays as it is.
pub fn remap_cas_failure(e: Error) -> (r: Error)
    ensures
        match e {
            Error::CasFailed => r matches Error::Other(s) && s@
                == "remote has been updated since last sync\nRe-run 'omemfs pack'."@,
            _ => r == e,
        },
{
    match e {
        Error::CasFailed => Error::Other(
            "remote has been updated since last sync\nRe-run 'omemfs pack'.".to_owned(),
        ),
        other => other,
    }
}

} // verus!
