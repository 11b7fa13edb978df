//! What the statistics count, and what their figures say.

use super::histogram;
use super::local::{self, MethodView};
use super::objects::{self, Method, SizeStats, StatsView, TypeTags};
use super::report::{self, IoStatsRecord};
use super::storage::{self, Class, IndexKey, IndexSeen, KeysView};
use super::figures;
use crate::commands::conflict::AcceptSide;
use crate::text;
use crate::worktree::{DiskEntry, DiskKind};
use vstd::prelude::*;

verus! {

// ---------------------------------------------------------------------------
// Buckets
// ---------------------------------------------------------------------------

/// The first bucket holds what is smaller than 256 bytes, and four times a size lies one
/// bucket further, up to the last one, which has no end.
pub proof fn law_buckets_reach_fourfold(size: nat)
    ensures
        histogram::bucket_of(size) == 0 <==> size < 256,
        size >= 64 ==> histogram::bucket_of(4 * size) == if histogram::bucket_of(size) < 9 {
            histogram::bucket_of(size) + 1
        } else {
            9
        },
{
}

/// A larger size never lies in an earlier bucket.
pub proof fn law_buckets_are_in_order(a: nat, b: nat)
    requires
        a <= b,
    ensures
        histogram::bucket_of(a) <= histogram::bucket_of(b) <= 9,
{
}

// ---------------------------------------------------------------------------
// Figures
// ---------------------------------------------------------------------------

/// A quotient is rounded to the nearest whole number, a tie to the even one.
pub proof fn law_rounded_to_the_nearest(a: nat, b: nat)
    requires
        b > 0,
    ensures
        2 * (figures::half_even(a, b) * b) <= 2 * a + b,
        2 * a <= 2 * (figures::half_even(a, b) * b) + b,
        a % b == 0 ==> figures::half_even(a, b) * b == a,
        2 * (a % b) == b ==> figures::half_even(a, b) % 2 == 0,
{
    let q = a / b;
    let r = a % b;
    assert(a == q * b + r && 0 <= r < b) by (nonlinear_arith)
        requires
            b > 0,
            q == a / b,
            r == a % b,
    ;
    assert((q + 1) * b == q * b + b) by (nonlinear_arith);
}

/// A count with its separators has its digits in order, and a comma only between groups of
/// three that reach to its end.
pub proof fn law_groups_keep_the_digits(digits: Seq<char>, tail: Seq<char>)
    requires
        digits.len() > 0,
        tail.len() == 3,
    ensures
        figures::grouped(digits + tail) == figures::grouped(digits).push(',') + tail,
        figures::grouped(tail) == tail,
{
    let all = digits + tail;
    assert(all.take(all.len() - 3) =~= digits);
    assert(all.skip(all.len() - 3) =~= tail);
}

/// A size below one unit is written in full.
pub proof fn law_small_sizes_are_exact(bytes: nat)
    requires
        bytes < 1024,
    ensures
        figures::size_text(bytes) == text::decimal(bytes) + " B"@,
        figures::compact_size(bytes) == text::decimal(bytes) + "B"@,
{
    reveal_strlit(" ");
    reveal_strlit("");
    reveal_strlit("B");
    reveal_strlit(" B");
    assert(figures::size_text(bytes) =~= text::decimal(bytes) + " B"@);
    assert(figures::compact_size(bytes) =~= text::decimal(bytes) + "B"@);
}

/// A column is as wide as the widest of its cells needs, and never narrower than asked.
pub proof fn law_columns_fit(cells: Seq<Seq<char>>, least: nat)
    ensures
        report::width_of(cells, least) >= least,
        forall|i: int|
            0 <= i < cells.len() ==> text::byte_len(#[trigger] cells[i]) <= report::width_of(
                cells,
                least,
            ),
        report::width_of(cells, least) == least || exists|i: int|
            0 <= i < cells.len() && text::byte_len(#[trigger] cells[i]) == report::width_of(
                cells,
                least,
            ),
    decreases cells.len(),
{
    if cells.len() > 0 {
        let init = cells.drop_last();
        law_columns_fit(init, least);
        let w = report::width_of(init, least);
        assert forall|i: int| 0 <= i < cells.len() implies text::byte_len(#[trigger] cells[i])
            <= report::width_of(cells, least) by {
            if i < init.len() {
                assert(init[i] == cells[i]);
            }
        }
        if report::width_of(cells, least) == w && w != least {
            let i = choose|i: int|
                0 <= i < init.len() && text::byte_len(#[trigger] init[i]) == w;
            assert(cells[i] == init[i]);
        } else if report::width_of(cells, least) != least {
            assert(text::byte_len(cells[cells.len() - 1]) == report::width_of(cells, least));
        }
    }
}

/// The record of the last consolidation is told of: it has the details, and none behind it.
pub proof fn law_latest_detail(records: Seq<IoStatsRecord>)
    ensures
        match report::last_detail(records) {
            Some(i) => 0 <= i < records.len() && records[i].pack_detail is Some && forall|j: int|
                i < j < records.len() ==> (#[trigger] records[j]).pack_detail is None,
            None => forall|j: int|
                0 <= j < records.len() ==> (#[trigger] records[j]).pack_detail is None,
        },
    decreases records.len(),
{
    if records.len() > 0 && records.last().pack_detail is None {
        let init = records.drop_last();
        law_latest_detail(init);
        assert forall|j: int| 0 <= j < init.len() implies #[trigger] records[j] == init[j] by {}
    }
}

proof fn lemma_sum_of_parts(a: Seq<u64>, b: Seq<u64>)
    ensures
        figures::sum(a + b) == figures::sum(a) + figures::sum(b),
    decreases b.len(),
{
    if b.len() > 0 {
        lemma_sum_of_parts(a, b.drop_last());
        assert((a + b).drop_last() =~= a + b.drop_last());
    } else {
        assert(a + b =~= a);
    }
}

/// The totals of records are the sums of what they say: those of two runs of records add up,
/// and those of one record are its own.
pub proof fn law_totals_add_up(a: Seq<IoStatsRecord>, b: Seq<IoStatsRecord>, one: IoStatsRecord)
    requires
        report::totals_fit(a + b),
        one.exists_found + one.exists_miss <= u64::MAX,
    ensures
        ({
            let x = report::totals_of(a);
            let y = report::totals_of(b);
            let z = report::totals_of(a + b);
            &&& z.writes == x.writes + y.writes && z.write_bytes == x.write_bytes + y.write_bytes
            &&& z.reads == x.reads + y.reads && z.read_bytes == x.read_bytes + y.read_bytes
            &&& z.found == x.found + y.found && z.miss == x.miss + y.miss
        }),
        ({
            let t = report::totals_of(seq![one]);
            &&& t.writes == one.writes && t.write_bytes == one.write_bytes && t.reads == one.reads
            &&& t.read_bytes == one.read_bytes && t.found == one.exists_found && t.miss
                == one.exists_miss
        }),
{
    assert(report::writes_of(a + b) =~= report::writes_of(a) + report::writes_of(b));
    assert(report::write_bytes_of(a + b) =~= report::write_bytes_of(a) + report::write_bytes_of(b));
    assert(report::reads_of(a + b) =~= report::reads_of(a) + report::reads_of(b));
    assert(report::read_bytes_of(a + b) =~= report::read_bytes_of(a) + report::read_bytes_of(b));
    assert(report::found_of(a + b) =~= report::found_of(a) + report::found_of(b));
    assert(report::miss_of(a + b) =~= report::miss_of(a) + report::miss_of(b));
    lemma_sum_of_parts(report::writes_of(a), report::writes_of(b));
    lemma_sum_of_parts(report::write_bytes_of(a), report::write_bytes_of(b));
    lemma_sum_of_parts(report::reads_of(a), report::reads_of(b));
    lemma_sum_of_parts(report::read_bytes_of(a), report::read_bytes_of(b));
    lemma_sum_of_parts(report::found_of(a), report::found_of(b));
    lemma_sum_of_parts(report::miss_of(a), report::miss_of(b));
    let s = seq![one];
    lemma_sum_of_one(report::writes_of(s));
    lemma_sum_of_one(report::write_bytes_of(s));
    lemma_sum_of_one(report::reads_of(s));
    lemma_sum_of_one(report::read_bytes_of(s));
    lemma_sum_of_one(report::found_of(s));
    lemma_sum_of_one(report::miss_of(s));
}

proof fn lemma_sum_of_one(s: Seq<u64>)
    requires
        s.len() == 1,
    ensures
        figures::sum(s) == s[0],
{
    assert(s.drop_last() =~= Seq::<u64>::empty());
    assert(figures::sum(s.drop_last()) == 0);
}

// ---------------------------------------------------------------------------
// The working tree
// ---------------------------------------------------------------------------

/// Whether an entry is a tracked file of this size, or a directory that holds one: nothing
/// that is ignored or reserved, no state of the repository, no stub and no conflict helper
/// stands on the way.
pub open spec fn tracks(e: DiskEntry, size: u64) -> bool
    decreases e,
{
    &&& e.name@ != ".omemfs"@ && !e.reserved && !e.ignored
    &&& forall|base: Seq<char>, side: AcceptSide|
        e.name@ != #[trigger] (base + side.suffix_text())
    &&& forall|base: Seq<char>| e.name@ != #[trigger] (base + ".omemfs-stub"@)
    &&& match e.kind {
        DiskKind::File { size: n } => n == size,
        DiskKind::Dir(sub) => exists|i: int| 0 <= i < sub@.len() && tracks(#[trigger] sub@[i], size),
        _ => false,
    }
}

proof fn lemma_passed_over(e: DiskEntry)
    ensures
        !histogram::passed_over(e) <==> e.name@ != ".omemfs"@ && !e.reserved && !e.ignored && (
        forall|base: Seq<char>, side: AcceptSide|
            e.name@ != #[trigger] (base + side.suffix_text())) && (forall|base: Seq<char>|
            e.name@ != #[trigger] (base + ".omemfs-stub"@)),
{
    let name = e.name@;
    if crate::commands::conflict::helper_name(name) {
        let side = if text::has_suffix(name, AcceptSide::Base.suffix_text()) {
            AcceptSide::Base
        } else if text::has_suffix(name, AcceptSide::Local.suffix_text()) {
            AcceptSide::Local
        } else {
            AcceptSide::Remote
        };
        let s = side.suffix_text();
        assert(name =~= name.take(name.len() - s.len()) + s);
    }
    if exists|base: Seq<char>, side: AcceptSide| name == #[trigger] (base + side.suffix_text()) {
        let (base, side) = choose|base: Seq<char>, side: AcceptSide|
            name == #[trigger] (base + side.suffix_text());
        crate::commands::conflict::law_helper_base(base, side);
    }
    let stub = ".omemfs-stub"@;
    if text::has_suffix(name, stub) {
        assert(name =~= name.take(name.len() - stub.len()) + stub);
    }
    if exists|base: Seq<char>| name == #[trigger] (base + stub) {
        let base = choose|base: Seq<char>| name == #[trigger] (base + stub);
        assert(name.skip(name.len() - stub.len()) =~= stub);
    }
}

/// The sizes are those of the tracked files, whatever directory they lie in, and no others;
/// what was there stays.
pub proof fn law_sizes_of_tracked_files(es: Seq<DiskEntry>, n: nat, out: Seq<u64>, size: u64)
    requires
        n <= es.len(),
    ensures
        histogram::file_sizes(es, n, out).contains(size) <==> out.contains(size) || exists|i: int|
            0 <= i < n && tracks(#[trigger] es[i], size),
        histogram::file_sizes(es, n, out).len() >= out.len(),
    decreases es, n,
{
    if n > 0 {
        law_sizes_of_tracked_files(es, (n - 1) as nat, out, size);
        let prev = histogram::file_sizes(es, (n - 1) as nat, out);
        let r = histogram::file_sizes(es, n, out);
        let e = es[n - 1];
        lemma_passed_over(e);
        if !histogram::passed_over(e) {
            match e.kind {
                DiskKind::File { size: n } => {
                    assert(r == prev.push(n));
                    assert(r[prev.len() as int] == n);
                    if prev.contains(size) {
                        let j = choose|j: int| 0 <= j < prev.len() && prev[j] == size;
                        assert(r[j] == size);
                    }
                    if r.contains(size) && n != size {
                        let j = choose|j: int| 0 <= j < r.len() && r[j] == size;
                        assert(prev[j] == size);
                    }
                },
                DiskKind::Dir(sub) => {
                    law_sizes_of_tracked_files(sub@, sub@.len(), prev, size);
                },
                _ => {},
            }
        }
        assert(r.contains(size) <==> prev.contains(size) || tracks(e, size));
        if tracks(e, size) {
            assert(tracks(es[n - 1], size));
        }
        if exists|i: int| 0 <= i < n - 1 && tracks(#[trigger] es[i], size) {
            let i = choose|i: int| 0 <= i < n - 1 && tracks(#[trigger] es[i], size);
            assert(tracks(es[i], size));
        }
    }
}

// ---------------------------------------------------------------------------
// Objects
// ---------------------------------------------------------------------------

/// Counting an object keeps the smallest and the largest size, and adds the object's own.
pub proof fn law_sizes_are_bounded(s: SizeStats, stored: u64, logical: u64)
    requires
        s.has_room(stored, logical),
        s.min_stored is Some == s.max_stored is Some,
    ensures
        ({
            let t = s.with(stored, logical);
            &&& t.count == s.count + 1
            &&& t.total_stored == s.total_stored + stored
            &&& t.total_logical == s.total_logical + logical
            &&& t.min_stored is Some && t.max_stored is Some
            &&& t.min_stored->0 <= stored <= t.max_stored->0
            &&& s.min_stored is Some ==> t.min_stored->0 <= s.min_stored->0 && t.max_stored->0
                >= s.max_stored->0
            &&& t.min_stored == Some(stored) || t.min_stored == s.min_stored
            &&& t.max_stored == Some(stored) || t.max_stored == s.max_stored
        }),
{
}

/// Every object is counted once, with its stored bytes, under the head that its content
/// belongs to: what cannot be read and what belongs to a remote's packed layer are unknown.
pub proof fn law_each_object_has_one_head(
    s: StatsView,
    stored: Seq<u8>,
    logical: Option<Seq<u8>>,
    tags: TypeTags,
    tree_ok: bool,
)
    requires
        s.adds_up(),
        s.has_room(stored.len(), objects::content_len(logical)),
    ensures
        ({
            let t = objects::counted(s, stored, logical, tags, tree_ok);
            &&& t.total == s.total + 1
            &&& t.total_stored_bytes == s.total_stored_bytes + stored.len()
            &&& (t.tree_stats.count - s.tree_stats.count) + (t.blob_stats.count
                - s.blob_stats.count) + (t.chunk_manifest_count - s.chunk_manifest_count) + (
            t.chunk_body_count - s.chunk_body_count) + (t.unknown_count - s.unknown_count) == 1
            &&& t.tree_stats.count >= s.tree_stats.count && t.blob_stats.count
                >= s.blob_stats.count && t.chunk_manifest_count >= s.chunk_manifest_count
            &&& t.chunk_body_count >= s.chunk_body_count && t.unknown_count >= s.unknown_count
            &&& logical is None ==> t.unknown_count == s.unknown_count + 1
        }),
{
}

/// Whether stored bytes, behind the mark that escapes them, belong to a remote's packed
/// layer.
pub open spec fn of_packed_layer(stored: Seq<u8>) -> bool {
    ||| stored.len() >= 2 && stored[0] == 0xED && 0xE1 <= stored[1] <= 0xEF
    ||| stored.len() >= 4 && stored[0] == 0xED && stored[1] == 0xE0 && stored[2] == 0xED && 0xE1
        <= stored[3] <= 0xEF
}

/// What an object's content begins with tells its head: a manifest, a chunk, a tree that can
/// be read as one, or else a file, which is counted under its content type too.
pub proof fn law_content_tells_the_head(
    s: StatsView,
    stored: Seq<u8>,
    logical: Seq<u8>,
    tags: TypeTags,
    tree_ok: bool,
)
    requires
        s.adds_up(),
        s.has_room(stored.len(), logical.len()),
        !of_packed_layer(stored),
    ensures
        ({
            let t = objects::counted(s, stored, Some(logical), tags, tree_ok);
            let manifest = logical.len() >= tags.manifest@.len() && logical.take(
                tags.manifest@.len() as int,
            ) == tags.manifest@;
            let chunk = !manifest && logical.len() >= tags.chunk@.len() && logical.take(
                tags.chunk@.len() as int,
            ) == tags.chunk@;
            let tree = !manifest && !chunk && logical.len() >= tags.tree@.len() && logical.take(
                tags.tree@.len() as int,
            ) == tags.tree@;
            &&& manifest <==> t.chunk_manifest_count == s.chunk_manifest_count + 1
            &&& chunk <==> t.chunk_body_count == s.chunk_body_count + 1
            &&& tree && tree_ok <==> t.tree_stats.count == s.tree_stats.count + 1
            &&& tree && !tree_ok <==> t.unknown_count == s.unknown_count + 1
            &&& !manifest && !chunk && !tree <==> t.blob_stats.count == s.blob_stats.count + 1
            &&& !manifest && !chunk && !tree ==> {
                let ty = objects::blob_type(logical);
                &&& t.blob_type_stats.dom().contains(ty)
                &&& t.blob_type_stats[ty].size.count == objects::type_entry(
                    s.blob_type_stats,
                    ty,
                ).size.count + 1
                &&& t.blob_type_stats[ty].size.total_logical == objects::type_entry(
                    s.blob_type_stats,
                    ty,
                ).size.total_logical + logical.len()
            }
            &&& t.compress_total.objects() == s.compress_total.objects() + 1
            &&& t.compress_total.bytes() == s.compress_total.bytes() + stored.len()
        }),
{
    let head = seq![0xEDu8, 0xE0];
    if stored.len() >= 2 {
        assert(stored.take(2) =~= seq![stored[0], stored[1]]);
        assert(head[0] == 0xED && head[1] == 0xE0);
        if objects::begins(stored, head) {
            assert(stored.take(2)[0] == stored[0] && stored.take(2)[1] == stored[1]);
        }
    }
    assert(!objects::is_packed(objects::effective(stored)));
    let ty = objects::blob_type(logical);
    assert(s.blob_type_stats.dom().contains(ty) ==> s.blob_type_stats[ty].size.count
        <= s.blob_stats.count);
}

// ---------------------------------------------------------------------------
// Keys of a remote
// ---------------------------------------------------------------------------

/// Whether an index file was read and refers to a pack by this key.
pub open spec fn refers_to_pack(f: IndexSeen, key: Seq<char>) -> bool {
    f.entries matches Some(es) && exists|i: int|
        0 <= i < es@.len() && (#[trigger] es@[i] matches IndexKey::Pack(k) && k@ == key)
}

/// Whether an index file was read and refers to an object of its own by this key.
pub open spec fn refers_to_standalone(f: IndexSeen, key: Seq<char>) -> bool {
    f.entries matches Some(es) && exists|i: int|
        0 <= i < es@.len() && (#[trigger] es@[i] matches IndexKey::Standalone(k) && k@ == key)
}

spec fn pack_in(es: Seq<IndexKey>, n: int, key: Seq<char>) -> bool {
    exists|i: int| 0 <= i < n && (#[trigger] es[i] matches IndexKey::Pack(k) && k@ == key)
}

spec fn standalone_in(es: Seq<IndexKey>, n: int, key: Seq<char>) -> bool {
    exists|i: int| 0 <= i < n && (#[trigger] es[i] matches IndexKey::Standalone(k) && k@ == key)
}

proof fn lemma_entries(k: KeysView, es: Seq<IndexKey>, n: nat, key: Seq<char>)
    requires
        n <= es.len(),
    ensures
        ({
            let r = storage::with_entries(k, es, n);
            &&& r.pack.contains(key) <==> k.pack.contains(key) || pack_in(es, n as int, key)
            &&& r.standalone.contains(key) <==> k.standalone.contains(key) || standalone_in(
                es,
                n as int,
                key,
            )
            &&& r.index == k.index && r.bloom == k.bloom && r.index_root == k.index_root
        }),
    decreases n,
{
    if n > 0 {
        lemma_entries(k, es, (n - 1) as nat, key);
        if pack_in(es, n - 1, key) {
            let i = choose|i: int|
                0 <= i < n - 1 && (#[trigger] es[i] matches IndexKey::Pack(k) && k@ == key);
            assert(es[i] matches IndexKey::Pack(k) && k@ == key);
        }
        if standalone_in(es, n - 1, key) {
            let i = choose|i: int|
                0 <= i < n - 1 && (#[trigger] es[i] matches IndexKey::Standalone(k) && k@ == key);
            assert(es[i] matches IndexKey::Standalone(k) && k@ == key);
        }
        match es[n - 1] {
            IndexKey::Pack(p) => {
                if p@ == key {
                    assert(pack_in(es, n as int, key));
                }
            },
            IndexKey::Standalone(p) => {
                if p@ == key {
                    assert(standalone_in(es, n as int, key));
                }
            },
            IndexKey::Inline => {},
        }
    }
}

proof fn lemma_index(k: KeysView, f: IndexSeen, key: Seq<char>)
    ensures
        ({
            let r = storage::with_index(k, f);
            &&& r.pack.contains(key) <==> k.pack.contains(key) || refers_to_pack(f, key)
            &&& r.standalone.contains(key) <==> k.standalone.contains(key) || refers_to_standalone(
                f,
                key,
            )
            &&& r.index.contains(key) <==> k.index.contains(key) || f.key@ == key
            &&& r.bloom == k.bloom && r.index_root == k.index_root
        }),
{
    let own = KeysView { index: k.index.insert(f.key@), ..k };
    if let Some(es) = f.entries {
        lemma_entries(own, es@, es@.len(), key);
        assert(pack_in(es@, es@.len() as int, key) == refers_to_pack(f, key));
        assert(standalone_in(es@, es@.len() as int, key) == refers_to_standalone(f, key));
    }
}

proof fn lemma_indexes(k: KeysView, fs: Seq<IndexSeen>, n: nat, key: Seq<char>)
    requires
        n <= fs.len(),
    ensures
        ({
            let r = storage::with_indexes(k, fs, n);
            &&& r.pack.contains(key) <==> k.pack.contains(key) || exists|i: int|
                0 <= i < n && refers_to_pack(#[trigger] fs[i], key)
            &&& r.standalone.contains(key) <==> k.standalone.contains(key) || exists|i: int|
                0 <= i < n && refers_to_standalone(#[trigger] fs[i], key)
            &&& r.index.contains(key) <==> k.index.contains(key) || exists|i: int|
                0 <= i < n && (#[trigger] fs[i]).key@ == key
            &&& r.bloom == k.bloom && r.index_root == k.index_root
        }),
    decreases n,
{
    if n > 0 {
        lemma_indexes(k, fs, (n - 1) as nat, key);
        lemma_index(storage::with_indexes(k, fs, (n - 1) as nat), fs[n - 1], key);
        if exists|i: int| 0 <= i < n - 1 && refers_to_pack(#[trigger] fs[i], key) {
            let i = choose|i: int| 0 <= i < n - 1 && refers_to_pack(#[trigger] fs[i], key);
            assert(refers_to_pack(fs[i], key));
        }
        if exists|i: int| 0 <= i < n - 1 && refers_to_standalone(#[trigger] fs[i], key) {
            let i = choose|i: int| 0 <= i < n - 1 && refers_to_standalone(#[trigger] fs[i], key);
            assert(refers_to_standalone(fs[i], key));
        }
        if exists|i: int| 0 <= i < n - 1 && (#[trigger] fs[i]).key@ == key {
            let i = choose|i: int| 0 <= i < n - 1 && (#[trigger] fs[i]).key@ == key;
            assert(fs[i].key@ == key);
        }
        if refers_to_pack(fs[n - 1], key) {
            assert(0 <= n - 1 < n && refers_to_pack(fs[n - 1], key));
        }
    }
}

/// Whether a shard is taken: it is not empty, and no earlier one is the same.
pub open spec fn is_taken(cold: Seq<IndexSeen>, i: int) -> bool {
    &&& 0 <= i < cold.len()
    &&& !(cold[i].hash.w0 == 0 && cold[i].hash.w1 == 0 && cold[i].hash.w2 == 0
        && cold[i].hash.w3 == 0)
    &&& forall|j: int| 0 <= j < i ==> (#[trigger] cold[j]).hash != cold[i].hash
}

proof fn lemma_shards(k: KeysView, fs: Seq<IndexSeen>, n: nat, key: Seq<char>)
    requires
        n <= fs.len(),
    ensures
        ({
            let r = storage::with_shards(k, fs, n);
            &&& r.pack.contains(key) <==> k.pack.contains(key) || exists|i: int|
                i < n && #[trigger] is_taken(fs, i) && refers_to_pack(fs[i], key)
            &&& r.standalone.contains(key) <==> k.standalone.contains(key) || exists|i: int|
                i < n && #[trigger] is_taken(fs, i) && refers_to_standalone(fs[i], key)
            &&& r.index.contains(key) <==> k.index.contains(key) || exists|i: int|
                i < n && #[trigger] is_taken(fs, i) && fs[i].key@ == key
            &&& r.bloom == k.bloom && r.index_root == k.index_root
        }),
    decreases n,
{
    if n > 0 {
        lemma_shards(k, fs, (n - 1) as nat, key);
        let prev = storage::with_shards(k, fs, (n - 1) as nat);
        assert(is_taken(fs, n - 1) <==> !(fs[n - 1].hash == storage::zero_hash()
            || !storage::is_first(fs, n - 1)));
        lemma_index(prev, fs[n - 1], key);
        if exists|i: int| i < n - 1 && #[trigger] is_taken(fs, i) && refers_to_pack(fs[i], key) {
            let i = choose|i: int|
                i < n - 1 && #[trigger] is_taken(fs, i) && refers_to_pack(fs[i], key);
            assert(is_taken(fs, i));
        }
        if exists|i: int|
            i < n - 1 && #[trigger] is_taken(fs, i) && refers_to_standalone(fs[i], key) {
            let i = choose|i: int|
                i < n - 1 && #[trigger] is_taken(fs, i) && refers_to_standalone(fs[i], key);
            assert(is_taken(fs, i));
        }
        if exists|i: int| i < n - 1 && #[trigger] is_taken(fs, i) && fs[i].key@ == key {
            let i = choose|i: int| i < n - 1 && #[trigger] is_taken(fs, i) && fs[i].key@ == key;
            assert(is_taken(fs, i));
        }
    }
}

/// A pack is known exactly where an index file that was read refers to it: the hot one, one
/// of the deltas, or one of the shards that are taken. So is an object of its own; and every
/// such index file is known, whether it could be read or not.
pub proof fn law_known_is_what_the_index_refers_to(
    root_key: Seq<char>,
    hot: Option<IndexSeen>,
    deltas: Seq<IndexSeen>,
    cold: Seq<IndexSeen>,
    bloom: Option<Seq<char>>,
    key: Seq<char>,
)
    ensures
        ({
            let k = storage::known_keys(root_key, hot, deltas, cold, bloom);
            &&& k.pack.contains(key) <==> (hot matches Some(f) && refers_to_pack(f, key)) || (
            exists|i: int| 0 <= i < deltas.len() && refers_to_pack(#[trigger] deltas[i], key)) || (
            exists|i: int| #[trigger] is_taken(cold, i) && refers_to_pack(cold[i], key))
            &&& k.standalone.contains(key) <==> (hot matches Some(f) && refers_to_standalone(
                f,
                key,
            )) || (exists|i: int|
                0 <= i < deltas.len() && refers_to_standalone(#[trigger] deltas[i], key)) || (
            exists|i: int| #[trigger] is_taken(cold, i) && refers_to_standalone(cold[i], key))
            &&& k.index.contains(key) <==> (hot matches Some(f) && f.key@ == key) || (exists|i: int|
                0 <= i < deltas.len() && (#[trigger] deltas[i]).key@ == key) || (exists|i: int|
                #[trigger]
                is_taken(cold, i) && cold[i].key@ == key)
            &&& k.bloom.contains(key) <==> bloom == Some(key)
            &&& k.index_root.contains(key) <==> key == root_key
        }),
{
    let root = KeysView {
        pack: Set::empty(),
        index: Set::empty(),
        bloom: Set::empty(),
        standalone: Set::empty(),
        index_root: Set::empty().insert(root_key),
    };
    let with_hot = match hot {
        Some(f) => storage::with_index(root, f),
        None => root,
    };
    if let Some(f) = hot {
        lemma_index(root, f, key);
    }
    lemma_indexes(with_hot, deltas, deltas.len(), key);
    let with_deltas = storage::with_indexes(with_hot, deltas, deltas.len());
    lemma_shards(with_deltas, cold, cold.len(), key);
}

/// An object is an orphan exactly where no index file refers to it and it is none of the
/// index's own.
pub proof fn law_orphans_are_unknown(k: KeysView, key: Seq<char>)
    ensures
        storage::class_of(k, key) == Class::Orphan <==> !k.pack.contains(key) && !k.index.contains(
            key,
        ) && !k.bloom.contains(key) && !k.standalone.contains(key) && !k.index_root.contains(key),
        storage::class_of(k, key) == Class::Pack <==> k.pack.contains(key),
        storage::class_of(k, key) == Class::Index ==> k.index.contains(key),
        storage::class_of(k, key) == Class::Bloom ==> k.bloom.contains(key),
        storage::class_of(k, key) == Class::Standalone ==> k.standalone.contains(key),
        storage::class_of(k, key) == Class::IndexRoot ==> k.index_root.contains(key),
{
}

/// Each method by which some object is compressed has a row with its numbers, and no other
/// method has one.
pub proof fn law_used_methods_have_rows(s: StatsView, row: MethodView)
    ensures
        local::methods_used(s).contains(row) <==> (row.total > 0 || row.tree > 0 || row.blob > 0)
            && {
            let (t, tr, bl) = (s.compress_total, s.compress_tree, s.compress_blob);
            ||| row == (MethodView {
                label: "dict_zstd"@,
                total: t.dict_zstd,
                tree: tr.dict_zstd,
                blob: bl.dict_zstd,
                stored: t.dict_zstd_bytes,
            })
            ||| row == (MethodView {
                label: "plain_zstd"@,
                total: t.plain_zstd,
                tree: tr.plain_zstd,
                blob: bl.plain_zstd,
                stored: t.plain_zstd_bytes,
            })
            ||| row == (MethodView {
                label: "escaped_raw"@,
                total: t.escaped_raw,
                tree: tr.escaped_raw,
                blob: bl.escaped_raw,
                stored: t.escaped_raw_bytes,
            })
            ||| row == (MethodView {
                label: "raw"@,
                total: t.raw,
                tree: tr.raw,
                blob: bl.raw,
                stored: t.raw_bytes,
            })
        },
{
    let (t, tr, bl) = (s.compress_total, s.compress_tree, s.compress_blob);
    let a = local::if_used(
        MethodView {
            label: "dict_zstd"@,
            total: t.dict_zstd,
            tree: tr.dict_zstd,
            blob: bl.dict_zstd,
            stored: t.dict_zstd_bytes,
        },
    );
    let b = local::if_used(
        MethodView {
            label: "plain_zstd"@,
            total: t.plain_zstd,
            tree: tr.plain_zstd,
            blob: bl.plain_zstd,
            stored: t.plain_zstd_bytes,
        },
    );
    let c = local::if_used(
        MethodView {
            label: "escaped_raw"@,
            total: t.escaped_raw,
            tree: tr.escaped_raw,
            blob: bl.escaped_raw,
            stored: t.escaped_raw_bytes,
        },
    );
    let d = local::if_used(
        MethodView {
            label: "raw"@,
            total: t.raw,
            tree: tr.raw,
            blob: bl.raw,
            stored: t.raw_bytes,
        },
    );
    lemma_in_either(a, b, row);
    lemma_in_either(a + b, c, row);
    lemma_in_either(a + b + c, d, row);
    lemma_if_used(a, row);
    lemma_if_used(b, row);
    lemma_if_used(c, row);
    lemma_if_used(d, row);
}

proof fn lemma_in_either(a: Seq<MethodView>, b: Seq<MethodView>, row: MethodView)
    ensures
        (a + b).contains(row) <==> a.contains(row) || b.contains(row),
{
    if a.contains(row) {
        let i = choose|i: int| 0 <= i < a.len() && a[i] == row;
        assert((a + b)[i] == row);
    }
    if b.contains(row) {
        let i = choose|i: int| 0 <= i < b.len() && b[i] == row;
        assert((a + b)[a.len() + i] == row);
    }
}

proof fn lemma_if_used(a: Seq<MethodView>, row: MethodView)
    requires
        a.len() <= 1,
    ensures
        a.contains(row) <==> a.len() == 1 && a[0] == row,
{
}

// ---------------------------------------------------------------------------
// Heads
// ---------------------------------------------------------------------------

proof fn lemma_begins(head: Seq<u8>, rest: Seq<u8>)
    ensures
        objects::begins(head + rest, head),
{
    assert((head + rest).take(head.len() as int) =~= head);
}

proof fn lemma_begins_otherwise(data: Seq<u8>, head: Seq<u8>)
    requires
        data.len() > 0,
        head.len() > 0,
        data[0] != head[0],
    ensures
        !objects::begins(data, head),
{
    if objects::begins(data, head) {
        assert(data.take(head.len() as int)[0] == data[0]);
    }
}

/// The content type of a file is told by how it begins, whatever follows.
pub proof fn law_types_are_told_by_heads(rest: Seq<u8>)
    ensures
        objects::blob_type(seq![0xFFu8, 0xD8, 0xFF] + rest) == "jpeg"@,
        objects::blob_type(seq![0x89u8, 0x50, 0x4E, 0x47, 0x0D, 0x0A, 0x1A, 0x0A] + rest) == "png"@,
        objects::blob_type(seq![0x47u8, 0x49, 0x46, 0x38] + rest) == "gif"@,
        objects::blob_type(seq![0x25u8, 0x50, 0x44, 0x46] + rest) == "pdf"@,
        objects::blob_type(seq![0x50u8, 0x4B, 0x03, 0x04] + rest) == "zip"@,
        objects::blob_type(seq![0x1Fu8, 0x8B] + rest) == "gzip"@,
        objects::blob_type(seq![0x28u8, 0xB5, 0x2F, 0xFD] + rest) == "zstd"@,
        objects::blob_type(seq![0x78u8, 0x9C] + rest) == "zlib"@,
{
    lemma_type(seq![0xFFu8, 0xD8, 0xFF], rest);
    lemma_type(seq![0x89u8, 0x50, 0x4E, 0x47, 0x0D, 0x0A, 0x1A, 0x0A], rest);
    lemma_type(seq![0x47u8, 0x49, 0x46, 0x38], rest);
    lemma_type(seq![0x25u8, 0x50, 0x44, 0x46], rest);
    lemma_type(seq![0x50u8, 0x4B, 0x03, 0x04], rest);
    lemma_type(seq![0x1Fu8, 0x8B], rest);
    lemma_type(seq![0x28u8, 0xB5, 0x2F, 0xFD], rest);
    lemma_type(seq![0x78u8, 0x9C], rest);
}

proof fn lemma_type(head: Seq<u8>, rest: Seq<u8>)
    requires
        head.len() > 0,
    ensures
        objects::begins(head + rest, head),
        head[0] != 0xFF ==> !objects::begins(head + rest, seq![0xFFu8, 0xD8, 0xFF]),
        head[0] != 0x89 ==> !objects::begins(
            head + rest,
            seq![0x89u8, 0x50, 0x4E, 0x47, 0x0D, 0x0A, 0x1A, 0x0A],
        ),
        head[0] != 0x47 ==> !objects::begins(head + rest, seq![0x47u8, 0x49, 0x46, 0x38]),
        head[0] != 0x52 ==> !objects::begins(head + rest, seq![0x52u8, 0x49, 0x46, 0x46]),
        head[0] != 0x25 ==> !objects::begins(head + rest, seq![0x25u8, 0x50, 0x44, 0x46]),
        head[0] != 0x50 ==> !objects::begins(head + rest, seq![0x50u8, 0x4B, 0x03, 0x04]),
        head[0] != 0x1F ==> !objects::begins(head + rest, seq![0x1Fu8, 0x8B]),
        head[0] != 0x28 ==> !objects::begins(head + rest, seq![0x28u8, 0xB5, 0x2F, 0xFD]),
{
    lemma_begins(head, rest);
    let s = head + rest;
    assert(s[0] == head[0]);
    if head[0] != 0xFF {
        lemma_begins_otherwise(s, seq![0xFFu8, 0xD8, 0xFF]);
    }
    if head[0] != 0x89 {
        lemma_begins_otherwise(s, seq![0x89u8, 0x50, 0x4E, 0x47, 0x0D, 0x0A, 0x1A, 0x0A]);
    }
    if head[0] != 0x47 {
        lemma_begins_otherwise(s, seq![0x47u8, 0x49, 0x46, 0x38]);
    }
    if head[0] != 0x52 {
        lemma_begins_otherwise(s, seq![0x52u8, 0x49, 0x46, 0x46]);
    }
    if head[0] != 0x25 {
        lemma_begins_otherwise(s, seq![0x25u8, 0x50, 0x44, 0x46]);
    }
    if head[0] != 0x50 {
        lemma_begins_otherwise(s, seq![0x50u8, 0x4B, 0x03, 0x04]);
    }
    if head[0] != 0x1F {
        lemma_begins_otherwise(s, seq![0x1Fu8, 0x8B]);
    }
    if head[0] != 0x28 {
        lemma_begins_otherwise(s, seq![0x28u8, 0xB5, 0x2F, 0xFD]);
    }
}

/// A control character among the first 1024 bytes, but for those of white space, makes a
/// file no text; one behind them does not.
pub proof fn law_control_characters_are_no_text(data: Seq<u8>, more: Seq<u8>, i: int)
    ensures
        0 <= i < data.len() && i < 1024 && (data[i] < 9 || 13 < data[i] < 32) ==> !objects::is_text(
            data,
        ),
        data.len() == 1024 ==> objects::is_text(data + more) == objects::is_text(data),
{
    if 0 <= i < data.len() && i < 1024 && (data[i] < 9 || 13 < data[i] < 32) {
        assert(objects::sample(data)[i] == data[i]);
        assert(objects::is_control(objects::sample(data)[i]));
    }
    if data.len() == 1024 {
        assert((data + more).take(1024) =~= data);
        assert(data.take(1024) =~= data);
        if more.len() == 0 {
            assert(data + more =~= data);
        }
    }
}

/// The first two bytes of a stored object tell whether it is escaped, whether it belongs to
/// the packed layer, and how it is compressed.
pub proof fn law_first_bytes_tell_the_layer(b: u8, rest: Seq<u8>)
    ensures
        objects::effective(seq![0xEDu8, 0xE0] + rest) == rest,
        b != 0xE0 ==> objects::effective(seq![0xEDu8, b] + rest) == seq![0xEDu8, b] + rest,
        objects::is_packed(seq![0xEDu8, b] + rest) <==> 0xE1 <= b <= 0xEF,
        b != 0xED ==> !objects::is_packed(seq![b] + rest) && objects::effective(seq![b] + rest)
            == seq![b] + rest && objects::object_method(seq![b] + rest) == Method::Raw,
        objects::object_method(seq![0xEDu8, 0xDE] + rest) == Method::DictZstd,
        objects::object_method(seq![0xEDu8, 0xDF] + rest) == Method::PlainZstd,
        objects::object_method(seq![0xEDu8, 0xD0] + rest) == Method::EscapedRaw,
{
    let escaped = seq![0xEDu8, 0xE0];
    lemma_begins(escaped, rest);
    assert((escaped + rest).skip(2) =~= rest);
    let two = seq![0xEDu8, b] + rest;
    assert(two[0] == 0xED && two[1] == b);
    if b != 0xE0 && objects::begins(two, escaped) {
        assert(two.take(2)[1] == two[1]);
    }
    let one = seq![b] + rest;
    assert(one[0] == b);
    if b != 0xED {
        lemma_begins_otherwise(one, escaped);
    }
    assert((seq![0xEDu8, 0xDE] + rest)[1] == 0xDE);
    assert((seq![0xEDu8, 0xDF] + rest)[1] == 0xDF);
    assert((seq![0xEDu8, 0xD0] + rest)[1] == 0xD0);
}

/// The records name several remotes exactly where two of them name different ones.
pub proof fn law_several_remotes_are_noticed(records: Seq<IoStatsRecord>)
    ensures
        report::several_remotes(records) <==> exists|i: int, j: int|
            0 <= i < records.len() && 0 <= j < records.len() && (#[trigger] records[i]).remote@ != (
            #[trigger] records[j]).remote@,
{
    if report::several_remotes(records) {
        let i = choose|i: int|
            0 <= i < records.len() && (#[trigger] records[i]).remote@ != records[0].remote@;
        assert(records[i].remote@ != records[0].remote@);
    }
    if exists|i: int, j: int|
        0 <= i < records.len() && 0 <= j < records.len() && (#[trigger] records[i]).remote@ != (
        #[trigger] records[j]).remote@ {
        let (i, j) = choose|i: int, j: int|
            0 <= i < records.len() && 0 <= j < records.len() && (#[trigger] records[i]).remote@ != (
            #[trigger] records[j]).remote@;
        assert(records[i].remote@ != records[0].remote@ || records[j].remote@
            != records[0].remote@);
    }
}

} // verus!
