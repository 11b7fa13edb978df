//! The statistics as JSON.

use crate::collections::PathMap;
use crate::commands::stats::figures;
use crate::commands::stats::histogram::{self, size_histogram};
use crate::commands::stats::local::{self, types_by_count};
use crate::commands::stats::objects::{BlobTypeEntry, CompressCount, SizeStats, Stats, StatsView};
use crate::commands::stats::report::{self, io_totals, put, IoStatsRecord, IoTotals, PackDetail};
use crate::commands::stats::storage::{ClassStat, RemoteStorage};
use crate::text::{self, decimal_of, join};
use vstd::prelude::*;
use vstd::string::*;

verus! {

/// A line with a number in it.
pub open spec fn num(before: Seq<char>, n: u64, after: Seq<char>) -> Seq<char> {
    before + text::decimal(n as nat) + after
}

fn put_num(out: &mut Vec<String>, before: &str, n: u64, after: &str)
    ensures
        text::views(final(out)@) == text::views(old(out)@).push(num(before@, n, after@)),
{
    let mut s: String = before.to_owned();
    s.append(decimal_of(n).as_str());
    s.append(after);
    put(out, s);
}

// ---------------------------------------------------------------------------
// Arrays
// ---------------------------------------------------------------------------

/// Numbers in decimal.
pub open spec fn decimals(ns: Seq<u64>) -> Seq<Seq<char>> {
    Seq::new(ns.len(), |i: int| text::decimal(ns[i] as nat))
}

/// Numbers as a JSON array without blanks.
pub open spec fn json_numbers(ns: Seq<u64>) -> Seq<char> {
    seq!['['] + text::join_with(decimals(ns), seq![',']) + seq![']']
}

/// `serde_json::to_string` of a list of numbers. In its compact form an array is
/// written between square brackets, its elements apart by commas, and an integer in
/// decimal. Writing numbers to a string does not fail.
#[verifier::external_body]
fn numbers_to_json(ns: &Vec<u64>) -> (r: Option<String>)
    ensures
        r is Some,
        r->0@ == json_numbers(ns@),
{
    serde_json::to_string(ns).ok()
}

fn json_of_numbers(ns: &Vec<u64>) -> (r: String)
    ensures
        r@ == json_numbers(ns@),
{
    match numbers_to_json(ns) {
        Some(s) => s,
        None => "[]".to_owned(),
    }
}

/// A bucket of a histogram as a JSON object.
pub open spec fn bar_json(b: histogram::Bar) -> Seq<char> {
    "{\"bucket\": \""@ + b.0 + "\", \"count\": "@ + text::decimal(b.1) + ", \"bytes\": "@
        + text::decimal(b.2) + "}"@
}

/// A histogram as a JSON array.
pub open spec fn histogram_json(sizes: Seq<u64>) -> Seq<char> {
    let rows = histogram::bars(sizes);
    if rows.len() == 0 {
        "[]"@
    } else {
        "["@ + text::join_with(Seq::new(rows.len(), |i: int| bar_json(rows[i])), ", "@) + "]"@
    }
}

/// A histogram as a JSON array of its buckets that are not empty.
pub fn histogram_json_array(sizes: &Vec<u64>) -> (r: String)
    requires
        figures::sum(sizes@) <= u64::MAX,
    ensures
        r@ == histogram_json(sizes@),
{
    proof {
        assert forall|b: nat| b < histogram::BUCKETS implies #[trigger] histogram::bytes_in(
            sizes@,
            b,
        ) <= u64::MAX by {
            histogram::lemma_bytes_in_sum(sizes@, b);
        }
    }
    let hist = size_histogram(sizes.as_slice());
    let ghost rows = histogram::bars(sizes@);
    assert(histogram::bar_views(hist@).len() == hist@.len());
    if hist.len() == 0 {
        return "[]".to_owned();
    }
    let mut parts: Vec<String> = Vec::new();
    let ghost all = Seq::new(rows.len(), |i: int| bar_json(rows[i]));
    let mut i: usize = 0;
    while i < hist.len()
        invariant
            i <= hist@.len(),
            rows == histogram::bar_views(hist@),
            all == Seq::new(rows.len(), |k: int| bar_json(rows[k])),
            text::views(parts@) =~= all.take(i as int),
        decreases hist.len() - i,
    {
        let mut s: String = "{\"bucket\": \"".to_owned();
        s.append(hist[i].0);
        s.append("\", \"count\": ");
        s.append(decimal_of(hist[i].1).as_str());
        s.append(", \"bytes\": ");
        s.append(decimal_of(hist[i].2).as_str());
        s.append("}");
        put(&mut parts, s);
        assert(all.take(i + 1) =~= all.take(i as int).push(all[i as int]));
        i = i + 1;
    }
    assert(text::views(parts@) =~= all);
    text::concat3("[", join(&parts, ", ").as_str(), "]")
}

// ---------------------------------------------------------------------------
// The local store
// ---------------------------------------------------------------------------

/// The counts by what the objects are.
pub open spec fn kinds(s: StatsView) -> Seq<Seq<char>> {
    seq![
        "{"@,
        num("  \"total\": "@, s.total, ","@),
        "  \"by_type\": {"@,
        num("    \"tree\": "@, s.tree_stats.count, ","@),
        num("    \"blob\": "@, s.blob_stats.count, ","@),
        num("    \"chunk_manifest\": "@, s.chunk_manifest_count, ","@),
        num("    \"chunk_body\": "@, s.chunk_body_count, ","@),
        num("    \"unknown\": "@, s.unknown_count, ""@),
        "  },"@,
    ]
}

fn put_kinds(out: &mut Vec<String>, s: &Stats)
    ensures
        text::views(final(out)@) == text::views(old(out)@) + kinds(s@),
{
    let ghost before = text::views(out@);
    put(out, "{".to_owned());
    put_num(out, "  \"total\": ", s.total, ",");
    put(out, "  \"by_type\": {".to_owned());
    put_num(out, "    \"tree\": ", s.tree_stats.count, ",");
    put_num(out, "    \"blob\": ", s.blob_stats.count, ",");
    put_num(out, "    \"chunk_manifest\": ", s.chunk_manifest_count, ",");
    put_num(out, "    \"chunk_body\": ", s.chunk_body_count, ",");
    put_num(out, "    \"unknown\": ", s.unknown_count, "");
    put(out, "  },".to_owned());
    assert(text::views(out@) =~= before + kinds(s@));
}

/// The counts by method of compression.
pub open spec fn method_block(head: Seq<char>, c: CompressCount, tail: Seq<char>) -> Seq<Seq<char>> {
    seq![
        head,
        num("      \"dict_zstd\": "@, c.dict_zstd, ","@),
        num("      \"plain_zstd\": "@, c.plain_zstd, ","@),
        num("      \"escaped_raw\": "@, c.escaped_raw, ","@),
        num("      \"raw\": "@, c.raw, ""@),
        tail,
    ]
}

fn put_methods(out: &mut Vec<String>, head: &str, c: &CompressCount, tail: &str)
    ensures
        text::views(final(out)@) == text::views(old(out)@) + method_block(head@, *c, tail@),
{
    let ghost before = text::views(out@);
    put(out, head.to_owned());
    put_num(out, "      \"dict_zstd\": ", c.dict_zstd, ",");
    put_num(out, "      \"plain_zstd\": ", c.plain_zstd, ",");
    put_num(out, "      \"escaped_raw\": ", c.escaped_raw, ",");
    put_num(out, "      \"raw\": ", c.raw, "");
    put(out, tail.to_owned());
    assert(text::views(out@) =~= before + method_block(head@, *c, tail@));
}

/// The counts by method, for all objects, for trees and for files.
pub open spec fn methods(s: StatsView) -> Seq<Seq<char>> {
    seq!["  \"by_compression\": {"@] + method_block(
        "    \"total\": {"@,
        s.compress_total,
        "    },"@,
    ) + method_block("    \"tree\": {"@, s.compress_tree, "    },"@) + method_block(
        "    \"blob\": {"@,
        s.compress_blob,
        "    }"@,
    ) + seq!["  },"@]
}

fn put_all_methods(out: &mut Vec<String>, s: &Stats)
    ensures
        text::views(final(out)@) == text::views(old(out)@) + methods(s@),
{
    let ghost before = text::views(out@);
    put(out, "  \"by_compression\": {".to_owned());
    put_methods(out, "    \"total\": {", &s.compress_total, "    },");
    put_methods(out, "    \"tree\": {", &s.compress_tree, "    },");
    put_methods(out, "    \"blob\": {", &s.compress_blob, "    }");
    put(out, "  },".to_owned());
    assert(text::views(out@) =~= before + methods(s@));
}

/// The bytes stored.
pub open spec fn bytes_block(s: StatsView) -> Seq<Seq<char>> {
    seq![
        "  \"storage_bytes\": {"@,
        num("    \"total\": "@, s.total_stored_bytes, ","@),
        num("    \"tree_total\": "@, s.tree_stats.total_stored, ","@),
        num("    \"tree_min\": "@, local::or_zero(s.tree_stats.min_stored) as u64, ","@),
        num("    \"tree_max\": "@, local::or_zero(s.tree_stats.max_stored) as u64, ","@),
        num("    \"blob_total\": "@, s.blob_stats.total_stored, ","@),
        num("    \"blob_min\": "@, local::or_zero(s.blob_stats.min_stored) as u64, ","@),
        num("    \"blob_max\": "@, local::or_zero(s.blob_stats.max_stored) as u64, ""@),
        "  },"@,
    ]
}

fn put_bytes(out: &mut Vec<String>, s: &Stats)
    ensures
        text::views(final(out)@) == text::views(old(out)@) + bytes_block(s@),
{
    let ghost before = text::views(out@);
    put(out, "  \"storage_bytes\": {".to_owned());
    put_num(out, "    \"total\": ", s.total_stored_bytes, ",");
    put_num(out, "    \"tree_total\": ", s.tree_stats.total_stored, ",");
    put_num(out, "    \"tree_min\": ", local::zero_if_none(s.tree_stats.min_stored), ",");
    put_num(out, "    \"tree_max\": ", local::zero_if_none(s.tree_stats.max_stored), ",");
    put_num(out, "    \"blob_total\": ", s.blob_stats.total_stored, ",");
    put_num(out, "    \"blob_min\": ", local::zero_if_none(s.blob_stats.min_stored), ",");
    put_num(out, "    \"blob_max\": ", local::zero_if_none(s.blob_stats.max_stored), "");
    put(out, "  },".to_owned());
    assert(text::views(out@) =~= before + bytes_block(s@));
}

/// A ratio, which is a text, or `null` where there is no content to compare with.
pub open spec fn ratio_json(st: SizeStats, ratio: Seq<char>) -> Seq<char> {
    if st.total_logical == 0 {
        "null"@
    } else {
        ratio
    }
}

fn json_of_ratio(st: &SizeStats, ratio: &str) -> (r: String)
    ensures
        r@ == ratio_json(*st, ratio@),
{
    if st.total_logical == 0 {
        "null".to_owned()
    } else {
        ratio.to_owned()
    }
}

/// The ratios of trees and files.
pub open spec fn ratio_block(s: StatsView, tree: Seq<char>, blob: Seq<char>) -> Seq<Seq<char>> {
    seq![
        "  \"compression_ratio\": {"@,
        "    \"tree\": "@ + ratio_json(s.tree_stats, tree) + ","@,
        "    \"blob\": "@ + ratio_json(s.blob_stats, blob) + ""@,
        "  },"@,
    ]
}

fn put_ratios(out: &mut Vec<String>, s: &Stats, tree: &str, blob: &str)
    ensures
        text::views(final(out)@) == text::views(old(out)@) + ratio_block(s@, tree@, blob@),
{
    let ghost before = text::views(out@);
    put(out, "  \"compression_ratio\": {".to_owned());
    put(out, text::concat3("    \"tree\": ", json_of_ratio(&s.tree_stats, tree).as_str(), ","));
    put(out, text::concat3("    \"blob\": ", json_of_ratio(&s.blob_stats, blob).as_str(), ""));
    put(out, "  },".to_owned());
    assert(text::views(out@) =~= before + ratio_block(s@, tree@, blob@));
}

// ---------------------------------------------------------------------------
// The remote
// ---------------------------------------------------------------------------

/// A class of objects as a member of a JSON object.
pub open spec fn class_json(name: Seq<char>, c: ClassStat, comma: Seq<char>) -> Seq<char> {
    "    \""@ + name + "\": {\"count\": "@ + text::decimal(c.count as nat) + ", \"bytes\": "@
        + text::decimal(c.bytes as nat) + "}"@ + comma
}

fn put_class(out: &mut Vec<String>, name: &str, c: ClassStat, comma: &str)
    ensures
        text::views(final(out)@) == text::views(old(out)@).push(class_json(name@, c, comma@)),
{
    let mut s: String = "    \"".to_owned();
    s.append(name);
    s.append("\": {\"count\": ");
    s.append(decimal_of(c.count).as_str());
    s.append(", \"bytes\": ");
    s.append(decimal_of(c.bytes).as_str());
    s.append("}");
    s.append(comma);
    put(out, s);
}

/// What the remote stores, and the distribution of the sizes there.
pub open spec fn remote_block(remote: Option<RemoteStorage>, sizes: Seq<u64>) -> Seq<Seq<char>> {
    match remote {
        None => seq![],
        Some(rs) => seq![
            "  \"remote_storage\": {"@,
            class_json("pack_files"@, rs.pack_files, ","@),
            class_json("index_files"@, rs.index_files, ","@),
            class_json("bloom"@, rs.bloom, ","@),
            class_json("standalone_objects"@, rs.standalone_objects, ","@),
            class_json("index_root"@, rs.index_root, ","@),
            class_json("orphans"@, rs.orphans, ","@),
            class_json(
                "total"@,
                ClassStat { count: rs.objects() as u64, bytes: rs.bytes() as u64 },
                ""@,
            ),
            "  },"@,
            "  \"remote_object_histogram\": "@ + histogram_json(sizes) + ","@,
        ],
    }
}

fn put_remote(out: &mut Vec<String>, remote: &Option<RemoteStorage>, sizes: &Vec<u64>)
    requires
        report::storage_fits(*remote),
        figures::sum(sizes@) <= u64::MAX,
    ensures
        text::views(final(out)@) == text::views(old(out)@) + remote_block(*remote, sizes@),
{
    let ghost before = text::views(out@);
    if let Some(rs) = remote {
        put(out, "  \"remote_storage\": {".to_owned());
        put_class(out, "pack_files", rs.pack_files, ",");
        put_class(out, "index_files", rs.index_files, ",");
        put_class(out, "bloom", rs.bloom, ",");
        put_class(out, "standalone_objects", rs.standalone_objects, ",");
        put_class(out, "index_root", rs.index_root, ",");
        put_class(out, "orphans", rs.orphans, ",");
        put_class(out, "total", rs.total(), "");
        put(out, "  },".to_owned());
        put(
            out,
            text::concat3(
                "  \"remote_object_histogram\": ",
                histogram_json_array(sizes).as_str(),
                ",",
            ),
        );
    }
    assert(text::views(out@) =~= before + remote_block(*remote, sizes@));
}

/// The last consolidation.
pub open spec fn pack_block(eff: Option<(Seq<char>, PackDetail)>) -> Seq<Seq<char>> {
    match eff {
        None => seq![],
        Some((ts, d)) => seq![
            "  \"pack_effectiveness\": {"@,
            "    \"ts\": \""@ + ts + "\","@,
            num("    \"deltas_merged\": "@, d.deltas_merged, ","@),
            num("    \"packs_before\": "@, d.packs_before, ","@),
            num("    \"packs_after\": "@, d.packs_after, ","@),
            num("    \"consolidated_bytes_in\": "@, d.consolidated_bytes_in, ","@),
            num("    \"consolidated_bytes_out\": "@, d.consolidated_bytes_out, ","@),
            num("    \"cold_splits\": "@, d.cold_splits, ","@),
            num("    \"hot_index_entries\": "@, d.hot_index_entries, ","@),
            num("    \"bloom_elements\": "@, d.bloom_elements, ","@),
            "    \"pack_sizes_after\": "@ + json_numbers(d.pack_sizes_after@),
            "  },"@,
        ],
    }
}

fn put_pack(out: &mut Vec<String>, eff: Option<(&String, &PackDetail)>)
    ensures
        text::views(final(out)@) == text::views(old(out)@) + pack_block(report::eff_view(eff)),
{
    let ghost before = text::views(out@);
    if let Some((ts, d)) = eff {
        put(out, "  \"pack_effectiveness\": {".to_owned());
        put(out, text::concat3("    \"ts\": \"", ts.as_str(), "\","));
        put_num(out, "    \"deltas_merged\": ", d.deltas_merged, ",");
        put_num(out, "    \"packs_before\": ", d.packs_before, ",");
        put_num(out, "    \"packs_after\": ", d.packs_after, ",");
        put_num(out, "    \"consolidated_bytes_in\": ", d.consolidated_bytes_in, ",");
        put_num(out, "    \"consolidated_bytes_out\": ", d.consolidated_bytes_out, ",");
        put_num(out, "    \"cold_splits\": ", d.cold_splits, ",");
        put_num(out, "    \"hot_index_entries\": ", d.hot_index_entries, ",");
        put_num(out, "    \"bloom_elements\": ", d.bloom_elements, ",");
        put(
            out,
            text::concat(
                "    \"pack_sizes_after\": ",
                json_of_numbers(&d.pack_sizes_after).as_str(),
            ),
        );
        put(out, "  },".to_owned());
    }
    assert(text::views(out@) =~= before + pack_block(report::eff_view(eff)));
}

// ---------------------------------------------------------------------------
// Content types
// ---------------------------------------------------------------------------

/// A comma behind all but the last.
pub open spec fn comma(i: int, n: nat) -> Seq<char> {
    if i + 1 < n {
        ","@
    } else {
        ""@
    }
}

/// A content type as a member of a JSON object.
pub open spec fn type_json(t: Seq<char>, e: BlobTypeEntry, ratio: Seq<char>, tail: Seq<char>) -> Seq<
    char,
> {
    "    \""@ + t + "\": {\"count\": "@ + text::decimal(e.size.count as nat)
        + ", \"stored_bytes\": "@ + text::decimal(e.size.total_stored as nat)
        + ", \"logical_bytes\": "@ + text::decimal(e.size.total_logical as nat)
        + ", \"compression_ratio\": "@ + ratio_json(e.size, ratio) + ", \"dict_zstd\": "@
        + text::decimal(e.compress.dict_zstd as nat) + ", \"plain_zstd\": "@ + text::decimal(
        e.compress.plain_zstd as nat,
    ) + ", \"escaped_raw\": "@ + text::decimal(e.compress.escaped_raw as nat) + ", \"raw\": "@
        + text::decimal(e.compress.raw as nat) + "}"@ + tail
}

fn json_of_type(t: &str, e: &BlobTypeEntry, ratio: &str, tail: &str) -> (r: String)
    ensures
        r@ == type_json(t@, *e, ratio@, tail@),
{
    let mut s: String = "    \"".to_owned();
    s.append(t);
    s.append("\": {\"count\": ");
    s.append(decimal_of(e.size.count).as_str());
    s.append(", \"stored_bytes\": ");
    s.append(decimal_of(e.size.total_stored).as_str());
    s.append(", \"logical_bytes\": ");
    s.append(decimal_of(e.size.total_logical).as_str());
    s.append(", \"compression_ratio\": ");
    s.append(json_of_ratio(&e.size, ratio).as_str());
    s.append(", \"dict_zstd\": ");
    s.append(decimal_of(e.compress.dict_zstd).as_str());
    s.append(", \"plain_zstd\": ");
    s.append(decimal_of(e.compress.plain_zstd).as_str());
    s.append(", \"escaped_raw\": ");
    s.append(decimal_of(e.compress.escaped_raw).as_str());
    s.append(", \"raw\": ");
    s.append(decimal_of(e.compress.raw).as_str());
    s.append("}");
    s.append(tail);
    s
}

/// The content types, the most frequent first.
pub open spec fn types_block(m: Map<Seq<char>, BlobTypeEntry>, ratios: Seq<Seq<char>>) -> Seq<
    Seq<char>,
> {
    let ts = local::types_in_order(m);
    seq!["  \"blob_content_types\": {"@] + Seq::new(
        ts.len(),
        |i: int| type_json(ts[i], m[ts[i]], ratios[i], comma(i, ts.len())),
    ) + seq!["  },"@]
}

#[verifier::loop_isolation(false)]
fn put_types(out: &mut Vec<String>, m: &PathMap<BlobTypeEntry>, ratios: &Vec<String>)
    requires
        m.wf(),
        ratios@.len() == local::types_in_order(m@).len(),
    ensures
        text::views(final(out)@) == text::views(old(out)@) + types_block(m@, text::views(ratios@)),
{
    let ghost before = text::views(out@);
    put(out, "  \"blob_content_types\": {".to_owned());
    let ts = types_by_count(m);
    let ghost tv = local::types_in_order(m@);
    let ghost rv = text::views(ratios@);
    assert(text::views(ts@).len() == ts@.len());
    let ghost top = text::views(out@);
    let ghost lines = Seq::new(
        tv.len(),
        |i: int| type_json(tv[i], m@[tv[i]], rv[i], comma(i, tv.len())),
    );
    let n: usize = ts.len();
    let mut i: usize = 0;
    while i < n
        invariant
            i <= n,
            text::views(out@) =~= top + lines.take(i as int),
        decreases n - i,
    {
        assert(tv[i as int] == ts@[i as int]@);
        assert(rv[i as int] == ratios@[i as int]@);
        let ghost here = text::views(out@);
        let tail: &str = if i + 1 < n {
            ","
        } else {
            ""
        };
        if let Some(e) = m.get(ts[i].as_str()) {
            put(out, json_of_type(ts[i].as_str(), e, ratios[i].as_str(), tail));
        }
        assert(text::views(out@) =~= here.push(lines[i as int]));
        i = i + 1;
    }
    put(out, "  },".to_owned());
    assert(text::views(out@) =~= before + types_block(m@, text::views(ratios@)));
}

// ---------------------------------------------------------------------------
// Recent commands
// ---------------------------------------------------------------------------

/// A record as a JSON object.
pub open spec fn record_json(rec: IoStatsRecord, tail: Seq<char>) -> Seq<char> {
    "    {\"ts\": \""@ + rec.ts@ + "\", \"cmd\": \""@ + rec.cmd@ + "\", \"remote\": \""@ + rec.remote@
        + "\", \"exists_found\": "@ + text::decimal(rec.exists_found as nat)
        + ", \"exists_miss\": "@ + text::decimal(rec.exists_miss as nat) + ", \"writes\": "@
        + text::decimal(rec.writes as nat) + ", \"write_bytes\": "@ + text::decimal(
        rec.write_bytes as nat,
    ) + ", \"reads\": "@ + text::decimal(rec.reads as nat) + ", \"read_bytes\": "@ + text::decimal(
        rec.read_bytes as nat,
    ) + ", \"pack_files_written\": "@ + text::decimal(rec.pack_files_written as nat)
        + ", \"pack_sizes_bytes\": "@ + json_numbers(rec.pack_sizes_bytes@) + "}"@ + tail
}

fn json_of_record(rec: &IoStatsRecord, tail: &str) -> (r: String)
    ensures
        r@ == record_json(*rec, tail@),
{
    let mut s: String = "    {\"ts\": \"".to_owned();
    s.append(rec.ts.as_str());
    s.append("\", \"cmd\": \"");
    s.append(rec.cmd.as_str());
    s.append("\", \"remote\": \"");
    s.append(rec.remote.as_str());
    s.append("\", \"exists_found\": ");
    s.append(decimal_of(rec.exists_found).as_str());
    s.append(", \"exists_miss\": ");
    s.append(decimal_of(rec.exists_miss).as_str());
    s.append(", \"writes\": ");
    s.append(decimal_of(rec.writes).as_str());
    s.append(", \"write_bytes\": ");
    s.append(decimal_of(rec.write_bytes).as_str());
    s.append(", \"reads\": ");
    s.append(decimal_of(rec.reads).as_str());
    s.append(", \"read_bytes\": ");
    s.append(decimal_of(rec.read_bytes).as_str());
    s.append(", \"pack_files_written\": ");
    s.append(decimal_of(rec.pack_files_written).as_str());
    s.append(", \"pack_sizes_bytes\": ");
    s.append(json_of_numbers(&rec.pack_sizes_bytes).as_str());
    s.append("}");
    s.append(tail);
    s
}

/// The totals of all commands.
pub open spec fn totals_block(t: IoTotals) -> Seq<Seq<char>> {
    seq![
        "  \"io_totals\": {"@,
        num("    \"writes\": "@, t.writes, ","@),
        num("    \"write_bytes\": "@, t.write_bytes, ","@),
        num("    \"reads\": "@, t.reads, ","@),
        num("    \"read_bytes\": "@, t.read_bytes, ","@),
        num("    \"exists_found\": "@, t.found, ","@),
        num("    \"exists_miss\": "@, t.miss, ""@),
        "  },"@,
    ]
}

fn put_totals(out: &mut Vec<String>, t: &IoTotals)
    ensures
        text::views(final(out)@) == text::views(old(out)@) + totals_block(*t),
{
    let ghost before = text::views(out@);
    put(out, "  \"io_totals\": {".to_owned());
    put_num(out, "    \"writes\": ", t.writes, ",");
    put_num(out, "    \"write_bytes\": ", t.write_bytes, ",");
    put_num(out, "    \"reads\": ", t.reads, ",");
    put_num(out, "    \"read_bytes\": ", t.read_bytes, ",");
    put_num(out, "    \"exists_found\": ", t.found, ",");
    put_num(out, "    \"exists_miss\": ", t.miss, "");
    put(out, "  },".to_owned());
    assert(text::views(out@) =~= before + totals_block(*t));
}

/// The recent commands, and the totals of all; nothing if there are none.
pub open spec fn io_block(recent: Seq<IoStatsRecord>, all: Seq<IoStatsRecord>) -> Seq<Seq<char>> {
    if recent.len() == 0 {
        seq![]
    } else {
        seq!["  \"io_history\": ["@] + Seq::new(
            recent.len(),
            |i: int| record_json(recent[i], comma(i, recent.len())),
        ) + seq!["  ],"@] + totals_block(report::totals_of(all))
    }
}

#[verifier::loop_isolation(false)]
fn put_io(out: &mut Vec<String>, recent: &Vec<IoStatsRecord>, all: &Vec<IoStatsRecord>)
    requires
        report::totals_fit(all@),
    ensures
        text::views(final(out)@) == text::views(old(out)@) + io_block(recent@, all@),
{
    let ghost before = text::views(out@);
    if recent.len() == 0 {
        assert(text::views(out@) =~= before + io_block(recent@, all@));
        return;
    }
    put(out, "  \"io_history\": [".to_owned());
    let ghost top = text::views(out@);
    let ghost lines = Seq::new(
        recent@.len(),
        |i: int| record_json(recent@[i], comma(i, recent@.len())),
    );
    let n: usize = recent.len();
    let mut i: usize = 0;
    while i < n
        invariant
            i <= n,
            text::views(out@) =~= top + lines.take(i as int),
        decreases n - i,
    {
        let ghost here = text::views(out@);
        let tail: &str = if i + 1 < n {
            ","
        } else {
            ""
        };
        put(out, json_of_record(&recent[i], tail));
        assert(text::views(out@) =~= here.push(lines[i as int]));
        i = i + 1;
    }
    put(out, "  ],".to_owned());
    let t = io_totals(all);
    put_totals(out, &t);
    assert(text::views(out@) =~= before + io_block(recent@, all@));
}

// ---------------------------------------------------------------------------
// The whole
// ---------------------------------------------------------------------------

/// What is not a whole number, worked out beforehand: the ratios as texts. `types`
/// belong to the content types in their order.
pub struct JsonRatios {
    pub tree: String,
    pub blob: String,
    pub types: Vec<String>,
}

/// The statistics as lines of JSON.
pub open spec fn json_lines(
    s: StatsView,
    remote: Option<RemoteStorage>,
    remote_sizes: Seq<u64>,
    eff: Option<(Seq<char>, PackDetail)>,
    recent: Seq<IoStatsRecord>,
    all: Seq<IoStatsRecord>,
    worktree: Seq<u64>,
    f: JsonRatios,
) -> Seq<Seq<char>> {
    kinds(s) + methods(s) + bytes_block(s) + ratio_block(s, f.tree@, f.blob@) + remote_block(
        remote,
        remote_sizes,
    ) + pack_block(eff) + types_block(s.blob_type_stats, text::views(f.types@)) + io_block(
        recent,
        all,
    ) + seq!["  \"worktree_file_histogram\": "@ + histogram_json(worktree), "}"@]
}

/// The statistics as lines of JSON.
pub fn print_json(
    s: &Stats,
    remote: &Option<RemoteStorage>,
    remote_sizes: &Vec<u64>,
    eff: Option<(&String, &PackDetail)>,
    recent: &Vec<IoStatsRecord>,
    all: &Vec<IoStatsRecord>,
    worktree: &Vec<u64>,
    f: &JsonRatios,
) -> (out: Vec<String>)
    requires
        s.wf(),
        report::storage_fits(*remote),
        figures::sum(remote_sizes@) <= u64::MAX,
        report::totals_fit(all@),
        figures::sum(worktree@) <= u64::MAX,
        f.types@.len() == local::types_in_order(s.blob_type_stats@).len(),
    ensures
        text::views(out@) == json_lines(
            s@,
            *remote,
            remote_sizes@,
            report::eff_view(eff),
            recent@,
            all@,
            worktree@,
            *f,
        ),
{
    let mut out: Vec<String> = Vec::new();
    put_kinds(&mut out, s);
    assert(text::views(out@) =~= kinds(s@));
    put_all_methods(&mut out, s);
    put_bytes(&mut out, s);
    put_ratios(&mut out, s, f.tree.as_str(), f.blob.as_str());
    put_remote(&mut out, remote, remote_sizes);
    put_pack(&mut out, eff);
    put_types(&mut out, &s.blob_type_stats, &f.types);
    put_io(&mut out, recent, all);
    let ghost top = text::views(out@);
    put(
        &mut out,
        text::concat("  \"worktree_file_histogram\": ", histogram_json_array(worktree).as_str()),
    );
    put(&mut out, "}".to_owned());
    assert(text::views(out@) =~= top + seq![
        "  \"worktree_file_histogram\": "@ + histogram_json(worktree@),
        "}"@,
    ]);
    out
}

} // verus!
