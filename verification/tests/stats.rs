use omemfs::commands::stats::figures::{
    fmt_int, fmt_size, fmt_size_compact, format_head_cell, format_io_cell, format_pack_cell,
    format_time, space_time, units_of,
};
use omemfs::commands::stats::histogram::{bucket_index, size_histogram, walk_dir_sizes};
use omemfs::commands::stats::json::histogram_json_array;
use omemfs::commands::stats::local::types_by_count;
use omemfs::commands::stats::objects::{
    classify_object, detect_blob_type, BlobTypeEntry, CompressCount, Method, SizeStats, Stats,
    TypeTags,
};
use omemfs::commands::stats::report::{io_totals, latest_detail, IoStatsRecord, PackDetail};
use omemfs::commands::stats::storage::{
    classify_remote, collect_known_keys, IndexKey, IndexSeen,
};
use omemfs::collections::PathMap;
use omemfs::object::ObjectHash;
use omemfs::worktree::{DiskEntry, DiskKind};

#[test]
fn bucket_index_boundaries() {
    assert_eq!(bucket_index(0), 0, "<256B lower");
    assert_eq!(bucket_index(255), 0, "<256B upper");
    assert_eq!(bucket_index(256), 1, "256B-1KB lower");
    assert_eq!(bucket_index(1_023), 1, "256B-1KB upper");
    assert_eq!(bucket_index(1_024), 2, "1-4KB lower");
    assert_eq!(bucket_index(4_095), 2, "1-4KB upper");
    assert_eq!(bucket_index(4_096), 3, "4-16KB lower");
    assert_eq!(bucket_index(16_383), 3, "4-16KB upper");
    assert_eq!(bucket_index(16_384), 4, "16-64KB lower");
    assert_eq!(bucket_index(65_535), 4, "16-64KB upper");
    assert_eq!(bucket_index(65_536), 5, "64-256KB lower");
    assert_eq!(bucket_index(262_143), 5, "64-256KB upper");
    assert_eq!(bucket_index(262_144), 6, "256KB-1MB lower");
    assert_eq!(bucket_index(1_048_575), 6, "256KB-1MB upper");
    assert_eq!(bucket_index(1_048_576), 7, "1-4MB lower");
    assert_eq!(bucket_index(4_194_303), 7, "1-4MB upper");
    assert_eq!(bucket_index(4_194_304), 8, "4-16MB lower");
    assert_eq!(bucket_index(16_777_215), 8, "4-16MB upper");
    assert_eq!(bucket_index(16_777_216), 9, ">16MB lower");
    assert_eq!(bucket_index(u64::MAX), 9, ">16MB max");
}

#[test]
fn size_histogram_basic() {
    let sizes = vec![
        100,        // <256B
        200,        // <256B
        2_000_000,  // 1-4MB
        20_000_000, // >16MB
    ];
    let hist = size_histogram(&sizes);
    assert_eq!(hist.len(), 3, "three non-empty buckets");

    assert_eq!(hist[0].0, "<256B");
    assert_eq!(hist[0].1, 2);
    assert_eq!(hist[0].2, 300);

    assert_eq!(hist[1].0, "1-4MB");
    assert_eq!(hist[1].1, 1);
    assert_eq!(hist[1].2, 2_000_000);

    assert_eq!(hist[2].0, ">16MB");
    assert_eq!(hist[2].1, 1);
    assert_eq!(hist[2].2, 20_000_000);
}

#[test]
fn size_histogram_empty_input() {
    let hist = size_histogram(&[]);
    assert!(hist.is_empty(), "empty input → empty histogram");
}

#[test]
fn size_histogram_single_bucket() {
    let sizes = vec![1_048_576, 2_000_000, 3_000_000]; // all 1-4MB
    let hist = size_histogram(&sizes);
    assert_eq!(hist.len(), 1);
    assert_eq!(hist[0].0, "1-4MB");
    assert_eq!(hist[0].1, 3);
    assert_eq!(hist[0].2, 1_048_576 + 2_000_000 + 3_000_000);
}

#[test]
fn size_histogram_all_buckets() {
    let sizes = vec![
        0,          // <256B
        256,        // 256B-1KB
        1_024,      // 1-4KB
        4_096,      // 4-16KB
        16_384,     // 16-64KB
        65_536,     // 64-256KB
        262_144,    // 256KB-1MB
        1_048_576,  // 1-4MB
        4_194_304,  // 4-16MB
        16_777_216, // >16MB
    ];
    let hist = size_histogram(&sizes);
    assert_eq!(hist.len(), 10, "all ten buckets non-empty");
    let expected_labels = [
        "<256B",
        "256B-1KB",
        "1-4KB",
        "4-16KB",
        "16-64KB",
        "64-256KB",
        "256KB-1MB",
        "1-4MB",
        "4-16MB",
        ">16MB",
    ];
    for (i, &(label, count, _)) in hist.iter().enumerate() {
        assert_eq!(label, expected_labels[i]);
        assert_eq!(count, 1);
    }
}

#[test]
fn fmt_size_compact_basic() {
    assert_eq!(fmt_size_compact(0), "0B");
    assert_eq!(fmt_size_compact(512), "512B");
    assert_eq!(fmt_size_compact(1_024), "1.0KiB");
    assert_eq!(fmt_size_compact(12_288), "12.0KiB");
    assert_eq!(fmt_size_compact(1_048_576), "1.0MiB");
    assert_eq!(fmt_size_compact(15_728_640), "15.0MiB");
    assert_eq!(fmt_size_compact(1_073_741_824), "1.0GiB");
    assert_eq!(fmt_size_compact(1_503_238_553), "1.4GiB");
}

#[test]
fn fmt_int_basic() {
    assert_eq!(fmt_int(0), "0");
    assert_eq!(fmt_int(999), "999");
    assert_eq!(fmt_int(1_000), "1,000");
    assert_eq!(fmt_int(1_773), "1,773");
    assert_eq!(fmt_int(1_234_567), "1,234,567");
}

#[test]
fn fmt_size_compact_matches_fmt_size() {
    let test_cases = vec![
        0,
        1,
        127,
        255,
        256,
        512,
        1023,
        1024,
        2_048,
        4_096,
        16_384,
        65_536,
        262_144,
        1_048_576,
        2_097_152,
        4_194_304,
        16_777_216,
        1_073_741_824,
        u64::MAX,
    ];
    for bytes in test_cases {
        let compact = fmt_size_compact(bytes);
        let normal = fmt_size(bytes).replace(" ", "");
        assert_eq!(compact, normal, "fmt_size_compact({}) mismatch", bytes);
    }
}

#[test]
fn format_time_strips_year_and_separators() {
    assert_eq!(format_time("2026-06-13T02:05:11Z"), "06-13 02:05:11");
    assert_eq!(format_time("2025-12-31T23:59:59Z"), "12-31 23:59:59");
    assert_eq!(format_time("2026-01-01T00:00:00Z"), "01-01 00:00:00");
}

#[test]
fn format_io_cell_basic() {
    assert_eq!(format_io_cell(251, 15_728_640), "251 15.0MiB");
    assert_eq!(format_io_cell(3, 12_288), "3 12.0KiB");
    assert_eq!(format_io_cell(0, 0), "0 —");
    assert_eq!(format_io_cell(12, 2_097_152), "12 2.0MiB");
}

#[test]
fn format_head_cell_basic() {
    assert_eq!(format_head_cell(2, 248), "2/248");
    assert_eq!(format_head_cell(0, 0), "—");
    assert_eq!(format_head_cell(1, 40), "1/40");
}

#[test]
fn format_pack_cell_basic() {
    assert_eq!(
        format_pack_cell(3, &[5_242_880, 5_242_880, 3_145_728]),
        "3×13.0MiB"
    );
    assert_eq!(format_pack_cell(0, &[]), "—");
    assert_eq!(format_pack_cell(2, &[1_048_576, 1_048_576]), "2×2.0MiB");
}

/// The text that floating point arithmetic gives for a size.
fn by_floats(bytes: u64) -> String {
    let b = bytes as f64;
    if bytes < 1024 {
        format!("{bytes} B")
    } else if bytes < 1024 * 1024 {
        format!("{:.1} KiB", b / 1024.0)
    } else if bytes < 1024 * 1024 * 1024 {
        format!("{:.1} MiB", b / (1024.0 * 1024.0))
    } else {
        format!("{:.1} GiB", b / (1024.0 * 1024.0 * 1024.0))
    }
}

#[test]
fn sizes_read_as_floats_write_them() {
    let mut cases: Vec<u64> = vec![
        0, 1023, 1024, 1075, 1076, 1126, 1127, 1280, 1331, 1382, 1433, 1484, 1535, 1536, 1587,
        1_048_575, 1_048_576, 1_101_004, 1_310_720, 1_073_741_823, 1_073_741_824, 1_342_177_280,
        9_007_199_254_740_993, u64::MAX - 1024, u64::MAX,
    ];
    let mut state: u64 = 88_172_645_463_325_252;
    for _ in 0..2000 {
        state ^= state << 13;
        state ^= state >> 7;
        state ^= state << 17;
        cases.push(state);
        cases.push(state >> 20);
        cases.push(state >> 34);
        cases.push(state >> 44);
    }
    for n in cases {
        assert_eq!(fmt_size(n), by_floats(n), "{n}");
    }
    assert_eq!(units_of(1280, 1024), "1.2");
}

#[test]
fn a_space_parts_date_and_time() {
    assert_eq!(space_time("2026-06-13T02:05:11Z"), "2026-06-13 02:05:11");
}

#[test]
fn histograms_add_up() {
    let sizes = vec![1, 300, 5000, 5001, 70_000_000];
    let hist = size_histogram(&sizes);
    assert_eq!(hist.iter().map(|h| h.1).sum::<u64>(), 5);
    assert_eq!(hist.iter().map(|h| h.2).sum::<u64>(), sizes.iter().sum::<u64>());
}

#[test]
fn a_histogram_is_written_as_json() {
    assert_eq!(
        histogram_json_array(&vec![100, 200, 2_000_000]),
        "[{\"bucket\": \"<256B\", \"count\": 2, \"bytes\": 300}, \
         {\"bucket\": \"1-4MB\", \"count\": 1, \"bytes\": 2000000}]"
    );
    assert_eq!(histogram_json_array(&Vec::new()), "[]");
}

fn disk(name: &str, ignored: bool, kind: DiskKind) -> DiskEntry {
    DiskEntry { name: name.to_string(), ignored, reserved: false, kind }
}

#[test]
fn files_of_the_working_tree_are_measured() {
    let es = vec![
        disk("a", false, DiskKind::File { size: 1 }),
        disk("b", true, DiskKind::File { size: 2 }),
        disk("d", false, DiskKind::Dir(vec![disk("c", false, DiskKind::File { size: 4 })])),
        disk(".omemfs", false, DiskKind::Dir(vec![disk("x", false, DiskKind::File { size: 8 })])),
    ];
    let mut sizes = Vec::new();
    walk_dir_sizes(&es, &mut sizes);
    assert_eq!(sizes, vec![1, 4]);
}

#[test]
fn contents_are_told_apart() {
    assert_eq!(detect_blob_type(&b"hello world".to_vec()), "text");
    let binary = detect_blob_type(&vec![0xFF, 0xFE, 0x00, 0x01, 0x80]);
    assert_ne!(binary, "text");
    let png = detect_blob_type(&vec![0x89, b'P', b'N', b'G', 0x0D, 0x0A, 0x1A, 0x0A]);
    assert_ne!(png, binary);
}

#[test]
fn objects_are_counted() {
    let tags = TypeTags { manifest: vec![0xED, 0xE8], chunk: vec![0xED, 0xE9], tree: vec![b'{'] };
    let mut s = Stats::new();
    classify_object(&vec![0xED, 0xDE, 1, 2], Some(&b"hello".to_vec()), &tags, false, &mut s);
    classify_object(&b"plain".to_vec(), Some(&b"plain".to_vec()), &tags, false, &mut s);
    s.count_unreadable();
    assert_eq!(s.total, 3);
    assert_eq!(s.compress_total.dict_zstd + s.compress_total.raw, 2);
    let mut size = SizeStats::new();
    size.add(10, 20);
    size.add(4, 8);
    assert_eq!((size.count, size.total_stored, size.total_logical), (2, 14, 28));
    assert_eq!((size.min_stored, size.max_stored), (Some(4), Some(10)));
    let mut c = CompressCount::new();
    c.add(Method::Raw);
    c.add_sized(Method::PlainZstd, 7);
    assert_eq!((c.total(), c.plain_zstd_bytes), (2, 7));
}

#[test]
fn types_stand_in_order_of_their_count() {
    let entry = |n: u64| {
        let mut size = SizeStats::new();
        for _ in 0..n {
            size.add(1, 1);
        }
        BlobTypeEntry { size, compress: CompressCount::new() }
    };
    let mut m: PathMap<BlobTypeEntry> = PathMap::new();
    m.insert("b".to_string(), entry(1));
    m.insert("a".to_string(), entry(1));
    m.insert("c".to_string(), entry(2));
    assert_eq!(types_by_count(&m)[0], "c");
}

fn hash(n: u64) -> ObjectHash {
    ObjectHash { w0: n, w1: 0, w2: 0, w3: 0 }
}

#[test]
fn remote_keys_are_classified() {
    let hot = Some(IndexSeen {
        hash: hash(1),
        key: "hot".to_string(),
        entries: Some(vec![
            IndexKey::Pack("p".to_string()),
            IndexKey::Standalone("s".to_string()),
            IndexKey::Inline,
        ]),
    });
    let known =
        collect_known_keys("root", &hot, &Vec::new(), &Vec::new(), &Some("bloom".to_string()));
    let listing: Vec<(String, u64)> = [("p", 100), ("s", 20), ("hot", 3), ("bloom", 4), ("odd", 5)]
        .iter()
        .map(|(k, n)| (k.to_string(), *n))
        .collect();
    let (storage, packs) = classify_remote(&listing, &known, Some(7));
    assert_eq!((storage.pack_files.count, storage.pack_files.bytes), (1, 100));
    assert_eq!(storage.standalone_objects.bytes, 20);
    assert_eq!(storage.index_files.bytes, 3);
    assert_eq!(storage.bloom.bytes, 4);
    assert_eq!(storage.index_root.bytes, 7);
    assert_eq!(storage.orphans.bytes, 5);
    assert_eq!((storage.total().count, storage.total().bytes), (6, 139));
    assert!(!packs.is_empty());
}

fn record(detail: Option<PackDetail>) -> IoStatsRecord {
    IoStatsRecord {
        ts: "2026-06-13T02:05:11Z".to_string(),
        cmd: "push".to_string(),
        remote: "origin".to_string(),
        exists_found: 1,
        exists_miss: 2,
        writes: 3,
        write_bytes: 4,
        reads: 5,
        read_bytes: 6,
        pack_files_written: 7,
        pack_sizes_bytes: Vec::new(),
        pack_detail: detail,
    }
}

#[test]
fn io_is_summed_up() {
    let detail = PackDetail {
        deltas_merged: 0,
        packs_before: 0,
        packs_after: 0,
        consolidated_bytes_in: 0,
        consolidated_bytes_out: 0,
        pack_sizes_after: Vec::new(),
        cold_splits: 0,
        hot_index_entries: 0,
        bloom_elements: 0,
        orphaned_bytes: 0,
    };
    let records = vec![record(None), record(Some(detail)), record(None)];
    assert_eq!(latest_detail(&records), Some(1));
    assert_eq!(latest_detail(&Vec::new()), None);
    let t = io_totals(&records);
    assert_eq!((t.writes, t.write_bytes, t.reads, t.read_bytes, t.found, t.miss), (9, 12, 15, 18, 3, 6));
}
