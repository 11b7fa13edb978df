use omemfs::collections::PathSet;
use omemfs::commands::cat::IndexRootInfo;
use omemfs::commands::pack::consolidate::{
    candidates, consolidate_pack_files, pack_file, pack_hashes, place_packs, PackBytes,
};
use omemfs::commands::pack::index::{merge_deltas_into_hot, split_hot_cold, IndexEntry};
use omemfs::commands::pack::reach::{
    collect_hot_hashes, collect_stubbed_paths, collect_tree_hashes, Manifest,
};
use omemfs::commands::pack::shards::{
    apply_cold_entries, distinct_shards, largest_oversized, leading_byte, most_populous,
    point_shared, regenerate_bloom, retarget, shard_entries, split_by_prefix, ColdIndex, ColdStep,
};
use omemfs::commands::pack::{
    encrypt_index_root, pseudo_hash, remap_cas_failure, run, seal_start, summarise, PackFacts,
    PackStart, DONE_LINE,
};
use omemfs::commands::transfer::HashNames;
use omemfs::error::Error;
use omemfs::object::{Content, ObjectHash, TreeEntry, TreeNode};
use omemfs::worktree::{DiskEntry, DiskKind};

fn hash(first: u8, n: u64) -> ObjectHash {
    ObjectHash { w0: (first as u64) << 56, w1: 0, w2: 0, w3: n }
}

fn alone(n: u64) -> IndexEntry {
    IndexEntry::Standalone { hash: hash(0, n) }
}

fn inline(first: u8, n: u64, data: &[u8]) -> IndexEntry {
    IndexEntry::Inline { hash: hash(first, n), data: data.to_vec() }
}

fn packed(n: u64, pack: u64, offset: u32, length: u32) -> IndexEntry {
    IndexEntry::Pack { hash: hash(0, n), pack_hash: hash(9, pack), offset, length }
}

#[test]
fn remap_cas_failure_gives_pack_specific_guidance() {
    let msg = remap_cas_failure(Error::CasFailed).message();
    assert!(
        msg.contains("remote has been updated since last sync"),
        "first line must be preserved, got: {msg:?}"
    );
    assert!(
        msg.contains("Re-run 'omemfs pack'."),
        "pack guidance must instruct re-running pack, got: {msg:?}"
    );
    assert!(
        !msg.contains("omemfs push"),
        "pack guidance must not mention push, got: {msg:?}"
    );
    assert!(
        !msg.contains("omemfs pull"),
        "pack guidance must not instruct a pull, got: {msg:?}"
    );
}

#[test]
fn remap_cas_failure_passes_through_other_errors() {
    let msg = remap_cas_failure(Error::Other("disk on fire".to_string())).message();
    assert_eq!(msg, "disk on fire");
}

#[test]
fn without_an_index_root_there_is_nothing_to_do() {
    assert!(matches!(
        run(None),
        PackStart::Nothing(s) if s == "omemfs pack: no index root found; nothing to do."
    ));
    assert_eq!(DONE_LINE, "omemfs pack: done.");
}

fn zero() -> ObjectHash {
    ObjectHash { w0: 0, w1: 0, w2: 0, w3: 0 }
}

fn index_root() -> IndexRootInfo {
    IndexRootInfo {
        remote_root: hash(1, 1),
        hot_hash: hash(2, 2),
        bloom_hash: hash(3, 3),
        cold_prefix_bits: 0,
        delta_hashes: vec![hash(4, 4), hash(5, 5)],
        cold_shards: vec![hash(6, 6)],
    }
}

#[test]
fn a_run_changes_the_index_root() {
    let PackStart::Go(mut run) = run(Some(index_root())) else {
        panic!("there is an index root");
    };
    assert_eq!(run.hot_index(), Some(hash(2, 2)));
    assert_eq!(run.facts.deltas, 2);
    let hot = vec![packed(1, 1, 0, 2), packed(2, 1, 2, 1), inline(0, 3, b"old")];
    let deltas = vec![vec![inline(0, 3, b"new")], vec![inline(0, 4, b"d")]];
    let mut used = HashNames::new();
    for n in [1, 2, 3] {
        used.insert(hash(0, n));
    }
    run.merge(&hot, &deltas, &used);
    assert_eq!(run.hot.len(), 3);
    assert_eq!(data_of(&run.hot, 3), Some(b"new".to_vec()));
    assert_eq!(data_of(&run.cold, 4), Some(b"d".to_vec()));

    let bufs = vec![PackBytes { hash: hash(9, 1), bytes: vec![0xED, 0xE1, 10, 11, 12] }];
    let Ok(packs) = run.regroup(&bufs, 1000, 1000) else {
        panic!("the entries are in range");
    };
    assert_eq!(packs.len(), 1);
    run.packs_written(&packs, &vec![hash(8, 8)]);
    assert_eq!((run.facts.candidates, run.facts.bytes_in, run.facts.hot_entries), (1, 3, 3));
    assert_eq!(run.facts.new_sizes, vec![5]);
    assert!(run.hot.iter().any(|e| matches!(
        e,
        IndexEntry::Pack { hash: h, pack_hash, length: 1, .. }
            if *h == hash(0, 2) && *pack_hash == hash(8, 8)
    )));

    run.hot_written(hash(10, 10));
    assert_eq!(run.root.hot_hash, hash(10, 10));
    assert!(run.root.delta_hashes.is_empty());
    assert_eq!(run.cold_step(), ColdStep::Rewrite { base: Some(hash(6, 6)) });
    let shard = run.cold_shard(&vec![alone(7)]);
    assert_eq!(shard.iter().map(|e| e.hash()).collect::<Vec<_>>(), vec![hash(0, 7), hash(0, 4)]);
    run.cold_written(hash(11, 11));
    assert_eq!(run.root.cold_shards, vec![hash(11, 11)]);
    run.split_written(hash(11, 11), 0x10, hash(12, 12), hash(13, 13));
    assert!(run.facts.did_split);
    assert_eq!((run.root.cold_prefix_bits, run.root.cold_shards.len()), (8, 256));
    assert_eq!((run.root.cold_shards[0x10], run.root.cold_shards[0]), (hash(12, 12), hash(13, 13)));
    run.bloom_written(hash(14, 14), 4);
    assert_eq!((run.root.bloom_hash, run.facts.bloom_elements), (hash(14, 14), 4));
    assert_eq!(run.root.remote_root, hash(1, 1));
}

#[test]
fn a_run_without_hot_index_or_cold_entries() {
    let mut root = index_root();
    root.hot_hash = zero();
    root.cold_shards = Vec::new();
    let PackStart::Go(mut run) = run(Some(root)) else {
        panic!("there is an index root");
    };
    assert_eq!(run.hot_index(), None);
    assert_eq!(run.cold_step(), ColdStep::Done);
    assert_eq!(run.root.cold_shards, vec![zero()]);
    let bad = PackBytes { hash: hash(9, 1), bytes: vec![0xED, 0xE1] };
    run.hot = vec![packed(1, 1, 0, 2)];
    assert!(matches!(run.regroup(&vec![bad], 10, 10), Err(Error::InvalidObject(_))));
}

fn data_of(es: &[IndexEntry], n: u64) -> Option<Vec<u8>> {
    es.iter().find_map(|e| match e {
        IndexEntry::Inline { hash: h, data } if *h == hash(0, n) => Some(data.clone()),
        _ => None,
    })
}

#[test]
fn the_newest_delta_wins() {
    let hot = vec![inline(0, 1, b"hot"), inline(0, 2, b"hot")];
    let deltas = vec![
        vec![inline(0, 1, b"newest")],
        vec![inline(0, 1, b"older"), inline(0, 3, b"first"), inline(0, 3, b"second")],
    ];
    let merged = merge_deltas_into_hot(&hot, &deltas);
    assert_eq!(merged.len(), 3);
    assert_eq!(data_of(&merged, 1).unwrap(), b"newest");
    assert_eq!(data_of(&merged, 2).unwrap(), b"hot");
    assert_eq!(data_of(&merged, 3).unwrap(), b"second");
}

#[test]
fn unused_entries_go_cold() {
    let es = vec![inline(0, 1, b"a"), packed(2, 1, 0, 1), alone(3), inline(0, 4, b"b")];
    let mut used = HashNames::new();
    used.insert(hash(0, 2));
    used.insert(hash(0, 4));
    let (hot, cold) = split_hot_cold(&es, &used);
    let names = |v: &[IndexEntry]| v.iter().map(|e| e.hash()).collect::<Vec<_>>();
    assert_eq!(names(&hot), vec![hash(0, 2), hash(0, 3), hash(0, 4)]);
    assert_eq!(names(&cold), vec![hash(0, 1)]);
}

fn blob(name: &str, n: u64) -> TreeEntry {
    TreeEntry::Blob { name: name.to_string(), hash: hash(0, n), size: 1, mtime: None, mode: None }
}

fn tree(name: &str, n: u64, content: Content) -> TreeEntry {
    TreeEntry::Tree {
        name: name.to_string(),
        size: 1,
        mtime: None,
        blob_count: 1,
        node: TreeNode { hash: hash(0, n), content },
    }
}

fn disk(name: &str, kind: DiskKind) -> DiskEntry {
    DiskEntry { name: name.to_string(), ignored: false, reserved: false, kind }
}

#[test]
fn stubs_hide_what_is_below_them() {
    let root = TreeNode {
        hash: hash(0, 1),
        content: Content::Entries(vec![
            blob("f", 2),
            tree("s", 3, Content::Unread),
            tree("m", 4, Content::Missing),
            tree("d", 5, Content::Entries(vec![blob("g", 6)])),
        ]),
    };
    let work = vec![
        disk(".omemfs", DiskKind::Dir(vec![disk("z.omemfs-stub", DiskKind::File { size: 1 })])),
        disk("s", DiskKind::Dir(vec![disk(".omemfs-stub", DiskKind::File { size: 1 })])),
        disk("b.omemfs-stub", DiskKind::File { size: 1 }),
        disk("c.omemfs-stub", DiskKind::Symlink { leads: true, to_file: false }),
    ];
    let stubbed = collect_stubbed_paths(&work);
    assert_eq!(stubbed.sorted(), vec!["b", "s"]);
    let manifests = vec![Manifest { blob: hash(0, 2), chunks: vec![hash(0, 20), hash(0, 21)] }];
    let hot = collect_hot_hashes(Some(&root), None, &work, &manifests).unwrap();
    for (n, there) in [(1, true), (2, true), (20, true), (21, true), (3, true), (4, true), (5, true), (6, true), (7, false)] {
        assert_eq!(hot.contains(hash(0, n)), there, "{n}");
    }
    let mut out = HashNames::new();
    assert!(matches!(
        collect_tree_hashes(&root, "", &PathSet::new(), &manifests, &mut out),
        Err(h) if h == hash(0, 3)
    ));
}

#[test]
fn small_packs_are_put_together() {
    let es = vec![
        packed(1, 1, 0, 3),
        inline(0, 2, b"x"),
        packed(3, 2, 1, 2),
        packed(4, 3, 0, 9),
        packed(5, 1, 3, 2),
    ];
    assert_eq!(pack_hashes(&es), vec![hash(9, 1), hash(9, 2), hash(9, 3)]);
    assert_eq!(
        candidates(&vec![(hash(9, 1), 7), (hash(9, 2), 2_097_151), (hash(9, 3), 2_097_152)]),
        vec![hash(9, 1), hash(9, 2)]
    );
    let bufs = vec![
        PackBytes { hash: hash(9, 1), bytes: vec![0xED, 0xE1, b'a', b'b', b'c', b'd', b'e'] },
        PackBytes { hash: hash(9, 2), bytes: vec![0xED, 0xE1, b'_', b'x', b'y'] },
    ];
    let done = consolidate_pack_files(&es, &bufs, 5, 100).unwrap();
    assert_eq!(done.bytes_in, 7);
    assert_eq!(done.kept.len(), 2);
    assert_eq!(done.packs.len(), 2);
    let first = pack_file(&done.packs[0]);
    assert_eq!(first, vec![0xED, 0xE1, b'a', b'b', b'c', b'x', b'y']);
    assert_eq!(pack_file(&done.packs[1]), vec![0xED, 0xE1, b'd', b'e']);
    let placed = place_packs(&done.kept, &done.packs, &vec![hash(8, 1), hash(8, 2)]);
    assert_eq!(placed.len(), 5);
    let moved = placed.iter().find(|e| e.hash() == hash(0, 3)).unwrap();
    match moved {
        IndexEntry::Pack { pack_hash, offset, length, .. } => {
            assert_eq!((*pack_hash, *offset, *length), (hash(8, 1), 3, 2));
            let from = 2 + *offset as usize;
            assert_eq!(&first[from..from + *length as usize], b"xy");
        }
        _ => panic!("it lies in a pack file"),
    }
}

#[test]
fn an_entry_out_of_range_is_reported() {
    let es = vec![packed(1, 1, 1, 3)];
    let bufs = vec![PackBytes { hash: hash(9, 1), bytes: vec![0xED, 0xE1, 0, 0, 0] }];
    match consolidate_pack_files(&es, &bufs, 5, 100) {
        Err(e) => assert_eq!(
            e.message(),
            format!(
                "invalid object: pack {} entry {} out of range: 3..6 exceeds 5 bytes",
                hash(9, 1).to_hex(),
                hash(0, 1).to_hex()
            )
        ),
        Ok(_) => panic!("the file ends before the entry"),
    }
}

#[test]
fn cold_entries_go_to_one_shard() {
    let zero = ObjectHash { w0: 0, w1: 0, w2: 0, w3: 0 };
    let mut slots: Vec<ObjectHash> = Vec::new();
    assert_eq!(apply_cold_entries(true, &mut slots), ColdStep::Done);
    assert_eq!(slots, vec![zero]);
    assert_eq!(apply_cold_entries(false, &mut slots), ColdStep::Rewrite { base: None });
    let mut two = vec![hash(1, 1), hash(2, 2)];
    assert_eq!(
        apply_cold_entries(false, &mut two),
        ColdStep::Rewrite { base: Some(hash(1, 1)) }
    );
    let all = shard_entries(&vec![alone(1)], &vec![alone(2), alone(3)]);
    assert_eq!(all.iter().map(|e| e.hash()).collect::<Vec<_>>(), vec![hash(0, 1), hash(0, 2), hash(0, 3)]);
    point_shared(&mut two, hash(7, 7));
    assert_eq!(two, vec![hash(7, 7), hash(2, 2)]);
    let mut four = vec![hash(1, 1), hash(2, 2), hash(1, 1), zero];
    point_shared(&mut four, hash(7, 7));
    assert_eq!(four, vec![hash(7, 7), hash(2, 2), hash(7, 7), zero]);
    let mut unused = vec![zero, zero];
    point_shared(&mut unused, hash(7, 7));
    assert_eq!(unused, vec![hash(7, 7), hash(7, 7)]);
    let mut empty: Vec<ObjectHash> = Vec::new();
    point_shared(&mut empty, hash(7, 7));
    assert_eq!(empty, vec![hash(7, 7)]);
}

#[test]
fn the_largest_shard_is_split() {
    let zero = ObjectHash { w0: 0, w1: 0, w2: 0, w3: 0 };
    let slots = vec![hash(1, 1), zero, hash(2, 2), hash(1, 1)];
    assert_eq!(distinct_shards(&slots), vec![hash(1, 1), hash(2, 2)]);
    assert_eq!(largest_oversized(&vec![4_194_304, 5]), None);
    assert_eq!(largest_oversized(&vec![4_194_305, 5_000_000, 5_000_000]), Some(1));
    let es = vec![inline(0xAB, 1, b""), inline(0x01, 2, b""), inline(0xAB, 3, b"")];
    assert_eq!(leading_byte(es[0].hash()), 0xAB);
    assert_eq!(most_populous(&es), Some(0xAB));
    assert_eq!(most_populous(&Vec::new()), None);
    let (own, rest) = split_by_prefix(&es, 0xAB);
    assert_eq!((own.len(), rest.len()), (2, 1));
    let mut cold = ColdIndex { prefix_bits: 1, shards: vec![hash(1, 1), hash(2, 2)] };
    retarget(&mut cold, hash(2, 2), 0xAB, hash(3, 3), hash(4, 4));
    assert_eq!((cold.prefix_bits, cold.shards.len()), (8, 256));
    assert_eq!(cold.shards[0x7F], hash(1, 1));
    assert_eq!(cold.shards[0x80], hash(4, 4));
    assert_eq!(cold.shards[0xAB], hash(3, 3));
    assert_eq!(cold.shards[0xFF], hash(4, 4));
    let names = regenerate_bloom(&vec![alone(1)], &vec![own, rest]);
    assert_eq!(names, vec![hash(0, 1), hash(0xAB, 1), hash(0xAB, 3), hash(0x01, 2)]);
}

#[test]
fn an_index_root_is_framed() {
    assert!(seal_start(false).is_none());
    let a = seal_start(true).unwrap();
    let b = seal_start(true).unwrap();
    assert_eq!((a.nonce.len(), a.pseudo_hash.len()), (12, 32));
    assert_ne!(a.nonce, b.nonce);
    assert_eq!(&a.pseudo_hash[..12], &a.nonce[..]);
    assert!(a.pseudo_hash[12..].iter().all(|x| *x == 0));
    let nonce = a.nonce.clone();
    assert_eq!(pseudo_hash(&nonce), a.pseudo_hash);
    let framed = encrypt_index_root(Some(a), vec![1, 2, 3]);
    assert_eq!(&framed[..12], &nonce[..]);
    assert_eq!(&framed[12..], &[1, 2, 3]);
    assert_eq!(encrypt_index_root(None, vec![1, 2, 3]), vec![1, 2, 3]);
}

#[test]
fn a_run_is_summed_up() {
    let d = summarise(PackFacts {
        deltas: 4,
        candidates: 3,
        bytes_in: 100,
        new_sizes: vec![60, 44],
        hot_entries: 9,
        old_hot: Some(10),
        old_deltas: vec![Some(1), None, Some(2)],
        old_bloom: None,
        did_split: true,
        bloom_elements: 11,
    });
    assert_eq!((d.deltas_merged, d.packs_before, d.packs_after), (4, 3, 2));
    assert_eq!((d.consolidated_bytes_in, d.consolidated_bytes_out), (100, 104));
    assert_eq!(d.pack_sizes_after, vec![60, 44]);
    assert_eq!((d.cold_splits, d.hot_index_entries, d.bloom_elements), (1, 9, 11));
    assert_eq!(d.orphaned_bytes, 113);
}
