use omemfs::commands::cat::{
    after_local, clone_root_start, colorize_json, count_set_bits_public, final_object,
    is_pack_file, logical_note, parse_hash_for_remote, print_bloom_json, print_index_file_json,
    print_index_root_json, print_pack_object, remote_root_start, resolve_hash,
    resolve_prefix_on_remote, run, split_target, BloomInfo, CatNext, CatOptions, CatStart,
    CatStop, HashError, IndexEntryDoc, IndexRootInfo, PackObject,
};
use omemfs::commands::pack::index::IndexEntry;
use omemfs::error::Error;
use omemfs::object::{Content, ObjectHash, TreeEntry, TreeNode};

fn split(target: &str) -> (String, Option<String>) {
    split_target(target)
}

fn parts(reference: &str, path: Option<&str>) -> (String, Option<String>) {
    (reference.to_string(), path.map(|p| p.to_string()))
}

fn hash(n: u64) -> ObjectHash {
    ObjectHash { w0: n, w1: 0, w2: 0, w3: n }
}

fn options(target: &str, hash_only: bool) -> CatOptions {
    CatOptions {
        work_dir: "/w".to_string(),
        target: target.to_string(),
        hash_only,
        remote_name: "origin".to_string(),
    }
}

#[test]
fn bare_hash_has_no_subpath() {
    assert_eq!(split("a3f89b2c"), parts("a3f89b2c", None));
}

#[test]
fn hash_slash_path_splits() {
    assert_eq!(split("a3f89b2c/docs/guide.md"), parts("a3f89b2c", Some("docs/guide.md")));
}

#[test]
fn hash_colon_path_splits() {
    assert_eq!(split("a3f89b2c:docs/guide.md"), parts("a3f89b2c", Some("docs/guide.md")));
}

#[test]
fn short_prefix_with_colon_splits() {
    assert_eq!(split("a3f8:metalone"), parts("a3f8", Some("metalone")));
}

#[test]
fn earliest_separator_wins() {
    assert_eq!(split("a3f8:a/b/c"), parts("a3f8", Some("a/b/c")));
    assert_eq!(split("a3f8/a:b"), parts("a3f8", Some("a:b")));
}

#[test]
fn trailing_separator_yields_no_subpath() {
    assert_eq!(split("a3f89b2c:"), parts("a3f89b2c", None));
    assert_eq!(split("a3f89b2c/"), parts("a3f89b2c", None));
}

#[test]
fn alias_accepts_both_separators() {
    assert_eq!(split("clone-root"), parts("clone-root", None));
    assert_eq!(split("clone-root/docs/x"), parts("clone-root", Some("docs/x")));
    assert_eq!(split("clone-root:docs/x"), parts("clone-root", Some("docs/x")));
    assert_eq!(split("remote-root:readme.md"), parts("remote-root", Some("readme.md")));
}

#[test]
fn non_hex_ref_is_not_split() {
    assert_eq!(split("not-a-hash:x"), parts("not-a-hash:x", None));
}

#[test]
fn run_tells_the_targets_apart() {
    assert!(matches!(run(&options("index-root", false)), CatStart::IndexRoot));
    match run(&options("index-root", true)) {
        CatStart::Fail(e) => {
            assert_eq!(e.message(), "--hash is not supported for pack-layer objects")
        }
        _ => panic!("a hash of the index root was promised"),
    }
    assert!(matches!(run(&options("clone-root:a", false)), CatStart::CloneRoot(Some(p)) if p == "a"));
    assert!(matches!(run(&options("remote-root", false)), CatStart::RemoteRoot(None)));
    assert!(matches!(run(&options("abcd/x", false)), CatStart::ByHash(s, Some(p)) if s == "abcd" && p == "x"));
}

#[test]
fn a_prefix_names_one_object() {
    let a = hash(0x1234_5678_0000_0000);
    let b = hash(0x1234_9999_0000_0000);
    let hexes = vec![a.to_hex(), b.to_hex()];
    assert!(matches!(resolve_hash("12345", false, &hexes), Ok(h) if h == a));
    assert!(matches!(resolve_hash("1234", false, &hexes), Err(HashError::Ambiguous)));
    assert!(matches!(resolve_hash("ffff", false, &hexes), Err(HashError::NotFound)));
    assert!(matches!(resolve_hash("123", false, &hexes), Err(HashError::TooShort)));
    assert!(matches!(resolve_hash(&a.to_hex(), true, &hexes), Ok(h) if h == a));
    assert!(matches!(resolve_hash(&a.to_hex(), false, &hexes), Err(HashError::NotFound)));
    assert_eq!(HashError::TooShort.report("1").message(), "hash prefix must be at least 4 characters");
    assert_eq!(HashError::NotFound.report("ffff").message(), "object not found: ffff");
    assert_eq!(
        HashError::Ambiguous.report("1234").message(),
        "ambiguous hash prefix '1234' — matches multiple objects"
    );
}

#[test]
fn a_prefix_on_the_remote_shows_its_matches() {
    let found: Vec<ObjectHash> = (0..5).map(|i| hash(0xabcd_0000_0000_0000 + i)).collect();
    match resolve_prefix_on_remote("abcd", &found) {
        Err(e) => {
            let m = e.message();
            assert!(m.starts_with("ambiguous hash prefix 'abcd' matches 5 objects: "), "{m}");
            assert!(m.contains(&found[3].to_hex()) && !m.contains(&found[4].to_hex()), "{m}");
        }
        Ok(_) => panic!("five objects are not one"),
    }
    assert!(matches!(resolve_prefix_on_remote("abcd", &found[..1].to_vec()), Ok(h) if h == found[0]));
    assert_eq!(
        resolve_prefix_on_remote("abcd", &Vec::new()).err().unwrap().message(),
        "object not found: abcd"
    );
    assert_eq!(
        resolve_prefix_on_remote("abc", &found).err().unwrap().message(),
        "hash prefix must be at least 4 characters"
    );
}

#[test]
fn a_full_hash_is_needed_in_the_packed_layer() {
    let a = hash(7);
    assert!(matches!(parse_hash_for_remote(&a.to_hex()), Ok(h) if h == a));
    assert_eq!(
        parse_hash_for_remote("abcd").err().unwrap().message(),
        "pack-layer lookup requires a full 64-character hash"
    );
    let bad = "z".repeat(64);
    assert_eq!(
        parse_hash_for_remote(&bad).err().unwrap().message(),
        format!("invalid hash: {bad}")
    );
}

#[test]
fn what_is_not_local_is_looked_for_on_the_remote() {
    let a = hash(9);
    assert!(matches!(after_local(Ok(a), "abcd", false, false), CatNext::Local(h) if h == a));
    assert!(matches!(
        after_local(Err(HashError::NotFound), "abcd", false, false),
        CatNext::RemotePrefix
    ));
    assert!(matches!(
        after_local(Err(HashError::NotFound), &a.to_hex(), false, false),
        CatNext::PackLayer(h) if h == a
    ));
    assert!(matches!(after_local(Err(HashError::NotFound), "abcd", true, false), CatNext::Fail(_)));
    assert!(matches!(after_local(Err(HashError::NotFound), "abcd", false, true), CatNext::Fail(_)));
    assert!(matches!(after_local(Err(HashError::TooShort), "abc", false, false), CatNext::Fail(_)));
    assert!(matches!(after_local(Err(HashError::Ambiguous), "abcd", false, false), CatNext::Fail(_)));
}

#[test]
fn a_path_leads_to_an_object() {
    let file = TreeEntry::Blob {
        name: "f".to_string(),
        hash: hash(3),
        size: 1,
        mtime: None,
        mode: None,
    };
    let dir = TreeEntry::Tree {
        name: "d".to_string(),
        size: 1,
        mtime: None,
        blob_count: 1,
        node: TreeNode { hash: hash(2), content: Content::Entries(vec![file]) },
    };
    let gone = TreeEntry::Tree {
        name: "gone".to_string(),
        size: 1,
        mtime: None,
        blob_count: 1,
        node: TreeNode { hash: hash(4), content: Content::Missing },
    };
    let root = TreeNode { hash: hash(1), content: Content::Entries(vec![dir, gone]) };
    assert!(matches!(final_object(&root, &None), Ok(h) if h == hash(1)));
    assert!(matches!(final_object(&root, &Some("d/f".to_string())), Ok(h) if h == hash(3)));
    match final_object(&root, &Some("d/x".to_string())) {
        Err(CatStop::NotFound(t)) => assert_eq!(t, format!("{}/d/x", hash(1).to_hex())),
        _ => panic!("there is no such path"),
    }
    match final_object(&root, &Some("gone/x".to_string())) {
        Err(CatStop::NotFound(t)) => assert_eq!(t, hash(4).to_hex()),
        _ => panic!("the directory is not there"),
    }
    let unread = TreeNode { hash: hash(5), content: Content::Unread };
    assert!(matches!(
        final_object(&unread, &Some("a".to_string())),
        Err(CatStop::Unread(h)) if h == hash(5)
    ));
}

#[test]
fn roots_that_are_not_there_are_reported() {
    assert_eq!(
        clone_root_start(None).err().unwrap().message(),
        "no clone_root — repository has never been synced"
    );
    assert_eq!(
        remote_root_start(None, "origin").err().unwrap().message(),
        "no index root on origin"
    );
}

#[test]
fn pack_objects_are_told_apart() {
    assert!(is_pack_file(&vec![0xED, 0xE0, 0]));
    assert!(!is_pack_file(&vec![0xED]));
    assert!(matches!(print_pack_object(&vec![0xED]), PackObject::TooShort));
    assert!(matches!(print_pack_object(&vec![0xED, 0xE2]), PackObject::Index));
    assert!(matches!(print_pack_object(&vec![0xED, 0xE4]), PackObject::Bloom));
    assert!(matches!(print_pack_object(&vec![b'{', b'"', b'x', b'y']), PackObject::Logical));
    assert_eq!(
        logical_note(&hash(1)),
        format!("this is a logical object; use 'omemfs cat {}' to view its content", hash(1).to_hex())
    );
}

#[test]
fn an_index_root_shows_zero_hashes_as_none() {
    let zero = ObjectHash { w0: 0, w1: 0, w2: 0, w3: 0 };
    let doc = print_index_root_json(&IndexRootInfo {
        remote_root: hash(1),
        hot_hash: zero,
        bloom_hash: hash(2),
        cold_prefix_bits: 8,
        delta_hashes: vec![hash(3)],
        cold_shards: vec![zero, hash(4)],
    });
    assert_eq!(doc.remote_root, Some(hash(1).to_hex()));
    assert_eq!(doc.hot_hash, None);
    assert_eq!(doc.delta_hashes, vec![Some(hash(3).to_hex())]);
    assert_eq!(doc.cold_shards, vec![None, Some(hash(4).to_hex())]);
}

#[test]
fn an_index_file_shows_its_entries_in_order() {
    let entries = vec![
        IndexEntry::Pack { hash: hash(1), pack_hash: hash(2), offset: 3, length: 4 },
        IndexEntry::Inline { hash: hash(5), data: vec![1, 2, 3] },
        IndexEntry::Standalone { hash: hash(6) },
    ];
    let doc = print_index_file_json(&entries, &hash(7), &hash(8));
    assert_eq!((doc.logical_hash, doc.storage_key), (hash(7).to_hex(), hash(8).to_hex()));
    assert_eq!(doc.entry_count, 3);
    assert!(matches!(
        &doc.entries[0],
        IndexEntryDoc::Pack { hash: h, pack_hash: p, offset: 3, length: 4 }
            if *h == hash(1).to_hex() && *p == hash(2).to_hex()
    ));
    assert!(matches!(
        &doc.entries[1],
        IndexEntryDoc::Inline { hash: h, data_length: 3 } if *h == hash(5).to_hex()
    ));
    assert!(matches!(&doc.entries[2], IndexEntryDoc::Standalone { hash: h } if *h == hash(6).to_hex()));
}

#[test]
fn a_bloom_filter_is_shown_with_its_set_bits() {
    let mut bytes = vec![0u8; 20];
    bytes.push(0b0000_0111);
    let bf = BloomInfo { num_hash_functions: 7, num_bits: 8, element_count: 1, bytes };
    let doc = print_bloom_json(&bf, &hash(1), &hash(2));
    assert_eq!((doc.num_hash_functions, doc.num_bits, doc.element_count), (7, 8, 1));
    assert_eq!(doc.set_bits, 3);
    assert_eq!((doc.logical_hash, doc.storage_key), (hash(1).to_hex(), hash(2).to_hex()));
}

#[test]
fn set_bits_are_counted_behind_the_header() {
    let mut bytes = vec![0xFFu8; 20];
    bytes.push(0b1010_0001);
    bytes.push(0xFF);
    assert_eq!(count_set_bits_public(&bytes), 11);
}

#[test]
fn colours_keep_the_text_of_json() {
    let json = "{\n  \"a\": \"b\\\"c\",\n  \"n\": null,\n  \"t\": true,\n  \"x\": -1.5\n}";
    let coloured = colorize_json(json);
    assert_ne!(coloured, json);
    let mut plain = String::new();
    let mut rest = coloured.as_str();
    while let Some(i) = rest.find('\u{1b}') {
        plain.push_str(&rest[..i]);
        let end = rest[i..].find('m').unwrap();
        rest = &rest[i + end + 1..];
    }
    plain.push_str(rest);
    assert_eq!(plain, json);
}

#[test]
fn refusals_are_of_no_particular_kind() {
    assert!(matches!(clone_root_start(None), Err(Error::Other(_))));
    assert!(matches!(remote_root_start(None, "origin"), Err(Error::Other(_))));
    assert!(matches!(parse_hash_for_remote("abcd"), Err(Error::Other(_))));
    assert!(matches!(resolve_prefix_on_remote("abc", &Vec::new()), Err(Error::Other(_))));
    assert!(matches!(resolve_prefix_on_remote("abcd", &Vec::new()), Err(Error::ObjectNotFound(_))));
}
