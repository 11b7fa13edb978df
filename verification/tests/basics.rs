use omemfs::collections::{sort_strings, text_le, PathMap, PathSet};
use omemfs::error::{Error, IoKind};
use omemfs::object::{
    find_last, get_entry, navigate, Content, Halt, ObjectHash, TreeEntry, TreeNode,
};
use omemfs::text::{
    align_left, align_right, byte_count, contains, decimal_of, join, parse_u64, parse_usize,
    path_components, repeat, replace_char, split, strip_prefix, strip_suffix, trim, trim_char_end,
};
use omemfs::worktree::{find_path, is_stub_filename, logical_name, DiskEntry, DiskKind};

fn hash(n: u64) -> ObjectHash {
    ObjectHash { w0: n, w1: 1, w2: 2, w3: 3 }
}

#[test]
fn hashes_round_trip() {
    let h = ObjectHash {
        w0: 0x0123_4567_89ab_cdef,
        w1: u64::MAX,
        w2: 0,
        w3: 0xfedc_ba98_7654_3210,
    };
    let hex = h.to_hex();
    assert_eq!(hex, "0123456789abcdefffffffffffffffff0000000000000000fedcba9876543210");
    assert_eq!(h.to_short(), "01234567");
    assert_eq!(ObjectHash::from_hex(&hex), Some(h));
    assert_eq!(ObjectHash::from_hex(&hex[1..]), None);
    assert_eq!(ObjectHash::from_hex(&hex.replace('0', "g")), None);
    assert!(ObjectHash { w0: 0, w1: 0, w2: 0, w3: 0 }.is_zero());
    assert!(!h.is_zero());
}

#[test]
fn strings_are_handled() {
    assert_eq!(trim(" \ta b\n"), "a b");
    assert_eq!(split("a,b,,c", ','), vec!["a", "b", "", "c"]);
    assert_eq!(path_components("/a//b/"), vec!["a", "b"]);
    assert_eq!(join(&vec!["a".to_string(), "b".to_string()], ", "), "a, b");
    assert_eq!(decimal_of(u64::MAX), u64::MAX.to_string());
    assert_eq!(parse_u64("18446744073709551615"), Some(u64::MAX));
    assert_eq!(parse_u64("18446744073709551616"), None);
    assert_eq!(parse_u64(""), None);
    assert_eq!(parse_u64("+5"), "+5".parse::<u64>().ok());
    assert_eq!(parse_usize("-1"), None);
    assert_eq!(align_left("あ", 3), format!("{:<3}", "あ"));
    assert_eq!(align_right("ab", 4), format!("{:>4}", "ab"));
    assert_eq!(byte_count("aあ"), 4);
    assert!(contains("hello", "ell") && !contains("hello", "elo"));
    assert_eq!(strip_prefix("abc", "ab").as_deref(), Some("c"));
    assert_eq!(strip_suffix("abc", "x"), None);
    assert_eq!(repeat('x', 3), "xxx");
    assert_eq!(replace_char("a\\b", '\\', '/'), "a/b");
    assert_eq!(trim_char_end("a//", '/'), "a");
}

#[test]
fn collections_are_ordered() {
    let v: Vec<String> = ["b", "a/x", "a", "B", "あ"].iter().map(|s| s.to_string()).collect();
    let mut std_sorted = v.clone();
    std_sorted.sort();
    assert_eq!(sort_strings(v), std_sorted);
    assert!(text_le("a", "a") && text_le("a", "ab") && !text_le("b", "a"));
    let mut m: PathMap<u32> = PathMap::new();
    m.insert("b".to_string(), 1);
    m.insert("a".to_string(), 2);
    m.insert("b".to_string(), 3);
    assert_eq!(m.len(), 2);
    assert_eq!(m.get("b"), Some(&3));
    assert_eq!(m.sorted_keys(), vec!["a", "b"]);
    let mut s = PathSet::new();
    assert!(s.insert("x".to_string()));
    assert!(!s.insert("x".to_string()));
    assert_eq!(s.sorted(), vec!["x"]);
}

#[test]
fn errors_have_texts() {
    let s = || "x".to_string();
    let cases = vec![
        (Error::InvalidHash, "invalid hash: expected 64 hex characters"),
        (Error::ObjectNotFound(s()), "object not found: x"),
        (Error::AmbiguousHash(s()), "ambiguous hash prefix 'x' — matches multiple objects"),
        (
            Error::CasFailed,
            "remote has been updated since last sync\nRun 'omemfs pull' and retry 'omemfs push'.",
        ),
        (Error::LockFailed(s()), "x"),
        (Error::Conflict, "pull would overwrite local uncommitted changes"),
        (
            Error::AuthTagMismatch,
            "GCM authentication tag mismatch — object may be corrupted or tampered",
        ),
        (Error::InvalidObject(s()), "invalid object: x"),
        (Error::Io(IoKind::Other, s()), "I/O error: x"),
        (Error::SourceChanged(s()), "source file remained active while being read: x"),
        (Error::Json(s()), "JSON error: x"),
        (Error::Other(s()), "x"),
    ];
    for (e, text) in cases {
        assert_eq!(e.message(), text);
    }
    assert!(Error::Io(IoKind::NotADirectory, s()).is_live_path_race());
    assert!(Error::Io(IoKind::IsADirectory, s()).is_live_path_race());
    assert!(!Error::Io(IoKind::Other, s()).is_live_path_race());
    assert!(!Error::Conflict.is_live_path_race());
}

#[test]
fn trees_are_navigated() {
    let file = |n: u64| TreeEntry::Blob {
        name: "f".to_string(),
        hash: hash(n),
        size: 1,
        mtime: None,
        mode: None,
    };
    let es = vec![file(1), file(2)];
    assert_eq!(find_last(&es, "f"), Some(1));
    assert_eq!(find_last(&es, "g"), None);
    assert_eq!(get_entry(&es, "f").unwrap().hash(), Some(hash(2)));
    let root = TreeNode { hash: hash(0), content: Content::Entries(es) };
    assert_eq!(navigate(&root, &vec!["f".to_string()]), Ok(Some(hash(2))));
    assert_eq!(navigate(&root, &vec!["f".to_string(), "x".to_string()]), Ok(None));
    let missing = TreeNode { hash: hash(7), content: Content::Missing };
    assert_eq!(navigate(&missing, &vec!["f".to_string()]), Err(Halt::Missing(hash(7))));
}

#[test]
fn stub_files_are_known_by_their_name() {
    assert!(is_stub_filename(".omemfs-stub") && is_stub_filename("a.omemfs-stub"));
    assert!(!is_stub_filename("a"));
    assert_eq!(logical_name("a.omemfs-stub").as_deref(), Some("a"));
    assert_eq!(logical_name("a"), None);
    let es = vec![DiskEntry {
        name: "d".to_string(),
        ignored: false,
        reserved: false,
        kind: DiskKind::Dir(vec![DiskEntry {
            name: "f".to_string(),
            ignored: false,
            reserved: false,
            kind: DiskKind::File { size: 3 },
        }]),
    }];
    let path = vec!["d".to_string(), "f".to_string()];
    assert!(matches!(find_path(&es, &path, 0).unwrap().kind, DiskKind::File { size: 3 }));
    assert!(find_path(&es, &vec!["x".to_string()], 0).is_none());
}
