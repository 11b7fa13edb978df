use omemfs::commands::log::{
    colorize_prefix, counts_for_layer, find_logs_dir, fmt_size, is_logical_name, layer_matches,
    layer_tag_short, parse_layer_filters, parse_timestamp_from_stem, print_timers, resolve_at_ref,
    resolve_latest, resolve_logical_name, resolve_ref, run_ls, run_show, run_timers,
    scan_log_entries, truncate_chars, LogFile, LogLsOptions, LogRef, LogShowOptions,
    LogTimersOptions, ParsedLine, RawLine, SortKey, TimerRow,
};
use omemfs::commands::log::spans::{group_spans, rank_descending, SpanKey};
use omemfs::debug::Layer;

#[test]
fn truncate_chars_ascii_under_limit() {
    assert_eq!(truncate_chars("hello", 40), "hello");
}

#[test]
fn truncate_chars_ascii_over_limit() {
    let s = "a".repeat(50);
    assert_eq!(truncate_chars(&s, 40).chars().count(), 40);
}

#[test]
fn truncate_chars_multibyte_no_panic() {
    let s = "あ".repeat(30);
    assert_eq!(truncate_chars(&s, 40), s);
    let cut = truncate_chars(&s, 10);
    assert_eq!(cut.chars().count(), 10);
    assert_eq!(cut, "あ".repeat(10));
}

#[test]
fn is_logical_name_true() {
    assert!(is_logical_name("20260522-143012-push"));
    assert!(is_logical_name("20260522-143012-pull"));
}

#[test]
fn is_logical_name_false_for_paths() {
    assert!(!is_logical_name("/absolute/path.log"));
    assert!(!is_logical_name("relative/path.log"));
    assert!(!is_logical_name("file.log"));
}

#[test]
fn is_logical_name_false_for_at_ref() {
    assert!(!is_logical_name("@1"));
    assert!(!is_logical_name("@10"));
}

#[test]
fn parse_timestamp_well_formed() {
    let ts = parse_timestamp_from_stem("20260522-143012-push");
    assert_eq!(ts, "2026-05-22 14:30:12");
}

#[test]
fn parse_timestamp_short_stem() {
    let ts = parse_timestamp_from_stem("short");
    assert_eq!(ts, "short");
}

#[test]
fn fmt_size_bytes() {
    assert_eq!(fmt_size(500), "500 B");
}

#[test]
fn fmt_size_kilo() {
    assert_eq!(fmt_size(2048), "2.0 K");
}

#[test]
fn fmt_size_mega() {
    assert_eq!(fmt_size(1024 * 1024), "1.0 M");
}

#[test]
fn sizes_are_rounded_as_floats_are() {
    for n in [1024u64, 1075, 1126, 1280, 1331, 1536, 99_999, 1_048_575] {
        assert_eq!(fmt_size(n), format!("{:.1} K", n as f64 / 1024.0), "{n}");
    }
    for n in [1_048_576u64, 1_310_720, 5_555_555, 987_654_321] {
        assert_eq!(fmt_size(n), format!("{:.1} M", n as f64 / (1024.0 * 1024.0)), "{n}");
    }
}

fn file(name: &str) -> LogFile {
    LogFile { name: name.to_string(), path: format!("/l/{name}"), size: 10 }
}

#[test]
fn logs_are_listed_newest_first() {
    let files = vec![
        file("20260101-000000-push.log"),
        file("latest.log"),
        file("20260301-000000-pull.log"),
        file("notes.txt"),
    ];
    let entries = scan_log_entries(&files, &Some("20260301-000000-pull.log".to_string()));
    let names: Vec<&str> = entries.iter().map(|e| e.logical_name.as_str()).collect();
    assert_eq!(names, vec!["20260301-000000-pull", "20260101-000000-push"]);
    assert!(entries[0].is_latest && !entries[1].is_latest);
    let opts = LogLsOptions { work_dir: "w".to_string(), cmd: None, count: 1 };
    let lines = run_ls(&opts, "/l", &entries);
    assert!(lines.iter().any(|l| l.contains("20260301-000000-pull")), "{lines:?}");
    assert!(!lines.iter().any(|l| l.contains("20260101-000000-push")), "{lines:?}");
    assert_eq!(resolve_at_ref("@1", &entries).unwrap(), "/l/20260301-000000-pull.log");
    assert_eq!(resolve_at_ref("@2", &entries).unwrap(), "/l/20260101-000000-push.log");
    assert_eq!(
        resolve_at_ref("@0", &entries).unwrap_err().message(),
        "invalid REF '@0': index must be 1 or greater"
    );
    assert_eq!(resolve_at_ref("@3", &entries).unwrap_err().message(), "no log entry at index 3");
    assert_eq!(
        resolve_at_ref("@x", &entries).unwrap_err().message(),
        "invalid REF '@x': expected @<number>"
    );
}

#[test]
fn references_are_told_apart() {
    assert!(matches!(resolve_ref(&None), LogRef::Latest));
    assert!(matches!(resolve_ref(&Some("@3".to_string())), LogRef::At(s) if s == "@3"));
    assert!(matches!(
        resolve_ref(&Some("20260522-143012-push".to_string())),
        LogRef::Name(s) if s == "20260522-143012-push"
    ));
    assert!(matches!(resolve_ref(&Some("/x.log".to_string())), LogRef::Path(s) if s == "/x.log"));
}

#[test]
fn logs_are_found_where_they_are() {
    let dirs = vec!["/a".to_string(), "/b".to_string()];
    assert_eq!(find_logs_dir(&dirs, &vec![false, true]).unwrap(), "/b");
    assert!(find_logs_dir(&dirs, &vec![false, false]).is_err());
    assert_eq!(resolve_latest(&dirs, &vec![true, true]).unwrap(), "/a");
    assert!(resolve_latest(&dirs, &vec![false, false]).is_err());
    assert_eq!(resolve_logical_name("n", "/l/n.log", true).unwrap(), "/l/n.log");
    assert!(resolve_logical_name("n", "/l/n.log", false).is_err());
}

#[test]
fn layers_are_filtered() {
    let specs = vec!["L1".to_string(), "zz".to_string()];
    assert!(parse_layer_filters(&specs, &vec![Some(Layer::L1), None]).is_err());
    let filter = parse_layer_filters(&specs[..1].to_vec(), &vec![Some(Layer::L1)]).unwrap();
    assert!(layer_matches(&Layer::L1, &filter));
    assert!(!layer_matches(&Layer::L2, &filter));
    assert!(layer_matches(&Layer::L2, &Vec::new()));
    let line = |layer: Layer, text: &str| RawLine {
        raw: format!("[{}] {}", layer_tag_short(layer), text),
        parsed: Some(ParsedLine { layer, text: text.to_string() }),
    };
    let lines = vec![line(Layer::L1, "one"), line(Layer::L2, "two"), line(Layer::L1, "three")];
    let mut opts = LogShowOptions {
        work_dir: "w".to_string(),
        file: None,
        layers: Vec::new(),
        grep: None,
    };
    assert_eq!(run_show(&opts, &lines, &filter, false).len(), 2);
    opts.grep = Some("thr".to_string());
    let shown = run_show(&opts, &lines, &Vec::new(), false);
    assert_eq!(shown, vec![lines[2].raw.clone()]);
}

#[test]
fn a_nested_span_of_the_first_layer_does_not_count() {
    assert!(counts_for_layer(Layer::L1, 0));
    assert!(!counts_for_layer(Layer::L1, 1));
    assert!(counts_for_layer(Layer::L7, 1));
}

#[test]
fn timers_are_shown_in_columns() {
    let row = |label: &str| TimerRow {
        label: label.to_string(),
        layer: Layer::L1,
        count: 2,
        total: "3s".to_string(),
        avg: "1s".to_string(),
        max: "2s".to_string(),
    };
    let lines = print_timers(&vec![row("scan"), row("store")]);
    assert!(lines.iter().any(|l| l.contains("scan") && l.contains("3s")), "{lines:?}");
    let opts = |sort: &str| LogTimersOptions {
        work_dir: "w".to_string(),
        file: None,
        sort: sort.to_string(),
        layers: Vec::new(),
    };
    let layers = vec![Layer::L1, Layer::L2, Layer::L1];
    let (kept, key) = run_timers(&opts("avg"), &layers, &vec![Layer::L1]);
    assert_eq!(kept, vec![0, 2]);
    assert!(matches!(key, SortKey::Avg));
    assert!(matches!(run_timers(&opts("total"), &layers, &Vec::new()).1, SortKey::Total));
    assert!(matches!(run_timers(&opts("max"), &layers, &Vec::new()).1, SortKey::Max));
    assert!(matches!(run_timers(&opts("count"), &layers, &Vec::new()).1, SortKey::Count));
}

#[test]
fn a_prefix_is_coloured_by_its_layer() {
    let raw = "[L1] hello";
    let c = colorize_prefix(raw, Layer::L1);
    assert!(c.contains("hello"));
}

#[test]
fn a_name_is_cut_by_its_bytes() {
    assert_eq!(parse_timestamp_from_stem("20260613-020511-push"), "2026-06-13 02:05:11");
    // Four characters of two bytes each stand where the date would be.
    assert_eq!(parse_timestamp_from_stem("éééé-020511-x"), "éé-é-é 02:05:11");
    assert_eq!(parse_timestamp_from_stem("ééééx020511-x"), "ééééx020511-x");
    assert_eq!(colorize_prefix("éééééééé rest", Layer::L1), "\u{1b}[32méééééééé\u{1b}[0m rest");
}

#[test]
fn spans_are_grouped_and_ranked() {
    let key = |label: &str, layer: Layer| SpanKey { label: label.to_string(), layer };
    let groups = group_spans(&vec![
        key("scan", Layer::L1),
        key("read", Layer::L7),
        key("scan", Layer::L1),
        key("scan", Layer::L7),
        key("read", Layer::L7),
    ]);
    let got: Vec<(&str, Layer, Vec<usize>)> =
        groups.iter().map(|g| (g.label.as_str(), g.layer, g.members.clone())).collect();
    assert_eq!(
        got,
        vec![
            ("scan", Layer::L1, vec![0, 2]),
            ("read", Layer::L7, vec![1, 4]),
            ("scan", Layer::L7, vec![3]),
        ]
    );
    assert_eq!(rank_descending(&vec![3, 9, 3, 0]), vec![1, 0, 2, 3]);
    assert!(rank_descending(&Vec::new()).is_empty());
}
