//! The part of the statistics that is about the local store.

use crate::collections::{self, PathMap};
use crate::commands::stats::figures::{self, fmt_int, fmt_size};
use crate::commands::stats::objects::{self, BlobTypeEntry, CompressCount, SizeStats, Stats, StatsView};
use crate::commands::stats::report::{self, put, widest, SECTION_RULE};
use crate::text::{self, align_left, align_right, decimal_of, join, repeat};
use vstd::prelude::*;
use vstd::string::*;

verus! {

// ---------------------------------------------------------------------------
// Objects
// ---------------------------------------------------------------------------

/// A line with a count, to the right of its column, and a remark.
pub open spec fn object_line(label: Seq<char>, n: nat, remark: Seq<char>) -> Seq<char> {
    label + text::right_in(figures::count_text(n), 7) + remark
}

/// The objects by what they are. The shares of files and trees are texts.
pub open spec fn object_lines(s: StatsView, blob_pct: Seq<char>, tree_pct: Seq<char>) -> Seq<
    Seq<char>,
> {
    seq![
        "Objects:  "@ + figures::count_text(
            (s.tree_stats.count + s.blob_stats.count + s.chunk_manifest_count + s.chunk_body_count
                + s.unknown_count) as nat,
        ) + " total"@,
    ] + (if s.blob_stats.count > 0 {
        seq![
            object_line(
                "  blob              "@,
                s.blob_stats.count as nat,
                "  ("@ + blob_pct + ")"@,
            ),
        ]
    } else {
        seq![]
    }) + (if s.tree_stats.count > 0 {
        seq![
            object_line(
                "  tree              "@,
                s.tree_stats.count as nat,
                "  ("@ + tree_pct + ")"@,
            ),
        ]
    } else {
        seq![]
    }) + (if s.chunk_manifest_count > 0 || s.chunk_body_count > 0 {
        seq![
            object_line("  chunk-manifest    "@, s.chunk_manifest_count as nat, ""@),
            object_line("  chunk-body        "@, s.chunk_body_count as nat, ""@),
        ]
    } else {
        seq![]
    }) + (if s.unknown_count > 0 {
        seq![object_line("  unknown           "@, s.unknown_count as nat, ""@)]
    } else {
        seq![]
    })
}

fn put_object(out: &mut Vec<String>, label: &str, n: u64, remark: &str)
    ensures
        text::views(final(out)@) == text::views(old(out)@).push(
            object_line(label@, n as nat, remark@),
        ),
{
    let mut s: String = label.to_owned();
    s.append(align_right(fmt_int(n).as_str(), 7).as_str());
    s.append(remark);
    put(out, s);
}

fn put_objects(out: &mut Vec<String>, s: &Stats, blob_pct: &str, tree_pct: &str)
    requires
        s.wf(),
    ensures
        text::views(final(out)@) == text::views(old(out)@) + object_lines(
            s@,
            blob_pct@,
            tree_pct@,
        ),
{
    let ghost before = text::views(out@);
    let total: u64 = s.tree_stats.count + s.blob_stats.count + s.chunk_manifest_count
        + s.chunk_body_count + s.unknown_count;
    let mut head: String = "Objects:  ".to_owned();
    head.append(fmt_int(total).as_str());
    head.append(" total");
    put(out, head);
    if s.blob_stats.count > 0 {
        let remark = text::concat3("  (", blob_pct, ")");
        put_object(out, "  blob              ", s.blob_stats.count, remark.as_str());
    }
    if s.tree_stats.count > 0 {
        let remark = text::concat3("  (", tree_pct, ")");
        put_object(out, "  tree              ", s.tree_stats.count, remark.as_str());
    }
    if s.chunk_manifest_count > 0 || s.chunk_body_count > 0 {
        put_object(out, "  chunk-manifest    ", s.chunk_manifest_count, "");
        put_object(out, "  chunk-body        ", s.chunk_body_count, "");
    }
    if s.unknown_count > 0 {
        put_object(out, "  unknown           ", s.unknown_count, "");
    }
    assert(text::views(out@) =~= before + object_lines(s@, blob_pct@, tree_pct@));
}

// ---------------------------------------------------------------------------
// Compression
// ---------------------------------------------------------------------------

/// A method of compression: all objects, trees, files, and the bytes stored.
pub struct MethodRow {
    pub label: String,
    pub total: u64,
    pub tree: u64,
    pub blob: u64,
    pub stored: u64,
}

/// What a row says.
pub struct MethodView {
    pub label: Seq<char>,
    pub total: u64,
    pub tree: u64,
    pub blob: u64,
    pub stored: u64,
}

impl View for MethodRow {
    type V = MethodView;

    open spec fn view(&self) -> MethodView {
        MethodView {
            label: self.label@,
            total: self.total,
            tree: self.tree,
            blob: self.blob,
            stored: self.stored,
        }
    }
}

/// What rows say.
pub open spec fn method_views(rows: Seq<MethodRow>) -> Seq<MethodView> {
    Seq::new(rows.len(), |i: int| rows[i]@)
}

/// A row, if the method occurs.
pub open spec fn if_used(row: MethodView) -> Seq<MethodView> {
    if row.total > 0 || row.tree > 0 || row.blob > 0 {
        seq![row]
    } else {
        seq![]
    }
}

/// The methods that occur.
pub open spec fn methods_used(s: StatsView) -> Seq<MethodView> {
    let (t, tr, bl) = (s.compress_total, s.compress_tree, s.compress_blob);
    if_used(
        MethodView {
            label: "dict_zstd"@,
            total: t.dict_zstd,
            tree: tr.dict_zstd,
            blob: bl.dict_zstd,
            stored: t.dict_zstd_bytes,
        },
    ) + if_used(
        MethodView {
            label: "plain_zstd"@,
            total: t.plain_zstd,
            tree: tr.plain_zstd,
            blob: bl.plain_zstd,
            stored: t.plain_zstd_bytes,
        },
    ) + if_used(
        MethodView {
            label: "escaped_raw"@,
            total: t.escaped_raw,
            tree: tr.escaped_raw,
            blob: bl.escaped_raw,
            stored: t.escaped_raw_bytes,
        },
    ) + if_used(
        MethodView {
            label: "raw"@,
            total: t.raw,
            tree: tr.raw,
            blob: bl.raw,
            stored: t.raw_bytes,
        },
    )
}

fn add_if_used(rows: &mut Vec<MethodRow>, label: &str, total: u64, tree: u64, blob: u64, stored: u64)
    ensures
        method_views(final(rows)@) == method_views(old(rows)@) + if_used(
            MethodView { label: label@, total, tree, blob, stored },
        ),
{
    let ghost before = method_views(rows@);
    if total > 0 || tree > 0 || blob > 0 {
        rows.push(MethodRow { label: label.to_owned(), total, tree, blob, stored });
    }
    assert(method_views(rows@) =~= before + if_used(
        MethodView { label: label@, total, tree, blob, stored },
    ));
}

fn find_methods(s: &Stats) -> (r: Vec<MethodRow>)
    ensures
        method_views(r@) == methods_used(s@),
{
    let t = &s.compress_total;
    let tr = &s.compress_tree;
    let bl = &s.compress_blob;
    let mut rows: Vec<MethodRow> = Vec::new();
    add_if_used(
        &mut rows,
        "dict_zstd",
        t.dict_zstd,
        tr.dict_zstd,
        bl.dict_zstd,
        t.dict_zstd_bytes,
    );
    add_if_used(
        &mut rows,
        "plain_zstd",
        t.plain_zstd,
        tr.plain_zstd,
        bl.plain_zstd,
        t.plain_zstd_bytes,
    );
    add_if_used(
        &mut rows,
        "escaped_raw",
        t.escaped_raw,
        tr.escaped_raw,
        bl.escaped_raw,
        t.escaped_raw_bytes,
    );
    add_if_used(&mut rows, "raw", t.raw, tr.raw, bl.raw, t.raw_bytes);
    assert(method_views(rows@) =~= methods_used(s@));
    rows
}

/// The counts of a row as they are written.
pub open spec fn method_counts(rows: Seq<MethodView>) -> Seq<Seq<char>>
    decreases rows.len(),
{
    if rows.len() == 0 {
        seq![]
    } else {
        let r = rows.last();
        method_counts(rows.drop_last()).push(figures::count_text(r.total as nat)).push(
            figures::count_text(r.tree as nat),
        ).push(figures::count_text(r.blob as nat))
    }
}

/// The stored bytes of the rows as they are written.
pub open spec fn method_sizes(rows: Seq<MethodView>) -> Seq<Seq<char>> {
    Seq::new(rows.len(), |i: int| figures::size_text(rows[i].stored as nat))
}

/// A line of the table of methods.
pub open spec fn method_line(
    head: Seq<char>,
    a: Seq<char>,
    b: Seq<char>,
    c: Seq<char>,
    d: Seq<char>,
    cw: nat,
    sw: nat,
) -> Seq<char> {
    head + text::right_in(a, cw) + "  "@ + text::right_in(b, cw) + "  "@ + text::right_in(c, cw)
        + "  "@ + text::right_in(d, sw)
}

/// The table of methods: none if no object was counted.
pub open spec fn compression_lines(s: StatsView) -> Seq<Seq<char>> {
    if s.compress_total.objects() == 0 {
        seq![]
    } else {
        let rows = methods_used(s);
        let cw = report::width_of(method_counts(rows), 5);
        let sw = report::width_of(method_sizes(rows), 6);
        seq![
            ""@,
            method_line(
                "Compression (L4):     "@,
                "total"@,
                "tree"@,
                "blob"@,
                "stored"@,
                cw,
                sw,
            ),
        ] + Seq::new(
            rows.len(),
            |i: int|
                method_line(
                    "  "@ + text::left_in(rows[i].label, 18) + "  "@,
                    figures::count_text(rows[i].total as nat),
                    figures::count_text(rows[i].tree as nat),
                    figures::count_text(rows[i].blob as nat),
                    figures::size_text(rows[i].stored as nat),
                    cw,
                    sw,
                ),
        )
    }
}

fn put_method(
    out: &mut Vec<String>,
    head: &str,
    a: &str,
    b: &str,
    c: &str,
    d: &str,
    cw: usize,
    sw: usize,
)
    ensures
        text::views(final(out)@) == text::views(old(out)@).push(
            method_line(head@, a@, b@, c@, d@, cw as nat, sw as nat),
        ),
{
    let mut s: String = head.to_owned();
    s.append(align_right(a, cw).as_str());
    s.append("  ");
    s.append(align_right(b, cw).as_str());
    s.append("  ");
    s.append(align_right(c, cw).as_str());
    s.append("  ");
    s.append(align_right(d, sw).as_str());
    put(out, s);
}

#[verifier::loop_isolation(false)]
fn put_compression(out: &mut Vec<String>, s: &Stats)
    requires
        s.wf(),
    ensures
        text::views(final(out)@) == text::views(old(out)@) + compression_lines(s@),
{
    let ghost before = text::views(out@);
    if s.compress_total.total() == 0 {
        assert(text::views(out@) =~= before + compression_lines(s@));
        return;
    }
    let rows = find_methods(s);
    let ghost mv = methods_used(s@);
    assert(method_views(rows@).len() == rows@.len());
    let mut counts: Vec<String> = Vec::new();
    let mut sizes: Vec<String> = Vec::new();
    let mut i: usize = 0;
    assert(mv.take(0) =~= seq![]);
    assert(text::views(counts@) =~= method_counts(mv.take(0)));
    while i < rows.len()
        invariant
            i <= rows@.len(),
            text::views(counts@) == method_counts(mv.take(i as int)),
            text::views(sizes@) =~= method_sizes(mv).take(i as int),
        decreases rows.len() - i,
    {
        assert(mv[i as int] == method_views(rows@)[i as int]);
        assert(mv.take(i + 1).drop_last() =~= mv.take(i as int));
        put(&mut counts, fmt_int(rows[i].total));
        put(&mut counts, fmt_int(rows[i].tree));
        put(&mut counts, fmt_int(rows[i].blob));
        put(&mut sizes, fmt_size(rows[i].stored));
        assert(method_sizes(mv).take(i + 1) =~= method_sizes(mv).take(i as int).push(
            method_sizes(mv)[i as int],
        ));
        i = i + 1;
    }
    assert(mv.take(mv.len() as int) =~= mv);
    assert(text::views(sizes@) =~= method_sizes(mv));
    let cw: usize = widest(&counts, 5);
    let sw: usize = widest(&sizes, 6);
    put(out, "".to_owned());
    put_method(out, "Compression (L4):     ", "total", "tree", "blob", "stored", cw, sw);
    let ghost top = text::views(out@);
    let ghost lines = compression_lines(s@).skip(2);
    let mut j: usize = 0;
    assert(lines.take(0) =~= seq![]);
    while j < rows.len()
        invariant
            j <= rows@.len(),
            text::views(out@) =~= top + lines.take(j as int),
        decreases rows.len() - j,
    {
        assert(mv[j as int] == method_views(rows@)[j as int]);
        let ghost here = text::views(out@);
        let head = text::concat3("  ", align_left(rows[j].label.as_str(), 18).as_str(), "  ");
        put_method(
            out,
            head.as_str(),
            fmt_int(rows[j].total).as_str(),
            fmt_int(rows[j].tree).as_str(),
            fmt_int(rows[j].blob).as_str(),
            fmt_size(rows[j].stored).as_str(),
            cw,
            sw,
        );
        assert(text::views(out@) =~= here.push(lines[j as int]));
        j = j + 1;
    }
    assert(text::views(out@) =~= before + compression_lines(s@));
}

// ---------------------------------------------------------------------------
// Sizes
// ---------------------------------------------------------------------------

/// Zero where there is no number.
pub open spec fn or_zero(n: Option<u64>) -> nat {
    match n {
        Some(k) => k as nat,
        None => 0,
    }
}

/// Zero where there is no number.
pub fn zero_if_none(n: Option<u64>) -> (r: u64)
    ensures
        r == or_zero(n),
{
    match n {
        Some(k) => k,
        None => 0,
    }
}

/// A line with the average, the smallest and the largest size.
pub open spec fn size_line(label: Seq<char>, st: SizeStats, avg: u64) -> Seq<char> {
    label + figures::size_text(avg as nat) + ", min "@ + figures::size_text(or_zero(st.min_stored))
        + ", max "@ + figures::size_text(or_zero(st.max_stored))
}

/// What is stored: the averages are given, for they are not whole numbers.
pub open spec fn stored_lines(s: StatsView, tree_avg: u64, blob_avg: u64) -> Seq<Seq<char>> {
    seq![""@, "Storage:"@, "  total   "@ + figures::size_text(s.total_stored_bytes as nat)] + (
    if s.tree_stats.count > 0 {
        seq![size_line("  tree    avg  "@, s.tree_stats, tree_avg)]
    } else {
        seq![]
    }) + (if s.blob_stats.count > 0 {
        seq![size_line("  blob    avg  "@, s.blob_stats, blob_avg)]
    } else {
        seq![]
    })
}

fn put_size(out: &mut Vec<String>, label: &str, st: &SizeStats, avg: u64)
    ensures
        text::views(final(out)@) == text::views(old(out)@).push(size_line(label@, *st, avg)),
{
    let mut s: String = label.to_owned();
    s.append(fmt_size(avg).as_str());
    s.append(", min ");
    s.append(fmt_size(zero_if_none(st.min_stored)).as_str());
    s.append(", max ");
    s.append(fmt_size(zero_if_none(st.max_stored)).as_str());
    put(out, s);
}

fn put_stored(out: &mut Vec<String>, s: &Stats, tree_avg: u64, blob_avg: u64)
    ensures
        text::views(final(out)@) == text::views(old(out)@) + stored_lines(s@, tree_avg, blob_avg),
{
    let ghost before = text::views(out@);
    put(out, "".to_owned());
    put(out, "Storage:".to_owned());
    put(out, text::concat("  total   ", fmt_size(s.total_stored_bytes).as_str()));
    if s.tree_stats.count > 0 {
        put_size(out, "  tree    avg  ", &s.tree_stats, tree_avg);
    }
    if s.blob_stats.count > 0 {
        put_size(out, "  blob    avg  ", &s.blob_stats, blob_avg);
    }
    assert(text::views(out@) =~= before + stored_lines(s@, tree_avg, blob_avg));
}

/// The space saved by compression: a bar, and the share as a text.
pub struct Saved {
    pub bar: String,
    pub pct: String,
}

/// The space saved: shown where there is any content to compare with.
pub open spec fn saved_lines(s: StatsView, tree: Saved, blob: Saved) -> Seq<Seq<char>> {
    if s.tree_stats.total_logical == 0 && s.blob_stats.total_logical == 0 {
        seq![]
    } else {
        seq![""@, "Space saved (1 − stored / logical):"@] + (if s.tree_stats.total_logical > 0 {
            seq!["  tree  "@ + tree.bar@ + "  "@ + tree.pct@ + "%"@]
        } else {
            seq![]
        }) + (if s.blob_stats.total_logical > 0 {
            seq!["  blob  "@ + blob.bar@ + "  "@ + blob.pct@ + "%"@]
        } else {
            seq![]
        })
    }
}

fn put_saved(out: &mut Vec<String>, s: &Stats, tree: &Saved, blob: &Saved)
    ensures
        text::views(final(out)@) == text::views(old(out)@) + saved_lines(s@, *tree, *blob),
{
    let ghost before = text::views(out@);
    if s.tree_stats.total_logical > 0 || s.blob_stats.total_logical > 0 {
        put(out, "".to_owned());
        put(out, "Space saved (1 − stored / logical):".to_owned());
        if s.tree_stats.total_logical > 0 {
            let mut a: String = "  tree  ".to_owned();
            a.append(tree.bar.as_str());
            a.append("  ");
            a.append(tree.pct.as_str());
            a.append("%");
            put(out, a);
        }
        if s.blob_stats.total_logical > 0 {
            let mut b: String = "  blob  ".to_owned();
            b.append(blob.bar.as_str());
            b.append("  ");
            b.append(blob.pct.as_str());
            b.append("%");
            put(out, b);
        }
    }
    assert(text::views(out@) =~= before + saved_lines(s@, *tree, *blob));
}

// ---------------------------------------------------------------------------
// Content types
// ---------------------------------------------------------------------------

/// `s` with `x` behind the last type that is not rarer.
pub open spec fn place_type(m: Map<Seq<char>, BlobTypeEntry>, s: Seq<Seq<char>>, x: Seq<char>) -> Seq<
    Seq<char>,
>
    decreases s.len(),
{
    if s.len() == 0 || m[s.last()].size.count >= m[x].size.count {
        s.push(x)
    } else {
        place_type(m, s.drop_last(), x).push(s.last())
    }
}

/// The types of `s`, the most frequent first, others as they were.
pub open spec fn by_count(m: Map<Seq<char>, BlobTypeEntry>, s: Seq<Seq<char>>) -> Seq<Seq<char>>
    decreases s.len(),
{
    if s.len() == 0 {
        s
    } else {
        place_type(m, by_count(m, s.drop_last()), s.last())
    }
}

/// The content types: the most frequent first, those with the same count by name.
pub open spec fn types_in_order(m: Map<Seq<char>, BlobTypeEntry>) -> Seq<Seq<char>> {
    by_count(m, collections::listing(m.dom()))
}

proof fn lemma_place_type(m: Map<Seq<char>, BlobTypeEntry>, s: Seq<Seq<char>>, x: Seq<char>)
    ensures
        place_type(m, s, x).len() == s.len() + 1,
        forall|y: Seq<char>| #[trigger]
            place_type(m, s, x).contains(y) <==> s.contains(y) || y == x,
    decreases s.len(),
{
    let r = place_type(m, s, x);
    if s.len() == 0 || m[s.last()].size.count >= m[x].size.count {
        assert forall|y: Seq<char>| #[trigger] r.contains(y) <==> s.contains(y) || y == x by {
            if s.contains(y) {
                let i = choose|i: int| 0 <= i < s.len() && s[i] == y;
                assert(r[i] == y);
            }
            if y == x {
                assert(r[s.len() as int] == y);
            }
        }
    } else {
        let init = s.drop_last();
        lemma_place_type(m, init, x);
        let p = place_type(m, init, x);
        assert forall|y: Seq<char>| #[trigger] r.contains(y) <==> s.contains(y) || y == x by {
            if r.contains(y) {
                let i = choose|i: int| 0 <= i < r.len() && r[i] == y;
                if i < p.len() {
                    assert(p[i] == y);
                    assert(p.contains(y));
                    if init.contains(y) {
                        let k = choose|k: int| 0 <= k < init.len() && init[k] == y;
                        assert(s[k] == y);
                    }
                } else {
                    assert(s[s.len() - 1] == y);
                }
            }
            if s.contains(y) {
                let i = choose|i: int| 0 <= i < s.len() && s[i] == y;
                if i < init.len() {
                    assert(init[i] == y);
                    assert(init.contains(y));
                    assert(p.contains(y));
                    let k = choose|k: int| 0 <= k < p.len() && p[k] == y;
                    assert(r[k] == y);
                } else {
                    assert(r[p.len() as int] == y);
                }
            }
            if y == x {
                assert(p.contains(y));
                let k = choose|k: int| 0 <= k < p.len() && p[k] == y;
                assert(r[k] == y);
            }
        }
    }
}

proof fn lemma_by_count(m: Map<Seq<char>, BlobTypeEntry>, s: Seq<Seq<char>>)
    ensures
        by_count(m, s).len() == s.len(),
        forall|y: Seq<char>| #[trigger] by_count(m, s).contains(y) <==> s.contains(y),
    decreases s.len(),
{
    if s.len() > 0 {
        let init = s.drop_last();
        lemma_by_count(m, init);
        lemma_place_type(m, by_count(m, init), s.last());
        assert forall|y: Seq<char>| #[trigger] by_count(m, s).contains(y) <==> s.contains(y) by {
            assert(by_count(m, s).contains(y) <==> by_count(m, init).contains(y) || y == s.last());
            assert(by_count(m, init).contains(y) <==> init.contains(y));
            if init.contains(y) {
                let i = choose|i: int| 0 <= i < init.len() && init[i] == y;
                assert(s[i] == y);
            }
            if s.contains(y) {
                let i = choose|i: int| 0 <= i < s.len() && s[i] == y;
                if i < init.len() {
                    assert(init[i] == y);
                }
            }
            if y == s.last() {
                assert(s[s.len() - 1] == y);
            }
        }
    }
}

proof fn lemma_place_type_at(
    m: Map<Seq<char>, BlobTypeEntry>,
    s: Seq<Seq<char>>,
    x: Seq<char>,
    at: int,
)
    requires
        0 <= at <= s.len(),
        at > 0 ==> m[s[at - 1]].size.count >= m[x].size.count,
        forall|k: int| at <= k < s.len() ==> m[#[trigger] s[k]].size.count < m[x].size.count,
    ensures
        place_type(m, s, x) == s.insert(at, x),
    decreases s.len(),
{
    if at == s.len() {
        assert(s.insert(at, x) =~= s.push(x));
    } else {
        assert(s[s.len() - 1] == s.last());
        lemma_place_type_at(m, s.drop_last(), x, at);
        assert(s.insert(at, x) =~= s.drop_last().insert(at, x).push(s.last()));
    }
}

fn count_of(m: &PathMap<BlobTypeEntry>, t: &str) -> (r: u64)
    requires
        m.wf(),
        m@.dom().contains(t@),
    ensures
        r == m@[t@].size.count,
{
    match m.get(t) {
        Some(e) => e.size.count,
        None => 0,
    }
}

/// The content types: the most frequent first, those with the same count by name.
pub fn types_by_count(m: &PathMap<BlobTypeEntry>) -> (r: Vec<String>)
    requires
        m.wf(),
    ensures
        text::views(r@) == types_in_order(m@),
        forall|i: int| 0 <= i < r@.len() ==> m@.dom().contains((#[trigger] r@[i])@),
{
    let keys = m.sorted_keys();
    let ghost all = text::views(keys@);
    let mut out: Vec<String> = Vec::new();
    let mut n: usize = 0;
    assert(all.take(0) =~= seq![]);
    assert(text::views(out@) =~= by_count(m@, all.take(0)));
    assert forall|k: int| 0 <= k < keys@.len() implies m@.dom().contains(
        (#[trigger] keys@[k])@,
    ) by {
        assert(all[k] == keys@[k]@);
        assert(all.contains(keys@[k]@));
    }
    while n < keys.len()
        invariant
            n <= keys@.len(),
            m.wf(),
            all == text::views(keys@),
            forall|k: int| 0 <= k < keys@.len() ==> m@.dom().contains((#[trigger] keys@[k])@),
            forall|k: int| 0 <= k < out@.len() ==> m@.dom().contains((#[trigger] out@[k])@),
            text::views(out@) == by_count(m@, all.take(n as int)),
        decreases keys.len() - n,
    {
        let ghost have = text::views(out@);
        let c: u64 = count_of(m, keys[n].as_str());
        let mut at: usize = out.len();
        let mut looking = at > 0;
        while looking
            invariant
                n < keys@.len(),
                m.wf(),
                have == text::views(out@),
                at <= out@.len(),
                c == m@[keys@[n as int]@].size.count,
                looking ==> at > 0,
                !looking && at > 0 ==> m@[have[at - 1]].size.count >= c,
                forall|k: int| 0 <= k < out@.len() ==> m@.dom().contains((#[trigger] out@[k])@),
                forall|k: int| at <= k < have.len() ==> m@[#[trigger] have[k]].size.count < c,
            decreases at, looking as int,
        {
            assert(have[at - 1] == out@[at - 1]@);
            if count_of(m, out[at - 1].as_str()) < c {
                at = at - 1;
                looking = at > 0;
            } else {
                looking = false;
            }
        }
        let ghost before = out@;
        out.insert(at, keys[n].clone());
        proof {
            assert(all[n as int] == keys@[n as int]@);
            lemma_place_type_at(m@, have, all[n as int], at as int);
            assert(text::views(out@) =~= have.insert(at as int, all[n as int]));
            assert(all.take(n + 1).drop_last() =~= all.take(n as int));
            assert forall|k: int| 0 <= k < out@.len() implies m@.dom().contains(
                (#[trigger] out@[k])@,
            ) by {
                if k < at {
                    assert(out@[k] == before[k]);
                } else if k > at {
                    assert(out@[k] == before[k - 1]);
                }
            }
        }
        n = n + 1;
    }
    assert(all.take(all.len() as int) =~= all);
    out
}

/// No content type is left out of the order, and none comes before a more frequent
/// one.
pub proof fn law_types_in_order(m: Map<Seq<char>, BlobTypeEntry>)
    ensures
        forall|i: int, j: int|
            0 <= i <= j < types_in_order(m).len() ==> m[#[trigger] types_in_order(
                m,
            )[i]].size.count >= m[#[trigger] types_in_order(m)[j]].size.count,
        types_in_order(m).len() == collections::listing(m.dom()).len(),
        forall|y: Seq<char>| #[trigger]
            types_in_order(m).contains(y) <==> collections::listing(m.dom()).contains(y),
{
    lemma_by_count(m, collections::listing(m.dom()));
    lemma_by_count_ordered(m, collections::listing(m.dom()));
}

proof fn lemma_by_count_ordered(m: Map<Seq<char>, BlobTypeEntry>, s: Seq<Seq<char>>)
    ensures
        forall|i: int, j: int|
            0 <= i <= j < by_count(m, s).len() ==> m[#[trigger] by_count(m, s)[i]].size.count
                >= m[#[trigger] by_count(m, s)[j]].size.count,
    decreases s.len(),
{
    if s.len() > 0 {
        lemma_by_count_ordered(m, s.drop_last());
        lemma_place_ordered(m, by_count(m, s.drop_last()), s.last());
    }
}

proof fn lemma_place_ordered(m: Map<Seq<char>, BlobTypeEntry>, s: Seq<Seq<char>>, x: Seq<char>)
    requires
        forall|i: int, j: int|
            0 <= i <= j < s.len() ==> m[#[trigger] s[i]].size.count >= m[
                #[trigger] s[j]].size.count,
    ensures
        forall|i: int, j: int|
            0 <= i <= j < place_type(m, s, x).len() ==> m[#[trigger] place_type(
                m,
                s,
                x,
            )[i]].size.count >= m[#[trigger] place_type(m, s, x)[j]].size.count,
    decreases s.len(),
{
    let r = place_type(m, s, x);
    lemma_place_type(m, s, x);
    if s.len() == 0 || m[s.last()].size.count >= m[x].size.count {
        assert forall|i: int, j: int| 0 <= i <= j < r.len() implies m[#[trigger] r[i]].size.count
            >= m[#[trigger] r[j]].size.count by {
            if j < s.len() {
                assert(r[i] == s[i] && r[j] == s[j]);
            } else if i < s.len() {
                assert(r[i] == s[i]);
                assert(m[s[i]].size.count >= m[s[s.len() - 1]].size.count);
            }
        }
    } else {
        let init = s.drop_last();
        assert forall|i: int, j: int| 0 <= i <= j < init.len() implies m[
            #[trigger] init[i]].size.count >= m[#[trigger] init[j]].size.count by {
            assert(init[i] == s[i] && init[j] == s[j]);
        }
        lemma_place_ordered(m, init, x);
        lemma_place_type(m, init, x);
        let p = place_type(m, init, x);
        assert forall|i: int, j: int| 0 <= i <= j < r.len() implies m[#[trigger] r[i]].size.count
            >= m[#[trigger] r[j]].size.count by {
            if j < p.len() {
                assert(r[i] == p[i] && r[j] == p[j]);
            } else if i < p.len() {
                assert(r[i] == p[i]);
                assert(p.contains(p[i]));
                if p[i] != x {
                    assert(init.contains(p[i]));
                    let k = choose|k: int| 0 <= k < init.len() && init[k] == p[i];
                    assert(s[k] == p[i]);
                    assert(m[s[k]].size.count >= m[s[s.len() - 1]].size.count);
                }
            }
        }
    }
}

/// The methods by which the files of a type are compressed.
pub open spec fn methods_text(c: CompressCount) -> Seq<char> {
    let used = (if c.dict_zstd > 0 {
        1int
    } else {
        0int
    }) + (if c.plain_zstd > 0 {
        1int
    } else {
        0int
    }) + (if c.escaped_raw > 0 {
        1int
    } else {
        0int
    }) + (if c.raw > 0 {
        1int
    } else {
        0int
    });
    if used <= 1 {
        if c.dict_zstd > 0 {
            "dict"@
        } else if c.plain_zstd > 0 {
            "zstd"@
        } else if c.escaped_raw > 0 {
            "esc"@
        } else {
            "raw"@
        }
    } else {
        text::join_with(
            part_of("dict×"@, c.dict_zstd) + part_of("zstd×"@, c.plain_zstd) + part_of(
                "esc×"@,
                c.escaped_raw,
            ) + part_of("raw×"@, c.raw),
            "  "@,
        )
    }
}

/// A method and its count, if it occurs.
pub open spec fn part_of(label: Seq<char>, n: u64) -> Seq<Seq<char>> {
    if n > 0 {
        seq![label + text::decimal(n as nat)]
    } else {
        seq![]
    }
}

fn add_part(parts: &mut Vec<String>, label: &str, n: u64)
    ensures
        text::views(final(parts)@) == text::views(old(parts)@) + part_of(label@, n),
{
    let ghost before = text::views(parts@);
    if n > 0 {
        put(parts, text::concat(label, decimal_of(n).as_str()));
    }
    assert(text::views(parts@) =~= before + part_of(label@, n));
}

fn text_of_methods(c: &CompressCount) -> (r: String)
    ensures
        r@ == methods_text(*c),
{
    let mut used: u8 = 0;
    if c.dict_zstd > 0 {
        used = used + 1;
    }
    if c.plain_zstd > 0 {
        used = used + 1;
    }
    if c.escaped_raw > 0 {
        used = used + 1;
    }
    if c.raw > 0 {
        used = used + 1;
    }
    if used <= 1 {
        if c.dict_zstd > 0 {
            "dict".to_owned()
        } else if c.plain_zstd > 0 {
            "zstd".to_owned()
        } else if c.escaped_raw > 0 {
            "esc".to_owned()
        } else {
            "raw".to_owned()
        }
    } else {
        let mut parts: Vec<String> = Vec::new();
        add_part(&mut parts, "dict×", c.dict_zstd);
        add_part(&mut parts, "zstd×", c.plain_zstd);
        add_part(&mut parts, "esc×", c.escaped_raw);
        add_part(&mut parts, "raw×", c.raw);
        assert(text::views(parts@) =~= part_of("dict×"@, c.dict_zstd) + part_of(
            "zstd×"@,
            c.plain_zstd,
        ) + part_of("esc×"@, c.escaped_raw) + part_of("raw×"@, c.raw));
        join(&parts, "  ")
    }
}

/// The cells of a type: name, count, stored, logical, ratio and methods. The ratio is
/// a text; there is none where there is no content.
pub open spec fn type_cells(t: Seq<char>, e: BlobTypeEntry, ratio: Seq<char>) -> Seq<Seq<char>> {
    seq![
        t,
        text::decimal(e.size.count as nat),
        figures::size_text(e.size.total_stored as nat),
        figures::size_text(e.size.total_logical as nat),
        if e.size.total_logical == 0 {
            "n/a"@
        } else {
            ratio
        },
        methods_text(e.compress),
    ]
}

/// A line of the table of types: the name to the left, figures to the right.
pub open spec fn type_line(cells: Seq<Seq<char>>, w: Seq<nat>) -> Seq<char> {
    "  "@ + text::left_in(cells[0], w[0]) + "  "@ + text::right_in(cells[1], w[1]) + "  "@
        + text::right_in(cells[2], w[2]) + "  "@ + text::right_in(cells[3], w[3]) + "  "@
        + text::right_in(cells[4], w[4]) + "  "@ + cells[5]
}

/// The heads of the table of types.
pub open spec fn type_heads() -> Seq<Seq<char>> {
    seq!["type"@, "count"@, "stored"@, "logical"@, "ratio"@, "compression"@]
}

/// The rule under the heads.
pub open spec fn type_rule(w: Seq<nat>) -> Seq<char> {
    "  "@ + text::repeated('─', w[0]) + "  "@ + text::repeated('─', w[1]) + "  "@ + text::repeated(
        '─',
        w[2],
    ) + "  "@ + text::repeated('─', w[3]) + "  "@ + text::repeated('─', w[4])
}

/// The rows of the table of types.
pub open spec fn type_rows(m: Map<Seq<char>, BlobTypeEntry>, ratios: Seq<Seq<char>>) -> Seq<
    Seq<Seq<char>>,
> {
    let ts = types_in_order(m);
    Seq::new(ts.len(), |i: int| type_cells(ts[i], m[ts[i]], ratios[i]))
}

/// The table of content types.
pub open spec fn type_lines(m: Map<Seq<char>, BlobTypeEntry>, ratios: Seq<Seq<char>>) -> Seq<
    Seq<char>,
> {
    if m == Map::<Seq<char>, BlobTypeEntry>::empty() {
        seq![]
    } else {
        let rows = type_rows(m, ratios);
        let w = report::table_widths(type_heads(), rows);
        seq![""@, "Blob content types:"@, type_line(type_heads(), w), type_rule(w)] + Seq::new(
            rows.len(),
            |i: int| type_line(rows[i], w),
        )
    }
}

fn heads_of_types() -> (r: Vec<String>)
    ensures
        text::views(r@) == type_heads(),
        r@.len() == 6,
{
    let mut r: Vec<String> = Vec::new();
    r.push("type".to_owned());
    r.push("count".to_owned());
    r.push("stored".to_owned());
    r.push("logical".to_owned());
    r.push("ratio".to_owned());
    r.push("compression".to_owned());
    assert(text::views(r@) =~= type_heads());
    r
}

fn cells_of_type(t: &str, e: &BlobTypeEntry, ratio: &str) -> (r: Vec<String>)
    ensures
        text::views(r@) == type_cells(t@, *e, ratio@),
        r@.len() == 6,
{
    let mut r: Vec<String> = Vec::new();
    r.push(t.to_owned());
    r.push(decimal_of(e.size.count));
    r.push(fmt_size(e.size.total_stored));
    r.push(fmt_size(e.size.total_logical));
    r.push(
        if e.size.total_logical == 0 {
            "n/a".to_owned()
        } else {
            ratio.to_owned()
        },
    );
    r.push(text_of_methods(&e.compress));
    assert(text::views(r@) =~= type_cells(t@, *e, ratio@));
    r
}

fn put_type(out: &mut Vec<String>, cells: &Vec<String>, w: &Vec<usize>)
    requires
        cells@.len() == 6,
        w@.len() == 6,
    ensures
        text::views(final(out)@) == text::views(old(out)@).push(
            type_line(text::views(cells@), report::nats(w@)),
        ),
{
    let mut s: String = "  ".to_owned();
    s.append(align_left(cells[0].as_str(), w[0]).as_str());
    s.append("  ");
    s.append(align_right(cells[1].as_str(), w[1]).as_str());
    s.append("  ");
    s.append(align_right(cells[2].as_str(), w[2]).as_str());
    s.append("  ");
    s.append(align_right(cells[3].as_str(), w[3]).as_str());
    s.append("  ");
    s.append(align_right(cells[4].as_str(), w[4]).as_str());
    s.append("  ");
    s.append(cells[5].as_str());
    put(out, s);
}

fn put_type_rule(out: &mut Vec<String>, w: &Vec<usize>)
    requires
        w@.len() == 6,
    ensures
        text::views(final(out)@) == text::views(old(out)@).push(type_rule(report::nats(w@))),
{
    let mut s: String = "  ".to_owned();
    s.append(repeat('─', w[0]).as_str());
    s.append("  ");
    s.append(repeat('─', w[1]).as_str());
    s.append("  ");
    s.append(repeat('─', w[2]).as_str());
    s.append("  ");
    s.append(repeat('─', w[3]).as_str());
    s.append("  ");
    s.append(repeat('─', w[4]).as_str());
    put(out, s);
}

#[verifier::loop_isolation(false)]
fn put_types(out: &mut Vec<String>, m: &PathMap<BlobTypeEntry>, ratios: &Vec<String>)
    requires
        m.wf(),
        ratios@.len() == types_in_order(m@).len(),
    ensures
        text::views(final(out)@) == text::views(old(out)@) + type_lines(m@, text::views(ratios@)),
{
    let ghost before = text::views(out@);
    if m.is_empty() {
        assert(text::views(out@) =~= before + type_lines(m@, text::views(ratios@)));
        return;
    }
    let ts = types_by_count(m);
    let ghost tv = types_in_order(m@);
    assert(text::views(ts@).len() == ts@.len());
    let ghost cells = type_rows(m@, text::views(ratios@));
    let heads = heads_of_types();
    let mut rows: Vec<Vec<String>> = Vec::new();
    let mut i: usize = 0;
    while i < ts.len()
        invariant
            i <= ts@.len(),
            rows@.len() == i,
            forall|k: int|
                0 <= k < i ==> (#[trigger] rows@[k])@.len() == 6 && text::views(rows@[k]@)
                    == cells[k],
        decreases ts.len() - i,
    {
        assert(tv[i as int] == ts@[i as int]@);
        assert(text::views(ratios@)[i as int] == ratios@[i as int]@);
        if let Some(e) = m.get(ts[i].as_str()) {
            rows.push(cells_of_type(ts[i].as_str(), e, ratios[i].as_str()));
        }
        i = i + 1;
    }
    assert(report::rows_of(rows@) =~= cells);
    let w = report::widths_of(&heads, &rows);
    let ghost wn = report::table_widths(type_heads(), cells);
    assert(report::nats(w@) =~= wn);
    put(out, "".to_owned());
    put(out, "Blob content types:".to_owned());
    put_type(out, &heads, &w);
    put_type_rule(out, &w);
    let ghost top = text::views(out@);
    let ghost lines = Seq::new(cells.len(), |k: int| type_line(cells[k], wn));
    let mut j: usize = 0;
    while j < rows.len()
        invariant
            j <= rows@.len(),
            text::views(out@) =~= top + lines.take(j as int),
        decreases rows.len() - j,
    {
        assert(rows@[j as int]@.len() == 6);
        let ghost here = text::views(out@);
        put_type(out, &rows[j], &w);
        assert(text::views(out@) =~= here.push(lines[j as int]));
        j = j + 1;
    }
    assert(text::views(out@) =~= before + type_lines(m@, text::views(ratios@)));
}

// ---------------------------------------------------------------------------
// The whole part
// ---------------------------------------------------------------------------

/// What is not a whole number in this part, worked out beforehand: shares and ratios
/// as texts, averages cut to whole bytes. `ratios` belong to the content types in
/// their order.
pub struct LocalShares {
    pub blob_pct: String,
    pub tree_pct: String,
    pub tree_avg: u64,
    pub blob_avg: u64,
    pub tree_saved: Saved,
    pub blob_saved: Saved,
    pub ratios: Vec<String>,
}

/// The part on the local store.
pub open spec fn local_lines(s: StatsView, f: LocalShares) -> Seq<Seq<char>> {
    seq![""@, report::banner("LOCAL"@), "Local cache composition"@, SECTION_RULE@] + object_lines(
        s,
        f.blob_pct@,
        f.tree_pct@,
    ) + compression_lines(s) + stored_lines(s, f.tree_avg, f.blob_avg) + saved_lines(
        s,
        f.tree_saved,
        f.blob_saved,
    ) + type_lines(s.blob_type_stats, text::views(f.ratios@))
}

proof fn lemma_regroup(
    before: Seq<Seq<char>>,
    a: Seq<Seq<char>>,
    b: Seq<Seq<char>>,
    c: Seq<Seq<char>>,
    d: Seq<Seq<char>>,
    e: Seq<Seq<char>>,
    f: Seq<Seq<char>>,
)
    ensures
        before + a + b + c + d + e + f == before + (a + b + c + d + e + f),
{
    assert(before + a + b + c + d + e + f =~= before + (a + b + c + d + e + f));
}

/// Adds the part on the local store.
pub fn print_local(out: &mut Vec<String>, s: &Stats, f: &LocalShares)
    requires
        s.wf(),
        f.ratios@.len() == types_in_order(s.blob_type_stats@).len(),
    ensures
        text::views(final(out)@) == text::views(old(out)@) + local_lines(s@, *f),
{
    let ghost before = text::views(out@);
    put(out, "".to_owned());
    report::print_banner(out, "LOCAL");
    put(out, "Local cache composition".to_owned());
    put(out, SECTION_RULE.to_owned());
    let ghost head = seq![
        ""@,
        report::banner("LOCAL"@),
        "Local cache composition"@,
        SECTION_RULE@,
    ];
    assert(text::views(out@) =~= before + head);
    put_objects(out, s, f.blob_pct.as_str(), f.tree_pct.as_str());
    put_compression(out, s);
    put_stored(out, s, f.tree_avg, f.blob_avg);
    put_saved(out, s, &f.tree_saved, &f.blob_saved);
    put_types(out, &s.blob_type_stats, &f.ratios);
    proof {
        lemma_regroup(
            before,
            head,
            object_lines(s@, f.blob_pct@, f.tree_pct@),
            compression_lines(s@),
            stored_lines(s@, f.tree_avg, f.blob_avg),
            saved_lines(s@, f.tree_saved, f.blob_saved),
            type_lines(s@.blob_type_stats, text::views(f.ratios@)),
        );
    }
}

} // verus!
