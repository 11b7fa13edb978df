//! The statistics as text.

use crate::commands::stats::figures::{
    self, fmt_int, fmt_size, format_head_cell, format_io_cell, format_pack_cell, format_time,
    space_time,
};
use crate::commands::stats::histogram::{self, size_histogram};
use crate::commands::stats::objects::{Stats, StatsView};
use crate::commands::stats::storage::{ClassStat, RemoteStorage};
use crate::text::{self, align_left, align_right, byte_count, decimal_of, join, repeat, str_eq};
use vstd::prelude::*;
use vstd::string::*;

verus! {

/// What a consolidation of packs did.
pub struct PackDetail {
    pub deltas_merged: u64,
    pub packs_before: u64,
    pub packs_after: u64,
    pub consolidated_bytes_in: u64,
    pub consolidated_bytes_out: u64,
    pub pack_sizes_after: Vec<u64>,
    pub cold_splits: u64,
    pub hot_index_entries: u64,
    pub bloom_elements: u64,
    /// The bytes of the objects that the run replaced, as far as they are known.
    pub orphaned_bytes: u64,
}

/// What a command moved.
pub struct IoStatsRecord {
    pub ts: String,
    pub cmd: String,
    pub remote: String,
    pub exists_found: u64,
    pub exists_miss: u64,
    pub writes: u64,
    pub write_bytes: u64,
    pub reads: u64,
    pub read_bytes: u64,
    pub pack_files_written: u64,
    pub pack_sizes_bytes: Vec<u64>,
    pub pack_detail: Option<PackDetail>,
}

/// The last record that tells of a consolidation.
pub open spec fn last_detail(records: Seq<IoStatsRecord>) -> Option<int>
    decreases records.len(),
{
    if records.len() == 0 {
        None
    } else if records.last().pack_detail is Some {
        Some(records.len() - 1)
    } else {
        last_detail(records.drop_last())
    }
}

/// The last record that tells of a consolidation.
pub fn latest_detail(records: &Vec<IoStatsRecord>) -> (r: Option<usize>)
    ensures
        match r {
            Some(i) => last_detail(records@) == Some(i as int) && i < records@.len()
                && records@[i as int].pack_detail is Some,
            None => last_detail(records@) == None::<int>,
        },
{
    let mut i: usize = records.len();
    assert(records@.take(i as int) =~= records@);
    while i > 0
        invariant
            i <= records@.len(),
            last_detail(records@) == last_detail(records@.take(i as int)),
        decreases i,
    {
        assert(records@.take(i as int).drop_last() =~= records@.take(i - 1));
        if records[i - 1].pack_detail.is_some() {
            return Some(i - 1);
        }
        i = i - 1;
    }
    None
}

/// The rule under the head of a section.
pub const SECTION_RULE: &'static str =
    "──────────────────────────────────────────────────────────────────────";

/// Adds a line.
pub fn put(out: &mut Vec<String>, line: String)
    ensures
        text::views(final(out)@) == text::views(old(out)@).push(line@),
{
    let ghost before = text::views(out@);
    let ghost v = line@;
    out.push(line);
    assert(text::views(out@) =~= before.push(v));
}

/// The width of the widest cell in bytes, and at least `least`.
pub open spec fn width_of(cells: Seq<Seq<char>>, least: nat) -> nat
    decreases cells.len(),
{
    if cells.len() == 0 {
        least
    } else {
        let w = width_of(cells.drop_last(), least);
        if text::byte_len(cells.last()) > w {
            text::byte_len(cells.last())
        } else {
            w
        }
    }
}

/// The width of the widest cell in bytes, and at least `least`.
pub fn widest(cells: &Vec<String>, least: usize) -> (r: usize)
    ensures
        r == width_of(text::views(cells@), least as nat),
{
    let ghost all = text::views(cells@);
    let mut w: usize = least;
    let mut i: usize = 0;
    assert(all.take(0) =~= seq![]);
    while i < cells.len()
        invariant
            i <= cells@.len(),
            all == text::views(cells@),
            w == width_of(all.take(i as int), least as nat),
        decreases cells.len() - i,
    {
        assert(all.take(i + 1).drop_last() =~= all.take(i as int));
        assert(all[i as int] == cells@[i as int]@);
        let n: usize = byte_count(cells[i].as_str());
        if n > w {
            w = n;
        }
        i = i + 1;
    }
    assert(all.take(all.len() as int) =~= all);
    w
}

// ---------------------------------------------------------------------------
// Banner and histogram
// ---------------------------------------------------------------------------

/// The line above a group of sections, 70 characters wide.
pub open spec fn banner(label: Seq<char>) -> Seq<char> {
    let head = "━━━ "@ + label + " "@;
    head + text::repeated(
        '━',
        if head.len() < 70 {
            (70 - head.len()) as nat
        } else {
            0
        },
    )
}

/// Adds the line above a group of sections.
pub fn print_banner(out: &mut Vec<String>, label: &str)
    ensures
        text::views(final(out)@) == text::views(old(out)@).push(banner(label@)),
{
    let mut s: String = "━━━ ".to_owned();
    s.append(label);
    s.append(" ");
    let n: usize = s.as_str().unicode_len();
    let fill: usize = if n < 70 {
        70 - n
    } else {
        0
    };
    s.append(repeat('━', fill).as_str());
    put(out, s);
}

/// The parts of a histogram's row that are not whole numbers: the share of the
/// count, a bar that shows it, and the share of the bytes.
pub struct BarTexts {
    pub count_share: String,
    pub bar: String,
    pub bytes_share: String,
}

/// The width of a bar.
pub const BAR_W: usize = 18;

/// The counts of a histogram's rows, as they are written.
pub open spec fn bar_counts(rows: Seq<histogram::Bar>) -> Seq<Seq<char>> {
    Seq::new(rows.len(), |i: int| figures::count_text(rows[i].1))
}

/// The bytes of a histogram's rows, as they are written.
pub open spec fn bar_sizes(rows: Seq<histogram::Bar>) -> Seq<Seq<char>> {
    Seq::new(rows.len(), |i: int| figures::size_text(rows[i].2))
}

/// The head of a histogram's columns.
pub open spec fn bar_head(cw: nat, bw: nat) -> Seq<char> {
    "  "@ + text::left_in("bucket"@, 10) + "  "@ + text::right_in("count"@, cw) + "   "@
        + text::right_in("%cnt"@, 5) + "   "@ + text::left_in("distribution"@, BAR_W as nat)
        + "   "@ + text::right_in("bytes"@, bw) + "   "@ + text::right_in("%byt"@, 5)
}

/// A row of a histogram.
pub open spec fn bar_line(row: histogram::Bar, t: BarTexts, cw: nat, bw: nat) -> Seq<char> {
    "  "@ + text::left_in(row.0, 10) + "  "@ + text::right_in(figures::count_text(row.1), cw)
        + "   "@ + t.count_share@ + "%   "@ + text::left_in(t.bar@, BAR_W as nat) + "   "@
        + text::right_in(figures::size_text(row.2), bw) + "   "@ + t.bytes_share@ + "%"@
}

/// The lines of a histogram; none if there is nothing to show.
pub open spec fn histogram_lines(title: Seq<char>, sizes: Seq<u64>, texts: Seq<BarTexts>) -> Seq<
    Seq<char>,
> {
    let rows = histogram::bars(sizes);
    if rows.len() == 0 {
        seq![]
    } else {
        let cw = width_of(bar_counts(rows), 5);
        let bw = width_of(bar_sizes(rows), 5);
        seq![
            title + "   (n="@ + figures::count_text(histogram::bar_count(rows)) + ", total="@
                + figures::size_text(histogram::bar_bytes(rows)) + ")"@,
            SECTION_RULE@,
            bar_head(cw, bw),
        ] + Seq::new(rows.len(), |i: int| bar_line(rows[i], texts[i], cw, bw)) + seq![""@]
    }
}

fn put_bar_head(out: &mut Vec<String>, cw: usize, bw: usize)
    ensures
        text::views(final(out)@) == text::views(old(out)@).push(bar_head(cw as nat, bw as nat)),
{
    let mut s: String = "  ".to_owned();
    s.append(align_left("bucket", 10).as_str());
    s.append("  ");
    s.append(align_right("count", cw).as_str());
    s.append("   ");
    s.append(align_right("%cnt", 5).as_str());
    s.append("   ");
    s.append(align_left("distribution", BAR_W).as_str());
    s.append("   ");
    s.append(align_right("bytes", bw).as_str());
    s.append("   ");
    s.append(align_right("%byt", 5).as_str());
    put(out, s);
}

fn put_bar(
    out: &mut Vec<String>,
    label: &str,
    count: u64,
    bytes: u64,
    t: &BarTexts,
    cw: usize,
    bw: usize,
)
    ensures
        text::views(final(out)@) == text::views(old(out)@).push(
            bar_line((label@, count as nat, bytes as nat), *t, cw as nat, bw as nat),
        ),
{
    let mut s: String = "  ".to_owned();
    s.append(align_left(label, 10).as_str());
    s.append("  ");
    s.append(align_right(fmt_int(count).as_str(), cw).as_str());
    s.append("   ");
    s.append(t.count_share.as_str());
    s.append("%   ");
    s.append(align_left(t.bar.as_str(), BAR_W).as_str());
    s.append("   ");
    s.append(align_right(fmt_size(bytes).as_str(), bw).as_str());
    s.append("   ");
    s.append(t.bytes_share.as_str());
    s.append("%");
    put(out, s);
}

/// Adds a histogram of sizes. `texts` belong to the rows that are not empty, in order.
#[verifier::loop_isolation(false)]
pub fn print_histogram(out: &mut Vec<String>, title: &str, sizes: &Vec<u64>, texts: &Vec<BarTexts>)
    requires
        figures::sum(sizes@) <= u64::MAX,
        texts@.len() == histogram::bars(sizes@).len(),
    ensures
        text::views(final(out)@) == text::views(old(out)@) + histogram_lines(
            title@,
            sizes@,
            texts@,
        ),
{
    proof {
        assert forall|b: nat| b < histogram::BUCKETS implies #[trigger] histogram::bytes_in(
            sizes@,
            b,
        ) <= u64::MAX by {
            histogram::lemma_bytes_in_sum(sizes@, b);
        }
        histogram::law_histogram_totals(sizes@);
    }
    let ghost before = text::views(out@);
    let ghost rows = histogram::bars(sizes@);
    let hist = size_histogram(sizes.as_slice());
    assert(histogram::bar_views(hist@).len() == hist@.len());
    if hist.len() == 0 {
        assert(text::views(out@) =~= before + histogram_lines(title@, sizes@, texts@));
        return;
    }
    let total: u64 = figures::total_of(sizes.as_slice());
    let mut head: String = title.to_owned();
    head.append("   (n=");
    head.append(fmt_int(sizes.len() as u64).as_str());
    head.append(", total=");
    head.append(fmt_size(total).as_str());
    head.append(")");
    put(out, head);
    put(out, SECTION_RULE.to_owned());
    let mut counts: Vec<String> = Vec::new();
    let mut bytes: Vec<String> = Vec::new();
    let mut i: usize = 0;
    while i < hist.len()
        invariant
            i <= hist@.len(),
            text::views(counts@) =~= bar_counts(rows).take(i as int),
            text::views(bytes@) =~= bar_sizes(rows).take(i as int),
        decreases hist.len() - i,
    {
        assert(rows[i as int] == histogram::bar_views(hist@)[i as int]);
        counts.push(fmt_int(hist[i].1));
        bytes.push(fmt_size(hist[i].2));
        i = i + 1;
    }
    assert(text::views(counts@) =~= bar_counts(rows));
    assert(text::views(bytes@) =~= bar_sizes(rows));
    let cw: usize = widest(&counts, 5);
    let bw: usize = widest(&bytes, 5);
    put_bar_head(out, cw, bw);
    let ghost top = text::views(out@);
    let ghost lines = Seq::new(rows.len(), |k: int| bar_line(rows[k], texts@[k], cw as nat, bw as nat));
    let mut j: usize = 0;
    while j < hist.len()
        invariant
            j <= hist@.len(),
            text::views(out@) =~= top + lines.take(j as int),
        decreases hist.len() - j,
    {
        assert(rows[j as int] == histogram::bar_views(hist@)[j as int]);
        let ghost here = text::views(out@);
        put_bar(out, hist[j].0, hist[j].1, hist[j].2, &texts[j], cw, bw);
        assert(text::views(out@) =~= here.push(lines[j as int]));
        j = j + 1;
    }
    put(out, "".to_owned());
    assert(text::views(out@) =~= before + histogram_lines(title@, sizes@, texts@));
}

// ---------------------------------------------------------------------------
// Summary and remote storage
// ---------------------------------------------------------------------------

/// The line of the last command.
pub open spec fn last_io_line(rec: IoStatsRecord) -> Seq<char> {
    "  Last I/O   "@ + figures::short_time(rec.ts@) + "  "@ + rec.cmd@ + "   ("@ + text::decimal(
        rec.writes as nat,
    ) + " writes "@ + figures::size_text(rec.write_bytes as nat) + ", "@ + text::decimal(
        rec.reads as nat,
    ) + " reads "@ + figures::size_text(rec.read_bytes as nat) + ")"@
}

/// The line of the remote: what can be reclaimed is told apart, if there is any.
pub open spec fn remote_line(rs: RemoteStorage) -> Seq<char> {
    let head = "  Remote   "@ + figures::count_text(rs.objects()) + " objects   "@
        + figures::size_text(rs.bytes());
    if rs.orphans.count > 0 {
        head + "   (live "@ + figures::size_text((rs.bytes() - rs.orphans.bytes) as nat)
            + " + reclaimable "@ + figures::size_text(rs.orphans.bytes as nat) + ")"@
    } else {
        head
    }
}

/// The summary at the top.
pub open spec fn summary_lines(
    s: StatsView,
    remote: Option<RemoteStorage>,
    recent: Seq<IoStatsRecord>,
) -> Seq<Seq<char>> {
    seq![
        if remote is Some {
            "omemfs stats — origin"@
        } else {
            "omemfs stats"@
        },
        text::repeated('═', 70),
    ] + (match remote {
        Some(rs) => seq![remote_line(rs)],
        None => seq![],
    }) + seq![
        "  Local    "@ + figures::count_text(s.total as nat) + " objects   "@ + figures::size_text(
            s.total_stored_bytes as nat,
        ) + " stored"@,
    ] + (if recent.len() > 0 {
        seq![last_io_line(recent.last())]
    } else {
        seq![]
    }) + seq![""@]
}

/// Whether what a remote stores can be added up.
pub open spec fn storage_fits(remote: Option<RemoteStorage>) -> bool {
    match remote {
        Some(rs) => rs.objects() <= u64::MAX && rs.bytes() <= u64::MAX,
        None => true,
    }
}

/// Whether the time stamps of the records can be shortened.
pub open spec fn stamps_ok(records: Seq<IoStatsRecord>) -> bool {
    forall|i: int|
        0 <= i < records.len() ==> (figures::stamp_shaped((#[trigger] records[i]).ts@)
            ==> figures::stamp_cut(records[i].ts@))
}

/// Adds the summary at the top.
pub fn put_summary(
    out: &mut Vec<String>,
    s: &Stats,
    remote: &Option<RemoteStorage>,
    recent: &Vec<IoStatsRecord>,
)
    requires
        storage_fits(*remote),
        stamps_ok(recent@),
    ensures
        text::views(final(out)@) == text::views(old(out)@) + summary_lines(s@, *remote, recent@),
{
    let ghost before = text::views(out@);
    put(
        out,
        if remote.is_some() {
            "omemfs stats — origin".to_owned()
        } else {
            "omemfs stats".to_owned()
        },
    );
    put(out, repeat('═', 70));
    if let Some(rs) = remote {
        let total = rs.total();
        let mut line: String = "  Remote   ".to_owned();
        line.append(fmt_int(total.count).as_str());
        line.append(" objects   ");
        line.append(fmt_size(total.bytes).as_str());
        if rs.orphans.count > 0 {
            line.append("   (live ");
            line.append(fmt_size(total.bytes - rs.orphans.bytes).as_str());
            line.append(" + reclaimable ");
            line.append(fmt_size(rs.orphans.bytes).as_str());
            line.append(")");
        }
        put(out, line);
    }
    let mut local: String = "  Local    ".to_owned();
    local.append(fmt_int(s.total).as_str());
    local.append(" objects   ");
    local.append(fmt_size(s.total_stored_bytes).as_str());
    local.append(" stored");
    put(out, local);
    if recent.len() > 0 {
        let rec = &recent[recent.len() - 1];
        let mut line: String = "  Last I/O   ".to_owned();
        line.append(format_time(rec.ts.as_str()).as_str());
        line.append("  ");
        line.append(rec.cmd.as_str());
        line.append("   (");
        line.append(decimal_of(rec.writes).as_str());
        line.append(" writes ");
        line.append(fmt_size(rec.write_bytes).as_str());
        line.append(", ");
        line.append(decimal_of(rec.reads).as_str());
        line.append(" reads ");
        line.append(fmt_size(rec.read_bytes).as_str());
        line.append(")");
        put(out, line);
    }
    put(out, "".to_owned());
    assert(text::views(out@) =~= before + summary_lines(s@, *remote, recent@));
}

/// The line of a class of objects.
#[verifier::opaque]
pub open spec fn class_line(label: Seq<char>, c: ClassStat, suffix: Seq<char>) -> Seq<char> {
    "  "@ + text::left_in(label, 20) + " "@ + text::right_in(figures::count_text(c.count as nat), 6)
        + "   "@ + figures::size_text(c.bytes as nat) + suffix
}

/// The section on what the remote stores.
pub open spec fn storage_lines(rs: RemoteStorage) -> Seq<Seq<char>> {
    seq![
        "Remote storage  (origin)"@,
        SECTION_RULE@,
        class_line("pack-files"@, rs.pack_files, ""@),
        class_line("index-files"@, rs.index_files, ""@),
        class_line("bloom"@, rs.bloom, ""@),
        class_line("standalone-objects"@, rs.standalone_objects, ""@),
        class_line("index-root"@, rs.index_root, ""@),
        class_line("orphans"@, rs.orphans, "   (reclaimable via backup-reclone)"@),
        "  ────────────────────────────────────"@,
        class_line(
            "total"@,
            ClassStat { count: rs.objects() as u64, bytes: rs.bytes() as u64 },
            ""@,
        ),
        ""@,
    ]
}

fn put_class(out: &mut Vec<String>, label: &str, c: ClassStat, suffix: &str)
    ensures
        text::views(final(out)@) == text::views(old(out)@).push(class_line(label@, c, suffix@)),
{
    reveal(class_line);
    let mut s: String = "  ".to_owned();
    s.append(align_left(label, 20).as_str());
    s.append(" ");
    s.append(align_right(fmt_int(c.count).as_str(), 6).as_str());
    s.append("   ");
    s.append(fmt_size(c.bytes).as_str());
    s.append(suffix);
    put(out, s);
}

/// Adds the section on what the remote stores.
pub fn put_storage(out: &mut Vec<String>, rs: &RemoteStorage)
    requires
        rs.objects() <= u64::MAX,
        rs.bytes() <= u64::MAX,
    ensures
        text::views(final(out)@) == text::views(old(out)@) + storage_lines(*rs),
{
    let ghost before = text::views(out@);
    put(out, "Remote storage  (origin)".to_owned());
    put(out, SECTION_RULE.to_owned());
    put_class(out, "pack-files", rs.pack_files, "");
    put_class(out, "index-files", rs.index_files, "");
    put_class(out, "bloom", rs.bloom, "");
    put_class(out, "standalone-objects", rs.standalone_objects, "");
    put_class(out, "index-root", rs.index_root, "");
    put_class(out, "orphans", rs.orphans, "   (reclaimable via backup-reclone)");
    put(out, "  ────────────────────────────────────".to_owned());
    put_class(out, "total", rs.total(), "");
    put(out, "".to_owned());
    assert(text::views(out@) =~= before + storage_lines(*rs));
}

// ---------------------------------------------------------------------------
// Recent I/O
// ---------------------------------------------------------------------------

/// Whether the records name more than one remote.
pub open spec fn several_remotes(records: Seq<IoStatsRecord>) -> bool {
    exists|i: int| 0 <= i < records.len() && (#[trigger] records[i]).remote@ != records[0].remote@
}

/// The heads of the columns.
pub open spec fn io_heads(show_remote: bool) -> Seq<Seq<char>> {
    if show_remote {
        seq!["time"@, "cmd"@, "remote"@, "writes"@, "reads"@, "HEAD"@, "pack"@]
    } else {
        seq!["time"@, "cmd"@, "writes"@, "reads"@, "HEAD"@, "pack"@]
    }
}

/// The cells of a record.
pub open spec fn io_cells(rec: IoStatsRecord, show_remote: bool) -> Seq<Seq<char>> {
    let time = figures::short_time(rec.ts@);
    let writes = figures::io_cell(rec.writes as nat, rec.write_bytes as nat);
    let reads = figures::io_cell(rec.reads as nat, rec.read_bytes as nat);
    let head = figures::head_cell(rec.exists_found as nat, rec.exists_miss as nat);
    let pack = figures::pack_cell(rec.pack_files_written as nat, rec.pack_sizes_bytes@);
    if show_remote {
        seq![time, rec.cmd@, rec.remote@, writes, reads, head, pack]
    } else {
        seq![time, rec.cmd@, writes, reads, head, pack]
    }
}

/// One column of a table.
pub open spec fn column(rows: Seq<Seq<Seq<char>>>, c: int) -> Seq<Seq<char>> {
    Seq::new(rows.len(), |i: int| rows[i][c])
}

/// The widths of the columns of a table: as wide as the widest cell, and as the head.
pub open spec fn table_widths(heads: Seq<Seq<char>>, rows: Seq<Seq<Seq<char>>>) -> Seq<nat> {
    Seq::new(heads.len(), |c: int| width_of(column(rows, c), text::byte_len(heads[c])))
}

/// A line of a table: cells to the left of their columns, two blanks apart.
pub open spec fn table_line(cells: Seq<Seq<char>>, widths: Seq<nat>) -> Seq<char> {
    text::join_with(Seq::new(cells.len(), |c: int| text::left_in(cells[c], widths[c])), "  "@)
}

/// Strings in strings.
pub open spec fn rows_of(rows: Seq<Vec<String>>) -> Seq<Seq<Seq<char>>> {
    Seq::new(rows.len(), |i: int| text::views(rows[i]@))
}

fn cells_in_column(rows: &Vec<Vec<String>>, c: usize) -> (r: Vec<String>)
    requires
        forall|i: int| 0 <= i < rows@.len() ==> c < (#[trigger] rows@[i])@.len(),
    ensures
        text::views(r@) == column(rows_of(rows@), c as int),
{
    let mut r: Vec<String> = Vec::new();
    let ghost all = column(rows_of(rows@), c as int);
    let mut i: usize = 0;
    while i < rows.len()
        invariant
            i <= rows@.len(),
            all == column(rows_of(rows@), c as int),
            forall|k: int| 0 <= k < rows@.len() ==> c < (#[trigger] rows@[k])@.len(),
            text::views(r@) =~= all.take(i as int),
        decreases rows.len() - i,
    {
        assert(c < rows@[i as int]@.len());
        assert(all[i as int] == rows@[i as int]@[c as int]@);
        put(&mut r, rows[i][c].clone());
        assert(all.take(i + 1) =~= all.take(i as int).push(all[i as int]));
        i = i + 1;
    }
    assert(text::views(r@) =~= all);
    r
}

/// The widths of the columns of a table.
pub fn widths_of(heads: &Vec<String>, rows: &Vec<Vec<String>>) -> (r: Vec<usize>)
    requires
        forall|i: int| 0 <= i < rows@.len() ==> (#[trigger] rows@[i])@.len() == heads@.len(),
    ensures
        r@.len() == heads@.len(),
        forall|c: int|
            0 <= c < heads@.len() ==> #[trigger] r@[c] == table_widths(
                text::views(heads@),
                rows_of(rows@),
            )[c],
{
    let mut r: Vec<usize> = Vec::new();
    let mut c: usize = 0;
    while c < heads.len()
        invariant
            c <= heads@.len(),
            r@.len() == c,
            forall|i: int| 0 <= i < rows@.len() ==> (#[trigger] rows@[i])@.len() == heads@.len(),
            forall|k: int|
                0 <= k < c ==> #[trigger] r@[k] == table_widths(
                    text::views(heads@),
                    rows_of(rows@),
                )[k],
        decreases heads.len() - c,
    {
        let cells = cells_in_column(rows, c);
        assert(text::views(heads@)[c as int] == heads@[c as int]@);
        r.push(widest(&cells, byte_count(heads[c].as_str())));
        c = c + 1;
    }
    r
}

/// Widths as numbers.
pub open spec fn nats(w: Seq<usize>) -> Seq<nat> {
    Seq::new(w.len(), |i: int| w[i] as nat)
}

fn line_of_cells(cells: &Vec<String>, widths: &Vec<usize>) -> (r: String)
    requires
        cells@.len() == widths@.len(),
    ensures
        r@ == table_line(text::views(cells@), nats(widths@)),
{
    let mut padded: Vec<String> = Vec::new();
    let ghost all = Seq::new(
        cells@.len(),
        |c: int| text::left_in(text::views(cells@)[c], nats(widths@)[c]),
    );
    let mut i: usize = 0;
    while i < cells.len()
        invariant
            i <= cells@.len(),
            cells@.len() == widths@.len(),
            all == Seq::new(
                cells@.len(),
                |c: int| text::left_in(text::views(cells@)[c], nats(widths@)[c]),
            ),
            text::views(padded@) =~= all.take(i as int),
        decreases cells.len() - i,
    {
        assert(text::views(cells@)[i as int] == cells@[i as int]@);
        assert(nats(widths@)[i as int] == widths@[i as int]);
        put(&mut padded, align_left(cells[i].as_str(), widths[i]));
        assert(all.take(i + 1) =~= all.take(i as int).push(all[i as int]));
        i = i + 1;
    }
    assert(text::views(padded@) =~= all);
    assert(text::views(cells@).len() == cells@.len());
    join(&padded, "  ")
}

/// A field of the records.
pub open spec fn writes_of(records: Seq<IoStatsRecord>) -> Seq<u64> {
    Seq::new(records.len(), |i: int| records[i].writes)
}

pub open spec fn write_bytes_of(records: Seq<IoStatsRecord>) -> Seq<u64> {
    Seq::new(records.len(), |i: int| records[i].write_bytes)
}

pub open spec fn reads_of(records: Seq<IoStatsRecord>) -> Seq<u64> {
    Seq::new(records.len(), |i: int| records[i].reads)
}

pub open spec fn read_bytes_of(records: Seq<IoStatsRecord>) -> Seq<u64> {
    Seq::new(records.len(), |i: int| records[i].read_bytes)
}

pub open spec fn found_of(records: Seq<IoStatsRecord>) -> Seq<u64> {
    Seq::new(records.len(), |i: int| records[i].exists_found)
}

pub open spec fn miss_of(records: Seq<IoStatsRecord>) -> Seq<u64> {
    Seq::new(records.len(), |i: int| records[i].exists_miss)
}

/// The records added up.
#[derive(Clone, Copy, Debug, PartialEq, Eq, Structural)]
pub struct IoTotals {
    pub writes: u64,
    pub write_bytes: u64,
    pub reads: u64,
    pub read_bytes: u64,
    pub found: u64,
    pub miss: u64,
}

/// The records added up.
pub open spec fn totals_of(records: Seq<IoStatsRecord>) -> IoTotals {
    IoTotals {
        writes: figures::sum(writes_of(records)) as u64,
        write_bytes: figures::sum(write_bytes_of(records)) as u64,
        reads: figures::sum(reads_of(records)) as u64,
        read_bytes: figures::sum(read_bytes_of(records)) as u64,
        found: figures::sum(found_of(records)) as u64,
        miss: figures::sum(miss_of(records)) as u64,
    }
}

/// Whether the records can be added up.
pub open spec fn totals_fit(records: Seq<IoStatsRecord>) -> bool {
    &&& figures::sum(writes_of(records)) <= u64::MAX
    &&& figures::sum(write_bytes_of(records)) <= u64::MAX
    &&& figures::sum(reads_of(records)) <= u64::MAX
    &&& figures::sum(read_bytes_of(records)) <= u64::MAX
    &&& figures::sum(found_of(records)) + figures::sum(miss_of(records)) <= u64::MAX
}

/// Adds up the records.
pub fn io_totals(records: &Vec<IoStatsRecord>) -> (r: IoTotals)
    requires
        totals_fit(records@),
    ensures
        r == totals_of(records@),
{
    let mut writes: Vec<u64> = Vec::new();
    let mut write_bytes: Vec<u64> = Vec::new();
    let mut reads: Vec<u64> = Vec::new();
    let mut read_bytes: Vec<u64> = Vec::new();
    let mut found: Vec<u64> = Vec::new();
    let mut miss: Vec<u64> = Vec::new();
    let mut i: usize = 0;
    while i < records.len()
        invariant
            i <= records@.len(),
            writes@ =~= writes_of(records@).take(i as int),
            write_bytes@ =~= write_bytes_of(records@).take(i as int),
            reads@ =~= reads_of(records@).take(i as int),
            read_bytes@ =~= read_bytes_of(records@).take(i as int),
            found@ =~= found_of(records@).take(i as int),
            miss@ =~= miss_of(records@).take(i as int),
        decreases records.len() - i,
    {
        writes.push(records[i].writes);
        write_bytes.push(records[i].write_bytes);
        reads.push(records[i].reads);
        read_bytes.push(records[i].read_bytes);
        found.push(records[i].exists_found);
        miss.push(records[i].exists_miss);
        i = i + 1;
    }
    assert(writes@ =~= writes_of(records@));
    assert(write_bytes@ =~= write_bytes_of(records@));
    assert(reads@ =~= reads_of(records@));
    assert(read_bytes@ =~= read_bytes_of(records@));
    assert(found@ =~= found_of(records@));
    assert(miss@ =~= miss_of(records@));
    IoTotals {
        writes: figures::total_of(writes.as_slice()),
        write_bytes: figures::total_of(write_bytes.as_slice()),
        reads: figures::total_of(reads.as_slice()),
        read_bytes: figures::total_of(read_bytes.as_slice()),
        found: figures::total_of(found.as_slice()),
        miss: figures::total_of(miss.as_slice()),
    }
}

/// The totals of all commands. `miss_rate` is the share of the misses, as a text.
pub open spec fn totals_lines(all: Seq<IoStatsRecord>, miss_rate: Seq<char>) -> Seq<Seq<char>> {
    let t = totals_of(all);
    if all.len() == 0 {
        seq![]
    } else {
        seq![
            "Totals (all recorded commands)"@,
            "  writes "@ + text::right_in(figures::count_text(t.writes as nat), 5) + " ops  "@
                + figures::size_text(t.write_bytes as nat),
            "  reads  "@ + text::right_in(figures::count_text(t.reads as nat), 5) + " ops  "@
                + figures::size_text(t.read_bytes as nat),
        ] + (if t.found + t.miss > 0 {
            seq![
                "  HEAD   "@ + text::right_in(figures::count_text((t.found + t.miss) as nat), 5)
                    + " ops  bloom miss rate: "@ + miss_rate
                    + "%  (misses fall through to a remote HEAD)"@,
            ]
        } else {
            seq![]
        })
    }
}

/// The section on recent commands: a table, and the totals of all commands.
pub open spec fn recent_lines(
    recent: Seq<IoStatsRecord>,
    all: Seq<IoStatsRecord>,
    miss_rate: Seq<char>,
) -> Seq<Seq<char>> {
    if recent.len() == 0 {
        seq![]
    } else {
        let show = several_remotes(recent);
        let rows = Seq::new(recent.len(), |i: int| io_cells(recent[i], show));
        let widths = table_widths(io_heads(show), rows);
        seq![
            "Recent I/O  (last 20 commands)"@,
            SECTION_RULE@,
            table_line(io_heads(show), widths),
            "legend: HEAD = found/miss (bloom)   pack = files × total"@,
        ] + Seq::new(rows.len(), |i: int| table_line(rows[i], widths)) + seq![""@] + totals_lines(
            all,
            miss_rate,
        )
    }
}

fn names_several(records: &Vec<IoStatsRecord>) -> (r: bool)
    ensures
        r == several_remotes(records@),
{
    let mut i: usize = 0;
    while i < records.len()
        invariant
            i <= records@.len(),
            forall|k: int|
                0 <= k < i ==> (#[trigger] records@[k]).remote@ == records@[0].remote@,
        decreases records.len() - i,
    {
        if !str_eq(records[i].remote.as_str(), records[0].remote.as_str()) {
            return true;
        }
        i = i + 1;
    }
    false
}

fn heads_of_io(show_remote: bool) -> (r: Vec<String>)
    ensures
        text::views(r@) == io_heads(show_remote),
{
    let mut r: Vec<String> = Vec::new();
    r.push("time".to_owned());
    r.push("cmd".to_owned());
    if show_remote {
        r.push("remote".to_owned());
    }
    r.push("writes".to_owned());
    r.push("reads".to_owned());
    r.push("HEAD".to_owned());
    r.push("pack".to_owned());
    assert(text::views(r@) =~= io_heads(show_remote));
    r
}

fn cells_of_io(rec: &IoStatsRecord, show_remote: bool) -> (r: Vec<String>)
    requires
        figures::stamp_shaped(rec.ts@) ==> figures::stamp_cut(rec.ts@),
        figures::sum(rec.pack_sizes_bytes@) <= u64::MAX,
    ensures
        text::views(r@) == io_cells(*rec, show_remote),
{
    let mut r: Vec<String> = Vec::new();
    r.push(format_time(rec.ts.as_str()));
    r.push(rec.cmd.clone());
    if show_remote {
        r.push(rec.remote.clone());
    }
    r.push(format_io_cell(rec.writes, rec.write_bytes));
    r.push(format_io_cell(rec.reads, rec.read_bytes));
    r.push(format_head_cell(rec.exists_found, rec.exists_miss));
    r.push(format_pack_cell(rec.pack_files_written, rec.pack_sizes_bytes.as_slice()));
    assert(text::views(r@) =~= io_cells(*rec, show_remote));
    r
}

/// Whether the pack sizes of each record can be added up.
pub open spec fn packs_fit(records: Seq<IoStatsRecord>) -> bool {
    forall|i: int|
        0 <= i < records.len() ==> figures::sum((#[trigger] records[i]).pack_sizes_bytes@)
            <= u64::MAX
}

fn put_totals(out: &mut Vec<String>, all: &Vec<IoStatsRecord>, miss_rate: &str)
    requires
        totals_fit(all@),
    ensures
        text::views(final(out)@) == text::views(old(out)@) + totals_lines(all@, miss_rate@),
{
    let ghost before = text::views(out@);
    if all.len() > 0 {
        let t = io_totals(all);
        put(out, "Totals (all recorded commands)".to_owned());
        let mut a: String = "  writes ".to_owned();
        a.append(align_right(fmt_int(t.writes).as_str(), 5).as_str());
        a.append(" ops  ");
        a.append(fmt_size(t.write_bytes).as_str());
        put(out, a);
        let mut b: String = "  reads  ".to_owned();
        b.append(align_right(fmt_int(t.reads).as_str(), 5).as_str());
        b.append(" ops  ");
        b.append(fmt_size(t.read_bytes).as_str());
        put(out, b);
        let heads: u64 = t.found + t.miss;
        if heads > 0 {
            let mut c: String = "  HEAD   ".to_owned();
            c.append(align_right(fmt_int(heads).as_str(), 5).as_str());
            c.append(" ops  bloom miss rate: ");
            c.append(miss_rate);
            c.append("%  (misses fall through to a remote HEAD)");
            put(out, c);
        }
    }
    assert(text::views(out@) =~= before + totals_lines(all@, miss_rate@));
}

/// Adds the section on recent commands.
#[verifier::loop_isolation(false)]
pub fn print_recent_io(
    out: &mut Vec<String>,
    recent: &Vec<IoStatsRecord>,
    all: &Vec<IoStatsRecord>,
    miss_rate: &str,
)
    requires
        stamps_ok(recent@),
        packs_fit(recent@),
        totals_fit(all@),
    ensures
        text::views(final(out)@) == text::views(old(out)@) + recent_lines(
            recent@,
            all@,
            miss_rate@,
        ),
{
    let ghost before = text::views(out@);
    if recent.len() == 0 {
        assert(text::views(out@) =~= before + recent_lines(recent@, all@, miss_rate@));
        return;
    }
    put(out, "Recent I/O  (last 20 commands)".to_owned());
    put(out, SECTION_RULE.to_owned());
    let show = names_several(recent);
    let heads = heads_of_io(show);
    let ghost cells = Seq::new(recent@.len(), |i: int| io_cells(recent@[i], show));
    let mut rows: Vec<Vec<String>> = Vec::new();
    let mut i: usize = 0;
    while i < recent.len()
        invariant
            i <= recent@.len(),
            rows@.len() == i,
            forall|k: int| 0 <= k < i ==> text::views((#[trigger] rows@[k])@) == cells[k],
        decreases recent.len() - i,
    {
        assert(recent@[i as int].ts@ == recent@[i as int].ts@);
        rows.push(cells_of_io(&recent[i], show));
        i = i + 1;
    }
    assert(rows_of(rows@) =~= cells);
    assert forall|k: int| 0 <= k < rows@.len() implies (#[trigger] rows@[k])@.len()
        == heads@.len() by {
        assert(text::views(rows@[k]@) == cells[k]);
        assert(text::views(rows@[k]@).len() == rows@[k]@.len());
        assert(text::views(heads@).len() == heads@.len());
    }
    let widths = widths_of(&heads, &rows);
    let ghost w = table_widths(io_heads(show), cells);
    assert(nats(widths@) =~= w);
    put(out, line_of_cells(&heads, &widths));
    put(out, "legend: HEAD = found/miss (bloom)   pack = files × total".to_owned());
    let ghost top = text::views(out@);
    let ghost lines = Seq::new(cells.len(), |k: int| table_line(cells[k], w));
    let mut j: usize = 0;
    while j < rows.len()
        invariant
            j <= rows@.len(),
            text::views(out@) =~= top + lines.take(j as int),
        decreases rows.len() - j,
    {
        assert(rows@[j as int]@.len() == heads@.len());
        let ghost here = text::views(out@);
        put(out, line_of_cells(&rows[j], &widths));
        assert(text::views(out@) =~= here.push(lines[j as int]));
        j = j + 1;
    }
    put(out, "".to_owned());
    put_totals(out, all, miss_rate);
    assert(text::views(out@) =~= before + recent_lines(recent@, all@, miss_rate@));
}

// ---------------------------------------------------------------------------
// Pack effectiveness
// ---------------------------------------------------------------------------

/// Sizes as they are written.
pub open spec fn size_texts(sizes: Seq<u64>) -> Seq<Seq<char>> {
    Seq::new(sizes.len(), |i: int| figures::size_text(sizes[i] as nat))
}

/// The section on the last consolidation: a note if there is none to tell of.
pub open spec fn pack_lines(
    eff: Option<(Seq<char>, PackDetail)>,
    any_recent: bool,
) -> Seq<Seq<char>> {
    match eff {
        Some((ts, d)) => seq![
            ""@,
            "Pack effectiveness  ("@ + figures::spaced_time(ts) + ")"@,
            SECTION_RULE@,
            "  delta indexes merged  "@ + text::decimal(d.deltas_merged as nat),
            "  pack files  "@ + text::decimal(d.packs_before as nat) + " → "@ + text::decimal(
                d.packs_after as nat,
            ) + "  (consolidated "@ + figures::size_text(d.consolidated_bytes_in as nat) + " → "@
                + figures::size_text(d.consolidated_bytes_out as nat) + ")"@,
            "  pack sizes  "@ + if d.pack_sizes_after@.len() == 0 {
                "—"@
            } else {
                text::join_with(size_texts(d.pack_sizes_after@), "  "@)
            },
            "  cold splits  "@ + text::decimal(d.cold_splits as nat),
            "  hot index  "@ + text::decimal(d.hot_index_entries as nat) + " entries     bloom  "@
                + text::decimal(d.bloom_elements as nat) + " elements"@,
        ],
        None => if any_recent {
            seq![
                ""@,
                "Pack effectiveness"@,
                SECTION_RULE@,
                "  (no recent consolidation recorded)"@,
            ]
        } else {
            seq![]
        },
    }
}

fn texts_of_sizes(sizes: &Vec<u64>) -> (r: Vec<String>)
    ensures
        text::views(r@) == size_texts(sizes@),
{
    let mut r: Vec<String> = Vec::new();
    let mut i: usize = 0;
    while i < sizes.len()
        invariant
            i <= sizes@.len(),
            text::views(r@) =~= size_texts(sizes@).take(i as int),
        decreases sizes.len() - i,
    {
        put(&mut r, fmt_size(sizes[i]));
        assert(size_texts(sizes@).take(i + 1) =~= size_texts(sizes@).take(i as int).push(
            size_texts(sizes@)[i as int],
        ));
        i = i + 1;
    }
    assert(text::views(r@) =~= size_texts(sizes@));
    r
}

/// The time and the detail behind references.
pub open spec fn eff_view(eff: Option<(&String, &PackDetail)>) -> Option<(Seq<char>, PackDetail)> {
    match eff {
        Some((ts, d)) => Some((ts@, *d)),
        None => None,
    }
}

/// Adds the section on the last consolidation.
pub fn put_pack(out: &mut Vec<String>, eff: Option<(&String, &PackDetail)>, any_recent: bool)
    ensures
        text::views(final(out)@) == text::views(old(out)@) + pack_lines(eff_view(eff), any_recent),
{
    let ghost before = text::views(out@);
    match eff {
        Some((ts, d)) => {
            put(out, "".to_owned());
            let mut a: String = "Pack effectiveness  (".to_owned();
            a.append(space_time(ts.as_str()).as_str());
            a.append(")");
            put(out, a);
            put(out, SECTION_RULE.to_owned());
            let mut b: String = "  delta indexes merged  ".to_owned();
            b.append(decimal_of(d.deltas_merged).as_str());
            put(out, b);
            let mut c: String = "  pack files  ".to_owned();
            c.append(decimal_of(d.packs_before).as_str());
            c.append(" → ");
            c.append(decimal_of(d.packs_after).as_str());
            c.append("  (consolidated ");
            c.append(fmt_size(d.consolidated_bytes_in).as_str());
            c.append(" → ");
            c.append(fmt_size(d.consolidated_bytes_out).as_str());
            c.append(")");
            put(out, c);
            let mut e: String = "  pack sizes  ".to_owned();
            if d.pack_sizes_after.len() == 0 {
                e.append("—");
            } else {
                let sizes = texts_of_sizes(&d.pack_sizes_after);
                e.append(join(&sizes, "  ").as_str());
            }
            put(out, e);
            let mut f: String = "  cold splits  ".to_owned();
            f.append(decimal_of(d.cold_splits).as_str());
            put(out, f);
            let mut g: String = "  hot index  ".to_owned();
            g.append(decimal_of(d.hot_index_entries).as_str());
            g.append(" entries     bloom  ");
            g.append(decimal_of(d.bloom_elements).as_str());
            g.append(" elements");
            put(out, g);
        },
        None => {
            if any_recent {
                put(out, "".to_owned());
                put(out, "Pack effectiveness".to_owned());
                put(out, SECTION_RULE.to_owned());
                put(out, "  (no recent consolidation recorded)".to_owned());
            }
        },
    }
    assert(text::views(out@) =~= before + pack_lines(eff_view(eff), any_recent));
}

} // verus!
