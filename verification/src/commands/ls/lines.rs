//! What the lines of a listing say.

use super::render::{self, MtimeCell, MtimeStage, PieceView, WidthsView};
use super::rows::{Row, RowView};
use super::scope;
use super::{ScanFacts, ScanStep};
use crate::object::Timestamp;
use crate::text;
use vstd::prelude::*;

verus! {

// ---------------------------------------------------------------------------
// Cells
// ---------------------------------------------------------------------------

proof fn lemma_one(p: PieceView)
    ensures
        render::plain_text(seq![p]) == p.text,
{
    render::lemma_plain_push(seq![], p);
    assert(Seq::<PieceView>::empty().push(p) =~= seq![p]);
    assert(render::plain_text(Seq::<PieceView>::empty()) + p.text =~= p.text);
}

/// However a time is coloured, it is written at the right of its column.
pub proof fn law_time_cell_text(t: Seq<char>, stage: Option<MtimeStage>, width: nat)
    ensures
        render::plain_text(render::time_cell(t, stage, width)) == text::right_in(t, width),
{
    let raw = text::right_in(t, width);
    let cell = render::time_cell(t, stage, width);
    if stage == Some(MtimeStage::Today) && raw.len() >= 11 {
        let a = cell[0];
        let b = cell[1];
        let c = cell[2];
        lemma_one(a);
        render::lemma_plain_push(seq![a], b);
        render::lemma_plain_push(seq![a, b], c);
        assert(seq![a].push(b) =~= seq![a, b]);
        assert(seq![a, b].push(c) =~= cell);
        let pad = raw.len() - 11;
        assert(raw =~= raw.take(pad) + raw.subrange(pad, pad + 6) + raw.skip(pad + 6));
    } else {
        lemma_one(cell[0]);
        assert(cell =~= seq![cell[0]]);
    }
}

/// The letter of the remote as a line shows it.
pub open spec fn shown_letter(c: char) -> char {
    if c == 'A' || c == 'M' || c == 'D' {
        c
    } else {
        ' '
    }
}

/// The mark as a line shows it.
pub open spec fn shown_mark(c: char) -> char {
    if c == '!' || c == '?' || c == 'I' || c == 'i' || c == 'S' || c == 's' {
        c
    } else {
        ' '
    }
}

/// The columns of a line, without its colours.
pub open spec fn line_text(r: RowView, t: Seq<char>, w: WidthsView) -> Seq<char> {
    seq![shown_letter(r.remote_status), r.status, shown_mark(r.z), ' '] + text::right_in(
        r.hash_str,
        w.hash,
    ) + seq![' '] + text::right_in(
        match r.size {
            None => "-"@,
            Some(n) => text::decimal(n as nat),
        },
        w.size,
    ) + seq![' '] + text::right_in(text::decimal(r.blob_count as nat), w.count) + seq![' ']
        + text::right_in(t, w.mtime) + seq![' '] + r.path
}

/// Without its colours a line is made of its columns: the letter of the remote, the status,
/// the mark, the hash, the size, the count, the time and the path.
#[verifier::rlimit(40)]
pub proof fn law_line_shows_its_row(
    r: RowView,
    t: Seq<char>,
    stage: Option<MtimeStage>,
    w: WidthsView,
    top: usize,
)
    ensures
        render::plain_text(render::line_of(r, t, stage, w, top)) == line_text(r, t, w),
{
    let line = render::line_of(r, t, stage, w, top);
    let size = render::size_cell(r.size, w.size, top);
    let time = render::time_cell(t, stage, w.mtime);
    let head = seq![line[0], line[1], line[2], line[3], line[4]];
    let n = size.len() as int;
    let m = time.len() as int;
    let mid = seq![line[5 + n], line[6 + n], line[7 + n]];
    let tail = seq![line[8 + n + m], line[9 + n + m]];
    assert(line =~= head + size + mid + time + tail);
    render::lemma_plain_concat(head + size + mid + time, tail);
    render::lemma_plain_concat(head + size + mid, time);
    render::lemma_plain_concat(head + size, mid);
    render::lemma_plain_concat(head, size);
    render::law_size_cell_text(r.size, w.size, top);
    law_time_cell_text(t, stage, w.mtime);
    lemma_five(line[0], line[1], line[2], line[3], line[4]);
    lemma_three(line[5 + n], line[6 + n], line[7 + n]);
    lemma_two(line[8 + n + m], line[9 + n + m]);
    assert(line[0].text =~= seq![shown_letter(r.remote_status)]);
    assert(line[2].text =~= seq![shown_mark(r.z)]);
    let hash = text::right_in(r.hash_str, w.hash);
    assert(line[0].text + line[1].text + line[2].text + line[3].text + line[4].text =~= seq![
        shown_letter(r.remote_status),
        r.status,
        shown_mark(r.z),
        ' ',
    ] + hash + seq![' ']);
    let cell = text::right_in(
        match r.size {
            None => "-"@,
            Some(n) => text::decimal(n as nat),
        },
        w.size,
    );
    let count = text::right_in(text::decimal(r.blob_count as nat), w.count);
    assert(line[5 + n].text =~= seq![' ']);
    assert(line[6 + n].text =~= count);
    assert(line[7 + n].text =~= seq![' ']);
    assert(line[8 + n + m].text =~= seq![' ']);
    assert(line[9 + n + m].text =~= r.path);
    let first = seq![shown_letter(r.remote_status), r.status, shown_mark(r.z), ' '] + hash + seq![
        ' ',
    ];
    let clock = text::right_in(t, w.mtime);
    assert(first + cell + (seq![' '] + count + seq![' ']) + clock + (seq![' '] + r.path)
        =~= first + cell + seq![' '] + count + seq![' '] + clock + seq![' '] + r.path);
}

proof fn lemma_two(a: PieceView, b: PieceView)
    ensures
        render::plain_text(seq![a, b]) == a.text + b.text,
{
    lemma_one(a);
    render::lemma_plain_push(seq![a], b);
    assert(seq![a].push(b) =~= seq![a, b]);
}

proof fn lemma_three(a: PieceView, b: PieceView, c: PieceView)
    ensures
        render::plain_text(seq![a, b, c]) == a.text + b.text + c.text,
{
    lemma_two(a, b);
    render::lemma_plain_push(seq![a, b], c);
    assert(seq![a, b].push(c) =~= seq![a, b, c]);
}

proof fn lemma_five(a: PieceView, b: PieceView, c: PieceView, d: PieceView, e: PieceView)
    ensures
        render::plain_text(seq![a, b, c, d, e]) == a.text + b.text + c.text + d.text + e.text,
{
    lemma_three(a, b, c);
    render::lemma_plain_push(seq![a, b, c], d);
    assert(seq![a, b, c].push(d) =~= seq![a, b, c, d]);
    render::lemma_plain_push(seq![a, b, c, d], e);
    assert(seq![a, b, c, d].push(e) =~= seq![a, b, c, d, e]);
}

/// Each column is as wide as its widest cell needs.
pub proof fn law_columns_fit(rows: Seq<Row>, cells: Seq<MtimeCell>, n: nat, i: int)
    requires
        n <= rows.len(),
        n <= cells.len(),
        0 <= i < n,
    ensures
        ({
            let w = render::widths_upto(rows, cells, n);
            &&& text::byte_len(rows[i].hash_str@) <= w.hash
            &&& rows[i].size matches Some(s) ==> text::decimal(s as nat).len() <= w.size
            &&& w.size >= 1
            &&& text::decimal(rows[i].blob_count as nat).len() <= w.count
            &&& text::byte_len(cells[i].text@) <= w.mtime
            &&& w.mtime >= 11
        }),
    decreases n,
{
    text::law_decimal_round_trip(rows[n - 1].blob_count as nat);
    if let Some(s) = rows[n - 1].size {
        text::law_decimal_round_trip(s as nat);
    }
    if i < n - 1 {
        law_columns_fit(rows, cells, (n - 1) as nat, i);
    } else {
        lemma_time_width(rows, cells, (n - 1) as nat);
    }
}

proof fn lemma_time_width(rows: Seq<Row>, cells: Seq<MtimeCell>, n: nat)
    ensures
        render::widths_upto(rows, cells, n).mtime >= 11,
    decreases n,
{
    if n > 0 && n <= rows.len() && n <= cells.len() {
        lemma_time_width(rows, cells, (n - 1) as nat);
    }
}

// ---------------------------------------------------------------------------
// Times
// ---------------------------------------------------------------------------

/// A time in nanoseconds.
pub open spec fn nanos_of(t: Timestamp) -> int {
    t.secs * 1_000_000_000 + t.nanos
}

/// What happened within the last minute happened just now, and what happened within the last
/// hour some minutes ago; anything else goes by the calendar, and what lies ahead does too.
pub proof fn law_ages_are_told_apart(
    ts: Timestamp,
    offset: i32,
    now: Timestamp,
    now_offset: i32,
)
    requires
        render::dated(ts),
        render::dated(now),
    ensures
        ({
            let age = nanos_of(now) - nanos_of(ts);
            let stage = render::stage_of(ts, offset, now, now_offset);
            let days = (now.secs + now_offset) / 86_400 - (ts.secs + offset) / 86_400;
            &&& stage is JustNow <==> 0 <= age < 60_000_000_000
            &&& stage is MinAgo <==> 60_000_000_000 <= age < 3_600_000_000_000
            &&& !(0 <= age < 3_600_000_000_000) ==> (stage is Today <==> days == 0) && (stage is Recent
                <==> 0 < days <= 14) && (stage is Older <==> days < 0 || days > 14)
        }),
{
}

/// Minutes are counted in full.
pub proof fn law_minutes_are_counted_in_full(ts: Timestamp, offset: i32, now: Timestamp)
    requires
        render::dated(ts),
        render::dated(now),
        nanos_of(ts) <= nanos_of(now),
    ensures
        render::mtime_text(ts, offset, now, MtimeStage::MinAgo) == text::decimal(
            ((nanos_of(now) - nanos_of(ts)) / 60_000_000_000) as nat,
        ) + "m"@,
{
    let s = render::seconds_between(ts, now);
    let age = nanos_of(now) - nanos_of(ts);
    assert(s * 1_000_000_000 <= age < (s + 1) * 1_000_000_000);
    assert(s / 60 == age / 60_000_000_000) by (nonlinear_arith)
        requires
            s * 1_000_000_000 <= age < (s + 1) * 1_000_000_000,
    ;
}

// ---------------------------------------------------------------------------
// Scans
// ---------------------------------------------------------------------------

/// What is ignored, and what is not there, stays as the clone root has it; a stub goes before
/// what else stands at its path, and anything else is scanned as what it is.
pub proof fn law_scan_follows_the_disk(f: ScanFacts)
    ensures
        super::scan_step(f) == ScanStep::Keep <==> f.ignored || !f.stub && !f.exists,
        super::scan_step(f) == ScanStep::Stub <==> f.stub && !f.ignored,
        super::scan_step(f) == ScanStep::Dir <==> !f.ignored && !f.stub && f.exists && f.dir,
        super::scan_step(f) == ScanStep::File <==> !f.ignored && !f.stub && f.exists && !f.dir,
{
}

proof fn lemma_trim_start(s: Seq<char>)
    ensures
        scope::trim_slash_start(seq!['/'] + s) == scope::trim_slash_start(s),
{
    assert((seq!['/'] + s).drop_first() =~= s);
}

/// Slashes before and behind a path do not matter.
pub proof fn law_outer_slashes_do_not_matter(s: Seq<char>)
    requires
        s.len() > 0,
        s[0] != '/',
        s.last() != '/',
    ensures
        scope::slash_trimmed(s) == s,
        scope::slash_trimmed(seq!['/'] + s) == s,
        scope::slash_trimmed(s.push('/')) == s,
        scope::slash_trimmed(seq!['/'] + s.push('/')) == s,
{
    lemma_trim_start(s);
    lemma_trim_start(s.push('/'));
    assert(scope::trim_slash_start(s) == s);
    assert(s.push('/')[0] == s[0]);
    assert(scope::trim_slash_start(s.push('/')) == s.push('/'));
    assert(s.push('/').drop_last() =~= s);
    assert(scope::bare(s) == s);
    reveal_with_fuel(text::trim_end_of, 2);
    assert(scope::bare(s.push('/')) == s);
}

proof fn lemma_only_slashes(s: Seq<char>)
    ensures
        scope::slash_trimmed(s).len() == 0 <==> forall|i: int|
            0 <= i < s.len() ==> #[trigger] s[i] == '/',
    decreases s.len(),
{
    if s.len() > 0 && s[0] == '/' {
        let rest = s.drop_first();
        lemma_only_slashes(rest);
        if scope::slash_trimmed(s).len() == 0 {
            assert forall|i: int| 0 <= i < s.len() implies #[trigger] s[i] == '/' by {
                if i > 0 {
                    assert(rest[i - 1] == s[i]);
                }
            }
        }
        if forall|i: int| 0 <= i < s.len() ==> #[trigger] s[i] == '/' {
            assert forall|i: int| 0 <= i < rest.len() implies #[trigger] rest[i] == '/' by {
                assert(rest[i] == s[i + 1]);
            }
        }
    } else if s.len() > 0 {
        text::parts::law_only_the_character_is_cut_off(s, '/');
        let kept = scope::bare(s);
        if kept.len() == 0 {
            let tail = Seq::new(s.len(), |i: int| '/');
            assert(s =~= tail);
            assert(s[0] == tail[0]);
        }
    }
}

/// The whole tree is scanned exactly where no path was asked for, or where one is made of
/// slashes only, and so is the root.
pub proof fn law_whole_tree_is_scanned_for_the_root(facts: Seq<ScanFacts>)
    ensures
        super::scans_all(facts) <==> facts.len() == 0 || exists|k: int|
            0 <= k < facts.len() && is_root((#[trigger] facts[k]).rel@),
{
    assert forall|k: int| 0 <= k < facts.len() implies (scope::slash_trimmed(
        (#[trigger] facts[k]).rel@,
    ).len() == 0 <==> is_root(facts[k].rel@)) by {
        lemma_only_slashes(facts[k].rel@);
    }
}

/// Whether a path is made of slashes only.
pub open spec fn is_root(rel: Seq<char>) -> bool {
    forall|i: int| 0 <= i < rel.len() ==> #[trigger] rel[i] == '/'
}

} // verus!
