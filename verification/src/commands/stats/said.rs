//! What the lines and cells of the statistics say.

use super::figures;
use super::histogram;
use super::json;
use super::local;
use super::objects::BlobTypeEntry;
use super::report::{self, IoStatsRecord};
use crate::text;
use vstd::prelude::*;

verus! {

/// The label of a bucket names the range in which its sizes lie.
pub proof fn law_labels_name_the_range(size: nat)
    ensures
        histogram::label_of(histogram::bucket_of(size)) == if size < 256 {
            "<256B"@
        } else if size < 1024 {
            "256B-1KB"@
        } else if size < 4 * 1024 {
            "1-4KB"@
        } else if size < 16 * 1024 {
            "4-16KB"@
        } else if size < 64 * 1024 {
            "16-64KB"@
        } else if size < 256 * 1024 {
            "64-256KB"@
        } else if size < 1024 * 1024 {
            "256KB-1MB"@
        } else if size < 4 * 1024 * 1024 {
            "1-4MB"@
        } else if size < 16 * 1024 * 1024 {
            "4-16MB"@
        } else {
            ">16MB"@
        },
{
}

/// The unit of a size is the largest of which it has at least one.
pub proof fn law_units_fit(bytes: nat, gap: Seq<char>)
    ensures
        bytes < 1024 ==> figures::size_with(bytes, gap) == text::decimal(bytes) + gap + "B"@,
        1024 <= bytes < 1024 * 1024 ==> text::has_suffix(
            figures::size_with(bytes, gap),
            gap + "KiB"@,
        ),
        1024 * 1024 <= bytes < 1024 * 1024 * 1024 ==> text::has_suffix(
            figures::size_with(bytes, gap),
            gap + "MiB"@,
        ),
        1024 * 1024 * 1024 <= bytes ==> text::has_suffix(
            figures::size_with(bytes, gap),
            gap + "GiB"@,
        ),
{
    let s = figures::size_with(bytes, gap);
    if 1024 <= bytes < 1024 * 1024 {
        assert(s.skip(s.len() - (gap + "KiB"@).len()) =~= gap + "KiB"@);
    } else if 1024 * 1024 <= bytes < 1024 * 1024 * 1024 {
        assert(s.skip(s.len() - (gap + "MiB"@).len()) =~= gap + "MiB"@);
    } else if 1024 * 1024 * 1024 <= bytes {
        assert(s.skip(s.len() - (gap + "GiB"@).len()) =~= gap + "GiB"@);
    }
}

/// Cells tell their numbers; a dash stands where there is nothing to tell.
pub proof fn law_cells_tell_their_numbers(a: nat, b: nat, sizes: Seq<u64>)
    ensures
        text::has_prefix(figures::io_cell(a, b), text::decimal(a)),
        text::has_suffix(figures::io_cell(a, 0), "—"@),
        b > 0 ==> text::has_suffix(figures::io_cell(a, b), figures::compact_size(b)),
        figures::head_cell(0, 0) == "—"@,
        a > 0 || b > 0 ==> text::has_prefix(figures::head_cell(a, b), text::decimal(a))
            && text::has_suffix(figures::head_cell(a, b), text::decimal(b)),
        figures::pack_cell(0, sizes) == "—"@,
        a > 0 ==> text::has_prefix(figures::pack_cell(a, sizes), text::decimal(a))
            && text::has_suffix(
            figures::pack_cell(a, sizes),
            figures::compact_size(figures::sum(sizes)),
        ),
{
    let n = text::decimal(a);
    let m = text::decimal(b);
    let io = figures::io_cell(a, b);
    let none = figures::io_cell(a, 0);
    assert(io.take(n.len() as int) =~= n);
    assert(none.skip(none.len() - "—"@.len()) =~= "—"@);
    if b > 0 {
        let c = figures::compact_size(b);
        assert(io.skip(io.len() - c.len()) =~= c);
    }
    if a > 0 || b > 0 {
        let h = figures::head_cell(a, b);
        assert(h.take(n.len() as int) =~= n);
        assert(h.skip(h.len() - m.len()) =~= m);
    }
    if a > 0 {
        let p = figures::pack_cell(a, sizes);
        let c = figures::compact_size(figures::sum(sizes));
        assert(p.take(n.len() as int) =~= n);
        assert(p.skip(p.len() - c.len()) =~= c);
    }
}

/// Each record has a cell under each heading, and the remote has a column of its own only
/// where there are several.
pub proof fn law_cells_stand_under_headings(rec: IoStatsRecord)
    ensures
        report::io_cells(rec, true).len() == report::io_heads(true).len(),
        report::io_cells(rec, false).len() == report::io_heads(false).len(),
        report::io_cells(rec, true).remove(2) == report::io_cells(rec, false),
        report::io_heads(true).remove(2) == report::io_heads(false),
        report::io_cells(rec, true)[2] == rec.remote@,
        report::io_cells(rec, false)[1] == rec.cmd@,
{
    assert(report::io_cells(rec, true).remove(2) =~= report::io_cells(rec, false));
    assert(report::io_heads(true).remove(2) =~= report::io_heads(false));
}

/// Each recent command has a line of its own in the table.
pub proof fn law_recent_commands_have_lines(
    recent: Seq<IoStatsRecord>,
    all: Seq<IoStatsRecord>,
    rate: Seq<char>,
    i: int,
)
    requires
        0 <= i < recent.len(),
    ensures
        ({
            let show = report::several_remotes(recent);
            let rows = Seq::new(recent.len(), |k: int| report::io_cells(recent[k], show));
            report::recent_lines(recent, all, rate)[4 + i] == report::table_line(
                report::io_cells(recent[i], show),
                report::table_widths(report::io_heads(show), rows),
            )
        }),
        report::recent_lines(recent, all, rate).len() == recent.len() + 5 + report::totals_lines(
            all,
            rate,
        ).len(),
        report::recent_lines(seq![], all, rate).len() == 0,
{
}

/// Each content type has a line, and all of them but the last end in a comma.
pub proof fn law_types_have_lines(
    m: Map<Seq<char>, BlobTypeEntry>,
    ratios: Seq<Seq<char>>,
    i: int,
)
    requires
        0 <= i < local::types_in_order(m).len(),
    ensures
        json::types_block(m, ratios).len() == local::types_in_order(m).len() + 2,
        text::has_prefix(
            json::types_block(m, ratios)[i + 1],
            "    \""@ + local::types_in_order(m)[i] + "\""@,
        ),
        i + 1 < local::types_in_order(m).len() ==> text::has_suffix(
            json::types_block(m, ratios)[i + 1],
            ","@,
        ),
{
    let ts = local::types_in_order(m);
    let line = json::types_block(m, ratios)[i + 1];
    assert(line == json::type_json(ts[i], m[ts[i]], ratios[i], json::comma(i, ts.len())));
    reveal_strlit("\"");
    reveal_strlit("\": {\"count\": ");
    let head = "    \""@ + ts[i] + "\""@;
    assert("\": {\"count\": "@[0] == '"');
    assert(line.take(head.len() as int) =~= head);
    if i + 1 < ts.len() {
        assert(line.skip(line.len() - ","@.len()) =~= ","@);
    }
}

} // verus!
