//! Which logs, lines and spans are kept.

use super::{EntryView, LogFile, RawLine, SortKey, TimerRow};
use crate::debug::Layer;
use crate::text;
use vstd::prelude::*;

verus! {

/// What is looked for is found in the nearest directory that has it.
pub proof fn law_nearest_is_found(found: Seq<bool>, from: nat)
    ensures
        match super::first_found(found, from) {
            Some(i) => from <= i < found.len() && found[i as int] && forall|j: int|
                from <= j < i ==> !found[j],
            None => forall|j: int| from <= j < found.len() ==> !found[j],
        },
    decreases found.len() - from,
{
    if from < found.len() && !found[from as int] {
        law_nearest_is_found(found, from + 1);
    }
}

/// A file with the suffix is a log of its name, but for the link to the latest.
pub proof fn law_log_names(stem: Seq<char>)
    ensures
        super::is_log(stem + ".log"@) <==> stem != "latest"@,
        super::stem_of(stem + ".log"@) == stem,
{
    reveal_strlit(".log");
    reveal_strlit("latest");
    reveal_strlit("latest.log");
    let name = stem + ".log"@;
    assert(name.take(name.len() - 4) =~= stem);
    assert(name.skip(name.len() - 4) =~= ".log"@);
    assert("latest.log"@ =~= "latest"@ + ".log"@);
    if name == "latest.log"@ {
        assert("latest.log"@.take(6) =~= "latest"@);
    }
}

proof fn lemma_placed(s: Seq<EntryView>, x: EntryView, y: EntryView)
    ensures
        super::place_entry(s, x).contains(y) <==> y == x || s.contains(y),
    decreases s.len(),
{
    let r = super::place_entry(s, x);
    if s.len() == 0 || crate::collections::lex_le(x.logical_name, s.last().logical_name) {
        assert(r[s.len() as int] == x);
        if s.contains(y) {
            let i = choose|i: int| 0 <= i < s.len() && s[i] == y;
            assert(r[i] == y);
        }
    } else {
        let init = s.drop_last();
        let p = super::place_entry(init, x);
        lemma_placed(init, x, y);
        assert(r == p.push(s.last()));
        if r.contains(y) {
            let i = choose|i: int| 0 <= i < r.len() && r[i] == y;
            if i < p.len() {
                assert(p[i] == y);
                if y != x {
                    let j = choose|j: int| 0 <= j < init.len() && init[j] == y;
                    assert(s[j] == y);
                }
            } else {
                assert(s[s.len() - 1] == y);
            }
        }
        if y == x || s.contains(y) {
            if y != x && !init.contains(y) {
                let i = choose|i: int| 0 <= i < s.len() && s[i] == y;
                if i < s.len() - 1 {
                    assert(init[i] == y);
                }
                assert(r[p.len() as int] == y);
            } else {
                let i = choose|i: int| 0 <= i < p.len() && p[i] == y;
                assert(r[i] == y);
            }
        }
    }
}

/// Whether an entry is that of a log file: it has the file's name without the suffix, its
/// path and its size, and is the latest where the link names it.
pub open spec fn is_entry_of(e: EntryView, f: LogFile, latest: Option<Seq<char>>) -> bool {
    &&& f.name@ == e.logical_name + ".log"@ && e.logical_name != "latest"@
    &&& e.path == f.path@ && e.size == f.size
    &&& e.is_latest <==> latest == Some(e.logical_name) || latest == Some(f.name@)
    &&& e.timestamp == super::stem_time(e.logical_name)
}

/// Every log file has its entry, and every entry is that of a log file.
pub proof fn law_every_log_is_listed(fs: Seq<LogFile>, latest: Option<Seq<char>>, n: nat)
    requires
        n <= fs.len(),
    ensures
        forall|e: EntryView| #[trigger]
            super::entries_upto(fs, latest, n).contains(e) <==> exists|i: int|
                0 <= i < n && is_entry_of(e, #[trigger] fs[i], latest),
    decreases n,
{
    let all = super::entries_upto(fs, latest, n);
    if n > 0 {
        law_every_log_is_listed(fs, latest, (n - 1) as nat);
        let prev = super::entries_upto(fs, latest, (n - 1) as nat);
        let f = fs[n - 1];
        reveal_strlit(".log");
        reveal_strlit("latest");
        reveal_strlit("latest.log");
        let x = super::entry_of(f, latest);
        assert forall|e: EntryView| is_entry_of(e, f, latest) <==> super::is_log(f.name@) && e
            == x by {
            if is_entry_of(e, f, latest) {
                law_log_names(e.logical_name);
            }
            if super::is_log(f.name@) && e == x {
                let stem = super::stem_of(f.name@);
                assert(f.name@ =~= stem + ".log"@);
                law_log_names(stem);
            }
        }
        assert forall|e: EntryView| #[trigger] all.contains(e) <==> exists|i: int|
            0 <= i < n && is_entry_of(e, #[trigger] fs[i], latest) by {
            if super::is_log(f.name@) {
                lemma_placed(prev, x, e);
            }
            if prev.contains(e) {
                let i = choose|i: int| 0 <= i < n - 1 && is_entry_of(e, #[trigger] fs[i], latest);
                assert(is_entry_of(e, fs[i], latest));
            }
            if is_entry_of(e, f, latest) {
                assert(is_entry_of(e, fs[n - 1], latest));
            }
        }
    }
}

// ---------------------------------------------------------------------------
// Filters
// ---------------------------------------------------------------------------

/// The entries that are kept are those whose names hold the text, or all of them where none
/// is given.
pub proof fn law_named_entries_are_kept(
    es: Seq<EntryView>,
    cmd: Option<Seq<char>>,
    n: nat,
    e: EntryView,
)
    requires
        n <= es.len(),
    ensures
        super::named(es, cmd, n).contains(e) <==> es.take(n as int).contains(e) && (
        cmd matches Some(c) ==> exists|at: int|
            0 <= at && at + c.len() <= e.logical_name.len() && #[trigger] e.logical_name.subrange(
                at,
                at + c.len(),
            ) == c),
        cmd is None ==> super::named(es, cmd, n) == es.take(n as int),
    decreases n,
{
    let r = super::named(es, cmd, n);
    if n > 0 {
        law_named_entries_are_kept(es, cmd, (n - 1) as nat, e);
        let prev = super::named(es, cmd, (n - 1) as nat);
        let x = es[n - 1];
        let top = es.take(n as int);
        assert(top =~= es.take(n - 1).push(x));
        if let Some(c) = cmd {
            if text::has_part(x.logical_name, c) {
                let at = choose|at: int| text::occurs_at(x.logical_name, c, at);
                assert(x.logical_name.subrange(at, at + c.len()) == c);
            }
            if exists|at: int|
                0 <= at && at + c.len() <= x.logical_name.len()
                    && #[trigger] x.logical_name.subrange(at, at + c.len()) == c {
                let at = choose|at: int|
                    0 <= at && at + c.len() <= x.logical_name.len()
                        && #[trigger] x.logical_name.subrange(at, at + c.len()) == c;
                assert(text::occurs_at(x.logical_name, c, at));
            }
        }
        if r.contains(e) {
            let i = choose|i: int| 0 <= i < r.len() && r[i] == e;
            if i < prev.len() {
                assert(prev[i] == e);
            }
        }
        if prev.contains(e) {
            let i = choose|i: int| 0 <= i < prev.len() && prev[i] == e;
            assert(r[i] == e);
        }
        if r.len() > prev.len() {
            assert(r[prev.len() as int] == x);
        }
        if top.contains(e) {
            let i = choose|i: int| 0 <= i < top.len() && top[i] == e;
            if i < n - 1 {
                assert(es.take(n - 1)[i] == e);
            }
        }
        if es.take(n - 1).contains(e) {
            let shorter = es.take(n - 1);
            let i = choose|i: int| 0 <= i < shorter.len() && shorter[i] == e;
            assert(top[i] == e);
        }
        assert(top[n - 1] == x);
    } else {
        assert(es.take(0) =~= Seq::<EntryView>::empty());
    }
}

/// A listing shows the first of the kept entries, as many as were asked for.
pub proof fn law_listing_is_cut(es: Seq<EntryView>, cmd: Option<Seq<char>>, count: nat, i: int)
    requires
        0 <= i < super::named(es, cmd, es.len()).len(),
    ensures
        i < count ==> i < super::listed(es, cmd, count).len() && super::listed(es, cmd, count)[i]
            == super::named(es, cmd, es.len())[i],
        super::listed(es, cmd, count).len() <= count,
{
}

/// A line is shown under several layers where it is under one of them, under none given
/// where it was written by a command, and with a text looked for only where it holds it.
pub proof fn law_filters_add_up(
    l: RawLine,
    a: Seq<Layer>,
    b: Seq<Layer>,
    grep: Option<Seq<char>>,
)
    requires
        a.len() > 0,
        b.len() > 0,
    ensures
        super::is_shown(l, a + b, grep) <==> super::is_shown(l, a, grep) || super::is_shown(
            l,
            b,
            grep,
        ),
        super::is_shown(l, a, grep) ==> super::is_shown(l, seq![], grep),
        super::is_shown(l, seq![], None) <==> l.parsed is Some,
        super::is_shown(l, a, grep) ==> super::is_shown(l, a, None),
        l.parsed matches Some(p) ==> super::is_shown(l, seq![p.layer], Some(p.text@)),
        super::is_shown(l, a, grep) ==> a.contains(l.parsed->0.layer),
        grep is Some && grep->0.len() > l.parsed->0.text@.len() ==> !super::is_shown(l, a, grep),
{
    if let Some(p) = l.parsed {
        if (a + b).contains(p.layer) {
            let both = a + b;
            let i = choose|i: int| 0 <= i < both.len() && both[i] == p.layer;
            if i < a.len() {
                assert(a[i] == p.layer);
            } else {
                assert(b[i - a.len()] == p.layer);
            }
        }
        if a.contains(p.layer) {
            let i = choose|i: int| 0 <= i < a.len() && a[i] == p.layer;
            assert((a + b)[i] == p.layer);
        }
        if b.contains(p.layer) {
            let i = choose|i: int| 0 <= i < b.len() && b[i] == p.layer;
            assert((a + b)[a.len() + i] == p.layer);
        }
        assert(seq![p.layer][0] == p.layer);
        assert(p.text@.subrange(0, p.text@.len() as int) =~= p.text@);
        assert(text::occurs_at(p.text@, p.text@, 0));
    }
}

/// Without colours the shown lines are lines of the log as they stand, and every line that is
/// shown is there.
pub proof fn law_shown_lines_are_of_the_log(
    ls: Seq<RawLine>,
    filter: Seq<Layer>,
    grep: Option<Seq<char>>,
    n: nat,
    i: int,
)
    requires
        n <= ls.len(),
        0 <= i < n,
    ensures
        super::is_shown(ls[i], filter, grep) ==> super::shown_upto(
            ls,
            filter,
            grep,
            false,
            n,
        ).contains(ls[i].raw@),
        super::shown_upto(ls, filter, grep, false, n).len() <= n,
        super::shown_upto(ls, filter, grep, false, n).len() == super::shown_upto(
            ls,
            filter,
            grep,
            true,
            n,
        ).len(),
    decreases n,
{
    let r = super::shown_upto(ls, filter, grep, false, n);
    let prev = super::shown_upto(ls, filter, grep, false, (n - 1) as nat);
    if n > 1 {
        law_shown_lines_are_of_the_log(
            ls,
            filter,
            grep,
            (n - 1) as nat,
            if i < n - 1 {
                i
            } else {
                0
            },
        );
    } else {
        reveal_with_fuel(super::shown_upto, 2);
    }
    if i == n - 1 {
        if super::is_shown(ls[i], filter, grep) {
            assert(r[prev.len() as int] == ls[i].raw@);
        }
    } else if super::is_shown(ls[i], filter, grep) {
        let j = choose|j: int| 0 <= j < prev.len() && prev[j] == ls[i].raw@;
        assert(r[j] == ls[i].raw@);
    }
}

/// The spans that are counted are those of the layers asked for, or all of them, each once
/// and in order.
pub proof fn law_spans_of_the_layers_are_kept(
    layers: Seq<Layer>,
    filter: Seq<Layer>,
    n: nat,
)
    requires
        n <= layers.len(),
        layers.len() <= usize::MAX,
    ensures
        ({
            let kept = super::spans_kept(layers, filter, n);
            &&& forall|x: usize| #[trigger]
                kept.contains(x) <==> x < n && (filter.len() == 0 || filter.contains(
                    layers[x as int],
                ))
            &&& forall|i: int, j: int|
                0 <= i < j < kept.len() ==> #[trigger] kept[i] < #[trigger] kept[j]
        }),
    decreases n,
{
    if n > 0 {
        law_spans_of_the_layers_are_kept(layers, filter, (n - 1) as nat);
        let prev = super::spans_kept(layers, filter, (n - 1) as nat);
        let kept = super::spans_kept(layers, filter, n);
        assert forall|x: usize| #[trigger] kept.contains(x) <==> x < n && (filter.len() == 0
            || filter.contains(layers[x as int])) by {
            if kept.contains(x) {
                let i = choose|i: int| 0 <= i < kept.len() && kept[i] == x;
                if i < prev.len() {
                    assert(prev[i] == x);
                    assert(prev.contains(x));
                }
            }
            if prev.contains(x) {
                let i = choose|i: int| 0 <= i < prev.len() && prev[i] == x;
                assert(kept[i] == x);
            }
            if kept.len() > prev.len() {
                assert(kept[prev.len() as int] == (n - 1) as usize);
            }
        }
        assert forall|i: int, j: int| 0 <= i < j < kept.len() implies #[trigger] kept[i]
            < #[trigger] kept[j] by {
            assert(prev[i] == kept[i]);
            assert(prev.contains(prev[i]));
            if j < prev.len() {
                assert(prev[j] == kept[j]);
            }
        }
    }
}

// ---------------------------------------------------------------------------
// References and keys
// ---------------------------------------------------------------------------

/// The log at place `n` of the list is what `@n` refers to, for every place in it; there is
/// none behind its end and none before its first.
pub proof fn law_places_are_counted_from_one(es: Seq<EntryView>, n: nat)
    requires
        n <= usize::MAX,
    ensures
        1 <= n <= es.len() ==> super::at_place("@"@ + text::decimal(n), es) == Ok::<
            Seq<char>,
            Seq<char>,
        >(es[n - 1].path),
        n == 0 || n > es.len() ==> super::at_place("@"@ + text::decimal(n), es) is Err,
{
    reveal_strlit("@");
    let at = "@"@ + text::decimal(n);
    assert(at.skip(1) =~= text::decimal(n));
    text::law_decimal_round_trip(n);
    let d = text::decimal(n);
    assert('0' <= d[0] <= '9');
    assert(text::unsigned(d) == d);
}

/// The key is read without regard to large and small letters.
pub proof fn law_sort_key_ignores_case(s: Seq<char>, t: Seq<char>)
    requires
        s.len() == t.len(),
        forall|i: int| 0 <= i < s.len() ==> super::small(#[trigger] s[i]) == super::small(t[i]),
    ensures
        super::sort_key(s) == super::sort_key(t),
        super::sort_key("avg"@) is Avg,
        super::sort_key("count"@) is Count,
        super::sort_key("max"@) is Max,
        super::sort_key("total"@) is Total,
{
    reveal_strlit("avg");
    reveal_strlit("count");
    reveal_strlit("max");
    reveal_strlit("total");
    assert forall|w: Seq<char>| super::reads(s, w) == super::reads(t, w) by {
        if super::reads(s, w) {
            assert forall|i: int| 0 <= i < t.len() implies super::small(#[trigger] t[i]) == w[i] by {
                assert(super::small(s[i]) == super::small(t[i]));
            }
        }
        if super::reads(t, w) {
            assert forall|i: int| 0 <= i < s.len() implies super::small(#[trigger] s[i]) == w[i] by {
                assert(super::small(s[i]) == super::small(t[i]));
            }
        }
    }
    assert(super::reads("avg"@, "avg"@));
    assert(super::reads("count"@, "count"@));
    assert(super::reads("max"@, "max"@));
    assert(!super::reads("max"@, "avg"@)) by {
        assert(super::small("max"@[0]) != "avg"@[0]);
    }
    assert(!super::reads("total"@, "count"@)) by {
        assert(super::small("total"@[0]) != "count"@[0]);
    }
}

/// The first layer that is not known is reported.
pub proof fn law_first_unknown_is_reported(parsed: Seq<Option<Layer>>, from: nat)
    ensures
        match super::first_unknown(parsed, from) {
            Some(i) => from <= i < parsed.len() && parsed[i as int] is None && forall|j: int|
                from <= j < i ==> (#[trigger] parsed[j]) is Some,
            None => forall|j: int| from <= j < parsed.len() ==> (#[trigger] parsed[j]) is Some,
        },
    decreases parsed.len() - from,
{
    if from < parsed.len() && parsed[from as int] is Some {
        law_first_unknown_is_reported(parsed, from + 1);
    }
}

// ---------------------------------------------------------------------------
// Widths
// ---------------------------------------------------------------------------

/// A text is cut to its beginning, as long as the limit allows.
pub proof fn law_cut_is_a_beginning(s: Seq<char>, max: nat)
    ensures
        text::has_prefix(s, super::cut(s, max)),
        super::cut(s, max).len() == if s.len() < max {
            s.len()
        } else {
            max
        },
{
    assert(s.take(s.len() as int) =~= s);
}

/// The column of labels is as wide as the widest of them needs, cut to forty characters, and
/// five at least.
pub proof fn law_labels_fit(rows: Seq<TimerRow>)
    ensures
        5 <= super::label_width(rows) <= 40,
        forall|i: int|
            0 <= i < rows.len() ==> super::cut((#[trigger] rows[i]).label@, 40).len()
                <= super::label_width(rows),
        super::label_width(rows) == 5 || exists|i: int|
            0 <= i < rows.len() && super::cut((#[trigger] rows[i]).label@, 40).len()
                == super::label_width(rows),
    decreases rows.len(),
{
    if rows.len() > 0 {
        let init = rows.drop_last();
        law_labels_fit(init);
        law_cut_is_a_beginning(rows.last().label@, 40);
        let w = super::label_width(init);
        assert forall|i: int| 0 <= i < rows.len() implies super::cut(
            (#[trigger] rows[i]).label@,
            40,
        ).len() <= super::label_width(rows) by {
            if i < init.len() {
                assert(init[i] == rows[i]);
            }
        }
        if super::label_width(rows) == w && w != 5 {
            let i = choose|i: int|
                0 <= i < init.len() && super::cut((#[trigger] init[i]).label@, 40).len() == w;
            assert(rows[i] == init[i]);
        } else if super::label_width(rows) != 5 {
            assert(super::cut(rows[rows.len() - 1].label@, 40).len() == super::label_width(rows));
        }
    }
}

/// The column of names is as wide as the widest of them needs, and twelve at least.
pub proof fn law_names_fit(es: Seq<EntryView>)
    ensures
        super::name_width(es) >= 12,
        forall|i: int|
            0 <= i < es.len() ==> text::byte_len((#[trigger] es[i]).logical_name)
                <= super::name_width(es),
        super::name_width(es) == 12 || exists|i: int|
            0 <= i < es.len() && text::byte_len((#[trigger] es[i]).logical_name)
                == super::name_width(es),
    decreases es.len(),
{
    if es.len() > 0 {
        let init = es.drop_last();
        law_names_fit(init);
        let w = super::name_width(init);
        assert forall|i: int| 0 <= i < es.len() implies text::byte_len(
            (#[trigger] es[i]).logical_name,
        ) <= super::name_width(es) by {
            if i < init.len() {
                assert(init[i] == es[i]);
            }
        }
        if super::name_width(es) == w && w != 12 {
            let i = choose|i: int|
                0 <= i < init.len() && text::byte_len((#[trigger] init[i]).logical_name) == w;
            assert(es[i] == init[i]);
        } else if super::name_width(es) != 12 {
            assert(text::byte_len(es[es.len() - 1].logical_name) == super::name_width(es));
        }
    }
}

/// A text names a log, and is no path, exactly where it has neither a slash nor a dot and
/// does not begin with the sign of a place in the list.
pub proof fn law_names_are_no_paths(s: Seq<char>)
    ensures
        super::name_shaped(s) <==> (s.len() == 0 || s[0] != '@') && !s.contains('/')
            && !s.contains('.'),
{
    reveal_strlit("@");
    reveal_strlit("/");
    reveal_strlit(".");
    if s.len() > 0 && s[0] == '@' {
        assert(s.take(1) =~= "@"@);
    }
    if text::has_prefix(s, "@"@) {
        assert(s.take(1)[0] == s[0]);
        assert("@"@[0] == '@');
    }
    lemma_part_of_one(s, '/');
    lemma_part_of_one(s, '.');
    assert("/"@ =~= seq!['/']);
    assert("."@ =~= seq!['.']);
}

proof fn lemma_part_of_one(s: Seq<char>, c: char)
    ensures
        text::has_part(s, seq![c]) <==> s.contains(c),
{
    if s.contains(c) {
        let i = choose|i: int| 0 <= i < s.len() && s[i] == c;
        assert(s.subrange(i, i + 1) =~= seq![c]);
        assert(text::occurs_at(s, seq![c], i));
    }
    if text::has_part(s, seq![c]) {
        let i = choose|i: int| text::occurs_at(s, seq![c], i);
        assert(s.subrange(i, i + 1)[0] == s[i]);
    }
}

} // verus!
