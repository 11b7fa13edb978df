//! `log`: the log files of past commands, their lines and their timers.

pub mod kept;
pub mod spans;

use crate::collections::{self, text_le};
use crate::commands::stats::figures::{self, units_of};
use crate::debug::Layer;
use crate::error::Error;
use crate::text::{
    self, align_left, align_right, byte_count, chars_of, concat, concat3, contains, decimal_of,
    parse_usize, repeat, slice_bytes, starts_with, str_eq, string_of, strip_prefix,
    strip_suffix,
};
use vstd::prelude::*;
use vstd::string::*;
use vstd::utf8::*;

verus! {

pub struct LogLsOptions {
    pub work_dir: String,
    pub cmd: Option<String>,
    pub count: usize,
}

pub struct LogShowOptions {
    pub work_dir: String,
    /// Which log: none for the latest, `@N` for the N-th, a name, or a path.
    pub file: Option<String>,
    pub layers: Vec<String>,
    pub grep: Option<String>,
}

pub struct LogTimersOptions {
    pub work_dir: String,
    /// Which log, as for showing one.
    pub file: Option<String>,
    pub sort: String,
    pub layers: Vec<String>,
}

/// A log file.
pub struct LogEntry {
    /// The file's name without its suffix.
    pub logical_name: String,
    pub path: String,
    pub timestamp: String,
    pub size: u64,
    pub is_latest: bool,
}

/// A log file.
pub struct EntryView {
    pub logical_name: Seq<char>,
    pub path: Seq<char>,
    pub timestamp: Seq<char>,
    pub size: u64,
    pub is_latest: bool,
}

impl View for LogEntry {
    type V = EntryView;

    open spec fn view(&self) -> EntryView {
        EntryView {
            logical_name: self.logical_name@,
            path: self.path@,
            timestamp: self.timestamp@,
            size: self.size,
            is_latest: self.is_latest,
        }
    }
}

/// Log files.
pub open spec fn entry_views(s: Seq<LogEntry>) -> Seq<EntryView> {
    Seq::new(s.len(), |i: int| s[i]@)
}

// ---------------------------------------------------------------------------
// Where logs are
// ---------------------------------------------------------------------------

/// The first directory, going up, that has what is looked for.
pub open spec fn first_found(found: Seq<bool>, from: nat) -> Option<nat>
    decreases found.len() - from,
{
    if from >= found.len() {
        None
    } else if found[from as int] {
        Some(from)
    } else {
        first_found(found, from + 1)
    }
}

fn find_first(found: &Vec<bool>) -> (r: Option<usize>)
    ensures
        match r {
            Some(i) => first_found(found@, 0) == Some(i as nat) && i < found@.len(),
            None => first_found(found@, 0) is None,
        },
{
    let mut i: usize = 0;
    while i < found.len()
        invariant
            i <= found@.len(),
            first_found(found@, 0) == first_found(found@, i as nat),
        decreases found.len() - i,
    {
        if found[i] {
            return Some(i);
        }
        i = i + 1;
    }
    None
}

/// The directory of the logs: that of the working directory, or of the nearest one
/// above it that has one. `candidates` are these directories from below, and `is_dir`
/// tells which of them are there.
pub fn find_logs_dir(candidates: &Vec<String>, is_dir: &Vec<bool>) -> (r: Result<String, Error>)
    requires
        candidates@.len() == is_dir@.len(),
    ensures
        match r {
            Ok(d) => first_found(is_dir@, 0) matches Some(i) && i < candidates@.len() && d@
                == candidates@[i as int]@,
            Err(e) => first_found(is_dir@, 0) is None && e.is_other(
                "no .omemfs/logs/ found; run a command first"@,
            ),
        },
{
    match find_first(is_dir) {
        Some(i) => Ok(candidates[i].clone()),
        None => Err(Error::Other("no .omemfs/logs/ found; run a command first".to_owned())),
    }
}

/// The latest log: that of the working directory, or of the nearest one above it.
pub fn resolve_latest(candidates: &Vec<String>, exists: &Vec<bool>) -> (r: Result<String, Error>)
    requires
        candidates@.len() == exists@.len(),
    ensures
        match r {
            Ok(d) => first_found(exists@, 0) matches Some(i) && i < candidates@.len() && d@
                == candidates@[i as int]@,
            Err(e) => first_found(exists@, 0) is None && e.is_other(
                "no .omemfs/logs/latest.log found; run a command first or provide a REF argument"@,
            ),
        },
{
    match find_first(exists) {
        Some(i) => Ok(candidates[i].clone()),
        None => Err(
            Error::Other(
                "no .omemfs/logs/latest.log found; run a command first or provide a REF argument".to_owned(),
            ),
        ),
    }
}

// ---------------------------------------------------------------------------
// Log files
// ---------------------------------------------------------------------------

/// Whether a name that is long enough to begin with a date and a time can be cut
/// there: behind the date, behind the next byte and behind the time, and between
/// their parts if a dash joins them.
pub open spec fn stem_ok(stem: Seq<char>) -> bool {
    text::byte_len(stem) >= 15 ==> {
        &&& text::cuts(stem, 8)
        &&& text::cuts(stem, 9)
        &&& text::cuts(stem, 15)
        &&& has_dash(stem) ==> {
            &&& text::cuts(stem, 4)
            &&& text::cuts(stem, 6)
            &&& text::cuts(stem, 11)
            &&& text::cuts(stem, 13)
        }
    }
}

/// Whether a dash stands behind the first eight bytes.
pub open spec fn has_dash(stem: Seq<char>) -> bool {
    encode_utf8(stem)[8] == 45
}

/// The time in a name of the form `YYYYMMDD-HHMMSS-cmd`; the name itself if it has
/// another form.
pub open spec fn stem_time(stem: Seq<char>) -> Seq<char> {
    if text::byte_len(stem) >= 15 && has_dash(stem) {
        text::in_bytes(stem, 0, 4) + "-"@ + text::in_bytes(stem, 4, 6) + "-"@ + text::in_bytes(
            stem,
            6,
            8,
        ) + " "@ + text::in_bytes(stem, 9, 11) + ":"@ + text::in_bytes(stem, 11, 13) + ":"@
            + text::in_bytes(stem, 13, 15)
    } else {
        stem
    }
}

/// The time in a name of the form `YYYYMMDD-HHMMSS-cmd`.
pub fn parse_timestamp_from_stem(stem: &str) -> (r: String)
    requires
        stem_ok(stem@),
    ensures
        r@ == stem_time(stem@),
{
    if byte_count(stem) < 15 || stem.as_bytes()[8] != 45 {
        return stem.to_owned();
    }
    proof {
        encode_utf8_valid_utf8(stem@);
        is_char_boundary_start_end_of_seq(encode_utf8(stem@));
    }
    let mut s = slice_bytes(stem, 0, 4);
    s.append("-");
    s.append(slice_bytes(stem, 4, 6).as_str());
    s.append("-");
    s.append(slice_bytes(stem, 6, 8).as_str());
    s.append(" ");
    s.append(slice_bytes(stem, 9, 11).as_str());
    s.append(":");
    s.append(slice_bytes(stem, 11, 13).as_str());
    s.append(":");
    s.append(slice_bytes(stem, 13, 15).as_str());
    s
}

/// A name in ASCII can always be cut, and its time is what its characters say.
pub proof fn law_ascii_stem(stem: Seq<char>)
    requires
        is_ascii_chars(stem),
    ensures
        stem_ok(stem),
        stem_time(stem) == if stem.len() >= 15 && stem[8] == '-' {
            stem.subrange(0, 4) + "-"@ + stem.subrange(4, 6) + "-"@ + stem.subrange(6, 8) + " "@
                + stem.subrange(9, 11) + ":"@ + stem.subrange(11, 13) + ":"@ + stem.subrange(13, 15)
        } else {
            stem
        },
{
    text::lemma_ascii_bytes(stem, 0, 0);
    if stem.len() >= 15 {
        text::lemma_ascii_bytes(stem, 0, 4);
        text::lemma_ascii_bytes(stem, 4, 6);
        text::lemma_ascii_bytes(stem, 6, 8);
        text::lemma_ascii_bytes(stem, 8, 9);
        text::lemma_ascii_bytes(stem, 9, 11);
        text::lemma_ascii_bytes(stem, 11, 13);
        text::lemma_ascii_bytes(stem, 13, 15);
        text::lemma_ascii_bytes(stem, 15, 15);
        assert('\0' <= stem[8] <= '\u{7f}');
    }
}

/// The size of a log file.
pub open spec fn log_size(bytes: nat) -> Seq<char> {
    if bytes >= 1_048_576 {
        figures::in_units(bytes, 1_048_576) + " M"@
    } else if bytes >= 1_024 {
        figures::in_units(bytes, 1_024) + " K"@
    } else {
        text::decimal(bytes) + " B"@
    }
}

/// The size of a log file, in the unit that fits.
pub fn fmt_size(bytes: u64) -> (r: String)
    ensures
        r@ == log_size(bytes as nat),
{
    if bytes >= 1_048_576 {
        concat(units_of(bytes, 1_048_576).as_str(), " M")
    } else if bytes >= 1_024 {
        concat(units_of(bytes, 1_024).as_str(), " K")
    } else {
        concat(decimal_of(bytes).as_str(), " B")
    }
}

/// A file in the directory of the logs.
pub struct LogFile {
    pub name: String,
    pub path: String,
    pub size: u64,
}

/// Whether a file is a log: it has the suffix, and is not the link to the latest.
pub open spec fn is_log(name: Seq<char>) -> bool {
    name != "latest.log"@ && text::has_suffix(name, ".log"@)
}

/// A log's name without the suffix.
pub open spec fn stem_of(name: Seq<char>) -> Seq<char> {
    name.take(name.len() - ".log"@.len())
}

/// The entry of a log file. `latest` is what the link to the latest names, with the
/// suffix or without.
pub open spec fn entry_of(f: LogFile, latest: Option<Seq<char>>) -> EntryView {
    EntryView {
        logical_name: stem_of(f.name@),
        path: f.path@,
        timestamp: stem_time(stem_of(f.name@)),
        size: f.size,
        is_latest: latest == Some(f.name@) || latest == Some(stem_of(f.name@)),
    }
}

/// `s` with `x` behind the last entry whose name does not come before it.
pub open spec fn place_entry(s: Seq<EntryView>, x: EntryView) -> Seq<EntryView>
    decreases s.len(),
{
    if s.len() == 0 || collections::lex_le(x.logical_name, s.last().logical_name) {
        s.push(x)
    } else {
        place_entry(s.drop_last(), x).push(s.last())
    }
}

/// The entries of the first `n` files that are logs, the newest name first.
pub open spec fn entries_upto(fs: Seq<LogFile>, latest: Option<Seq<char>>, n: nat) -> Seq<EntryView>
    decreases n,
{
    if n == 0 || n > fs.len() {
        seq![]
    } else {
        let prev = entries_upto(fs, latest, (n - 1) as nat);
        if is_log(fs[n - 1].name@) {
            place_entry(prev, entry_of(fs[n - 1], latest))
        } else {
            prev
        }
    }
}

proof fn lemma_place_entry_at(s: Seq<EntryView>, x: EntryView, at: int)
    requires
        0 <= at <= s.len(),
        at > 0 ==> collections::lex_le(x.logical_name, s[at - 1].logical_name),
        forall|k: int|
            at <= k < s.len() ==> !collections::lex_le(
                x.logical_name,
                (#[trigger] s[k]).logical_name,
            ),
    ensures
        place_entry(s, x) == s.insert(at, x),
    decreases s.len(),
{
    if at == s.len() {
        assert(s.insert(at, x) =~= s.push(x));
    } else {
        assert(s[s.len() - 1] == s.last());
        lemma_place_entry_at(s.drop_last(), x, at);
        assert(s.insert(at, x) =~= s.drop_last().insert(at, x).push(s.last()));
    }
}

fn insert_entry(entries: &mut Vec<LogEntry>, e: LogEntry)
    ensures
        entry_views(final(entries)@) == place_entry(entry_views(old(entries)@), e@),
{
    let ghost s = entry_views(entries@);
    let ghost x = e@;
    let mut at: usize = entries.len();
    while at > 0 && !text_le(e.logical_name.as_str(), entries[at - 1].logical_name.as_str())
        invariant
            at <= entries@.len(),
            *entries == *old(entries),
            s == entry_views(entries@),
            x == e@,
            forall|k: int|
                at <= k < s.len() ==> !collections::lex_le(
                    x.logical_name,
                    (#[trigger] s[k]).logical_name,
                ),
        decreases at,
    {
        assert(s[at - 1] == entries@[at - 1]@);
        at = at - 1;
    }
    proof {
        if at > 0 {
            assert(s[at - 1] == entries@[at - 1]@);
        }
        lemma_place_entry_at(s, x, at as int);
    }
    entries.insert(at, e);
    assert(entry_views(entries@) =~= s.insert(at as int, x));
}

/// Whether a text is what an option holds.
fn opt_is(o: &Option<String>, s: &str) -> (r: bool)
    ensures
        r == (text::opt_view(*o) == Some(s@)),
{
    match o {
        Some(t) => str_eq(t.as_str(), s),
        None => false,
    }
}

/// The log files, the newest first.
#[verifier::loop_isolation(false)]
pub fn scan_log_entries(files: &Vec<LogFile>, latest: &Option<String>) -> (r: Vec<LogEntry>)
    requires
        forall|i: int|
            0 <= i < files@.len() && is_log((#[trigger] files@[i]).name@) ==> stem_ok(
                stem_of(files@[i].name@),
            ),
    ensures
        entry_views(r@) == entries_upto(files@, text::opt_view(*latest), files@.len()),
{
    let mut entries: Vec<LogEntry> = Vec::new();
    assert(entry_views(entries@) =~= seq![]);
    let mut i: usize = 0;
    while i < files.len()
        invariant
            i <= files@.len(),
            entry_views(entries@) == entries_upto(files@, text::opt_view(*latest), i as nat),
        decreases files.len() - i,
    {
        let f = &files[i];
        let name = f.name.as_str();
        if !str_eq(name, "latest.log") {
            if let Some(stem) = strip_suffix(name, ".log") {
                assert(stem@ =~= stem_of(files@[i as int].name@));
                let timestamp = parse_timestamp_from_stem(stem.as_str());
                let is_latest = opt_is(latest, name) || opt_is(latest, stem.as_str());
                insert_entry(
                    &mut entries,
                    LogEntry {
                        logical_name: stem,
                        path: f.path.clone(),
                        timestamp,
                        size: f.size,
                        is_latest,
                    },
                );
            }
        }
        i = i + 1;
    }
    entries
}

/// The log files come newest first: no name comes after a smaller one.
pub proof fn law_newest_first(fs: Seq<LogFile>, latest: Option<Seq<char>>, n: nat)
    ensures
        forall|i: int, j: int|
            0 <= i <= j < entries_upto(fs, latest, n).len() ==> collections::lex_le(
                (#[trigger] entries_upto(fs, latest, n)[j]).logical_name,
                (#[trigger] entries_upto(fs, latest, n)[i]).logical_name,
            ),
    decreases n,
{
    if n > 0 && n <= fs.len() {
        law_newest_first(fs, latest, (n - 1) as nat);
        lemma_place_entry(entries_upto(fs, latest, (n - 1) as nat), entry_of(fs[n - 1], latest));
    }
}

proof fn lemma_place_entry(s: Seq<EntryView>, x: EntryView)
    requires
        forall|i: int, j: int|
            0 <= i <= j < s.len() ==> collections::lex_le(
                (#[trigger] s[j]).logical_name,
                (#[trigger] s[i]).logical_name,
            ),
    ensures
        place_entry(s, x).len() == s.len() + 1,
        forall|i: int|
            0 <= i <= s.len() ==> (#[trigger] place_entry(s, x)[i]) == x || s.contains(
                place_entry(s, x)[i],
            ),
        forall|i: int, j: int|
            0 <= i <= j < place_entry(s, x).len() ==> collections::lex_le(
                (#[trigger] place_entry(s, x)[j]).logical_name,
                (#[trigger] place_entry(s, x)[i]).logical_name,
            ),
    decreases s.len(),
{
    let r = place_entry(s, x);
    if s.len() == 0 || collections::lex_le(x.logical_name, s.last().logical_name) {
        assert forall|i: int| 0 <= i <= s.len() implies (#[trigger] r[i]) == x || s.contains(
            r[i],
        ) by {
            if i < s.len() {
                assert(r[i] == s[i]);
            }
        }
        assert forall|i: int, j: int| 0 <= i <= j < r.len() implies collections::lex_le(
            (#[trigger] r[j]).logical_name,
            (#[trigger] r[i]).logical_name,
        ) by {
            if j < s.len() {
                assert(r[i] == s[i] && r[j] == s[j]);
            } else if i < s.len() {
                assert(r[i] == s[i]);
                assert(collections::lex_le(s[s.len() - 1].logical_name, s[i].logical_name));
                collections::lemma_lex_transitive(
                    x.logical_name,
                    s.last().logical_name,
                    s[i].logical_name,
                );
            } else {
                collections::lemma_lex_total(x.logical_name, x.logical_name);
            }
        }
    } else {
        let init = s.drop_last();
        assert forall|i: int, j: int| 0 <= i <= j < init.len() implies collections::lex_le(
            (#[trigger] init[j]).logical_name,
            (#[trigger] init[i]).logical_name,
        ) by {
            assert(init[i] == s[i] && init[j] == s[j]);
        }
        lemma_place_entry(init, x);
        let p = place_entry(init, x);
        collections::lemma_lex_total(x.logical_name, s.last().logical_name);
        assert forall|i: int| 0 <= i <= s.len() implies (#[trigger] r[i]) == x || s.contains(
            r[i],
        ) by {
            if i < p.len() {
                assert(r[i] == p[i]);
                if p[i] != x {
                    let k = choose|k: int| 0 <= k < init.len() && init[k] == p[i];
                    assert(s[k] == p[i]);
                }
            } else {
                assert(r[i] == s[s.len() - 1]);
            }
        }
        assert forall|i: int, j: int| 0 <= i <= j < r.len() implies collections::lex_le(
            (#[trigger] r[j]).logical_name,
            (#[trigger] r[i]).logical_name,
        ) by {
            if j < p.len() {
                assert(r[i] == p[i] && r[j] == p[j]);
            } else if i < p.len() {
                assert(r[i] == p[i]);
                if p[i] != x {
                    let k = choose|k: int| 0 <= k < init.len() && init[k] == p[i];
                    assert(s[k] == p[i]);
                    assert(collections::lex_le(s[s.len() - 1].logical_name, s[k].logical_name));
                }
            } else {
                collections::lemma_lex_total(s.last().logical_name, s.last().logical_name);
            }
        }
    }
}

// ---------------------------------------------------------------------------
// Listing
// ---------------------------------------------------------------------------

/// The entries of the first `n` whose names hold `cmd`.
pub open spec fn named(es: Seq<EntryView>, cmd: Option<Seq<char>>, n: nat) -> Seq<EntryView>
    decreases n,
{
    if n == 0 || n > es.len() {
        seq![]
    } else {
        let prev = named(es, cmd, (n - 1) as nat);
        let keep = match cmd {
            Some(c) => text::has_part(es[n - 1].logical_name, c),
            None => true,
        };
        if keep {
            prev.push(es[n - 1])
        } else {
            prev
        }
    }
}

/// The entries that are listed: those whose names hold `cmd`, `count` at most.
pub open spec fn listed(es: Seq<EntryView>, cmd: Option<Seq<char>>, count: nat) -> Seq<EntryView> {
    let kept = named(es, cmd, es.len());
    if kept.len() <= count {
        kept
    } else {
        kept.take(count as int)
    }
}

/// The width of the names: twelve at least.
pub open spec fn name_width(es: Seq<EntryView>) -> nat
    decreases es.len(),
{
    if es.len() == 0 {
        12
    } else {
        let w = name_width(es.drop_last());
        let n = text::byte_len(es.last().logical_name);
        if n > w {
            n
        } else {
            w
        }
    }
}

/// The line of the `i`-th entry.
pub open spec fn entry_line(i: int, e: EntryView, w: nat) -> Seq<char> {
    "  "@ + text::right_in(text::decimal((i + 1) as nat), 2) + "  "@ + text::left_in(
        e.logical_name,
        w,
    ) + "  "@ + e.timestamp + "  "@ + log_size(e.size as nat) + if e.is_latest {
        "  [latest]"@
    } else {
        ""@
    }
}

/// The lines of the listing.
pub open spec fn ls_lines(dir: Seq<char>, es: Seq<EntryView>) -> Seq<Seq<char>> {
    seq![dir + ":"@] + Seq::new(es.len(), |i: int| entry_line(i, es[i], name_width(es)))
}

fn line_of_entry(i: usize, e: &LogEntry, w: usize) -> (r: String)
    requires
        i < usize::MAX,
    ensures
        r@ == entry_line(i as int, e@, w as nat),
{
    let mut s: String = "  ".to_owned();
    s.append(align_right(decimal_of((i + 1) as u64).as_str(), 2).as_str());
    s.append("  ");
    s.append(align_left(e.logical_name.as_str(), w).as_str());
    s.append("  ");
    s.append(e.timestamp.as_str());
    s.append("  ");
    s.append(fmt_size(e.size).as_str());
    s.append(
        if e.is_latest {
            "  [latest]"
        } else {
            ""
        },
    );
    s
}

/// Whether an entry is kept.
fn keeps(e: &LogEntry, cmd: &Option<String>) -> (r: bool)
    ensures
        r == (match text::opt_view(*cmd) {
            Some(c) => text::has_part(e.logical_name@, c),
            None => true,
        }),
{
    match cmd {
        Some(c) => contains(e.logical_name.as_str(), c.as_str()),
        None => true,
    }
}

/// A copy of an entry.
fn copy_entry(e: &LogEntry) -> (r: LogEntry)
    ensures
        r@ == e@,
{
    LogEntry {
        logical_name: e.logical_name.clone(),
        path: e.path.clone(),
        timestamp: e.timestamp.clone(),
        size: e.size,
        is_latest: e.is_latest,
    }
}

fn listed_entries(entries: &Vec<LogEntry>, cmd: &Option<String>, count: usize) -> (r: Vec<LogEntry>)
    ensures
        entry_views(r@) == listed(entry_views(entries@), text::opt_view(*cmd), count as nat),
{
    let ghost es = entry_views(entries@);
    let ghost c = text::opt_view(*cmd);
    let mut kept: Vec<LogEntry> = Vec::new();
    assert(entry_views(kept@) =~= seq![]);
    let mut i: usize = 0;
    while i < entries.len()
        invariant
            i <= entries@.len(),
            es == entry_views(entries@),
            c == text::opt_view(*cmd),
            entry_views(kept@) == named(es, c, i as nat),
        decreases entries.len() - i,
    {
        assert(es[i as int] == entries@[i as int]@);
        if keeps(&entries[i], cmd) {
            let ghost before = entry_views(kept@);
            let e = copy_entry(&entries[i]);
            let ghost v = e@;
            kept.push(e);
            assert(entry_views(kept@) =~= before.push(v));
        }
        i = i + 1;
    }
    assert(entry_views(kept@).len() == kept@.len());
    let ghost all = entry_views(kept@);
    if kept.len() > count {
        kept.truncate(count);
        assert(entry_views(kept@) =~= all.take(count as int));
    }
    kept
}

fn width_of_names(entries: &Vec<LogEntry>) -> (r: usize)
    ensures
        r == name_width(entry_views(entries@)),
{
    let ghost es = entry_views(entries@);
    let mut w: usize = 12;
    let mut i: usize = 0;
    assert(es.take(0) =~= seq![]);
    while i < entries.len()
        invariant
            i <= entries@.len(),
            es == entry_views(entries@),
            w == name_width(es.take(i as int)),
        decreases entries.len() - i,
    {
        assert(es.take(i + 1).drop_last() =~= es.take(i as int));
        assert(es[i as int] == entries@[i as int]@);
        let n: usize = byte_count(entries[i].logical_name.as_str());
        if n > w {
            w = n;
        }
        i = i + 1;
    }
    assert(es.take(es.len() as int) =~= es);
    w
}

/// Lists the log files, the newest first.
#[verifier::loop_isolation(false)]
pub fn run_ls(opts: &LogLsOptions, dir: &str, entries: &Vec<LogEntry>) -> (r: Vec<String>)
    ensures
        text::views(r@) == ls_lines(
            dir@,
            listed(entry_views(entries@), text::opt_view(opts.cmd), opts.count as nat),
        ),
{
    let shown = listed_entries(entries, &opts.cmd, opts.count);
    let ghost es = entry_views(shown@);
    let w: usize = width_of_names(&shown);
    let mut out: Vec<String> = Vec::new();
    let head = concat(dir, ":");
    let ghost h = head@;
    out.push(head);
    assert(text::views(out@) =~= seq![h]);
    let ghost lines = Seq::new(es.len(), |k: int| entry_line(k, es[k], w as nat));
    let n: usize = shown.len();
    let mut i: usize = 0;
    while i < n
        invariant
            i <= n,
            text::views(out@) =~= seq![h] + lines.take(i as int),
        decreases n - i,
    {
        assert(es[i as int] == shown@[i as int]@);
        let ghost before = text::views(out@);
        let line = line_of_entry(i, &shown[i], w);
        let ghost v = line@;
        out.push(line);
        assert(text::views(out@) =~= before.push(v));
        assert(lines.take(i + 1) =~= lines.take(i as int).push(lines[i as int]));
        i = i + 1;
    }
    assert(text::views(out@) =~= ls_lines(dir@, es));
    out
}

// ---------------------------------------------------------------------------
// References
// ---------------------------------------------------------------------------

/// Whether a text is the name of a log rather than a path: it has no slash and no
/// dot, and does not begin with `@`.
pub open spec fn name_shaped(s: Seq<char>) -> bool {
    !text::has_prefix(s, "@"@) && !text::has_part(s, "/"@) && !text::has_part(s, "."@)
}

/// Whether a text is the name of a log rather than a path.
pub fn is_logical_name(s: &str) -> (r: bool)
    ensures
        r == name_shaped(s@),
{
    !starts_with(s, "@") && !contains(s, "/") && !contains(s, ".")
}

/// Which log is meant.
pub enum LogRef {
    Latest,
    /// The log at this place in the list, as it was written.
    At(String),
    /// The log of this name.
    Name(String),
    /// The file at this path.
    Path(String),
}

/// Decides which log is meant: the latest if none is named.
pub fn resolve_ref(file: &Option<String>) -> (r: LogRef)
    ensures
        match *file {
            None => r is Latest,
            Some(f) => if text::has_prefix(f@, "@"@) {
                r matches LogRef::At(s) && s@ == f@
            } else if name_shaped(f@) {
                r matches LogRef::Name(s) && s@ == f@
            } else {
                r matches LogRef::Path(s) && s@ == f@
            },
        },
{
    match file {
        None => LogRef::Latest,
        Some(f) => {
            if starts_with(f.as_str(), "@") {
                LogRef::At(f.clone())
            } else if is_logical_name(f.as_str()) {
                LogRef::Name(f.clone())
            } else {
                LogRef::Path(f.clone())
            }
        },
    }
}

/// The path of the log at a place in the list, the first being `@1`.
pub open spec fn at_place(at: Seq<char>, es: Seq<EntryView>) -> Result<Seq<char>, Seq<char>> {
    match text::parsed(at.skip(1), usize::MAX as nat) {
        None => Err("invalid REF '"@ + at + "': expected @<number>"@),
        Some(n) => if n == 0 {
            Err("invalid REF '"@ + at + "': index must be 1 or greater"@)
        } else if n <= es.len() {
            Ok(es[n - 1].path)
        } else {
            Err("no log entry at index "@ + text::decimal(n))
        },
    }
}

/// The path of the log at a place in the list.
pub fn resolve_at_ref(at: &str, entries: &Vec<LogEntry>) -> (r: Result<String, Error>)
    requires
        text::has_prefix(at@, "@"@),
    ensures
        match r {
            Ok(p) => at_place(at@, entry_views(entries@)) == Ok::<Seq<char>, Seq<char>>(p@),
            Err(e) => at_place(at@, entry_views(entries@)) matches Err(t) && e.is_other(t),
        },
{
    proof {
        reveal_strlit("@");
    }
    let digits: String = match strip_prefix(at, "@") {
        Some(s) => s,
        None => at.to_owned(),
    };
    match parse_usize(digits.as_str()) {
        None => Err(Error::Other(concat3("invalid REF '", at, "': expected @<number>"))),
        Some(n) => {
            if n == 0 {
                return Err(
                    Error::Other(concat3("invalid REF '", at, "': index must be 1 or greater")),
                );
            }
            if n <= entries.len() {
                assert(entry_views(entries@)[n - 1] == entries@[n - 1]@);
                Ok(entries[n - 1].path.clone())
            } else {
                Err(Error::Other(concat("no log entry at index ", decimal_of(n as u64).as_str())))
            }
        },
    }
}

/// The path of the log of a name, given where it would be and whether it is there.
pub fn resolve_logical_name(name: &str, path: &str, exists: bool) -> (r: Result<String, Error>)
    ensures
        match r {
            Ok(p) => exists && p@ == path@,
            Err(e) => !exists && e.is_other(
                "log file not found for logical name '"@ + name@ + "' (tried "@ + path@ + ")"@,
            ),
        },
{
    if exists {
        Ok(path.to_owned())
    } else {
        let mut s: String = "log file not found for logical name '".to_owned();
        s.append(name);
        s.append("' (tried ");
        s.append(path);
        s.append(")");
        Err(Error::Other(s))
    }
}

// ---------------------------------------------------------------------------
// Layers
// ---------------------------------------------------------------------------

/// The first filter that names no layer.
pub open spec fn first_unknown(parsed: Seq<Option<Layer>>, from: nat) -> Option<nat>
    decreases parsed.len() - from,
{
    if from >= parsed.len() {
        None
    } else if parsed[from as int] is None {
        Some(from)
    } else {
        first_unknown(parsed, from + 1)
    }
}

/// The layers to show. `parsed` is what each of the filters names.
pub fn parse_layer_filters(specs: &Vec<String>, parsed: &Vec<Option<Layer>>) -> (r: Result<
    Vec<Layer>,
    Error,
>)
    requires
        specs@.len() == parsed@.len(),
    ensures
        match r {
            Ok(ls) => first_unknown(parsed@, 0) is None && ls@.len() == parsed@.len() && forall|
                i: int,
            |
                0 <= i < ls@.len() ==> parsed@[i] == Some(#[trigger] ls@[i]),
            Err(e) => first_unknown(parsed@, 0) matches Some(i) && i < specs@.len()
                && e.is_other(
                "unknown layer '"@ + specs@[i as int]@ + "'; valid values are L1–L7"@,
            ),
        },
{
    let mut out: Vec<Layer> = Vec::new();
    let mut i: usize = 0;
    while i < parsed.len()
        invariant
            i <= parsed@.len(),
            specs@.len() == parsed@.len(),
            first_unknown(parsed@, 0) == first_unknown(parsed@, i as nat),
            out@.len() == i,
            forall|k: int| 0 <= k < i ==> parsed@[k] == Some(#[trigger] out@[k]),
        decreases parsed.len() - i,
    {
        match parsed[i] {
            Some(l) => {
                out.push(l);
            },
            None => {
                return Err(
                    Error::Other(
                        concat3(
                            "unknown layer '",
                            specs[i].as_str(),
                            "'; valid values are L1–L7",
                        ),
                    ),
                );
            },
        }
        i = i + 1;
    }
    Ok(out)
}

/// Whether a layer is shown: all are where no filter is given.
pub fn layer_matches(layer: &Layer, filter: &Vec<Layer>) -> (r: bool)
    ensures
        r == (filter@.len() == 0 || filter@.contains(*layer)),
{
    if filter.len() == 0 {
        return true;
    }
    let mut i: usize = 0;
    while i < filter.len()
        invariant
            i <= filter@.len(),
            forall|k: int| 0 <= k < i ==> filter@[k] != *layer,
        decreases filter.len() - i,
    {
        if filter[i] == *layer {
            return true;
        }
        i = i + 1;
    }
    false
}

// ---------------------------------------------------------------------------
// Showing
// ---------------------------------------------------------------------------

/// A line of a log: what it is made of, if it is one that a command wrote.
pub struct RawLine {
    pub raw: String,
    pub parsed: Option<ParsedLine>,
}

/// The layer and the text of a line.
pub struct ParsedLine {
    pub layer: Layer,
    pub text: String,
}

/// A line with its head, sixteen bytes wide, in the colour of its layer. A line too
/// short to have one stays as it is.
pub open spec fn coloured(raw: Seq<char>, layer: Layer) -> Seq<char> {
    let n = text::byte_len(raw);
    if n < 16 {
        raw
    } else {
        "\x1b["@ + text::decimal(layer.color() as nat) + "m"@ + text::in_bytes(raw, 0, 16)
            + "\x1b[0m"@ + text::in_bytes(raw, 16, n as int)
    }
}

/// Whether the head of a line can be told from the rest.
pub open spec fn head_ok(raw: Seq<char>) -> bool {
    text::byte_len(raw) >= 16 ==> text::cuts(raw, 16)
}

/// A line with its head in the colour of its layer.
pub fn colorize_prefix(raw: &str, layer: Layer) -> (r: String)
    requires
        head_ok(raw@),
    ensures
        r@ == coloured(raw@, layer),
{
    let n: usize = byte_count(raw);
    if n < 16 {
        return raw.to_owned();
    }
    proof {
        encode_utf8_valid_utf8(raw@);
        is_char_boundary_start_end_of_seq(encode_utf8(raw@));
    }
    let head = slice_bytes(raw, 0, 16);
    let rest = slice_bytes(raw, 16, n);
    let mut s: String = "\x1b[".to_owned();
    s.append(decimal_of(layer.color_code() as u64).as_str());
    s.append("m");
    s.append(head.as_str());
    s.append("\x1b[0m");
    s.append(rest.as_str());
    s
}

/// A line in ASCII can always be cut, and its head is its first sixteen characters.
pub proof fn law_ascii_head(raw: Seq<char>, layer: Layer)
    requires
        is_ascii_chars(raw),
    ensures
        head_ok(raw),
        coloured(raw, layer) == if raw.len() < 16 {
            raw
        } else {
            "\x1b["@ + text::decimal(layer.color() as nat) + "m"@ + raw.take(16) + "\x1b[0m"@
                + raw.skip(16)
        },
{
    text::lemma_ascii_bytes(raw, 0, 0);
    if raw.len() >= 16 {
        text::lemma_ascii_bytes(raw, 0, 16);
        text::lemma_ascii_bytes(raw, 16, raw.len() as int);
        assert(raw.take(16) =~= raw.subrange(0, 16));
        assert(raw.skip(16) =~= raw.subrange(16, raw.len() as int));
    }
}

/// Whether a line is shown: it was written by a command, is of a layer that is asked
/// for, and holds the text that is looked for.
pub open spec fn is_shown(l: RawLine, filter: Seq<Layer>, grep: Option<Seq<char>>) -> bool {
    match l.parsed {
        None => false,
        Some(p) => (filter.len() == 0 || filter.contains(p.layer)) && match grep {
            Some(g) => text::has_part(p.text@, g),
            None => true,
        },
    }
}

/// The first `n` lines that are shown.
pub open spec fn shown_upto(
    ls: Seq<RawLine>,
    filter: Seq<Layer>,
    grep: Option<Seq<char>>,
    colour: bool,
    n: nat,
) -> Seq<Seq<char>>
    decreases n,
{
    if n == 0 || n > ls.len() {
        seq![]
    } else {
        let prev = shown_upto(ls, filter, grep, colour, (n - 1) as nat);
        let l = ls[n - 1];
        if is_shown(l, filter, grep) {
            prev.push(
                if colour {
                    coloured(l.raw@, l.parsed->0.layer)
                } else {
                    l.raw@
                },
            )
        } else {
            prev
        }
    }
}

/// Shows the lines of a log that are of the layers asked for and hold the text looked
/// for.
#[verifier::loop_isolation(false)]
pub fn run_show(opts: &LogShowOptions, lines: &Vec<RawLine>, filter: &Vec<Layer>, colour: bool) -> (r:
    Vec<String>)
    requires
        colour ==> forall|i: int|
            0 <= i < lines@.len() && is_shown(
                #[trigger] lines@[i],
                filter@,
                text::opt_view(opts.grep),
            ) ==> head_ok(lines@[i].raw@),
    ensures
        text::views(r@) == shown_upto(
            lines@,
            filter@,
            text::opt_view(opts.grep),
            colour,
            lines@.len(),
        ),
{
    let ghost grep = text::opt_view(opts.grep);
    let mut out: Vec<String> = Vec::new();
    assert(text::views(out@) =~= seq![]);
    let mut i: usize = 0;
    while i < lines.len()
        invariant
            i <= lines@.len(),
            text::views(out@) == shown_upto(lines@, filter@, grep, colour, i as nat),
        decreases lines.len() - i,
    {
        if let Some(p) = &lines[i].parsed {
            let hit = match &opts.grep {
                Some(g) => contains(p.text.as_str(), g.as_str()),
                None => true,
            };
            if layer_matches(&p.layer, filter) && hit {
                assert(is_shown(lines@[i as int], filter@, grep));
                let ghost before = text::views(out@);
                let line: String = if colour {
                    colorize_prefix(lines[i].raw.as_str(), p.layer)
                } else {
                    lines[i].raw.clone()
                };
                let ghost v = line@;
                out.push(line);
                assert(text::views(out@) =~= before.push(v));
            }
        }
        i = i + 1;
    }
    out
}

// ---------------------------------------------------------------------------
// Timers
// ---------------------------------------------------------------------------

/// Whether a span counts towards the total of its layer. The phases of a command are
/// spans of the first layer inside the command's own: counting them too would count
/// their time twice.
pub fn counts_for_layer(layer: Layer, depth: usize) -> (r: bool)
    ensures
        r == (layer != Layer::L1 || depth == 0),
{
    !(layer == Layer::L1 && depth != 0)
}

/// The short name of a layer.
pub open spec fn short_tag(layer: Layer) -> Seq<char> {
    match layer {
        Layer::L1 => "L1"@,
        Layer::L2 => "L2"@,
        Layer::L3 => "L3"@,
        Layer::L4 => "L4"@,
        Layer::L5 => "L5"@,
        Layer::L6 => "L6"@,
        Layer::L7 => "L7"@,
    }
}

/// The short name of a layer.
pub fn layer_tag_short(layer: Layer) -> (r: &'static str)
    ensures
        r@ == short_tag(layer),
{
    match layer {
        Layer::L1 => "L1",
        Layer::L2 => "L2",
        Layer::L3 => "L3",
        Layer::L4 => "L4",
        Layer::L5 => "L5",
        Layer::L6 => "L6",
        Layer::L7 => "L7",
    }
}

/// The first characters of a text.
pub open spec fn cut(s: Seq<char>, max: nat) -> Seq<char> {
    if s.len() <= max {
        s
    } else {
        s.take(max as int)
    }
}

/// The first `max_chars` characters of a text, however many bytes they take.
pub fn truncate_chars(s: &str, max_chars: usize) -> (r: String)
    ensures
        r@ == cut(s@, max_chars as nat),
{
    let chars = chars_of(s);
    if chars.len() <= max_chars {
        return s.to_owned();
    }
    assert(s@.take(max_chars as int) =~= s@.subrange(0, max_chars as int));
    string_of(&chars, 0, max_chars)
}

/// A row of the table of timers. The durations are texts.
pub struct TimerRow {
    pub label: String,
    pub layer: Layer,
    pub count: u64,
    pub total: String,
    pub avg: String,
    pub max: String,
}

/// The width of the labels: at least five, and at most forty characters.
pub open spec fn label_width(rows: Seq<TimerRow>) -> nat
    decreases rows.len(),
{
    if rows.len() == 0 {
        5
    } else {
        let w = label_width(rows.drop_last());
        let n = cut(rows.last().label@, 40).len();
        if n > w {
            n
        } else {
            w
        }
    }
}

/// A line of the table of timers.
pub open spec fn timer_line(
    label: Seq<char>,
    layer: Seq<char>,
    count: Seq<char>,
    total: Seq<char>,
    avg: Seq<char>,
    max: Seq<char>,
    w: nat,
) -> Seq<char> {
    text::left_in(label, w) + "  "@ + text::left_in(layer, 5) + "  "@ + text::right_in(count, 6)
        + "  "@ + text::right_in(total, 9) + "  "@ + text::right_in(avg, 9) + "  "@
        + text::right_in(max, 9)
}

/// The line of a row.
pub open spec fn timer_row_line(r: TimerRow, w: nat) -> Seq<char> {
    timer_line(
        cut(r.label@, 40),
        short_tag(r.layer),
        text::decimal(r.count as nat),
        r.total@,
        r.avg@,
        r.max@,
        w,
    )
}

/// The table of timers.
pub open spec fn timer_lines(rows: Seq<TimerRow>) -> Seq<Seq<char>> {
    if rows.len() == 0 {
        seq!["No timer spans found."@]
    } else {
        let w = label_width(rows);
        seq![
            timer_line("Label"@, "Layer"@, "Count"@, "Total"@, "Avg"@, "Max"@, w),
            text::repeated('-', w + 48),
        ] + Seq::new(rows.len(), |i: int| timer_row_line(rows[i], w))
    }
}

fn line_of_timer(
    label: &str,
    layer: &str,
    count: &str,
    total: &str,
    avg: &str,
    max: &str,
    w: usize,
) -> (r: String)
    ensures
        r@ == timer_line(label@, layer@, count@, total@, avg@, max@, w as nat),
{
    let mut s: String = align_left(label, w);
    s.append("  ");
    s.append(align_left(layer, 5).as_str());
    s.append("  ");
    s.append(align_right(count, 6).as_str());
    s.append("  ");
    s.append(align_right(total, 9).as_str());
    s.append("  ");
    s.append(align_right(avg, 9).as_str());
    s.append("  ");
    s.append(align_right(max, 9).as_str());
    s
}

fn width_of_labels(rows: &Vec<TimerRow>) -> (r: usize)
    ensures
        r == label_width(rows@),
        r <= 40,
{
    let mut w: usize = 5;
    let mut i: usize = 0;
    assert(rows@.take(0) =~= seq![]);
    while i < rows.len()
        invariant
            i <= rows@.len(),
            w == label_width(rows@.take(i as int)),
            w <= 40,
        decreases rows.len() - i,
    {
        assert(rows@.take(i + 1).drop_last() =~= rows@.take(i as int));
        let label = truncate_chars(rows[i].label.as_str(), 40);
        let n: usize = label.as_str().unicode_len();
        if n > w {
            w = n;
        }
        i = i + 1;
    }
    assert(rows@.take(rows@.len() as int) =~= rows@);
    w
}

/// The table of timers, row by row in the order given.
#[verifier::loop_isolation(false)]
pub fn print_timers(rows: &Vec<TimerRow>) -> (r: Vec<String>)
    ensures
        text::views(r@) == timer_lines(rows@),
{
    let mut out: Vec<String> = Vec::new();
    if rows.len() == 0 {
        out.push("No timer spans found.".to_owned());
        assert(text::views(out@) =~= timer_lines(rows@));
        return out;
    }
    let w: usize = width_of_labels(rows);
    out.push(line_of_timer("Label", "Layer", "Count", "Total", "Avg", "Max", w));
    out.push(repeat('-', w + 48));
    let ghost top = text::views(out@);
    assert(top =~= seq![
        timer_line("Label"@, "Layer"@, "Count"@, "Total"@, "Avg"@, "Max"@, w as nat),
        text::repeated('-', (w + 48) as nat),
    ]);
    let ghost lines = Seq::new(rows@.len(), |k: int| timer_row_line(rows@[k], w as nat));
    let mut i: usize = 0;
    while i < rows.len()
        invariant
            i <= rows@.len(),
            text::views(out@) =~= top + lines.take(i as int),
        decreases rows.len() - i,
    {
        let r = &rows[i];
        let label = truncate_chars(r.label.as_str(), 40);
        let ghost before = text::views(out@);
        let line = line_of_timer(
            label.as_str(),
            layer_tag_short(r.layer),
            decimal_of(r.count).as_str(),
            r.total.as_str(),
            r.avg.as_str(),
            r.max.as_str(),
            w,
        );
        let ghost v = line@;
        out.push(line);
        assert(text::views(out@) =~= before.push(v));
        assert(lines.take(i + 1) =~= lines.take(i as int).push(lines[i as int]));
        i = i + 1;
    }
    assert(text::views(out@) =~= timer_lines(rows@));
    out
}

/// What the timers are sorted by, the largest first.
#[derive(Clone, Copy, Debug, PartialEq, Eq, Structural)]
pub enum SortKey {
    Avg,
    Count,
    Max,
    Total,
}

/// A letter from A to Z as a small one.
pub open spec fn small(c: char) -> char {
    if 'A' <= c <= 'Z' {
        (c as u32 + 32) as char
    } else {
        c
    }
}

/// Whether a text is `word`, written with large or small letters.
pub open spec fn reads(s: Seq<char>, word: Seq<char>) -> bool {
    s.len() == word.len() && forall|i: int| 0 <= i < s.len() ==> small(#[trigger] s[i]) == word[i]
}

/// What the timers are sorted by: the total unless another key is named.
pub open spec fn sort_key(s: Seq<char>) -> SortKey {
    if reads(s, "avg"@) {
        SortKey::Avg
    } else if reads(s, "count"@) {
        SortKey::Count
    } else if reads(s, "max"@) {
        SortKey::Max
    } else {
        SortKey::Total
    }
}

fn small_of(c: char) -> (r: char)
    ensures
        r == small(c),
{
    if 'A' <= c && c <= 'Z' {
        let b: u8 = c as u8 + 32;
        b as char
    } else {
        c
    }
}

fn is_word(s: &str, word: &str) -> (r: bool)
    ensures
        r == reads(s@, word@),
{
    let a = chars_of(s);
    let b = chars_of(word);
    if a.len() != b.len() {
        return false;
    }
    let mut i: usize = 0;
    while i < a.len()
        invariant
            i <= a@.len(),
            a@ == s@,
            b@ == word@,
            a@.len() == b@.len(),
            forall|k: int| 0 <= k < i ==> small(#[trigger] s@[k]) == word@[k],
        decreases a.len() - i,
    {
        if small_of(a[i]) != b[i] {
            assert(small(s@[i as int]) != word@[i as int]);
            return false;
        }
        i = i + 1;
    }
    true
}

/// The places of the first `n` spans whose layers are asked for.
pub open spec fn spans_kept(layers: Seq<Layer>, filter: Seq<Layer>, n: nat) -> Seq<usize>
    decreases n,
{
    if n == 0 || n > layers.len() {
        seq![]
    } else {
        let prev = spans_kept(layers, filter, (n - 1) as nat);
        if filter.len() == 0 || filter.contains(layers[n - 1]) {
            prev.push((n - 1) as usize)
        } else {
            prev
        }
    }
}

/// Decides which spans are counted, by their places, and what the table is sorted by.
/// `layers` are those of the spans.
pub fn run_timers(opts: &LogTimersOptions, layers: &Vec<Layer>, filter: &Vec<Layer>) -> (r: (
    Vec<usize>,
    SortKey,
))
    ensures
        r.0@ == spans_kept(layers@, filter@, layers@.len()),
        r.1 == sort_key(opts.sort@),
{
    let mut kept: Vec<usize> = Vec::new();
    let mut i: usize = 0;
    while i < layers.len()
        invariant
            i <= layers@.len(),
            kept@ == spans_kept(layers@, filter@, i as nat),
        decreases layers.len() - i,
    {
        if layer_matches(&layers[i], filter) {
            kept.push(i);
        }
        i = i + 1;
    }
    let sort = opts.sort.as_str();
    let key = if is_word(sort, "avg") {
        SortKey::Avg
    } else if is_word(sort, "count") {
        SortKey::Count
    } else if is_word(sort, "max") {
        SortKey::Max
    } else {
        SortKey::Total
    };
    (kept, key)
}

} // verus!
