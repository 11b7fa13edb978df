//! How the rows of a listing are written: columns, and what colours them.

use crate::commands::ls::marks;
use crate::commands::ls::rows::{Row, RowView, STATUS_UNKNOWN};
use crate::object::Timestamp;
use crate::text::{self, align_right, byte_count, chars_of, concat, decimal_of, repeat, string_of};
use chrono::Datelike;
use vstd::prelude::*;

verus! {

// ---------------------------------------------------------------------------
// Times
// ---------------------------------------------------------------------------

/// Stages for the short form of a time.
#[derive(Clone, Copy, Debug, PartialEq, Eq, Structural)]
pub enum MtimeStage {
    /// Less than a minute ago: `now`.
    JustNow,
    /// Less than an hour ago: `<N>m`.
    MinAgo,
    /// The same calendar day: `MM-DD HH:MM`, in two colours.
    Today,
    /// At most 14 calendar days ago: `MM-DD HH:MM`.
    Recent,
    /// Otherwise: `YYYY-MM-DD`.
    Older,
}

/// The first second that has a calendar date at every offset from UTC: a day after
/// the year -262143 begins.
pub const FIRST_SECOND: i64 = -8_334_601_142_400;

/// The last second that has a calendar date at every offset from UTC: a day before
/// the year 262142 ends.
pub const LAST_SECOND: i64 = 8_210_266_790_399;

/// Whether a time is one that a calendar date can be given for.
pub open spec fn dated(t: Timestamp) -> bool {
    FIRST_SECOND <= t.secs <= LAST_SECOND && t.nanos < 1_000_000_000
}

/// Whether an offset from UTC, in seconds, is less than a day.
pub open spec fn is_offset(secs: i32) -> bool {
    -86_400 < secs < 86_400
}

/// The number of the local calendar day, the first of January of the year 1 being
/// day 1.
pub open spec fn day_number(secs: int, offset: int) -> int {
    (secs + offset) / 86_400 + 719_163
}

/// Month, day, hour and minute, as a format string.
pub const DAY_AND_TIME: &'static str = "%m-%d %H:%M";

/// Year, month and day, as a format string.
pub const FULL_DATE: &'static str = "%Y-%m-%d";

/// What `chrono` writes for a time, seen at an offset from UTC, under a format
/// string.
pub uninterp spec fn local_format(secs: i64, offset: i32, pattern: Seq<char>) -> Seq<char>;

/// `num_days_from_ce` of `chrono`, on the date that `date_naive` gives for a time at
/// a fixed offset from UTC. `chrono` counts the days of the proleptic Gregorian
/// calendar, in which the first of January 1970 is day 719163; a day begins every
/// 86400 seconds of local time. The date of a time in this range always exists.
#[verifier::external_body]
fn local_day(secs: i64, offset: i32) -> (r: i32)
    requires
        FIRST_SECOND <= secs <= LAST_SECOND,
        is_offset(offset),
    ensures
        r == day_number(secs as int, offset as int),
{
    let zone = chrono::FixedOffset::east_opt(offset).unwrap();
    let time = chrono::DateTime::<chrono::Utc>::from_timestamp(secs, 0).unwrap();
    time.with_timezone(&zone).date_naive().num_days_from_ce()
}

/// `DateTime::format` of `chrono`, at a fixed offset from UTC. What it writes is a
/// function of the time, the offset and the format string, and is named
/// [`local_format`]; month, day, hour and minute have two digits each. Both format
/// strings that are let in are valid, so that writing does not fail.
#[verifier::external_body]
fn local_text(secs: i64, offset: i32, pattern: &str) -> (r: String)
    requires
        FIRST_SECOND <= secs <= LAST_SECOND,
        is_offset(offset),
        pattern@ == DAY_AND_TIME@ || pattern@ == FULL_DATE@,
    ensures
        r@ == local_format(secs, offset, pattern@),
        pattern@ == DAY_AND_TIME@ ==> r@.len() == 11,
{
    let zone = chrono::FixedOffset::east_opt(offset).unwrap();
    let time = chrono::DateTime::<chrono::Utc>::from_timestamp(secs, 0).unwrap();
    time.with_timezone(&zone).format(pattern).to_string()
}

/// Whether `a` is not after `b`.
pub open spec fn not_after(a: Timestamp, b: Timestamp) -> bool {
    a.secs < b.secs || a.secs == b.secs && a.nanos <= b.nanos
}

/// The whole seconds from `a` to `b`.
pub open spec fn seconds_between(a: Timestamp, b: Timestamp) -> int {
    b.secs - a.secs - if b.nanos < a.nanos {
        1int
    } else {
        0int
    }
}

/// The stage of a time, seen from `now`, each at its own offset from UTC. A time to
/// come is never recent.
pub open spec fn stage_of(ts: Timestamp, offset: i32, now: Timestamp, now_offset: i32) -> MtimeStage {
    let days = day_number(now.secs as int, now_offset as int) - day_number(
        ts.secs as int,
        offset as int,
    );
    if not_after(ts, now) && seconds_between(ts, now) < 60 {
        MtimeStage::JustNow
    } else if not_after(ts, now) && seconds_between(ts, now) < 3600 {
        MtimeStage::MinAgo
    } else if days == 0 {
        MtimeStage::Today
    } else if 0 < days <= 14 {
        MtimeStage::Recent
    } else {
        MtimeStage::Older
    }
}

/// The stage of a time, seen from `now`, each at its own offset from UTC.
pub fn mtime_stage(ts: Timestamp, offset: i32, now: Timestamp, now_offset: i32) -> (r: MtimeStage)
    requires
        dated(ts),
        dated(now),
        is_offset(offset),
        is_offset(now_offset),
    ensures
        r == stage_of(ts, offset, now, now_offset),
{
    if ts.secs < now.secs || ts.secs == now.secs && ts.nanos <= now.nanos {
        let borrow: i64 = if now.nanos < ts.nanos {
            1
        } else {
            0
        };
        let secs: i64 = now.secs - ts.secs - borrow;
        if secs < 60 {
            return MtimeStage::JustNow;
        }
        if secs / 60 < 60 {
            return MtimeStage::MinAgo;
        }
    }
    let today: i32 = local_day(now.secs, now_offset);
    let day: i32 = local_day(ts.secs, offset);
    let days: i64 = today as i64 - day as i64;
    if days == 0 {
        MtimeStage::Today
    } else if days > 0 && days <= 14 {
        MtimeStage::Recent
    } else {
        MtimeStage::Older
    }
}

/// What is written for a time.
pub open spec fn mtime_text(ts: Timestamp, offset: i32, now: Timestamp, stage: MtimeStage) -> Seq<
    char,
> {
    match stage {
        MtimeStage::JustNow => "now"@,
        MtimeStage::MinAgo => text::decimal((seconds_between(ts, now) / 60) as nat) + "m"@,
        MtimeStage::Today | MtimeStage::Recent => local_format(ts.secs, offset, DAY_AND_TIME@),
        MtimeStage::Older => local_format(ts.secs, offset, FULL_DATE@),
    }
}

/// What is written for a time, and the stage that colours it.
pub fn format_mtime_staged(ts: Timestamp, offset: i32, now: Timestamp, now_offset: i32) -> (r: (
    String,
    MtimeStage,
))
    requires
        dated(ts),
        dated(now),
        is_offset(offset),
        is_offset(now_offset),
    ensures
        r.1 == stage_of(ts, offset, now, now_offset),
        r.0@ == mtime_text(ts, offset, now, r.1),
{
    let stage = mtime_stage(ts, offset, now, now_offset);
    let text: String = match stage {
        MtimeStage::JustNow => "now".to_owned(),
        MtimeStage::MinAgo => {
            let borrow: i64 = if now.nanos < ts.nanos {
                1
            } else {
                0
            };
            let minutes: i64 = (now.secs - ts.secs - borrow) / 60;
            concat(decimal_of(minutes as u64).as_str(), "m")
        },
        MtimeStage::Today | MtimeStage::Recent => local_text(ts.secs, offset, DAY_AND_TIME),
        MtimeStage::Older => local_text(ts.secs, offset, FULL_DATE),
    };
    (text, stage)
}

// ---------------------------------------------------------------------------
// Pieces
// ---------------------------------------------------------------------------

/// What colours a piece of a line.
#[derive(Clone, Copy, Debug, PartialEq, Eq, Structural)]
pub enum Ink {
    Plain,
    Added,
    Modified,
    Deleted,
    Conflict,
    Meta,
    Stub,
    Digest,
    Directory,
    /// A group of three digits, counted from the right.
    Grade(usize),
    JustNow,
    MinAgo,
    TodayDate,
    TodayTime,
    Recent,
    Older,
}

/// A piece of a line.
pub struct Piece {
    pub ink: Ink,
    pub text: String,
}

/// What a piece says.
pub struct PieceView {
    pub ink: Ink,
    pub text: Seq<char>,
}

impl View for Piece {
    type V = PieceView;

    open spec fn view(&self) -> PieceView {
        PieceView { ink: self.ink, text: self.text@ }
    }
}

/// What pieces say.
pub open spec fn piece_views(s: Seq<Piece>) -> Seq<PieceView> {
    Seq::new(s.len(), |i: int| s[i]@)
}

/// The text of pieces, without their colours.
pub open spec fn plain_text(s: Seq<PieceView>) -> Seq<char>
    decreases s.len(),
{
    if s.len() == 0 {
        seq![]
    } else {
        plain_text(s.drop_last()) + s.last().text
    }
}

fn put(out: &mut Vec<Piece>, ink: Ink, text: String)
    ensures
        piece_views(final(out)@) == piece_views(old(out)@).push(PieceView { ink, text: text@ }),
{
    let ghost before = piece_views(out@);
    let ghost v = PieceView { ink, text: text@ };
    out.push(Piece { ink, text });
    assert(piece_views(out@) =~= before.push(v));
}

/// The colour of a local status.
pub open spec fn status_ink(status: char) -> Ink {
    if status == 'A' {
        Ink::Added
    } else if status == 'M' {
        Ink::Modified
    } else if status == 'D' {
        Ink::Deleted
    } else if status == STATUS_UNKNOWN {
        Ink::Conflict
    } else {
        Ink::Plain
    }
}

/// The colour of a local status.
pub fn paint_status(status: char) -> (r: Ink)
    ensures
        r == status_ink(status),
{
    if status == 'A' {
        Ink::Added
    } else if status == 'M' {
        Ink::Modified
    } else if status == 'D' {
        Ink::Deleted
    } else if status == STATUS_UNKNOWN {
        Ink::Conflict
    } else {
        Ink::Plain
    }
}

/// The piece of a remote status.
pub open spec fn remote_piece(status: char) -> PieceView {
    if status == 'M' {
        PieceView { ink: Ink::Modified, text: seq!['M'] }
    } else if status == 'A' {
        PieceView { ink: Ink::Added, text: seq!['A'] }
    } else if status == 'D' {
        PieceView { ink: Ink::Deleted, text: seq!['D'] }
    } else {
        PieceView { ink: Ink::Plain, text: seq![' '] }
    }
}

/// The piece of a mark.
pub open spec fn mark_piece(z: char) -> PieceView {
    if z == '!' || z == '?' {
        PieceView { ink: Ink::Conflict, text: seq![z] }
    } else if z == 'I' || z == 'i' {
        PieceView { ink: Ink::Meta, text: seq![z] }
    } else if z == 'S' || z == 's' {
        PieceView { ink: Ink::Stub, text: seq![z] }
    } else {
        PieceView { ink: Ink::Plain, text: seq![' '] }
    }
}

fn one(c: char) -> (r: String)
    ensures
        r@ == seq![c],
{
    let mut s = String::new();
    s.push(c);
    assert(s@ =~= seq![c]);
    s
}

fn put_remote(out: &mut Vec<Piece>, status: char)
    ensures
        piece_views(final(out)@) == piece_views(old(out)@).push(remote_piece(status)),
{
    if status == 'M' {
        put(out, Ink::Modified, one('M'));
    } else if status == 'A' {
        put(out, Ink::Added, one('A'));
    } else if status == 'D' {
        put(out, Ink::Deleted, one('D'));
    } else {
        put(out, Ink::Plain, one(' '));
    }
}

fn put_mark(out: &mut Vec<Piece>, z: char)
    ensures
        piece_views(final(out)@) == piece_views(old(out)@).push(mark_piece(z)),
{
    if z == '!' || z == '?' {
        put(out, Ink::Conflict, one(z));
    } else if z == 'I' || z == 'i' {
        put(out, Ink::Meta, one(z));
    } else if z == 'S' || z == 's' {
        put(out, Ink::Stub, one(z));
    } else {
        put(out, Ink::Plain, one(' '));
    }
}

// ---------------------------------------------------------------------------
// Cells
// ---------------------------------------------------------------------------

/// The grade of a group of digits, of which the highest is `top`.
pub open spec fn grade(group: nat, top: usize) -> Ink {
    Ink::Grade(
        if group < top {
            group as usize
        } else {
            top
        },
    )
}

/// The digits in groups of three from the right, the leftmost group first. `group`
/// counts the groups to the right.
pub open spec fn digit_groups(digits: Seq<char>, group: nat, top: usize) -> Seq<PieceView>
    decreases digits.len(),
{
    if digits.len() <= 3 {
        seq![PieceView { ink: grade(group, top), text: digits }]
    } else {
        digit_groups(digits.take(digits.len() - 3), group + 1, top).push(
            PieceView { ink: grade(group, top), text: digits.skip(digits.len() - 3) },
        )
    }
}

/// The pieces of a size, `width` wide. The blanks before a number are not coloured.
pub open spec fn size_cell(size: Option<u64>, width: nat, top: usize) -> Seq<PieceView> {
    match size {
        None => seq![PieceView { ink: Ink::Meta, text: text::right_in("-"@, width) }],
        Some(n) => seq![
            PieceView { ink: Ink::Plain, text: text::fill(text::decimal(n as nat), width) },
        ] + digit_groups(text::decimal(n as nat), 0, top),
    }
}

pub proof fn lemma_plain_push(s: Seq<PieceView>, p: PieceView)
    ensures
        plain_text(s.push(p)) == plain_text(s) + p.text,
{
    assert(s.push(p).drop_last() =~= s);
}

pub proof fn lemma_plain_concat(a: Seq<PieceView>, b: Seq<PieceView>)
    ensures
        plain_text(a + b) == plain_text(a) + plain_text(b),
    decreases b.len(),
{
    if b.len() == 0 {
        assert(a + b =~= a);
        assert(plain_text(a) + plain_text(b) =~= plain_text(a));
    } else {
        lemma_plain_concat(a, b.drop_last());
        assert((a + b).drop_last() =~= a + b.drop_last());
        assert((plain_text(a) + plain_text(b.drop_last())) + b.last().text =~= plain_text(a) + (
        plain_text(b.drop_last()) + b.last().text));
    }
}

proof fn lemma_groups_text(digits: Seq<char>, group: nat, top: usize)
    ensures
        plain_text(digit_groups(digits, group, top)) == digits,
    decreases digits.len(),
{
    if digits.len() <= 3 {
        let p = PieceView { ink: grade(group, top), text: digits };
        lemma_plain_push(seq![], p);
        assert(Seq::<PieceView>::empty().push(p) =~= seq![p]);
        assert(plain_text(Seq::<PieceView>::empty()) + digits =~= digits);
    } else {
        let head = digits.take(digits.len() - 3);
        lemma_groups_text(head, group + 1, top);
        lemma_plain_push(
            digit_groups(head, group + 1, top),
            PieceView { ink: grade(group, top), text: digits.skip(digits.len() - 3) },
        );
        assert(head + digits.skip(digits.len() - 3) =~= digits);
    }
}

/// Grouping the digits of a size does not change what is written: it is the number,
/// or a dash, to the right of a column.
pub proof fn law_size_cell_text(size: Option<u64>, width: nat, top: usize)
    ensures
        plain_text(size_cell(size, width, top)) == text::right_in(
            match size {
                None => "-"@,
                Some(n) => text::decimal(n as nat),
            },
            width,
        ),
{
    match size {
        None => {
            let p = PieceView { ink: Ink::Meta, text: text::right_in("-"@, width) };
            lemma_plain_push(seq![], p);
            assert(Seq::<PieceView>::empty().push(p) =~= seq![p]);
            assert(plain_text(Seq::<PieceView>::empty()) + p.text =~= p.text);
        },
        Some(n) => {
            let d = text::decimal(n as nat);
            let p = PieceView { ink: Ink::Plain, text: text::fill(d, width) };
            lemma_groups_text(d, 0, top);
            lemma_plain_concat(seq![p], digit_groups(d, 0, top));
            lemma_plain_push(seq![], p);
            assert(Seq::<PieceView>::empty().push(p) =~= seq![p]);
            assert(plain_text(Seq::<PieceView>::empty()) + p.text =~= p.text);
        },
    }
}

fn put_groups(out: &mut Vec<Piece>, digits: &str, group: usize, top: usize)
    requires
        group + digits@.len() < usize::MAX,
    ensures
        piece_views(final(out)@) == piece_views(old(out)@) + digit_groups(
            digits@,
            group as nat,
            top,
        ),
    decreases digits@.len(),
{
    let ghost before = piece_views(out@);
    let clamped: usize = if group < top {
        group
    } else {
        top
    };
    let chars = chars_of(digits);
    if chars.len() <= 3 {
        put(out, Ink::Grade(clamped), digits.to_owned());
        assert(piece_views(out@) =~= before + digit_groups(digits@, group as nat, top));
    } else {
        let at: usize = chars.len() - 3;
        let head = string_of(&chars, 0, at);
        let tail = string_of(&chars, at, chars.len());
        assert(head@ =~= digits@.take(digits@.len() - 3));
        assert(tail@ =~= digits@.skip(digits@.len() - 3));
        put_groups(out, head.as_str(), group + 1, top);
        let ghost mid = digit_groups(head@, (group + 1) as nat, top);
        put(out, Ink::Grade(clamped), tail);
        assert(piece_views(out@) =~= before + mid.push(
            PieceView { ink: grade(group as nat, top), text: tail@ },
        ));
    }
}

/// Adds the pieces of a size, with its digits in groups of three from the right.
pub fn render_size_cell(out: &mut Vec<Piece>, size: Option<u64>, width: usize, top: usize)
    ensures
        piece_views(final(out)@) == piece_views(old(out)@) + size_cell(size, width as nat, top),
{
    let ghost before = piece_views(out@);
    match size {
        None => {
            put(out, Ink::Meta, align_right("-", width));
            assert(piece_views(out@) =~= before + size_cell(size, width as nat, top));
        },
        Some(n) => {
            let digits = decimal_of(n);
            let len: usize = digits.as_str().unicode_len();
            proof {
                lemma_u64_digits(n);
            }
            let pad = repeat(
                ' ',
                if len < width {
                    width - len
                } else {
                    0
                },
            );
            put(out, Ink::Plain, pad);
            put_groups(out, digits.as_str(), 0, top);
            assert(piece_views(out@) =~= before + size_cell(size, width as nat, top));
        },
    }
}

proof fn lemma_decimal_len(n: nat, k: nat)
    requires
        k > 0,
        n < vstd::arithmetic::power::pow(10, k),
    ensures
        0 < text::decimal(n).len() <= k,
    decreases k,
{
    reveal(vstd::arithmetic::power::pow);
    if n >= 10 {
        if k == 1 {
            assert(vstd::arithmetic::power::pow(10, 0) == 1);
            assert(false);
        }
        let p = vstd::arithmetic::power::pow(10, (k - 1) as nat);
        assert(vstd::arithmetic::power::pow(10, k) == 10 * p);
        lemma_decimal_len(n / 10, (k - 1) as nat);
    }
}

proof fn lemma_u64_digits(n: u64)
    ensures
        0 < text::decimal(n as nat).len() <= 20,
{
    assert(vstd::arithmetic::power::pow(10, 20) == 100_000_000_000_000_000_000) by {
        reveal_with_fuel(vstd::arithmetic::power::pow, 21);
    }
    lemma_decimal_len(n as nat, 20);
}

/// How many decimal digits a number has.
pub fn digit_count(n: u64) -> (r: usize)
    ensures
        r == text::decimal(n as nat).len(),
{
    if n == 0 {
        return 1;
    }
    let mut v: u64 = n;
    let mut d: usize = 0;
    proof {
        lemma_u64_digits(n);
    }
    while v > 0
        invariant
            text::decimal(n as nat).len() <= 20,
            v > 0 ==> d + text::decimal(v as nat).len() == text::decimal(n as nat).len(),
            v == 0 ==> d == text::decimal(n as nat).len(),
        decreases v,
    {
        d = d + 1;
        v = v / 10;
    }
    d
}

/// A time as it is written, and the stage that colours it.
pub struct MtimeCell {
    pub text: String,
    pub stage: Option<MtimeStage>,
}

/// What a row shows of its time: a dash where it has none.
pub fn mtime_cell(mtime: Option<Timestamp>, offset: i32, now: Timestamp, now_offset: i32) -> (r:
    MtimeCell)
    requires
        mtime is Some ==> dated(mtime->0),
        dated(now),
        is_offset(offset),
        is_offset(now_offset),
    ensures
        match mtime {
            None => r.stage is None && r.text@ == "-"@,
            Some(ts) => r.stage == Some(stage_of(ts, offset, now, now_offset)) && r.text@
                == mtime_text(ts, offset, now, stage_of(ts, offset, now, now_offset)),
        },
{
    match mtime {
        None => MtimeCell { text: "-".to_owned(), stage: None },
        Some(ts) => {
            let (text, stage) = format_mtime_staged(ts, offset, now, now_offset);
            MtimeCell { text, stage: Some(stage) }
        },
    }
}

/// The colour of a stage.
pub open spec fn stage_ink(stage: Option<MtimeStage>) -> Ink {
    match stage {
        Some(MtimeStage::JustNow) => Ink::JustNow,
        Some(MtimeStage::MinAgo) => Ink::MinAgo,
        Some(MtimeStage::Today) => Ink::TodayTime,
        Some(MtimeStage::Recent) => Ink::Recent,
        Some(MtimeStage::Older) => Ink::Older,
        None => Ink::Meta,
    }
}

/// The pieces of a time, `width` wide. A time of today is split: the date, with the
/// blank behind it, and the time of day.
pub open spec fn time_cell(text: Seq<char>, stage: Option<MtimeStage>, width: nat) -> Seq<PieceView> {
    let raw = text::right_in(text, width);
    if stage == Some(MtimeStage::Today) && raw.len() >= 11 {
        let pad = raw.len() - 11;
        seq![
            PieceView { ink: Ink::Plain, text: raw.take(pad) },
            PieceView { ink: Ink::TodayDate, text: raw.subrange(pad, pad + 6) },
            PieceView { ink: Ink::TodayTime, text: raw.skip(pad + 6) },
        ]
    } else {
        seq![PieceView { ink: stage_ink(stage), text: raw }]
    }
}

/// Adds the pieces of a time.
pub fn render_mtime_cell(out: &mut Vec<Piece>, cell: &MtimeCell, width: usize)
    ensures
        piece_views(final(out)@) == piece_views(old(out)@) + time_cell(
            cell.text@,
            cell.stage,
            width as nat,
        ),
{
    let ghost before = piece_views(out@);
    let raw = align_right(cell.text.as_str(), width);
    let chars = chars_of(raw.as_str());
    let today = match cell.stage {
        Some(MtimeStage::Today) => true,
        _ => false,
    };
    if today && chars.len() >= 11 {
        let pad: usize = chars.len() - 11;
        let a = string_of(&chars, 0, pad);
        let b = string_of(&chars, pad, pad + 6);
        let c = string_of(&chars, pad + 6, chars.len());
        assert(a@ =~= raw@.take(pad as int));
        assert(c@ =~= raw@.skip(pad + 6));
        put(out, Ink::Plain, a);
        put(out, Ink::TodayDate, b);
        put(out, Ink::TodayTime, c);
        assert(piece_views(out@) =~= before + time_cell(cell.text@, cell.stage, width as nat));
        return;
    }
    let ink = match cell.stage {
        Some(MtimeStage::JustNow) => Ink::JustNow,
        Some(MtimeStage::MinAgo) => Ink::MinAgo,
        Some(MtimeStage::Today) => Ink::TodayTime,
        Some(MtimeStage::Recent) => Ink::Recent,
        Some(MtimeStage::Older) => Ink::Older,
        None => Ink::Meta,
    };
    put(out, ink, raw);
    assert(piece_views(out@) =~= before + time_cell(cell.text@, cell.stage, width as nat));
}

// ---------------------------------------------------------------------------
// Lines
// ---------------------------------------------------------------------------

/// The widths of the columns.
#[derive(Clone, Copy, Debug, PartialEq, Eq, Structural)]
pub struct Widths {
    pub hash: usize,
    pub size: usize,
    pub count: usize,
    pub mtime: usize,
}

/// The widths of the columns.
pub struct WidthsView {
    pub hash: nat,
    pub size: nat,
    pub count: nat,
    pub mtime: nat,
}

impl View for Widths {
    type V = WidthsView;

    open spec fn view(&self) -> WidthsView {
        WidthsView {
            hash: self.hash as nat,
            size: self.size as nat,
            count: self.count as nat,
            mtime: self.mtime as nat,
        }
    }
}

/// The larger of two numbers.
pub open spec fn larger(a: nat, b: nat) -> nat {
    if a < b {
        b
    } else {
        a
    }
}

/// How wide a size is.
pub open spec fn size_width(size: Option<u64>) -> nat {
    match size {
        Some(n) => text::decimal(n as nat).len(),
        None => 1,
    }
}

/// The widths that the first `n` rows need.
pub open spec fn widths_upto(rows: Seq<Row>, cells: Seq<MtimeCell>, n: nat) -> WidthsView
    decreases n,
{
    if n == 0 || n > rows.len() || n > cells.len() {
        WidthsView { hash: 0, size: 0, count: 0, mtime: 11 }
    } else {
        let w = widths_upto(rows, cells, (n - 1) as nat);
        let r = rows[n - 1];
        WidthsView {
            hash: larger(w.hash, text::byte_len(r.hash_str@)),
            size: larger(w.size, size_width(r.size)),
            count: larger(w.count, text::decimal(r.blob_count as nat).len()),
            mtime: larger(w.mtime, text::byte_len(cells[n - 1].text@)),
        }
    }
}

fn wider(a: usize, b: usize) -> (r: usize)
    ensures
        r == larger(a as nat, b as nat),
{
    if a < b {
        b
    } else {
        a
    }
}

/// The widths of the columns. A time takes eleven characters at least, so that all
/// its forms line up.
pub fn column_widths(rows: &Vec<Row>, cells: &Vec<MtimeCell>) -> (r: Widths)
    requires
        rows@.len() == cells@.len(),
    ensures
        r@ == widths_upto(rows@, cells@, rows@.len()),
{
    let mut w = Widths { hash: 0, size: 0, count: 0, mtime: 11 };
    let mut i: usize = 0;
    while i < rows.len()
        invariant
            i <= rows@.len(),
            rows@.len() == cells@.len(),
            w@ == widths_upto(rows@, cells@, i as nat),
        decreases rows.len() - i,
    {
        let size_w: usize = match rows[i].size {
            Some(n) => digit_count(n),
            None => 1,
        };
        w = Widths {
            hash: wider(w.hash, byte_count(rows[i].hash_str.as_str())),
            size: wider(w.size, size_w),
            count: wider(w.count, digit_count(rows[i].blob_count)),
            mtime: wider(w.mtime, byte_count(cells[i].text.as_str())),
        };
        i = i + 1;
    }
    w
}

/// A blank between two columns.
pub open spec fn gap() -> PieceView {
    PieceView { ink: Ink::Plain, text: seq![' '] }
}

/// The pieces of one line: remote status, local status, mark, hash, size, count,
/// time and path.
pub open spec fn line_of(
    r: RowView,
    text: Seq<char>,
    stage: Option<MtimeStage>,
    w: WidthsView,
    top: usize,
) -> Seq<PieceView> {
    seq![
        remote_piece(r.remote_status),
        PieceView { ink: status_ink(r.status), text: seq![r.status] },
        mark_piece(r.z),
        PieceView { ink: Ink::Digest, text: seq![' '] + text::right_in(r.hash_str, w.hash) },
        gap(),
    ] + size_cell(r.size, w.size, top) + seq![
        gap(),
        PieceView {
            ink: Ink::Grade(0),
            text: text::right_in(text::decimal(r.blob_count as nat), w.count),
        },
        gap(),
    ] + time_cell(text, stage, w.mtime) + seq![
        gap(),
        PieceView {
            ink: if marks::dir_like(r.path) {
                Ink::Directory
            } else {
                Ink::Plain
            },
            text: r.path,
        },
    ]
}

fn render_line(r: &Row, cell: &MtimeCell, w: Widths, top: usize) -> (out: Vec<Piece>)
    ensures
        piece_views(out@) == line_of(r@, cell.text@, cell.stage, w@, top),
{
    let mut out: Vec<Piece> = Vec::new();
    put_remote(&mut out, r.remote_status);
    put(&mut out, paint_status(r.status), one(r.status));
    put_mark(&mut out, r.z);
    let padded = align_right(r.hash_str.as_str(), w.hash);
    put(&mut out, Ink::Digest, concat(one(' ').as_str(), padded.as_str()));
    put(&mut out, Ink::Plain, one(' '));
    render_size_cell(&mut out, r.size, w.size, top);
    put(&mut out, Ink::Plain, one(' '));
    let digits = decimal_of(r.blob_count);
    put(&mut out, Ink::Grade(0), align_right(digits.as_str(), w.count));
    put(&mut out, Ink::Plain, one(' '));
    render_mtime_cell(&mut out, cell, w.mtime);
    put(&mut out, Ink::Plain, one(' '));
    let ink = if marks::is_dir_like(r.path.as_str()) {
        Ink::Directory
    } else {
        Ink::Plain
    };
    put(&mut out, ink, r.path.clone());
    assert(piece_views(out@) =~= line_of(r@, cell.text@, cell.stage, w@, top));
    out
}

/// The lines of a listing, in columns. `top` is the highest grade of digits.
pub fn print_rows(rows: &Vec<Row>, cells: &Vec<MtimeCell>, top: usize) -> (r: Vec<Vec<Piece>>)
    requires
        rows@.len() == cells@.len(),
    ensures
        r@.len() == rows@.len(),
        forall|i: int|
            0 <= i < rows@.len() ==> piece_views((#[trigger] r@[i])@) == line_of(
                rows@[i]@,
                cells@[i].text@,
                cells@[i].stage,
                widths_upto(rows@, cells@, rows@.len()),
                top,
            ),
{
    let w = column_widths(rows, cells);
    let mut lines: Vec<Vec<Piece>> = Vec::new();
    let mut i: usize = 0;
    while i < rows.len()
        invariant
            i <= rows@.len(),
            rows@.len() == cells@.len(),
            lines@.len() == i,
            forall|k: int|
                0 <= k < i ==> piece_views((#[trigger] lines@[k])@) == line_of(
                    rows@[k]@,
                    cells@[k].text@,
                    cells@[k].stage,
                    w@,
                    top,
                ),
        decreases rows.len() - i,
    {
        lines.push(render_line(&rows[i], &cells[i], w, top));
        i = i + 1;
    }
    lines
}

} // verus!
