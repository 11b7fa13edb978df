//! How counts, sizes and times are written in the statistics.

use crate::text::{
    self, byte_count, chars_of, concat, concat3, decimal_of, replace_char, slice_bytes, string_of,
    trim_char_end,
};
use vstd::prelude::*;
use vstd::utf8::*;

verus! {

// ---------------------------------------------------------------------------
// Sizes
// ---------------------------------------------------------------------------

/// `a` divided by `b`, rounded to the nearest whole number, a tie to the even one.
pub open spec fn half_even(a: nat, b: nat) -> nat {
    let q = a / b;
    let r = a % b;
    if 2 * r > b || 2 * r == b && q % 2 == 1 {
        q + 1
    } else {
        q
    }
}

/// The grain of a double-precision number as large as `n`: the smallest power of
/// two, from `p` on, of which `n` holds fewer than 2^53.
pub open spec fn grain(n: nat, p: nat) -> nat
    decreases n / p,
{
    if p == 0 || n / p < 0x20_0000_0000_0000 {
        p
    } else {
        proof {
            vstd::arithmetic::div_mod::lemma_div_denominator(n as int, p as int, 2);
        }
        grain(n, p * 2)
    }
}

/// The double-precision number nearest to `n`.
pub open spec fn double(n: nat) -> nat {
    half_even(n, grain(n, 1)) * grain(n, 1)
}

/// `n` in units of `unit` bytes, to one decimal place.
pub open spec fn in_units(n: nat, unit: nat) -> Seq<char> {
    let tenths = half_even(10 * double(n), unit);
    text::decimal(tenths / 10) + seq!['.', text::digit(tenths % 10)]
}

/// A number of bytes in the unit that fits, `gap` standing between the two.
pub open spec fn size_with(bytes: nat, gap: Seq<char>) -> Seq<char> {
    if bytes >= 1_073_741_824 {
        in_units(bytes, 1_073_741_824) + gap + "GiB"@
    } else if bytes >= 1_048_576 {
        in_units(bytes, 1_048_576) + gap + "MiB"@
    } else if bytes >= 1_024 {
        in_units(bytes, 1_024) + gap + "KiB"@
    } else {
        text::decimal(bytes) + gap + "B"@
    }
}

/// A number of bytes, with a blank before the unit.
pub open spec fn size_text(bytes: nat) -> Seq<char> {
    size_with(bytes, " "@)
}

/// A number of bytes, without a blank before the unit.
pub open spec fn compact_size(bytes: nat) -> Seq<char> {
    size_with(bytes, ""@)
}

fn nearest(a: u128, b: u128) -> (r: u128)
    requires
        0 < b <= 0x1_0000_0000_0000_0000,
        a < 0x100_0000_0000_0000_0000_0000,
    ensures
        r == half_even(a as nat, b as nat),
        r <= a / b + 1,
{
    let q: u128 = a / b;
    let rem: u128 = a % b;
    assert(q <= a) by (nonlinear_arith)
        requires
            q == a / b,
            b > 0,
            a >= 0,
    ;
    if 2 * rem > b || 2 * rem == b && q % 2 == 1 {
        q + 1
    } else {
        q
    }
}

/// The double-precision number nearest to `n`.
fn double_of(n: u64) -> (r: u128)
    ensures
        r == double(n as nat),
        r <= n + 0x1000,
{
    let mut p: u128 = 1;
    while n as u128 / p >= 0x20_0000_0000_0000
        invariant
            1 <= p < 0x1000,
            grain(n as nat, 1) == grain(n as nat, p as nat),
        decreases n as nat / p as nat,
    {
        proof {
            let q = n as int / p as int;
            vstd::arithmetic::div_mod::lemma_div_denominator(n as int, p as int, 2);
            vstd::arithmetic::div_mod::lemma_fundamental_div_mod(n as int, p as int);
            assert(p * q <= n);
            assert(p < 0x800) by (nonlinear_arith)
                requires
                    p * q <= n,
                    q >= 0x20_0000_0000_0000,
                    n <= 0xffff_ffff_ffff_ffff,
                    p >= 1,
            ;
        }
        p = p * 2;
    }
    let q: u128 = nearest(n as u128, p);
    proof {
        vstd::arithmetic::div_mod::lemma_fundamental_div_mod(n as int, p as int);
        let d = n as int / p as int;
        assert(q * p <= n + p) by (nonlinear_arith)
            requires
                q <= d + 1,
                p * d <= n,
                p >= 1,
        ;
    }
    q * p
}

/// `n` in units of `unit` bytes, to one decimal place.
pub fn units_of(n: u64, unit: u64) -> (r: String)
    requires
        unit == 1_024 || unit == 1_048_576 || unit == 1_073_741_824,
    ensures
        r@ == in_units(n as nat, unit as nat),
{
    let d: u128 = double_of(n);
    let tenths: u128 = nearest(10 * d, unit as u128);
    assert(tenths < 0x1_0000_0000_0000_0000) by {
        assert(10 * d < 0x10_0000_0000_0000_0000);
        assert((10 * d) as int / unit as int <= (10 * d) as int / 1024) by (nonlinear_arith)
            requires
                unit >= 1024,
                d >= 0,
        ;
    }
    let t: u64 = tenths as u64;
    let mut s = decimal_of(t / 10);
    s.push('.');
    s.push(text::digit_char(t % 10));
    assert(s@ =~= in_units(n as nat, unit as nat));
    s
}

fn size_in(bytes: u64, gap: &str) -> (r: String)
    ensures
        r@ == size_with(bytes as nat, gap@),
{
    if bytes >= 1_073_741_824 {
        concat3(units_of(bytes, 1_073_741_824).as_str(), gap, "GiB")
    } else if bytes >= 1_048_576 {
        concat3(units_of(bytes, 1_048_576).as_str(), gap, "MiB")
    } else if bytes >= 1_024 {
        concat3(units_of(bytes, 1_024).as_str(), gap, "KiB")
    } else {
        concat3(decimal_of(bytes).as_str(), gap, "B")
    }
}

/// A number of bytes in the unit that fits, to one decimal place.
pub fn fmt_size(bytes: u64) -> (r: String)
    ensures
        r@ == size_text(bytes as nat),
{
    size_in(bytes, " ")
}

/// The same without a blank.
pub fn fmt_size_compact(bytes: u64) -> (r: String)
    ensures
        r@ == compact_size(bytes as nat),
{
    size_in(bytes, "")
}

proof fn lemma_decimal_has_no_blank(n: nat)
    ensures
        forall|i: int| 0 <= i < text::decimal(n).len() ==> (#[trigger] text::decimal(n)[i]) != ' ',
    decreases n,
{
    let d = text::decimal(n);
    if n >= 10 {
        lemma_decimal_has_no_blank(n / 10);
        assert forall|i: int| 0 <= i < d.len() implies (#[trigger] d[i]) != ' ' by {
            if i < text::decimal(n / 10).len() {
                assert(d[i] == text::decimal(n / 10)[i]);
            } else {
                assert(d[i] == text::digit(n % 10));
            }
        }
    } else {
        assert(d[0] == text::digit(n));
    }
}

/// The compact form of a size is the other one without its blank.
pub proof fn law_compact_size(bytes: nat)
    ensures
        exists|k: int|
            0 <= k < size_text(bytes).len() && size_text(bytes)[k] == ' ' && compact_size(bytes)
                == #[trigger] size_text(bytes).remove(k),
        !compact_size(bytes).contains(' '),
{
    reveal_strlit(" ");
    reveal_strlit("");
    reveal_strlit("GiB");
    reveal_strlit("MiB");
    reveal_strlit("KiB");
    reveal_strlit("B");
    let (head, unit) = if bytes >= 1_073_741_824 {
        (in_units(bytes, 1_073_741_824), "GiB"@)
    } else if bytes >= 1_048_576 {
        (in_units(bytes, 1_048_576), "MiB"@)
    } else if bytes >= 1_024 {
        (in_units(bytes, 1_024), "KiB"@)
    } else {
        (text::decimal(bytes), "B"@)
    };
    assert(size_text(bytes) == head + " "@ + unit);
    assert(compact_size(bytes) == head + ""@ + unit);
    let k = head.len() as int;
    assert(size_text(bytes)[k] == ' ');
    assert(compact_size(bytes) =~= size_text(bytes).remove(k));
    assert forall|i: int| 0 <= i < head.len() implies (#[trigger] head[i]) != ' ' by {
        if bytes >= 1_024 {
            let u: nat = if bytes >= 1_073_741_824 {
                1_073_741_824
            } else if bytes >= 1_048_576 {
                1_048_576
            } else {
                1_024
            };
            let tenths = half_even(10 * double(bytes), u);
            lemma_decimal_has_no_blank(tenths / 10);
            assert(head == text::decimal(tenths / 10) + seq!['.', text::digit(tenths % 10)]);
            if i < text::decimal(tenths / 10).len() {
                assert(head[i] == text::decimal(tenths / 10)[i]);
            }
        } else {
            lemma_decimal_has_no_blank(bytes);
        }
    }
    let c = compact_size(bytes);
    assert forall|i: int| 0 <= i < c.len() implies (#[trigger] c[i]) != ' ' by {
        if i < head.len() {
            assert(c[i] == head[i]);
        } else {
            assert(c[i] == unit[i - head.len()]);
        }
    }
}

// ---------------------------------------------------------------------------
// Counts
// ---------------------------------------------------------------------------

/// Digits with a comma between groups of three from the right.
pub open spec fn grouped(digits: Seq<char>) -> Seq<char>
    decreases digits.len(),
{
    if digits.len() <= 3 {
        digits
    } else {
        grouped(digits.take(digits.len() - 3)).push(',') + digits.skip(digits.len() - 3)
    }
}

/// A count with thousands separators.
pub open spec fn count_text(n: nat) -> Seq<char> {
    grouped(text::decimal(n))
}

fn group(digits: &str) -> (r: String)
    ensures
        r@ == grouped(digits@),
    decreases digits@.len(),
{
    let chars = chars_of(digits);
    if chars.len() <= 3 {
        return digits.to_owned();
    }
    let at: usize = chars.len() - 3;
    let head = string_of(&chars, 0, at);
    let tail = string_of(&chars, at, chars.len());
    assert(head@ =~= digits@.take(digits@.len() - 3));
    assert(tail@ =~= digits@.skip(digits@.len() - 3));
    let mut s = group(head.as_str());
    s.push(',');
    concat(s.as_str(), tail.as_str())
}

/// A count with thousands separators: 1773 is `1,773`.
pub fn fmt_int(n: u64) -> (r: String)
    ensures
        r@ == count_text(n as nat),
{
    group(decimal_of(n).as_str())
}

// ---------------------------------------------------------------------------
// Times
// ---------------------------------------------------------------------------

/// Whether a time stamp has the form `YYYY-MM-DDTHH:MM:SSZ`, as far as this is
/// looked at.
pub open spec fn stamp_shaped(ts: Seq<char>) -> bool {
    text::byte_len(ts) >= 19 && ts.len() > 10 && ts[4] == '-' && ts[10] == 'T'
}

/// Whether a time stamp can be cut around its day and its time of day.
pub open spec fn stamp_cut(ts: Seq<char>) -> bool {
    text::cuts(ts, 5) && text::cuts(ts, 10) && text::cuts(ts, 11) && text::cuts(ts, 19)
}

/// A time stamp without its year: `MM-DD HH:MM:SS`. Of one in another form only the
/// `T` and the `Z` go.
pub open spec fn short_time(ts: Seq<char>) -> Seq<char> {
    if stamp_shaped(ts) {
        text::in_bytes(ts, 5, 10) + " "@ + text::in_bytes(ts, 11, 19)
    } else {
        spaced_time(ts)
    }
}

/// A time stamp in ASCII can always be cut, and is shortened character by character.
pub proof fn law_ascii_stamp(ts: Seq<char>)
    requires
        is_ascii_chars(ts),
        stamp_shaped(ts),
    ensures
        stamp_cut(ts),
        short_time(ts) == ts.subrange(5, 10) + " "@ + ts.subrange(11, 19),
{
    text::lemma_ascii_bytes(ts, 0, 0);
    text::lemma_ascii_bytes(ts, 5, 10);
    text::lemma_ascii_bytes(ts, 10, 10);
    text::lemma_ascii_bytes(ts, 11, 19);
    text::lemma_ascii_bytes(ts, 19, 19);
}

/// A time stamp with a blank for the `T`, and without the `Z` at its end.
pub open spec fn spaced_time(ts: Seq<char>) -> Seq<char> {
    text::trim_end_of(text::replaced(ts, 'T', ' '), 'Z')
}

/// A time stamp with a blank for the `T`, and without the `Z` at its end.
pub fn space_time(ts: &str) -> (r: String)
    ensures
        r@ == spaced_time(ts@),
{
    trim_char_end(replace_char(ts, 'T', ' ').as_str(), 'Z')
}

/// A time stamp without its year.
pub fn format_time(ts: &str) -> (r: String)
    requires
        stamp_shaped(ts@) ==> stamp_cut(ts@),
    ensures
        r@ == short_time(ts@),
{
    let chars = chars_of(ts);
    if byte_count(ts) >= 19 && chars.len() > 10 && chars[4] == '-' && chars[10] == 'T' {
        let month_day = slice_bytes(ts, 5, 10);
        let hms = slice_bytes(ts, 11, 19);
        concat3(month_day.as_str(), " ", hms.as_str())
    } else {
        space_time(ts)
    }
}

// ---------------------------------------------------------------------------
// Cells of the table of recent I/O
// ---------------------------------------------------------------------------

/// The operations, and what they moved.
pub open spec fn io_cell(ops: nat, bytes: nat) -> Seq<char> {
    text::decimal(ops) + " "@ + if bytes == 0 {
        "—"@
    } else {
        compact_size(bytes)
    }
}

/// The operations, and what they moved: a dash for nothing.
pub fn format_io_cell(ops: u64, bytes: u64) -> (r: String)
    ensures
        r@ == io_cell(ops as nat, bytes as nat),
{
    if bytes == 0 {
        concat3(decimal_of(ops).as_str(), " ", "—")
    } else {
        concat3(decimal_of(ops).as_str(), " ", fmt_size_compact(bytes).as_str())
    }
}

/// What was found, and what was missed.
pub open spec fn head_cell(found: nat, miss: nat) -> Seq<char> {
    if found == 0 && miss == 0 {
        "—"@
    } else {
        text::decimal(found) + "/"@ + text::decimal(miss)
    }
}

/// What was found, and what was missed: a dash for neither.
pub fn format_head_cell(found: u64, miss: u64) -> (r: String)
    ensures
        r@ == head_cell(found as nat, miss as nat),
{
    if found == 0 && miss == 0 {
        "—".to_owned()
    } else {
        concat3(decimal_of(found).as_str(), "/", decimal_of(miss).as_str())
    }
}

/// The sum of sizes.
pub open spec fn sum(sizes: Seq<u64>) -> nat
    decreases sizes.len(),
{
    if sizes.len() == 0 {
        0
    } else {
        sum(sizes.drop_last()) + sizes.last() as nat
    }
}

/// The files, and their size in all.
pub open spec fn pack_cell(files: nat, sizes: Seq<u64>) -> Seq<char> {
    if files == 0 {
        "—"@
    } else {
        text::decimal(files) + "×"@ + compact_size(sum(sizes))
    }
}

pub proof fn lemma_sum_upto(sizes: Seq<u64>, n: int)
    requires
        0 <= n <= sizes.len(),
    ensures
        sum(sizes.take(n)) <= sum(sizes),
    decreases sizes.len() - n,
{
    if n < sizes.len() {
        lemma_sum_upto(sizes, n + 1);
        assert(sizes.take(n + 1).drop_last() =~= sizes.take(n));
    } else {
        assert(sizes.take(n) =~= sizes);
    }
}

/// The sum of sizes.
pub fn total_of(sizes: &[u64]) -> (r: u64)
    requires
        sum(sizes@) <= u64::MAX,
    ensures
        r == sum(sizes@),
{
    let mut total: u64 = 0;
    let mut i: usize = 0;
    assert(sizes@.take(0) =~= seq![]);
    while i < sizes.len()
        invariant
            i <= sizes@.len(),
            sum(sizes@) <= u64::MAX,
            total == sum(sizes@.take(i as int)),
        decreases sizes.len() - i,
    {
        proof {
            assert(sizes@.take(i + 1).drop_last() =~= sizes@.take(i as int));
            lemma_sum_upto(sizes@, i + 1);
        }
        total = total + sizes[i];
        i = i + 1;
    }
    assert(sizes@.take(sizes@.len() as int) =~= sizes@);
    total
}

/// The files, and their size in all: a dash for none.
pub fn format_pack_cell(files: u64, sizes: &[u64]) -> (r: String)
    requires
        sum(sizes@) <= u64::MAX,
    ensures
        r@ == pack_cell(files as nat, sizes@),
{
    if files == 0 {
        "—".to_owned()
    } else {
        concat3(decimal_of(files).as_str(), "×", fmt_size_compact(total_of(sizes)).as_str())
    }
}

} // verus!
