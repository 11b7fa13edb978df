//! The distribution of sizes.

use crate::commands::conflict::is_conflict_helper;
use crate::commands::stats::figures;
use crate::text::str_eq;
use crate::worktree::{self, is_stub_filename, DiskEntry, DiskKind, STATE_DIR};
use vstd::prelude::*;

verus! {

/// How many buckets there are.
pub const BUCKETS: usize = 10;

/// The bucket of a size: each reaches to four times the size of the one before it,
/// the last has no end.
pub open spec fn bucket_of(size: nat) -> nat {
    if size < 256 {
        0
    } else if size < 1_024 {
        1
    } else if size < 4_096 {
        2
    } else if size < 16_384 {
        3
    } else if size < 65_536 {
        4
    } else if size < 262_144 {
        5
    } else if size < 1_048_576 {
        6
    } else if size < 4_194_304 {
        7
    } else if size < 16_777_216 {
        8
    } else {
        9
    }
}

/// The bucket of a size.
pub fn bucket_index(size: u64) -> (r: usize)
    ensures
        r == bucket_of(size as nat),
        r < BUCKETS,
{
    if size < 256 {
        0
    } else if size < 1_024 {
        1
    } else if size < 4_096 {
        2
    } else if size < 16_384 {
        3
    } else if size < 65_536 {
        4
    } else if size < 262_144 {
        5
    } else if size < 1_048_576 {
        6
    } else if size < 4_194_304 {
        7
    } else if size < 16_777_216 {
        8
    } else {
        9
    }
}

/// The label of a bucket.
pub open spec fn label_of(bucket: nat) -> Seq<char> {
    if bucket == 0 {
        "<256B"@
    } else if bucket == 1 {
        "256B-1KB"@
    } else if bucket == 2 {
        "1-4KB"@
    } else if bucket == 3 {
        "4-16KB"@
    } else if bucket == 4 {
        "16-64KB"@
    } else if bucket == 5 {
        "64-256KB"@
    } else if bucket == 6 {
        "256KB-1MB"@
    } else if bucket == 7 {
        "1-4MB"@
    } else if bucket == 8 {
        "4-16MB"@
    } else {
        ">16MB"@
    }
}

fn bucket_label(bucket: usize) -> (r: &'static str)
    ensures
        r@ == label_of(bucket as nat),
{
    if bucket == 0 {
        "<256B"
    } else if bucket == 1 {
        "256B-1KB"
    } else if bucket == 2 {
        "1-4KB"
    } else if bucket == 3 {
        "4-16KB"
    } else if bucket == 4 {
        "16-64KB"
    } else if bucket == 5 {
        "64-256KB"
    } else if bucket == 6 {
        "256KB-1MB"
    } else if bucket == 7 {
        "1-4MB"
    } else if bucket == 8 {
        "4-16MB"
    } else {
        ">16MB"
    }
}

/// How many of the sizes are in a bucket.
pub open spec fn count_in(sizes: Seq<u64>, bucket: nat) -> nat
    decreases sizes.len(),
{
    if sizes.len() == 0 {
        0
    } else {
        count_in(sizes.drop_last(), bucket) + if bucket_of(sizes.last() as nat) == bucket {
            1nat
        } else {
            0nat
        }
    }
}

/// The sum of the sizes in a bucket.
pub open spec fn bytes_in(sizes: Seq<u64>, bucket: nat) -> nat
    decreases sizes.len(),
{
    if sizes.len() == 0 {
        0
    } else {
        bytes_in(sizes.drop_last(), bucket) + if bucket_of(sizes.last() as nat) == bucket {
            sizes.last() as nat
        } else {
            0nat
        }
    }
}

/// What a row of a histogram says: the label, the count and the bytes of a bucket.
pub type Bar = (Seq<char>, nat, nat);

/// The rows of the first `n` buckets that are not empty, the smallest first.
pub open spec fn bars_upto(sizes: Seq<u64>, n: nat) -> Seq<Bar>
    decreases n,
{
    if n == 0 {
        seq![]
    } else {
        let b = (n - 1) as nat;
        if count_in(sizes, b) > 0 {
            bars_upto(sizes, b).push((label_of(b), count_in(sizes, b), bytes_in(sizes, b)))
        } else {
            bars_upto(sizes, b)
        }
    }
}

/// The rows of a histogram.
pub open spec fn bars(sizes: Seq<u64>) -> Seq<Bar> {
    bars_upto(sizes, BUCKETS as nat)
}

/// What the rows of a histogram say.
pub open spec fn bar_views(rows: Seq<(&'static str, u64, u64)>) -> Seq<Bar> {
    Seq::new(rows.len(), |i: int| (rows[i].0@, rows[i].1 as nat, rows[i].2 as nat))
}

proof fn lemma_bucket_bounds(sizes: Seq<u64>, n: int, b: nat)
    requires
        0 <= n <= sizes.len(),
    ensures
        count_in(sizes.take(n), b) <= n,
        bytes_in(sizes.take(n), b) <= bytes_in(sizes, b),
        count_in(sizes.take(n), b) <= count_in(sizes, b),
    decreases sizes.len() - n,
{
    lemma_count_small(sizes.take(n), b);
    if n < sizes.len() {
        lemma_bucket_bounds(sizes, n + 1, b);
        assert(sizes.take(n + 1).drop_last() =~= sizes.take(n));
    } else {
        assert(sizes.take(n) =~= sizes);
    }
}

proof fn lemma_count_small(sizes: Seq<u64>, b: nat)
    ensures
        count_in(sizes, b) <= sizes.len(),
    decreases sizes.len(),
{
    if sizes.len() > 0 {
        lemma_count_small(sizes.drop_last(), b);
    }
}

/// Builds a histogram: the label, count and bytes of every bucket that is not empty,
/// the smallest first.
pub fn size_histogram(sizes: &[u64]) -> (r: Vec<(&'static str, u64, u64)>)
    requires
        forall|b: nat| b < BUCKETS ==> #[trigger] bytes_in(sizes@, b) <= u64::MAX,
    ensures
        bar_views(r@) == bars(sizes@),
{
    let mut counts: Vec<u64> = Vec::new();
    let mut bytes: Vec<u64> = Vec::new();
    let mut b: usize = 0;
    assert(sizes@.take(0) =~= seq![]);
    while b < BUCKETS
        invariant
            b <= BUCKETS,
            counts@.len() == b,
            bytes@.len() == b,
            sizes@.take(0) == Seq::<u64>::empty(),
            forall|k: int| 0 <= k < b ==> #[trigger] counts@[k] == count_in(sizes@.take(0), k as nat),
            forall|k: int| 0 <= k < b ==> #[trigger] bytes@[k] == bytes_in(sizes@.take(0), k as nat),
        decreases BUCKETS - b,
    {
        counts.push(0);
        bytes.push(0);
        b = b + 1;
    }
    let mut i: usize = 0;
    while i < sizes.len()
        invariant
            i <= sizes@.len(),
            counts@.len() == BUCKETS,
            bytes@.len() == BUCKETS,
            forall|k: nat| k < BUCKETS ==> #[trigger] bytes_in(sizes@, k) <= u64::MAX,
            forall|k: int|
                0 <= k < BUCKETS ==> #[trigger] counts@[k] == count_in(
                    sizes@.take(i as int),
                    k as nat,
                ),
            forall|k: int|
                0 <= k < BUCKETS ==> #[trigger] bytes@[k] == bytes_in(
                    sizes@.take(i as int),
                    k as nat,
                ),
        decreases sizes.len() - i,
    {
        let n: usize = sizes.len();
        let idx: usize = bucket_index(sizes[i]);
        let ghost upto = sizes@.take(i + 1);
        proof {
            assert(upto.drop_last() =~= sizes@.take(i as int));
            lemma_bucket_bounds(sizes@, i + 1, idx as nat);
            assert(bytes_in(sizes@, idx as nat) <= u64::MAX);
            assert(counts@[idx as int] + 1 == count_in(upto, idx as nat));
            assert(bytes@[idx as int] + sizes@[i as int] == bytes_in(upto, idx as nat));
            assert(i < n);
        }
        let c: u64 = counts[idx];
        let t: u64 = bytes[idx];
        counts.set(idx, c + 1);
        bytes.set(idx, t + sizes[i]);
        i = i + 1;
    }
    assert(sizes@.take(sizes@.len() as int) =~= sizes@);
    let mut out: Vec<(&'static str, u64, u64)> = Vec::new();
    assert(bar_views(out@) =~= bars_upto(sizes@, 0));
    let mut j: usize = 0;
    while j < BUCKETS
        invariant
            j <= BUCKETS,
            counts@.len() == BUCKETS,
            bytes@.len() == BUCKETS,
            forall|k: int| 0 <= k < BUCKETS ==> #[trigger] counts@[k] == count_in(sizes@, k as nat),
            forall|k: int| 0 <= k < BUCKETS ==> #[trigger] bytes@[k] == bytes_in(sizes@, k as nat),
            bar_views(out@) == bars_upto(sizes@, j as nat),
        decreases BUCKETS - j,
    {
        let ghost before = bar_views(out@);
        if counts[j] > 0 {
            out.push((bucket_label(j), counts[j], bytes[j]));
            assert(bar_views(out@) =~= before.push(
                (label_of(j as nat), count_in(sizes@, j as nat), bytes_in(sizes@, j as nat)),
            ));
        }
        j = j + 1;
    }
    out
}

/// The counts of the rows, added up.
pub open spec fn bar_count(rows: Seq<Bar>) -> nat
    decreases rows.len(),
{
    if rows.len() == 0 {
        0
    } else {
        bar_count(rows.drop_last()) + rows.last().1
    }
}

/// The bytes of the rows, added up.
pub open spec fn bar_bytes(rows: Seq<Bar>) -> nat
    decreases rows.len(),
{
    if rows.len() == 0 {
        0
    } else {
        bar_bytes(rows.drop_last()) + rows.last().2
    }
}

/// The count and the bytes of the first `n` buckets.
spec fn upto_bucket(sizes: Seq<u64>, n: nat) -> (nat, nat)
    decreases n,
{
    if n == 0 {
        (0, 0)
    } else {
        let b = (n - 1) as nat;
        (
            upto_bucket(sizes, b).0 + count_in(sizes, b),
            upto_bucket(sizes, b).1 + bytes_in(sizes, b),
        )
    }
}

proof fn lemma_bars_add_up(sizes: Seq<u64>, n: nat)
    ensures
        bar_count(bars_upto(sizes, n)) == upto_bucket(sizes, n).0,
        bar_bytes(bars_upto(sizes, n)) == upto_bucket(sizes, n).1,
    decreases n,
{
    if n > 0 {
        let b = (n - 1) as nat;
        lemma_bars_add_up(sizes, b);
        let row = (label_of(b), count_in(sizes, b), bytes_in(sizes, b));
        assert(bars_upto(sizes, b).push(row).drop_last() =~= bars_upto(sizes, b));
        if count_in(sizes, b) == 0 {
            lemma_empty_bucket(sizes, b);
        }
    }
}

proof fn lemma_empty_bucket(sizes: Seq<u64>, b: nat)
    requires
        count_in(sizes, b) == 0,
    ensures
        bytes_in(sizes, b) == 0,
    decreases sizes.len(),
{
    if sizes.len() > 0 {
        lemma_empty_bucket(sizes.drop_last(), b);
    }
}

proof fn lemma_one_more(sizes: Seq<u64>, n: nat)
    requires
        sizes.len() > 0,
    ensures
        ({
            let init = upto_bucket(sizes.drop_last(), n);
            let last = sizes.last() as nat;
            upto_bucket(sizes, n) == if bucket_of(last) < n {
                (init.0 + 1, init.1 + last)
            } else {
                init
            }
        }),
    decreases n,
{
    if n > 0 {
        lemma_one_more(sizes, (n - 1) as nat);
    }
}

proof fn lemma_no_sizes(n: nat)
    ensures
        upto_bucket(Seq::<u64>::empty(), n) == (0nat, 0nat),
    decreases n,
{
    if n > 0 {
        lemma_no_sizes((n - 1) as nat);
    }
}

/// No size is lost and none is counted twice: the rows of a histogram add up to the
/// number of the sizes, and to their sum.
pub proof fn law_histogram_totals(sizes: Seq<u64>)
    ensures
        bar_count(bars(sizes)) == sizes.len(),
        bar_bytes(bars(sizes)) == figures::sum(sizes),
    decreases sizes.len(),
{
    lemma_bars_add_up(sizes, BUCKETS as nat);
    if sizes.len() == 0 {
        assert(sizes =~= Seq::<u64>::empty());
        lemma_no_sizes(BUCKETS as nat);
    } else {
        law_histogram_totals(sizes.drop_last());
        lemma_bars_add_up(sizes.drop_last(), BUCKETS as nat);
        lemma_one_more(sizes, BUCKETS as nat);
    }
}

/// The bytes of a bucket are part of the sum.
pub proof fn lemma_bytes_in_sum(sizes: Seq<u64>, b: nat)
    ensures
        bytes_in(sizes, b) <= figures::sum(sizes),
    decreases sizes.len(),
{
    if sizes.len() > 0 {
        lemma_bytes_in_sum(sizes.drop_last(), b);
    }
}

// ---------------------------------------------------------------------------
// The working tree
// ---------------------------------------------------------------------------

/// Whether a name is passed over: the state directory, conflict helpers, stubs, and
/// names reserved for something unknown.
pub open spec fn passed_over(e: DiskEntry) -> bool {
    e.name@ == STATE_DIR@ || crate::commands::conflict::helper_name(e.name@)
        || worktree::stub_name(e.name@) || e.reserved || e.ignored
}

/// `out` with the sizes of the regular files among the first `n` entries, and below
/// the directories among them.
pub open spec fn file_sizes(es: Seq<DiskEntry>, n: nat, out: Seq<u64>) -> Seq<u64>
    decreases es, n,
{
    if n == 0 || n > es.len() {
        out
    } else {
        let prev = file_sizes(es, (n - 1) as nat, out);
        let e = es[n - 1];
        if passed_over(e) {
            prev
        } else {
            match e.kind {
                DiskKind::File { size } => prev.push(size),
                DiskKind::Dir(sub) => file_sizes(sub@, sub@.len(), prev),
                _ => prev,
            }
        }
    }
}

/// Adds the sizes of the regular files that are tracked: symlinks have none, and what
/// is ignored or reserved is not gone into.
pub fn walk_dir_sizes(es: &Vec<DiskEntry>, out: &mut Vec<u64>)
    ensures
        final(out)@ == file_sizes(es@, es@.len(), old(out)@),
    decreases es,
{
    let mut i: usize = 0;
    while i < es.len()
        invariant
            i <= es@.len(),
            out@ == file_sizes(es@, i as nat, old(out)@),
        decreases es.len() - i,
    {
        let e = &es[i];
        let name = e.name.as_str();
        let skip = str_eq(name, STATE_DIR) || is_conflict_helper(name) || is_stub_filename(name)
            || e.reserved || e.ignored;
        if !skip {
            match &e.kind {
                DiskKind::File { size } => {
                    out.push(*size);
                },
                DiskKind::Dir(sub) => {
                    walk_dir_sizes(sub, out);
                },
                _ => {},
            }
        }
        i = i + 1;
    }
}

} // verus!
