//! `stats`: what the object stores and the working tree hold.

pub mod figures;
pub mod histogram;
pub mod json;
pub mod local;
pub mod objects;
pub mod report;
pub mod said;
pub mod storage;
pub mod sums;

use crate::commands::stats::json::{print_json, JsonRatios};
use crate::commands::stats::local::{print_local, LocalShares};
use crate::commands::stats::objects::{Stats, StatsView};
use crate::commands::stats::report::{
    latest_detail, print_banner, print_histogram, print_recent_io, put, put_pack, put_storage,
    put_summary, BarTexts, IoStatsRecord, PackDetail,
};
use crate::commands::stats::storage::RemoteStorage;
use crate::text;
use vstd::prelude::*;

verus! {

pub struct StatsOptions {
    pub work_dir: String,
    /// Whether the sections on the remote are asked for. If not, nothing is read from
    /// the remote.
    pub remote: bool,
    pub json: bool,
}

/// What is not a whole number in the text form, worked out beforehand. The bars belong
/// to the rows of the histograms, in order.
pub struct TextShares {
    pub remote_bars: Vec<BarTexts>,
    pub miss_rate: String,
    pub local: LocalShares,
    pub worktree_bars: Vec<BarTexts>,
}

/// The section on the remote's storage.
pub open spec fn storage_section(remote: Option<RemoteStorage>) -> Seq<Seq<char>> {
    match remote {
        Some(rs) => report::storage_lines(rs),
        None => seq![],
    }
}

/// The banner over what is about the remote, if there is anything.
pub open spec fn remote_banner(remote: Option<RemoteStorage>, any_recent: bool) -> Seq<Seq<char>> {
    if remote is Some || any_recent {
        seq![report::banner("REMOTE"@)]
    } else {
        seq![]
    }
}

/// The histogram of the remote's objects, if the remote was looked at.
pub open spec fn remote_histogram(
    remote: Option<RemoteStorage>,
    sizes: Seq<u64>,
    bars: Seq<BarTexts>,
) -> Seq<Seq<char>> {
    if remote is Some && sizes.len() > 0 {
        report::histogram_lines("Remote object sizes  (origin)"@, sizes, bars)
    } else {
        seq![]
    }
}

/// The statistics as lines of text.
pub open spec fn text_lines(
    s: StatsView,
    remote: Option<RemoteStorage>,
    remote_sizes: Seq<u64>,
    eff: Option<(Seq<char>, PackDetail)>,
    recent: Seq<IoStatsRecord>,
    all: Seq<IoStatsRecord>,
    worktree: Seq<u64>,
    f: TextShares,
) -> Seq<Seq<char>> {
    report::summary_lines(s, remote, recent) + remote_banner(remote, recent.len() > 0)
        + storage_section(remote) + remote_histogram(remote, remote_sizes, f.remote_bars@)
        + report::recent_lines(recent, all, f.miss_rate@) + report::pack_lines(
        eff,
        recent.len() > 0,
    ) + local::local_lines(s, f.local) + seq![""@] + report::histogram_lines(
        "Working-tree file sizes"@,
        worktree,
        f.worktree_bars@,
    )
}

proof fn lemma_nothing_added(a: Seq<Seq<char>>)
    ensures
        a + Seq::<Seq<char>>::empty() == a,
{
    assert(a + Seq::<Seq<char>>::empty() =~= a);
}

/// The statistics as lines of text: a summary, what is about the remote, what is about
/// the local store, and the files of the working tree.
pub fn print_text(
    s: &Stats,
    remote: &Option<RemoteStorage>,
    remote_sizes: &Vec<u64>,
    eff: Option<(&String, &PackDetail)>,
    recent: &Vec<IoStatsRecord>,
    all: &Vec<IoStatsRecord>,
    worktree: &Vec<u64>,
    f: &TextShares,
) -> (out: Vec<String>)
    requires
        s.wf(),
        report::storage_fits(*remote),
        figures::sum(remote_sizes@) <= u64::MAX,
        f.remote_bars@.len() == histogram::bars(remote_sizes@).len(),
        report::stamps_ok(recent@),
        report::packs_fit(recent@),
        report::totals_fit(all@),
        figures::sum(worktree@) <= u64::MAX,
        f.worktree_bars@.len() == histogram::bars(worktree@).len(),
        f.local.ratios@.len() == local::types_in_order(s.blob_type_stats@).len(),
    ensures
        text::views(out@) == text_lines(
            s@,
            *remote,
            remote_sizes@,
            report::eff_view(eff),
            recent@,
            all@,
            worktree@,
            *f,
        ),
{
    let mut out: Vec<String> = Vec::new();
    put_summary(&mut out, s, remote, recent);
    let ghost a = report::summary_lines(s@, *remote, recent@);
    assert(text::views(out@) =~= a);
    proof {
        lemma_nothing_added(a);
    }
    if remote.is_some() || recent.len() > 0 {
        print_banner(&mut out, "REMOTE");
        assert(text::views(out@) =~= a + remote_banner(*remote, recent@.len() > 0));
    }
    let ghost b = text::views(out@);
    proof {
        lemma_nothing_added(b);
    }
    if let Some(rs) = remote {
        put_storage(&mut out, rs);
    }
    let ghost c = text::views(out@);
    proof {
        lemma_nothing_added(c);
    }
    if remote.is_some() && remote_sizes.len() > 0 {
        print_histogram(
            &mut out,
            "Remote object sizes  (origin)",
            remote_sizes,
            &f.remote_bars,
        );
    }
    print_recent_io(&mut out, recent, all, f.miss_rate.as_str());
    put_pack(&mut out, eff, recent.len() > 0);
    print_local(&mut out, s, &f.local);
    let ghost d = text::views(out@);
    put(&mut out, "".to_owned());
    assert(text::views(out@) =~= d + seq![""@]);
    print_histogram(&mut out, "Working-tree file sizes", worktree, &f.worktree_bars);
    out
}

/// All that the statistics are made from.
pub struct StatsInput {
    pub stats: Stats,
    /// What the remote stores, where it could be looked at.
    pub remote: Option<RemoteStorage>,
    pub remote_sizes: Vec<u64>,
    /// The last commands, the oldest first.
    pub recent: Vec<IoStatsRecord>,
    pub all: Vec<IoStatsRecord>,
    pub worktree: Vec<u64>,
    pub shares: TextShares,
    pub ratios: JsonRatios,
}

impl StatsInput {
    /// The input belongs together, and its sums can be formed.
    pub open spec fn wf(self) -> bool {
        &&& self.stats.wf()
        &&& report::storage_fits(self.remote)
        &&& figures::sum(self.remote_sizes@) <= u64::MAX
        &&& report::stamps_ok(self.recent@)
        &&& report::packs_fit(self.recent@)
        &&& report::totals_fit(self.all@)
        &&& figures::sum(self.worktree@) <= u64::MAX
        &&& self.shares.worktree_bars@.len() == histogram::bars(self.worktree@).len()
        &&& self.shares.remote_bars@.len() == histogram::bars(self.remote_sizes@).len()
        &&& self.shares.local.ratios@.len() == local::types_in_order(
            self.stats.blob_type_stats@,
        ).len()
        &&& self.ratios.types@.len() == local::types_in_order(self.stats.blob_type_stats@).len()
        &&& self.remote is None ==> self.remote_sizes@.len() == 0
    }
}

/// The time and the detail of the last consolidation.
pub open spec fn effectiveness(all: Seq<IoStatsRecord>) -> Option<(Seq<char>, PackDetail)> {
    match report::last_detail(all) {
        Some(i) => Some((all[i].ts@, all[i].pack_detail->0)),
        None => None,
    }
}

/// The statistics, in the form that was asked for. What is about the remote shows only
/// where it was asked for.
pub open spec fn stats_lines(opts: StatsOptions, i: StatsInput) -> Seq<Seq<char>> {
    let remote = if opts.remote {
        i.remote
    } else {
        None
    };
    let sizes = if opts.remote {
        i.remote_sizes@
    } else {
        seq![]
    };
    if opts.json {
        json::json_lines(
            i.stats@,
            remote,
            sizes,
            effectiveness(i.all@),
            i.recent@,
            i.all@,
            i.worktree@,
            i.ratios,
        )
    } else {
        text_lines(
            i.stats@,
            remote,
            sizes,
            effectiveness(i.all@),
            i.recent@,
            i.all@,
            i.worktree@,
            i.shares,
        )
    }
}

/// The statistics, in the form that was asked for.
pub fn run(opts: &StatsOptions, i: &StatsInput) -> (r: Vec<String>)
    requires
        i.wf(),
        !opts.remote ==> i.remote_sizes@.len() == 0,
    ensures
        text::views(r@) == stats_lines(*opts, *i),
{
    let eff = match latest_detail(&i.all) {
        Some(k) => match &i.all[k].pack_detail {
            Some(d) => Some((&i.all[k].ts, d)),
            None => None,
        },
        None => None,
    };
    let remote = if opts.remote {
        i.remote
    } else {
        None
    };
    assert(!opts.remote ==> i.remote_sizes@ =~= seq![]);
    if opts.json {
        print_json(
            &i.stats,
            &remote,
            &i.remote_sizes,
            eff,
            &i.recent,
            &i.all,
            &i.worktree,
            &i.ratios,
        )
    } else {
        print_text(
            &i.stats,
            &remote,
            &i.remote_sizes,
            eff,
            &i.recent,
            &i.all,
            &i.worktree,
            &i.shares,
        )
    }
}

/// What the remote stores shows only where it was asked for: without that, the lines
/// are the same whatever is known of the remote.
pub proof fn law_local_by_default(opts: StatsOptions, i: StatsInput, j: StatsInput)
    requires
        !opts.remote,
        j == (StatsInput { remote: j.remote, remote_sizes: j.remote_sizes, ..i }),
    ensures
        stats_lines(opts, i) == stats_lines(opts, j),
{
}

} // verus!
