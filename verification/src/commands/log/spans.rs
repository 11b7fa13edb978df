//! The spans of timers: grouped by label and layer, and ranked.

use crate::debug::Layer;
use crate::text::str_eq;
use vstd::prelude::*;

verus! {

// ---------------------------------------------------------------------------
// Groups
// ---------------------------------------------------------------------------

/// What a span is grouped by.
pub struct SpanKey {
    pub label: String,
    pub layer: Layer,
}

/// The spans with one label in one layer, by their places.
pub struct SpanGroup {
    pub label: String,
    pub layer: Layer,
    pub members: Vec<usize>,
}

/// What a group says.
#[verifier::ext_equal]
pub struct GroupView {
    pub label: Seq<char>,
    pub layer: Layer,
    pub members: Seq<usize>,
}

impl View for SpanGroup {
    type V = GroupView;

    open spec fn view(&self) -> GroupView {
        GroupView { label: self.label@, layer: self.layer, members: self.members@ }
    }
}

/// What groups say.
pub open spec fn group_views(gs: Seq<SpanGroup>) -> Seq<GroupView> {
    gs.map_values(|g: SpanGroup| g@)
}

/// Whether a span belongs to a group.
pub open spec fn belongs(k: SpanKey, g: GroupView) -> bool {
    k.label@ == g.label && k.layer == g.layer
}

/// Where the group of a span is, if it has one yet.
pub open spec fn group_of(gs: Seq<GroupView>, k: SpanKey) -> Option<int>
    decreases gs.len(),
{
    if gs.len() == 0 {
        None
    } else {
        match group_of(gs.drop_last(), k) {
            Some(g) => Some(g),
            None => if belongs(k, gs.last()) {
                Some(gs.len() - 1)
            } else {
                None
            },
        }
    }
}

/// The groups with one more span: it joins its group, or starts one.
pub open spec fn with_span(gs: Seq<GroupView>, k: SpanKey, at: usize) -> Seq<GroupView> {
    match group_of(gs, k) {
        Some(g) => gs.update(
            g,
            GroupView {
                label: gs[g].label,
                layer: gs[g].layer,
                members: gs[g].members.push(at),
            },
        ),
        None => gs.push(GroupView { label: k.label@, layer: k.layer, members: seq![at] }),
    }
}

/// The groups of the first `n` spans.
pub open spec fn groups_upto(ks: Seq<SpanKey>, n: nat) -> Seq<GroupView>
    decreases n,
{
    if n == 0 || n > ks.len() {
        seq![]
    } else {
        with_span(groups_upto(ks, (n - 1) as nat), ks[n - 1], (n - 1) as usize)
    }
}

proof fn lemma_group_of(gs: Seq<GroupView>, k: SpanKey)
    ensures
        match group_of(gs, k) {
            Some(g) => 0 <= g < gs.len() && belongs(k, gs[g]) && forall|j: int|
                0 <= j < g ==> !belongs(k, #[trigger] gs[j]),
            None => forall|j: int| 0 <= j < gs.len() ==> !belongs(k, #[trigger] gs[j]),
        },
    decreases gs.len(),
{
    if gs.len() > 0 {
        lemma_group_of(gs.drop_last(), k);
        let head = gs.drop_last();
        assert forall|j: int| 0 <= j < head.len() implies head[j] == gs[j] by {}
        if let Some(g) = group_of(head, k) {
            assert(head[g] == gs[g]);
        } else {
            assert forall|j: int| 0 <= j < gs.len() - 1 implies !belongs(k, #[trigger] gs[j]) by {
                assert(head[j] == gs[j]);
            }
        }
    }
}

proof fn lemma_group_at(gs: Seq<GroupView>, k: SpanKey, at: int)
    requires
        0 <= at < gs.len(),
        belongs(k, gs[at]),
        forall|j: int| 0 <= j < at ==> !belongs(k, #[trigger] gs[j]),
    ensures
        group_of(gs, k) == Some(at),
{
    lemma_group_of(gs, k);
}

fn find_group(gs: &Vec<SpanGroup>, k: &SpanKey) -> (r: Option<usize>)
    ensures
        match r {
            Some(g) => g < gs@.len() && group_of(group_views(gs@), *k) == Some(g as int),
            None => group_of(group_views(gs@), *k) is None,
        },
{
    let mut g: usize = 0;
    while g < gs.len()
        invariant
            g <= gs@.len(),
            forall|j: int| 0 <= j < g ==> !belongs(*k, #[trigger] group_views(gs@)[j]),
        decreases gs.len() - g,
    {
        if gs[g].layer == k.layer && str_eq(gs[g].label.as_str(), k.label.as_str()) {
            proof {
                assert(group_views(gs@)[g as int] == gs@[g as int]@);
                lemma_group_at(group_views(gs@), *k, g as int);
            }
            return Some(g);
        }
        assert(group_views(gs@)[g as int] == gs@[g as int]@);
        g = g + 1;
    }
    proof {
        lemma_group_of(group_views(gs@), *k);
    }
    None
}

/// Groups spans by label and layer, in the order in which the groups first occur.
pub fn group_spans(ks: &Vec<SpanKey>) -> (r: Vec<SpanGroup>)
    ensures
        group_views(r@) == groups_upto(ks@, ks@.len()),
{
    let mut gs: Vec<SpanGroup> = Vec::new();
    let mut i: usize = 0;
    assert(group_views(gs@) =~= groups_upto(ks@, 0));
    while i < ks.len()
        invariant
            i <= ks@.len(),
            group_views(gs@) == groups_upto(ks@, i as nat),
        decreases ks.len() - i,
    {
        let ghost before = group_views(gs@);
        match find_group(&gs, &ks[i]) {
            Some(g) => {
                gs[g].members.push(i);
            },
            None => {
                let mut members: Vec<usize> = Vec::new();
                members.push(i);
                gs.push(SpanGroup { label: ks[i].label.clone(), layer: ks[i].layer, members });
            },
        }
        assert(group_views(gs@) =~= with_span(before, ks@[i as int], i));
        i = i + 1;
    }
    gs
}

/// Every span is in a group with its label and its layer, no two groups have both in
/// common, and a group holds its spans in order, each once.
pub proof fn law_groups_partition(ks: Seq<SpanKey>, n: nat)
    requires
        n <= ks.len() <= usize::MAX,
    ensures
        forall|i: int|
            0 <= i < n ==> exists|g: int|
                0 <= g < groups_upto(ks, n).len() && belongs(
                    #[trigger] ks[i],
                    #[trigger] groups_upto(ks, n)[g],
                ) && groups_upto(ks, n)[g].members.contains(i as usize),
        forall|g: int, m: int|
            0 <= g < groups_upto(ks, n).len() && 0 <= m < groups_upto(ks, n)[g].members.len() ==> {
                let at = #[trigger] groups_upto(ks, n)[g].members[m];
                at < n && belongs(ks[at as int], groups_upto(ks, n)[g])
            },
        forall|a: int, b: int|
            0 <= a < b < groups_upto(ks, n).len() ==> (#[trigger] groups_upto(ks, n)[a]).label != (
            #[trigger] groups_upto(ks, n)[b]).label || groups_upto(ks, n)[a].layer != groups_upto(
                ks,
                n,
            )[b].layer,
        forall|g: int, a: int, b: int|
            0 <= g < groups_upto(ks, n).len() && 0 <= a < b < groups_upto(ks, n)[g].members.len()
                ==> #[trigger] groups_upto(ks, n)[g].members[a] < #[trigger] groups_upto(
                ks,
                n,
            )[g].members[b],
    decreases n,
{
    if n > 0 {
        law_groups_partition(ks, (n - 1) as nat);
        let prev = groups_upto(ks, (n - 1) as nat);
        let now = groups_upto(ks, n);
        let k = ks[n - 1];
        lemma_group_of(prev, k);
        assert forall|i: int| 0 <= i < n implies exists|g: int|
            0 <= g < now.len() && belongs(#[trigger] ks[i], #[trigger] now[g])
                && now[g].members.contains(i as usize) by {
            if i < n - 1 {
                let g = choose|g: int|
                    0 <= g < prev.len() && belongs(ks[i], #[trigger] prev[g])
                        && prev[g].members.contains(i as usize);
                let m = choose|m: int|
                    0 <= m < prev[g].members.len() && prev[g].members[m] == i as usize;
                assert(belongs(ks[i], now[g]));
                assert(now[g].members[m] == i as usize);
            } else {
                let g = match group_of(prev, k) {
                    Some(g) => g,
                    None => prev.len() as int,
                };
                assert(belongs(ks[i], now[g]));
                assert(now[g].members.last() == i as usize);
            }
        }
        assert forall|g: int, m: int|
            0 <= g < now.len() && 0 <= m < now[g].members.len() implies ({
            let at = #[trigger] now[g].members[m];
            at < n && belongs(ks[at as int], now[g])
        }) by {
            if g < prev.len() && m < prev[g].members.len() {
                assert(now[g].members[m] == prev[g].members[m]);
            }
        }
        assert forall|g: int, a: int, b: int|
            0 <= g < now.len() && 0 <= a < b < now[g].members.len()
            implies #[trigger] now[g].members[a] < #[trigger] now[g].members[b] by {
            if g < prev.len() {
                assert(now[g].members[a] == prev[g].members[a]);
                if b < prev[g].members.len() {
                    assert(now[g].members[b] == prev[g].members[b]);
                }
            }
        }
    }
}

// ---------------------------------------------------------------------------
// Ranks
// ---------------------------------------------------------------------------

/// `r` with `at` behind the last place whose key is not less than its own.
pub open spec fn place_rank(r: Seq<usize>, keys: Seq<u64>, at: usize) -> Seq<usize>
    decreases r.len(),
{
    if r.len() == 0 || keys[r.last() as int] >= keys[at as int] {
        r.push(at)
    } else {
        place_rank(r.drop_last(), keys, at).push(r.last())
    }
}

/// The first `n` places, the largest key first. Among equal keys the first place comes
/// first.
pub open spec fn ranked_upto(keys: Seq<u64>, n: nat) -> Seq<usize>
    decreases n,
{
    if n == 0 || n > keys.len() {
        seq![]
    } else {
        place_rank(ranked_upto(keys, (n - 1) as nat), keys, (n - 1) as usize)
    }
}

proof fn lemma_place_rank_at(r: Seq<usize>, keys: Seq<u64>, x: usize, at: int)
    requires
        0 <= at <= r.len(),
        at > 0 ==> keys[r[at - 1] as int] >= keys[x as int],
        forall|k: int| at <= k < r.len() ==> keys[#[trigger] r[k] as int] < keys[x as int],
    ensures
        place_rank(r, keys, x) == r.insert(at, x),
    decreases r.len(),
{
    if at < r.len() {
        assert(keys[r[r.len() - 1] as int] < keys[x as int]);
        assert forall|k: int| at <= k < r.drop_last().len() implies keys[
            #[trigger] r.drop_last()[k] as int
        ] < keys[x as int] by {
            assert(r.drop_last()[k] == r[k]);
        }
        lemma_place_rank_at(r.drop_last(), keys, x, at);
        assert(r.drop_last().insert(at, x).push(r.last()) =~= r.insert(at, x));
    } else {
        assert(r.push(x) =~= r.insert(at, x));
    }
}

proof fn lemma_place_rank_len(r: Seq<usize>, keys: Seq<u64>, x: usize)
    ensures
        place_rank(r, keys, x).len() == r.len() + 1,
    decreases r.len(),
{
    if r.len() > 0 {
        lemma_place_rank_len(r.drop_last(), keys, x);
    }
}

proof fn lemma_ranked(keys: Seq<u64>, n: nat)
    requires
        n <= keys.len() <= usize::MAX,
    ensures
        ranked_upto(keys, n).len() == n,
        forall|i: int| 0 <= i < n ==> (#[trigger] ranked_upto(keys, n)[i]) < n,
    decreases n,
{
    if n > 0 {
        lemma_ranked(keys, (n - 1) as nat);
        let prev = ranked_upto(keys, (n - 1) as nat);
        lemma_place_members(prev, keys, (n - 1) as usize);
        lemma_place_rank_len(prev, keys, (n - 1) as usize);
        assert forall|i: int| 0 <= i < n implies (#[trigger] ranked_upto(keys, n)[i]) < n by {
            let x = ranked_upto(keys, n)[i];
            assert(place_rank(prev, keys, (n - 1) as usize).contains(x));
            if x != (n - 1) as usize {
                assert(prev.contains(x));
                let j = choose|j: int| 0 <= j < prev.len() && prev[j] == x;
                assert(prev[j] < n - 1);
            }
        }
    }
}

proof fn lemma_place_members(r: Seq<usize>, keys: Seq<u64>, x: usize)
    ensures
        forall|y: usize| #[trigger]
            place_rank(r, keys, x).contains(y) <==> r.contains(y) || y == x,
    decreases r.len(),
{
    let placed = place_rank(r, keys, x);
    if r.len() == 0 || keys[r.last() as int] >= keys[x as int] {
        assert forall|y: usize| #[trigger] placed.contains(y) <==> r.contains(y) || y == x by {
            if r.contains(y) {
                let j = choose|j: int| 0 <= j < r.len() && r[j] == y;
                assert(placed[j] == y);
            }
            assert(placed[r.len() as int] == x);
        }
    } else {
        let head = place_rank(r.drop_last(), keys, x);
        lemma_place_members(r.drop_last(), keys, x);
        assert forall|y: usize| #[trigger] placed.contains(y) <==> r.contains(y) || y == x by {
            assert(placed.contains(y) <==> head.contains(y) || y == r.last()) by {
                if head.contains(y) {
                    let j = choose|j: int| 0 <= j < head.len() && head[j] == y;
                    assert(placed[j] == y);
                }
                assert(placed[head.len() as int] == r.last());
            }
            assert(r.contains(y) <==> r.drop_last().contains(y) || y == r.last()) by {
                if r.contains(y) {
                    let j = choose|j: int| 0 <= j < r.len() && r[j] == y;
                    if j < r.len() - 1 {
                        assert(r.drop_last()[j] == y);
                    }
                }
                if r.drop_last().contains(y) {
                    let j = choose|j: int| 0 <= j < r.len() - 1 && r.drop_last()[j] == y;
                    assert(r[j] == y);
                }
                assert(r[r.len() - 1] == r.last());
            }
        }
    }
}

/// Ranks places by their keys, the largest first. Among equal keys the first place
/// comes first.
pub fn rank_descending(keys: &Vec<u64>) -> (r: Vec<usize>)
    ensures
        r@ == ranked_upto(keys@, keys@.len()),
{
    let n: usize = keys.len();
    let mut r: Vec<usize> = Vec::new();
    let mut i: usize = 0;
    while i < n
        invariant
            i <= n,
            n == keys@.len(),
            r@ == ranked_upto(keys@, i as nat),
        decreases n - i,
    {
        proof {
            lemma_ranked(keys@, i as nat);
        }
        let mut at: usize = r.len();
        while at > 0 && keys[r[at - 1]] < keys[i]
            invariant
                at <= r@.len(),
                i < keys@.len(),
                r@.len() == i,
                forall|k: int| 0 <= k < r@.len() ==> (#[trigger] r@[k]) < keys@.len(),
                forall|k: int|
                    at <= k < r@.len() ==> keys@[#[trigger] r@[k] as int] < keys@[i as int],
            decreases at,
        {
            at = at - 1;
        }
        proof {
            lemma_place_rank_at(r@, keys@, i, at as int);
        }
        r.insert(at, i);
        i = i + 1;
    }
    r
}

/// A ranking holds every place once, and no key comes before a larger one.
pub proof fn law_ranking(keys: Seq<u64>, n: nat)
    requires
        n <= keys.len() <= usize::MAX,
    ensures
        ranked_upto(keys, n).len() == n,
        forall|i: int| 0 <= i < n ==> #[trigger] ranked_upto(keys, n).contains(i as usize),
        forall|a: int, b: int|
            0 <= a < b < n ==> keys[#[trigger] ranked_upto(keys, n)[a] as int] >= keys[
            #[trigger] ranked_upto(keys, n)[b] as int],
    decreases n,
{
    lemma_ranked(keys, n);
    if n > 0 {
        law_ranking(keys, (n - 1) as nat);
        let prev = ranked_upto(keys, (n - 1) as nat);
        let x = (n - 1) as usize;
        lemma_place_members(prev, keys, x);
        lemma_place_sorted(prev, keys, x);
        assert forall|i: int| 0 <= i < n implies #[trigger] ranked_upto(keys, n).contains(
            i as usize,
        ) by {
            if i < n - 1 {
                assert(prev.contains(i as usize));
            }
        }
    }
}

/// Whether no key comes before a larger one.
spec fn descending(r: Seq<usize>, keys: Seq<u64>) -> bool {
    forall|a: int, b: int|
        0 <= a < b < r.len() ==> keys[#[trigger] r[a] as int] >= keys[#[trigger] r[b] as int]
}

proof fn lemma_place_sorted(r: Seq<usize>, keys: Seq<u64>, x: usize)
    requires
        descending(r, keys),
    ensures
        descending(place_rank(r, keys, x), keys),
    decreases r.len(),
{
    let placed = place_rank(r, keys, x);
    if r.len() == 0 || keys[r.last() as int] >= keys[x as int] {
        assert forall|a: int, b: int| 0 <= a < b < placed.len() implies keys[
            #[trigger] placed[a] as int
        ] >= keys[#[trigger] placed[b] as int] by {
            if b == r.len() {
                if a < r.len() - 1 {
                    assert(keys[r[a] as int] >= keys[r[r.len() - 1] as int]);
                }
            } else {
                assert(placed[a] == r[a] && placed[b] == r[b]);
            }
        }
    } else {
        let rest = r.drop_last();
        let head = place_rank(rest, keys, x);
        assert forall|a: int, b: int| 0 <= a < b < rest.len() implies keys[
            #[trigger] rest[a] as int
        ] >= keys[#[trigger] rest[b] as int] by {
            assert(rest[a] == r[a] && rest[b] == r[b]);
        }
        lemma_place_sorted(rest, keys, x);
        lemma_place_members(rest, keys, x);
        assert forall|a: int, b: int| 0 <= a < b < placed.len() implies keys[
            #[trigger] placed[a] as int
        ] >= keys[#[trigger] placed[b] as int] by {
            if b == head.len() {
                let y = placed[a];
                assert(head.contains(y)) by {
                    assert(head[a] == y);
                }
                if y != x {
                    assert(rest.contains(y));
                    let j = choose|j: int| 0 <= j < rest.len() && rest[j] == y;
                    assert(r[j] == y);
                    assert(keys[r[j] as int] >= keys[r[r.len() - 1] as int]);
                }
            } else {
                assert(placed[a] == head[a] && placed[b] == head[b]);
            }
        }
    }
}

} // verus!
