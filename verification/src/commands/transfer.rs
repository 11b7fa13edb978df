//! The transfer engine: a breadth-first walk of the object graph from one or more
//! roots, shared by a pool of workers, within a budget of memory.

use crate::error::Error;
use crate::object::{ObjectHash, TreeEntry};
use crate::text::{self, parse_u64, parse_usize, trim};
use std::collections::VecDeque;
use vstd::prelude::*;

pub mod led;

verus! {

// ---------------------------------------------------------------------------
// Settings
// ---------------------------------------------------------------------------

/// What a setting reads as: a number of at least one; anything else is ignored.
pub open spec fn setting(text: Option<Seq<char>>, max: nat) -> Option<nat> {
    match text {
        Some(s) => match text::parsed(text::trimmed(s), max) {
            Some(n) => if n >= 1 {
                Some(n)
            } else {
                None
            },
            None => None,
        },
        None => None,
    }
}

/// What an optional text holds.
pub open spec fn opt_text(s: Option<&str>) -> Option<Seq<char>> {
    match s {
        Some(t) => Some(t@),
        None => None,
    }
}

/// The worker count of a transfer: the setting `env` where it is a number of at
/// least one, else the store's own default, at least one.
pub fn resolve_concurrency(env: Option<&str>, store_default: usize) -> (r: usize)
    ensures
        r == match setting(opt_text(env), usize::MAX as nat) {
            Some(n) => n as int,
            None => if store_default == 0 {
                1int
            } else {
                store_default as int
            },
        },
        r >= 1,
{
    if let Some(s) = env {
        let t = trim(s);
        if let Some(n) = parse_usize(t.as_str()) {
            if n >= 1 {
                return n;
            }
        }
    }
    if store_default == 0 {
        1
    } else {
        store_default
    }
}

/// Default ceiling, in bytes, on the total size of transfer buffers held
/// resident across all workers of one transfer run.
pub const DEFAULT_TRANSFER_MEMORY_BUDGET: u64 = 67_108_864;

/// The in-flight memory budget of a transfer run, in bytes: the setting `env`
/// where it is a number of at least one, else the default.
pub fn resolve_memory_budget(env: Option<&str>) -> (r: u64)
    ensures
        r == match setting(opt_text(env), u64::MAX as nat) {
            Some(n) => n as int,
            None => DEFAULT_TRANSFER_MEMORY_BUDGET as int,
        },
        r >= 1,
{
    if let Some(s) = env {
        let t = trim(s);
        if let Some(n) = parse_u64(t.as_str()) {
            if n >= 1 {
                return n;
            }
        }
    }
    DEFAULT_TRANSFER_MEMORY_BUDGET
}

// ---------------------------------------------------------------------------
// The budget of bytes
// ---------------------------------------------------------------------------

/// A counting semaphore over *bytes* that bounds the total size of object
/// buffers held resident across all workers of one transfer run.
///
/// A request is clamped to the total capacity, so a single object larger than the
/// whole budget is admitted alone rather than waiting forever.
pub struct ByteBudget {
    capacity: u64,
    available: u64,
    held: Ghost<nat>,
}

/// A permit for some bytes of a budget, to be given back.
pub struct BudgetGuard {
    amount: u64,
}

impl BudgetGuard {
    /// How many bytes the permit is for.
    pub closed spec fn bytes(self) -> nat {
        self.amount as nat
    }
}

impl ByteBudget {
    /// The bytes that are out and the bytes that are left make up the capacity.
    pub closed spec fn wf(self) -> bool {
        self.capacity >= 1 && self.available + self.held@ == self.capacity
    }

    /// How many bytes the budget has in all.
    pub closed spec fn total(self) -> nat {
        self.capacity as nat
    }

    /// How many bytes are left.
    pub closed spec fn free(self) -> nat {
        self.available as nat
    }

    /// How many bytes are out.
    pub closed spec fn out(self) -> nat {
        self.held@
    }

    /// Never more than the capacity is out, and what is not out is left.
    pub proof fn law_never_exceeded(self)
        requires
            self.wf(),
        ensures
            self.out() <= self.total(),
            self.free() == self.total() - self.out(),
            self.total() >= 1,
    {
    }

    /// A budget of `capacity` bytes, at least one, all of them left.
    pub fn new(capacity: u64) -> (r: Self)
        ensures
            r.wf(),
            r.total() == if capacity == 0 { 1nat } else { capacity as nat },
            r.free() == r.total(),
            r.out() == 0,
    {
        let capacity: u64 = if capacity == 0 {
            1
        } else {
            capacity
        };
        ByteBudget { capacity, available: capacity, held: Ghost(0) }
    }

    /// Acquires the smaller of `amount` and the capacity. `None` means that so many
    /// bytes are not left: the caller waits until some are given back.
    pub fn acquire(&mut self, amount: u64) -> (r: Option<BudgetGuard>)
        requires
            old(self).wf(),
        ensures
            final(self).wf(),
            final(self).total() == old(self).total(),
            ({
                let want = if amount as nat <= old(self).total() {
                    amount as nat
                } else {
                    old(self).total()
                };
                match r {
                    Some(g) => {
                        &&& want <= old(self).free()
                        &&& g.bytes() == want
                        &&& final(self).free() == old(self).free() - want
                        &&& final(self).out() == old(self).out() + want
                    },
                    None => {
                        &&& old(self).free() < want
                        &&& *final(self) == *old(self)
                    },
                }
            }),
    {
        let want: u64 = if amount <= self.capacity {
            amount
        } else {
            self.capacity
        };
        if self.available < want {
            return None;
        }
        self.available = self.available - want;
        self.held = Ghost(self.held@ + want as nat);
        Some(BudgetGuard { amount: want })
    }

    /// Gives the bytes of a permit back.
    pub fn release(&mut self, guard: BudgetGuard)
        requires
            old(self).wf(),
            guard.bytes() <= old(self).out(),
        ensures
            final(self).wf(),
            final(self).total() == old(self).total(),
            final(self).free() == old(self).free() + guard.bytes(),
            final(self).out() == old(self).out() - guard.bytes(),
    {
        self.available = self.available + guard.amount;
        self.held = Ghost((self.held@ - guard.amount as nat) as nat);
    }

    /// A request never waits when nothing is out, however large it is.
    pub proof fn law_oversized_is_admitted_alone(self, amount: u64)
        requires
            self.wf(),
            self.out() == 0,
        ensures
            (if amount as nat <= self.total() {
                amount as nat
            } else {
                self.total()
            }) <= self.free(),
    {
    }
}

// ---------------------------------------------------------------------------
// The object graph
// ---------------------------------------------------------------------------

/// What an object's bytes are.
pub enum ObjectContent {
    /// The chunks of a large blob.
    Manifest(Vec<ObjectHash>),
    /// A directory.
    Tree(Vec<TreeEntry>),
    /// Anything else: bytes that refer to nothing.
    Leaf(Vec<u8>),
}

/// The objects that the first `n` entries of a tree refer to.
pub open spec fn entry_hashes(es: Seq<TreeEntry>, n: nat) -> Seq<ObjectHash>
    decreases n,
{
    if n == 0 || n > es.len() {
        seq![]
    } else {
        match es[n - 1].hash_of() {
            Some(h) => entry_hashes(es, (n - 1) as nat).push(h),
            None => entry_hashes(es, (n - 1) as nat),
        }
    }
}

/// The objects that an object refers to.
pub open spec fn children(c: ObjectContent) -> Seq<ObjectHash> {
    match c {
        ObjectContent::Manifest(hs) => hs@,
        ObjectContent::Tree(es) => entry_hashes(es@, es@.len()),
        ObjectContent::Leaf(_) => seq![],
    }
}

/// The objects that an object refers to: the chunks of a manifest, the entries of
/// a tree that have a hash, nothing for a leaf.
pub fn child_hashes(data: &ObjectContent) -> (r: Vec<ObjectHash>)
    ensures
        r@ == children(*data),
{
    match data {
        ObjectContent::Manifest(hs) => copy_hashes(hs),
        ObjectContent::Tree(es) => {
            let mut out: Vec<ObjectHash> = Vec::new();
            let mut i: usize = 0;
            assert(out@ =~= entry_hashes(es@, 0));
            while i < es.len()
                invariant
                    i <= es@.len(),
                    out@ == entry_hashes(es@, i as nat),
                decreases es.len() - i,
            {
                if let Some(h) = es[i].hash() {
                    out.push(h);
                }
                i = i + 1;
            }
            out
        },
        ObjectContent::Leaf(_) => {
            let none: Vec<ObjectHash> = Vec::new();
            assert(none@ =~= seq![]);
            none
        },
    }
}

/// A copy of a list of hashes.
pub fn copy_hashes(hs: &Vec<ObjectHash>) -> (r: Vec<ObjectHash>)
    ensures
        r@ == hs@,
{
    let mut out: Vec<ObjectHash> = Vec::new();
    let mut i: usize = 0;
    while i < hs.len()
        invariant
            i <= hs@.len(),
            out@ == hs@.take(i as int),
        decreases hs.len() - i,
    {
        out.push(hs[i]);
        i = i + 1;
        assert(out@ =~= hs@.take(i as int));
    }
    assert(out@ =~= hs@);
    out
}

/// A set of hashes.
pub struct HashNames {
    items: Vec<ObjectHash>,
}

impl View for HashNames {
    type V = Set<ObjectHash>;

    closed spec fn view(&self) -> Set<ObjectHash> {
        self.items@.to_set()
    }
}

impl HashNames {
    /// The empty set.
    pub fn new() -> (r: Self)
        ensures
            r@ == Set::<ObjectHash>::empty(),
    {
        let r = HashNames { items: Vec::new() };
        assert(r@ =~= Set::<ObjectHash>::empty());
        r
    }

    /// Whether the set holds `h`.
    pub fn contains(&self, h: ObjectHash) -> (r: bool)
        ensures
            r == self@.contains(h),
    {
        let mut i: usize = 0;
        while i < self.items.len()
            invariant
                i <= self.items@.len(),
                forall|k: int| 0 <= k < i ==> self.items@[k] != h,
            decreases self.items.len() - i,
        {
            if self.items[i] == h {
                assert(self.items@.contains(self.items@[i as int]));
                return true;
            }
            i = i + 1;
        }
        false
    }

    /// The set is finite, and no larger than what memory can hold.
    pub proof fn lemma_bounded(&self)
        ensures
            self@.finite(),
            self@.len() <= usize::MAX,
    {
        self.items@.lemma_cardinality_of_set();
        assert(self.items.len() == self.items@.len());
    }

    /// The hashes of the set.
    pub fn into_vec(self) -> (r: Vec<ObjectHash>)
        ensures
            r@.to_set() == self@,
    {
        self.items
    }

    /// Adds `h`; tells whether it was not there yet.
    pub fn insert(&mut self, h: ObjectHash) -> (r: bool)
        ensures
            final(self)@ == old(self)@.insert(h),
            r == !old(self)@.contains(h),
    {
        if self.contains(h) {
            assert(self@ =~= old(self)@.insert(h));
            false
        } else {
            let ghost before = self.items@;
            self.items.push(h);
            assert forall|x: ObjectHash| before.push(h).contains(x) <==> before.contains(x) || x
                == h by {
                if before.contains(x) {
                    let k = choose|k: int| 0 <= k < before.len() && before[k] == x;
                    assert(before.push(h)[k] == x);
                }
                assert(before.push(h)[before.len() as int] == h);
            }
            assert(self@ =~= old(self)@.insert(h));
            true
        }
    }
}

// ---------------------------------------------------------------------------
// The walk
// ---------------------------------------------------------------------------

/// What a worker does next.
#[derive(Clone, Copy, Debug, PartialEq, Eq, Structural)]
pub enum Next {
    /// Process this object, then report its children or its failure.
    Process(ObjectHash),
    /// Nothing is queued, but objects are in flight: wait for what they bring.
    Wait,
    /// The walk is over, or it failed.
    Done,
}

/// What is left of a queue without the objects at its front that were claimed.
pub open spec fn unclaimed(queue: Seq<ObjectHash>, claimed: Set<ObjectHash>) -> Seq<ObjectHash>
    decreases queue.len(),
{
    if queue.len() > 0 && claimed.contains(queue[0]) {
        unclaimed(queue.drop_first(), claimed)
    } else {
        queue
    }
}

/// The state that the workers of one walk share: objects waiting to be processed,
/// objects already claimed, and the count of those in flight. The walk is over when
/// nothing is outstanding (waiting or in flight), or at the first error.
pub struct Walk {
    queue: VecDeque<ObjectHash>,
    visited: HashNames,
    busy: usize,
    error: Option<Error>,
    roots: Ghost<Seq<ObjectHash>>,
    flying: Ghost<Set<ObjectHash>>,
    reports: Ghost<Map<ObjectHash, Seq<ObjectHash>>>,
}

/// Whether a path leads from a root to its last object, each step from an object to a
/// child that it reported.
pub open spec fn is_trail(
    roots: Seq<ObjectHash>,
    reported: Map<ObjectHash, Seq<ObjectHash>>,
    path: Seq<ObjectHash>,
) -> bool {
    &&& path.len() > 0
    &&& roots.contains(path[0])
    &&& forall|i: int|
        0 <= i < path.len() - 1 ==> reported.dom().contains(#[trigger] path[i])
            && reported[path[i]].contains(path[i + 1])
}

/// Whether the roots lead to an object.
pub open spec fn led_to(
    roots: Seq<ObjectHash>,
    reported: Map<ObjectHash, Seq<ObjectHash>>,
    h: ObjectHash,
) -> bool {
    exists|path: Seq<ObjectHash>| #[trigger] is_trail(roots, reported, path) && path.last() == h
}

proof fn lemma_root_is_led_to(
    roots: Seq<ObjectHash>,
    reported: Map<ObjectHash, Seq<ObjectHash>>,
    h: ObjectHash,
)
    requires
        roots.contains(h),
    ensures
        led_to(roots, reported, h),
{
    assert(is_trail(roots, reported, seq![h]));
}

/// A report adds trails, and breaks none.
proof fn lemma_report_leads_on(
    roots: Seq<ObjectHash>,
    reported: Map<ObjectHash, Seq<ObjectHash>>,
    h: ObjectHash,
    children: Seq<ObjectHash>,
    x: ObjectHash,
)
    requires
        !reported.dom().contains(h),
        led_to(roots, reported, x) || led_to(roots, reported, h) && children.contains(x),
    ensures
        led_to(roots, reported.insert(h, children), x),
{
    let after = reported.insert(h, children);
    let to = if led_to(roots, reported, x) {
        x
    } else {
        h
    };
    let path = choose|path: Seq<ObjectHash>| #[trigger]
        is_trail(roots, reported, path) && path.last() == to;
    assert(is_trail(roots, after, path));
    if to != x {
        let longer = path.push(x);
        assert forall|i: int| 0 <= i < longer.len() - 1 implies after.dom().contains(
            #[trigger] longer[i],
        ) && after[longer[i]].contains(longer[i + 1]) by {
            assert(longer[i] == path[i]);
            if i + 1 < path.len() {
                assert(longer[i + 1] == path[i + 1]);
            }
        }
        assert(is_trail(roots, after, longer));
        assert(longer.last() == x);
    }
}

/// Whether the roots lead to all that is claimed or waits.
#[verifier::opaque]
pub open spec fn all_led_to(
    claimed: Set<ObjectHash>,
    waiting: Seq<ObjectHash>,
    roots: Seq<ObjectHash>,
    reported: Map<ObjectHash, Seq<ObjectHash>>,
) -> bool {
    forall|h: ObjectHash|
        claimed.contains(h) || waiting.contains(h) ==> #[trigger] led_to(roots, reported, h)
}

proof fn lemma_roots_are_led_to(roots: Seq<ObjectHash>)
    ensures
        all_led_to(Set::empty(), roots, roots, Map::empty()),
{
    reveal(all_led_to);
    assert forall|h: ObjectHash| roots.contains(h) implies #[trigger] led_to(
        roots,
        Map::empty(),
        h,
    ) by {
        lemma_root_is_led_to(roots, Map::empty(), h);
    }
}

proof fn lemma_claim_keeps_trails(
    claimed: Set<ObjectHash>,
    waiting: Seq<ObjectHash>,
    roots: Seq<ObjectHash>,
    reported: Map<ObjectHash, Seq<ObjectHash>>,
)
    requires
        waiting.len() > 0,
        all_led_to(claimed, waiting, roots, reported),
    ensures
        all_led_to(claimed.insert(waiting[0]), waiting.drop_first(), roots, reported),
{
    reveal(all_led_to);
    let rest = waiting.drop_first();
    assert forall|h: ObjectHash|
        claimed.insert(waiting[0]).contains(h) || rest.contains(h) implies #[trigger] led_to(
        roots,
        reported,
        h,
    ) by {
        if rest.contains(h) {
            let k = choose|k: int| 0 <= k < rest.len() && rest[k] == h;
            assert(waiting[k + 1] == h);
        }
        assert(waiting.contains(waiting[0]));
    }
}

proof fn lemma_report_keeps_trails(
    claimed: Set<ObjectHash>,
    waiting: Seq<ObjectHash>,
    roots: Seq<ObjectHash>,
    reported: Map<ObjectHash, Seq<ObjectHash>>,
    p: ObjectHash,
    children: Seq<ObjectHash>,
)
    requires
        all_led_to(claimed, waiting, roots, reported),
        claimed.contains(p),
        !reported.dom().contains(p),
    ensures
        all_led_to(claimed, waiting + children, roots, reported.insert(p, children)),
{
    reveal(all_led_to);
    assert(led_to(roots, reported, p));
    let all = waiting + children;
    assert forall|h: ObjectHash|
        claimed.contains(h) || all.contains(h) implies #[trigger] led_to(
        roots,
        reported.insert(p, children),
        h,
    ) by {
        if all.contains(h) {
            let k = choose|k: int| 0 <= k < all.len() && all[k] == h;
            if k < waiting.len() {
                assert(waiting[k] == h);
            } else {
                assert(children[k - waiting.len()] == h);
            }
        }
        assert(led_to(roots, reported, h) || children.contains(h));
        lemma_report_leads_on(roots, reported, p, children, h);
    }
}

impl Walk {
    /// The objects that were claimed for processing.
    pub closed spec fn claimed(self) -> Set<ObjectHash> {
        self.visited@
    }

    /// The objects that the walk starts from.
    pub closed spec fn start(self) -> Seq<ObjectHash> {
        self.roots@
    }

    /// The objects being processed.
    pub closed spec fn in_flight(self) -> Set<ObjectHash> {
        self.flying@
    }

    /// The children that were reported, by object.
    pub closed spec fn reported(self) -> Map<ObjectHash, Seq<ObjectHash>> {
        self.reports@
    }

    /// The objects waiting to be processed.
    pub closed spec fn waiting(self) -> Seq<ObjectHash> {
        self.queue@
    }

    /// The first failure.
    pub closed spec fn failure(self) -> Option<Error> {
        self.error
    }

    /// How many objects are outstanding.
    pub closed spec fn open_items(self) -> nat {
        self.queue@.len() + self.busy as nat
    }

    /// Whether an object is claimed or waits to be.
    pub open spec fn known(self, h: ObjectHash) -> bool {
        self.claimed().contains(h) || self.waiting().contains(h)
    }

    /// What holds of a walk at every step.
    pub closed spec fn wf(self) -> bool {
        &&& self.flying@.finite()
        &&& self.busy == self.flying@.len()
        &&& forall|i: int| 0 <= i < self.roots@.len() ==> self.known(#[trigger] self.roots@[i])
        &&& forall|h: ObjectHash|
            #[trigger] self.reports@.dom().contains(h) ==> self.visited@.contains(h)
        &&& forall|h: ObjectHash, i: int|
            self.reports@.dom().contains(h) && 0 <= i < self.reports@[h].len() ==> self.known(
                #[trigger] self.reports@[h][i],
            )
        &&& self.error is None ==> forall|h: ObjectHash| #[trigger]
            self.visited@.contains(h) ==> self.flying@.contains(h) || self.reports@.dom().contains(
                h,
            )
        &&& forall|h: ObjectHash| #[trigger]
            self.flying@.contains(h) ==> self.visited@.contains(h)
                && !self.reports@.dom().contains(h)
        &&& all_led_to(self.visited@, self.queue@, self.roots@, self.reports@)
    }

    /// What is outstanding either waits or is in flight.
    pub proof fn law_outstanding(self)
        requires
            self.wf(),
        ensures
            self.in_flight().finite(),
            self.open_items() == self.waiting().len() + self.in_flight().len(),
    {
    }

    /// An object is claimed once: from then on it is in flight, until it has reported
    /// its children or failed.
    pub proof fn law_claims(self)
        requires
            self.wf(),
        ensures
            self.claimed().finite(),
            self.claimed().len() <= usize::MAX,
            self.in_flight().subset_of(self.claimed()),
            self.reported().dom().subset_of(self.claimed()),
            self.in_flight().disjoint(self.reported().dom()),
            self.failure() is None ==> self.claimed() == self.in_flight().union(
                self.reported().dom(),
            ),
    {
        self.visited.lemma_bounded();
        if self.failure() is None {
            assert(self.claimed() =~= self.in_flight().union(self.reported().dom()));
        }
    }

    /// A walk from all of `roots` at once. An object that occurs more than once among
    /// them is processed once; without roots there is nothing to do.
    pub fn new(roots: &Vec<ObjectHash>) -> (r: Self)
        ensures
            r.wf(),
            r.start() == roots@,
            r.waiting() == roots@,
            r.claimed() == Set::<ObjectHash>::empty(),
            r.in_flight() == Set::<ObjectHash>::empty(),
            r.reported() == Map::<ObjectHash, Seq<ObjectHash>>::empty(),
            r.failure() is None,
            r.open_items() == roots@.len(),
    {
        let mut queue: VecDeque<ObjectHash> = VecDeque::new();
        let mut i: usize = 0;
        while i < roots.len()
            invariant
                i <= roots@.len(),
                queue@ == roots@.take(i as int),
            decreases roots.len() - i,
        {
            queue.push_back(roots[i]);
            i = i + 1;
            assert(queue@ =~= roots@.take(i as int));
        }
        assert(queue@ =~= roots@);
        let r = Walk {
            queue,
            visited: HashNames::new(),
            busy: 0,
            error: None,
            roots: Ghost(roots@),
            flying: Ghost(Set::empty()),
            reports: Ghost(Map::empty()),
        };
        assert forall|k: int| 0 <= k < roots@.len() implies r.known(#[trigger] r.roots@[k]) by {
            assert(r.queue@[k] == roots@[k]);
        }
        proof {
            lemma_roots_are_led_to(roots@);
        }
        r
    }

    /// Claims the next object that was not claimed before.
    pub fn next(&mut self) -> (r: Next)
        requires
            old(self).wf(),
        ensures
            final(self).wf(),
            final(self).start() == old(self).start(),
            final(self).reported() == old(self).reported(),
            final(self).failure() == old(self).failure(),
            old(self).failure() is Some ==> r is Done && *final(self) == *old(self),
            old(self).failure() is None ==> {
                let rest = unclaimed(old(self).waiting(), old(self).claimed());
                if rest.len() > 0 {
                    &&& r == Next::Process(rest[0])
                    &&& !old(self).claimed().contains(rest[0])
                    &&& final(self).waiting() == rest.drop_first()
                    &&& final(self).claimed() == old(self).claimed().insert(rest[0])
                    &&& final(self).in_flight() == old(self).in_flight().insert(rest[0])
                } else {
                    &&& r == if old(self).in_flight() == Set::<ObjectHash>::empty() {
                        Next::Done
                    } else {
                        Next::Wait
                    }
                    &&& final(self).waiting() == rest
                    &&& final(self).claimed() == old(self).claimed()
                    &&& final(self).in_flight() == old(self).in_flight()
                }
            },
    {
        if self.error.is_some() {
            return Next::Done;
        }
        let ghost start = *self;
        loop
            invariant
                self.wf(),
                self.error is None,
                start.error is None,
                self.error == start.error,
                self.roots == start.roots,
                self.reports == start.reports,
                self.visited@ == start.visited@,
                self.flying == start.flying,
                start == *old(self),
                unclaimed(self.queue@, self.visited@) == unclaimed(start.queue@, start.visited@),
            decreases self.queue@.len(),
        {
            let ghost before = *self;
            let ghost q = self.queue@;
            match self.queue.pop_front() {
                None => {
                    if self.busy == 0 {
                        assert(self.flying@ =~= Set::<ObjectHash>::empty());
                        return Next::Done;
                    }
                    return Next::Wait;
                },
                Some(h) => {
                    let fresh = self.visited.insert(h);
                    proof {
                        assert(self.queue@ =~= q.drop_first());
                        assert forall|x: ObjectHash| before.known(x) implies self.visited@.contains(
                            x,
                        ) || self.queue@.contains(x) by {
                            if q.contains(x) && x != h {
                                let k = choose|k: int| 0 <= k < q.len() && q[k] == x;
                                assert(self.queue@[k - 1] == x);
                            }
                        }
                        assert forall|x: ObjectHash, i: int|
                            self.reports@.dom().contains(x) && 0 <= i
                                < self.reports@[x].len() implies self.known(
                            #[trigger] self.reports@[x][i],
                        ) by {
                            assert(before.known(before.reports@[x][i]));
                        }
                        assert forall|i: int| 0 <= i < self.roots@.len() implies self.known(
                            #[trigger] self.roots@[i],
                        ) by {
                            assert(before.known(before.roots@[i]));
                        }
                        lemma_claim_keeps_trails(
                            before.visited@,
                            q,
                            self.roots@,
                            self.reports@,
                        );
                    }
                    if fresh {
                        assert(!before.flying@.contains(h));
                        proof {
                            self.visited.lemma_bounded();
                            vstd::set_lib::lemma_len_subset(
                                self.flying@.insert(h),
                                self.visited@,
                            );
                        }
                        self.flying = Ghost(self.flying@.insert(h));
                        self.busy = self.busy + 1;
                        return Next::Process(h);
                    }
                    assert(self.visited@ =~= start.visited@);
                },
            }
        }
    }

    /// Reports the children of an object that was processed: they wait to be
    /// processed before the object itself is done.
    pub fn complete(&mut self, h: ObjectHash, children: &Vec<ObjectHash>)
        requires
            old(self).wf(),
            old(self).in_flight().contains(h),
        ensures
            final(self).wf(),
            final(self).start() == old(self).start(),
            final(self).claimed() == old(self).claimed(),
            final(self).failure() == old(self).failure(),
            final(self).in_flight() == old(self).in_flight().remove(h),
            final(self).reported() == old(self).reported().insert(h, children@),
            final(self).waiting() == old(self).waiting() + children@,
            final(self).open_items() == old(self).open_items() + children@.len() - 1,
    {
        let ghost before = *self;
        let mut i: usize = 0;
        assert(self.queue@ =~= before.queue@ + children@.take(0));
        while i < children.len()
            invariant
                i <= children@.len(),
                self.queue@ == before.queue@ + children@.take(i as int),
                self.visited == before.visited,
                self.error == before.error,
                self.roots == before.roots,
                self.flying == before.flying,
                self.reports == before.reports,
                self.busy == before.busy,
            decreases children.len() - i,
        {
            self.queue.push_back(children[i]);
            i = i + 1;
            assert(self.queue@ =~= before.queue@ + children@.take(i as int));
        }
        assert(children@.take(i as int) =~= children@);
        self.busy = self.busy - 1;
        self.flying = Ghost(self.flying@.remove(h));
        self.reports = Ghost(self.reports@.insert(h, children@));
        proof {
            assert forall|x: ObjectHash| before.known(x) implies self.known(x) by {
                if before.queue@.contains(x) {
                    let k = choose|k: int| 0 <= k < before.queue@.len() && before.queue@[k] == x;
                    assert(self.queue@[k] == x);
                }
            }
            assert forall|x: ObjectHash, k: int|
                self.reports@.dom().contains(x) && 0 <= k < self.reports@[x].len() implies self.known(
                #[trigger] self.reports@[x][k],
            ) by {
                if x == h {
                    assert(self.queue@[before.queue@.len() + k] == children@[k]);
                } else {
                    assert(before.known(before.reports@[x][k]));
                }
            }
            assert forall|k: int| 0 <= k < self.roots@.len() implies self.known(
                #[trigger] self.roots@[k],
            ) by {
                assert(before.known(before.roots@[k]));
            }
            lemma_report_keeps_trails(
                before.visited@,
                before.queue@,
                before.roots@,
                before.reports@,
                h,
                children@,
            );
        }
    }

    /// Records the failure of an object. The first failure is the one that counts,
    /// and ends the walk.
    pub fn record_error(&mut self, h: ObjectHash, e: Error)
        requires
            old(self).wf(),
            old(self).in_flight().contains(h),
        ensures
            final(self).wf(),
            final(self).start() == old(self).start(),
            final(self).claimed() == old(self).claimed(),
            final(self).reported() == old(self).reported(),
            final(self).waiting() == old(self).waiting(),
            final(self).in_flight() == old(self).in_flight().remove(h),
            final(self).open_items() == old(self).open_items() - 1,
            final(self).failure() == match old(self).failure() {
                Some(first) => Some(first),
                None => Some(e),
            },
    {
        let ghost before = *self;
        if self.error.is_none() {
            self.error = Some(e);
        }
        self.busy = self.busy - 1;
        self.flying = Ghost(self.flying@.remove(h));
        proof {
            assert forall|x: ObjectHash, k: int|
                self.reports@.dom().contains(x) && 0 <= k < self.reports@[x].len() implies self.known(
                #[trigger] self.reports@[x][k],
            ) by {
                assert(before.known(before.reports@[x][k]));
            }
            assert forall|k: int| 0 <= k < self.roots@.len() implies self.known(
                #[trigger] self.roots@[k],
            ) by {
                assert(before.known(before.roots@[k]));
            }
        }
    }

    /// The outcome of the walk: its first failure, if there was one.
    pub fn outcome(self) -> (r: Result<(), Error>)
        ensures
            match self.failure() {
                Some(e) => r == Err::<(), Error>(e),
                None => r is Ok,
            },
    {
        match self.error {
            Some(e) => Err(e),
            None => Ok(()),
        }
    }

    /// Only what the roots lead to, from object to reported child, is claimed or waits.
    pub proof fn law_only_reachable_is_claimed(self, h: ObjectHash)
        requires
            self.wf(),
            self.known(h),
        ensures
            led_to(self.start(), self.reported(), h),
    {
        reveal(all_led_to);
    }

    /// When a walk is over without a failure, exactly what the roots lead to was claimed.
    pub proof fn law_walk_claims_what_is_reachable(self)
        requires
            self.wf(),
            self.failure() is None,
            self.open_items() == 0,
        ensures
            forall|h: ObjectHash| #[trigger]
                self.claimed().contains(h) <==> led_to(self.start(), self.reported(), h),
    {
        assert forall|h: ObjectHash| #[trigger] self.claimed().contains(h) <==> led_to(
            self.start(),
            self.reported(),
            h,
        ) by {
            if self.claimed().contains(h) {
                self.law_only_reachable_is_claimed(h);
            }
            if led_to(self.start(), self.reported(), h) {
                let path = choose|path: Seq<ObjectHash>| #[trigger]
                    is_trail(self.start(), self.reported(), path) && path.last() == h;
                self.law_walk_is_complete(path);
            }
        }
    }

    /// When a walk is over without a failure, every object that the roots lead to,
    /// from object to reported child, was claimed and has reported its children.
    pub proof fn law_walk_is_complete(self, path: Seq<ObjectHash>)
        requires
            self.wf(),
            self.failure() is None,
            self.open_items() == 0,
            is_trail(self.start(), self.reported(), path),
        ensures
            self.claimed().contains(path.last()),
            self.reported().dom().contains(path.last()),
        decreases path.len(),
    {
        assert(self.flying@.len() == 0);
        assert(self.flying@ =~= Set::<ObjectHash>::empty());
        assert(self.queue@.len() == 0);
        if path.len() == 1 {
            let k = choose|k: int| 0 <= k < self.roots@.len() && self.roots@[k] == path[0];
            assert(self.known(self.roots@[k]));
        } else {
            let init = path.drop_last();
            assert forall|i: int| 0 <= i < init.len() - 1 implies self.reported().dom().contains(
                #[trigger] init[i],
            ) && self.reported()[init[i]].contains(init[i + 1]) by {
                assert(init[i] == path[i]);
                assert(init[i + 1] == path[i + 1]);
            }
            self.law_walk_is_complete(init);
            let p = path[path.len() - 2];
            assert(init.last() == p);
            assert(self.reported()[p].contains(path[path.len() - 2 + 1]));
            let k = choose|k: int|
                0 <= k < self.reports@[p].len() && self.reports@[p][k] == path.last();
            assert(self.known(self.reports@[p][k]));
        }
    }
}

} // verus!
