//! What the objects of a remote are, told from their keys and sizes alone.

use crate::collections::PathSet;
use crate::commands::stats::figures;
use crate::object::ObjectHash;
use vstd::prelude::*;

verus! {

/// One class of a remote's objects: how many, and how many bytes.
#[derive(Clone, Copy, Debug, PartialEq, Eq, Structural)]
pub struct ClassStat {
    pub count: u64,
    pub bytes: u64,
}

impl ClassStat {
    pub fn new() -> (r: ClassStat)
        ensures
            r == (ClassStat { count: 0, bytes: 0 }),
    {
        ClassStat { count: 0, bytes: 0 }
    }

    /// Counts one more object.
    pub fn add(&mut self, bytes: u64)
        requires
            old(self).count < u64::MAX,
            old(self).bytes + bytes <= u64::MAX,
        ensures
            final(self).count == old(self).count + 1,
            final(self).bytes == old(self).bytes + bytes,
    {
        self.count = self.count + 1;
        self.bytes = self.bytes + bytes;
    }
}

/// The classes of a remote's objects.
#[derive(Clone, Copy, Debug, PartialEq, Eq, Structural)]
pub enum Class {
    Pack,
    Index,
    Bloom,
    Standalone,
    IndexRoot,
    /// Not referenced by the index.
    Orphan,
}

/// What a remote stores.
#[derive(Clone, Copy, Debug, PartialEq, Eq, Structural)]
pub struct RemoteStorage {
    pub pack_files: ClassStat,
    pub index_files: ClassStat,
    pub bloom: ClassStat,
    pub standalone_objects: ClassStat,
    pub index_root: ClassStat,
    pub orphans: ClassStat,
}

impl RemoteStorage {
    pub open spec fn of(self, c: Class) -> ClassStat {
        match c {
            Class::Pack => self.pack_files,
            Class::Index => self.index_files,
            Class::Bloom => self.bloom,
            Class::Standalone => self.standalone_objects,
            Class::IndexRoot => self.index_root,
            Class::Orphan => self.orphans,
        }
    }

    /// How many objects there are in all.
    pub open spec fn objects(self) -> nat {
        (self.pack_files.count + self.index_files.count + self.bloom.count
            + self.standalone_objects.count + self.index_root.count + self.orphans.count) as nat
    }

    /// How many bytes there are in all.
    pub open spec fn bytes(self) -> nat {
        (self.pack_files.bytes + self.index_files.bytes + self.bloom.bytes
            + self.standalone_objects.bytes + self.index_root.bytes + self.orphans.bytes) as nat
    }

    /// All classes together.
    pub fn total(&self) -> (r: ClassStat)
        requires
            self.objects() <= u64::MAX,
            self.bytes() <= u64::MAX,
        ensures
            r.count == self.objects(),
            r.bytes == self.bytes(),
    {
        ClassStat {
            count: self.pack_files.count + self.index_files.count + self.bloom.count
                + self.standalone_objects.count + self.index_root.count + self.orphans.count,
            bytes: self.pack_files.bytes + self.index_files.bytes + self.bloom.bytes
                + self.standalone_objects.bytes + self.index_root.bytes + self.orphans.bytes,
        }
    }
}

// ---------------------------------------------------------------------------
// Known keys
// ---------------------------------------------------------------------------

/// The keys that the index knows, by what is stored under them.
pub struct KnownKeys {
    pub pack: PathSet,
    pub index: PathSet,
    pub bloom: PathSet,
    pub standalone: PathSet,
    pub index_root: PathSet,
}

/// The keys that the index knows.
#[verifier::ext_equal]
pub struct KeysView {
    pub pack: Set<Seq<char>>,
    pub index: Set<Seq<char>>,
    pub bloom: Set<Seq<char>>,
    pub standalone: Set<Seq<char>>,
    pub index_root: Set<Seq<char>>,
}

impl View for KnownKeys {
    type V = KeysView;

    open spec fn view(&self) -> KeysView {
        KeysView {
            pack: self.pack@,
            index: self.index@,
            bloom: self.bloom@,
            standalone: self.standalone@,
            index_root: self.index_root@,
        }
    }
}

impl KnownKeys {
    pub open spec fn wf(self) -> bool {
        self.pack.wf() && self.index.wf() && self.bloom.wf() && self.standalone.wf()
            && self.index_root.wf()
    }
}

/// An entry of an index file, by the key of what it refers to.
pub enum IndexKey {
    Pack(String),
    Standalone(String),
    /// Its data lies in the index file itself.
    Inline,
}

/// An index file: its hash, the key it is stored under, and its entries where it
/// could be read.
pub struct IndexSeen {
    pub hash: ObjectHash,
    pub key: String,
    pub entries: Option<Vec<IndexKey>>,
}

/// `k` with the first `n` entries of an index file.
pub open spec fn with_entries(k: KeysView, es: Seq<IndexKey>, n: nat) -> KeysView
    decreases n,
{
    if n == 0 || n > es.len() {
        k
    } else {
        let prev = with_entries(k, es, (n - 1) as nat);
        match es[n - 1] {
            IndexKey::Pack(key) => KeysView { pack: prev.pack.insert(key@), ..prev },
            IndexKey::Standalone(key) => KeysView {
                standalone: prev.standalone.insert(key@),
                ..prev
            },
            IndexKey::Inline => prev,
        }
    }
}

/// `k` with an index file and, where it could be read, with its entries.
pub open spec fn with_index(k: KeysView, f: IndexSeen) -> KeysView {
    let own = KeysView { index: k.index.insert(f.key@), ..k };
    match f.entries {
        Some(es) => with_entries(own, es@, es@.len()),
        None => own,
    }
}

/// `k` with the first `n` of several index files.
pub open spec fn with_indexes(k: KeysView, fs: Seq<IndexSeen>, n: nat) -> KeysView
    decreases n,
{
    if n == 0 || n > fs.len() {
        k
    } else {
        with_index(with_indexes(k, fs, (n - 1) as nat), fs[n - 1])
    }
}

/// Whether no earlier file has the hash of file `i`.
pub open spec fn is_first(fs: Seq<IndexSeen>, i: int) -> bool {
    forall|j: int| 0 <= j < i ==> (#[trigger] fs[j]).hash != fs[i].hash
}

/// The hash that stands for no object.
pub open spec fn zero_hash() -> ObjectHash {
    ObjectHash { w0: 0, w1: 0, w2: 0, w3: 0 }
}

/// `k` with the first `n` shards: empty ones are left out, and each is taken once.
pub open spec fn with_shards(k: KeysView, fs: Seq<IndexSeen>, n: nat) -> KeysView
    decreases n,
{
    if n == 0 || n > fs.len() {
        k
    } else {
        let prev = with_shards(k, fs, (n - 1) as nat);
        if fs[n - 1].hash == zero_hash() || !is_first(fs, n - 1) {
            prev
        } else {
            with_index(prev, fs[n - 1])
        }
    }
}

/// The keys that an index root leads to: its own, those of its index files, and of
/// all that they refer to.
pub open spec fn known_keys(
    root_key: Seq<char>,
    hot: Option<IndexSeen>,
    deltas: Seq<IndexSeen>,
    cold: Seq<IndexSeen>,
    bloom: Option<Seq<char>>,
) -> KeysView {
    let root = KeysView {
        pack: Set::empty(),
        index: Set::empty(),
        bloom: Set::empty(),
        standalone: Set::empty(),
        index_root: Set::empty().insert(root_key),
    };
    let with_hot = match hot {
        Some(f) => with_index(root, f),
        None => root,
    };
    let all = with_shards(with_indexes(with_hot, deltas, deltas.len()), cold, cold.len());
    match bloom {
        Some(key) => KeysView { bloom: all.bloom.insert(key), ..all },
        None => all,
    }
}

fn absorb_index(k: &mut KnownKeys, f: &IndexSeen)
    requires
        old(k).wf(),
    ensures
        final(k).wf(),
        final(k)@ == with_index(old(k)@, *f),
{
    k.index.insert(f.key.clone());
    let ghost own = k@;
    if let Some(es) = &f.entries {
        let mut i: usize = 0;
        while i < es.len()
            invariant
                i <= es@.len(),
                k.wf(),
                k@ == with_entries(own, es@, i as nat),
            decreases es.len() - i,
        {
            match &es[i] {
                IndexKey::Pack(key) => {
                    k.pack.insert(key.clone());
                },
                IndexKey::Standalone(key) => {
                    k.standalone.insert(key.clone());
                },
                IndexKey::Inline => {},
            }
            i = i + 1;
        }
    }
}

fn seen_before(fs: &Vec<IndexSeen>, i: usize) -> (r: bool)
    requires
        i < fs@.len(),
    ensures
        r == !is_first(fs@, i as int),
{
    let mut j: usize = 0;
    while j < i
        invariant
            j <= i < fs@.len(),
            forall|k: int| 0 <= k < j ==> (#[trigger] fs@[k]).hash != fs@[i as int].hash,
        decreases i - j,
    {
        if fs[j].hash == fs[i].hash {
            return true;
        }
        j = j + 1;
    }
    false
}

/// Collects the keys of the index root, of its index files and of all that they
/// refer to.
pub fn collect_known_keys(
    root_key: &str,
    hot: &Option<IndexSeen>,
    deltas: &Vec<IndexSeen>,
    cold: &Vec<IndexSeen>,
    bloom: &Option<String>,
) -> (r: KnownKeys)
    ensures
        r.wf(),
        r@ == known_keys(root_key@, *hot, deltas@, cold@, crate::text::opt_view(*bloom)),
{
    let mut k = KnownKeys {
        pack: PathSet::new(),
        index: PathSet::new(),
        bloom: PathSet::new(),
        standalone: PathSet::new(),
        index_root: PathSet::new(),
    };
    k.index_root.insert(root_key.to_owned());
    if let Some(f) = hot {
        absorb_index(&mut k, f);
    }
    let ghost with_hot = k@;
    let mut i: usize = 0;
    while i < deltas.len()
        invariant
            i <= deltas@.len(),
            k.wf(),
            k@ == with_indexes(with_hot, deltas@, i as nat),
        decreases deltas.len() - i,
    {
        absorb_index(&mut k, &deltas[i]);
        i = i + 1;
    }
    let ghost with_deltas = k@;
    let mut j: usize = 0;
    while j < cold.len()
        invariant
            j <= cold@.len(),
            k.wf(),
            k@ == with_shards(with_deltas, cold@, j as nat),
        decreases cold.len() - j,
    {
        if !cold[j].hash.is_zero() && !seen_before(cold, j) {
            absorb_index(&mut k, &cold[j]);
        }
        j = j + 1;
    }
    if let Some(key) = bloom {
        k.bloom.insert(key.clone());
    }
    k
}

// ---------------------------------------------------------------------------
// Classification
// ---------------------------------------------------------------------------

/// The class of an object, by its key.
pub open spec fn class_of(k: KeysView, key: Seq<char>) -> Class {
    if k.pack.contains(key) {
        Class::Pack
    } else if k.index.contains(key) {
        Class::Index
    } else if k.bloom.contains(key) {
        Class::Bloom
    } else if k.standalone.contains(key) {
        Class::Standalone
    } else if k.index_root.contains(key) {
        Class::IndexRoot
    } else {
        Class::Orphan
    }
}

/// How many of the listed objects are in a class.
pub open spec fn class_count(k: KeysView, listing: Seq<(String, u64)>, c: Class) -> nat
    decreases listing.len(),
{
    if listing.len() == 0 {
        0
    } else {
        class_count(k, listing.drop_last(), c) + if class_of(k, listing.last().0@) == c {
            1nat
        } else {
            0nat
        }
    }
}

/// How many bytes the listed objects of a class have.
pub open spec fn class_bytes(k: KeysView, listing: Seq<(String, u64)>, c: Class) -> nat
    decreases listing.len(),
{
    if listing.len() == 0 {
        0
    } else {
        class_bytes(k, listing.drop_last(), c) + if class_of(k, listing.last().0@) == c {
            listing.last().1 as nat
        } else {
            0nat
        }
    }
}

/// The sizes of the listed objects.
pub open spec fn listed_sizes(listing: Seq<(String, u64)>) -> Seq<u64> {
    Seq::new(listing.len(), |i: int| listing[i].1)
}

/// Whether the index root is not among the listed objects, and its size is known.
pub open spec fn root_apart(k: KeysView, listing: Seq<(String, u64)>, root: Option<u64>) -> bool {
    class_count(k, listing, Class::IndexRoot) == 0 && root is Some
}

/// All sizes of a remote: those of the listed objects, and that of the index root
/// where it lies apart.
pub open spec fn all_sizes(k: KeysView, listing: Seq<(String, u64)>, root: Option<u64>) -> Seq<u64> {
    if root_apart(k, listing, root) {
        listed_sizes(listing).push(root->0)
    } else {
        listed_sizes(listing)
    }
}

/// Whether `rs` is what a remote stores.
pub open spec fn is_storage(
    rs: RemoteStorage,
    k: KeysView,
    listing: Seq<(String, u64)>,
    root: Option<u64>,
) -> bool {
    &&& forall|c: Class|
        c != Class::IndexRoot ==> (#[trigger] rs.of(c)).count == class_count(k, listing, c)
            && rs.of(c).bytes == class_bytes(k, listing, c)
    &&& if root_apart(k, listing, root) {
        rs.index_root == ClassStat { count: 1, bytes: root->0 }
    } else {
        rs.index_root.count == class_count(k, listing, Class::IndexRoot) && rs.index_root.bytes
            == class_bytes(k, listing, Class::IndexRoot)
    }
}

proof fn lemma_class_bounds(k: KeysView, listing: Seq<(String, u64)>, c: Class)
    ensures
        class_count(k, listing, c) <= listing.len(),
        class_bytes(k, listing, c) <= figures::sum(listed_sizes(listing)),
    decreases listing.len(),
{
    if listing.len() > 0 {
        lemma_class_bounds(k, listing.drop_last(), c);
        assert(listed_sizes(listing).drop_last() =~= listed_sizes(listing.drop_last()));
    }
}

fn find_class(k: &KnownKeys, key: &str) -> (r: Class)
    ensures
        r == class_of(k@, key@),
{
    if k.pack.contains(key) {
        Class::Pack
    } else if k.index.contains(key) {
        Class::Index
    } else if k.bloom.contains(key) {
        Class::Bloom
    } else if k.standalone.contains(key) {
        Class::Standalone
    } else if k.index_root.contains(key) {
        Class::IndexRoot
    } else {
        Class::Orphan
    }
}

/// Whether the classes hold exactly the first `n` listed objects.
spec fn holds_upto(rs: RemoteStorage, k: KeysView, listing: Seq<(String, u64)>, n: int) -> bool {
    forall|c: Class|
        (#[trigger] rs.of(c)).count == class_count(k, listing.take(n), c) && rs.of(c).bytes
            == class_bytes(k, listing.take(n), c)
}

/// Classifies the objects of a remote by the keys that the index knows. `root_size` is
/// the size of the index root where it is known; it counts if the root is not among
/// the listed objects.
pub fn classify_remote(listing: &Vec<(String, u64)>, known: &KnownKeys, root_size: Option<u64>) -> (r:
    (RemoteStorage, Vec<u64>))
    requires
        figures::sum(listed_sizes(listing@)) <= u64::MAX,
    ensures
        is_storage(r.0, known@, listing@, root_size),
        r.1@ == all_sizes(known@, listing@, root_size),
{
    let mut rs = RemoteStorage {
        pack_files: ClassStat::new(),
        index_files: ClassStat::new(),
        bloom: ClassStat::new(),
        standalone_objects: ClassStat::new(),
        index_root: ClassStat::new(),
        orphans: ClassStat::new(),
    };
    let mut sizes: Vec<u64> = Vec::new();
    let ghost k = known@;
    assert(listing@.take(0) =~= seq![]);
    assert(holds_upto(rs, k, listing@, 0));
    let mut i: usize = 0;
    while i < listing.len()
        invariant
            i <= listing@.len(),
            k == known@,
            figures::sum(listed_sizes(listing@)) <= u64::MAX,
            holds_upto(rs, k, listing@, i as int),
            sizes@ =~= listed_sizes(listing@.take(i as int)),
        decreases listing.len() - i,
    {
        let n: usize = listing.len();
        let size: u64 = listing[i].1;
        let c = find_class(known, listing[i].0.as_str());
        let ghost before = rs;
        let ghost upto = listing@.take(i + 1);
        proof {
            assert(upto.drop_last() =~= listing@.take(i as int));
            lemma_class_bounds(k, upto, c);
            assert(listed_sizes(upto) =~= listed_sizes(listing@).take(i + 1));
            figures::lemma_sum_upto(listed_sizes(listing@), i + 1);
            assert(before.of(c).count == class_count(k, listing@.take(i as int), c));
            assert(before.of(c).bytes == class_bytes(k, listing@.take(i as int), c));
            assert(i < n);
        }
        sizes.push(size);
        match c {
            Class::Pack => {
                rs.pack_files.add(size);
            },
            Class::Index => {
                rs.index_files.add(size);
            },
            Class::Bloom => {
                rs.bloom.add(size);
            },
            Class::Standalone => {
                rs.standalone_objects.add(size);
            },
            Class::IndexRoot => {
                rs.index_root.add(size);
            },
            Class::Orphan => {
                rs.orphans.add(size);
            },
        }
        assert forall|d: Class|
            (#[trigger] rs.of(d)).count == class_count(k, upto, d) && rs.of(d).bytes == class_bytes(
                k,
                upto,
                d,
            ) by {
            assert(before.of(d).count == class_count(k, listing@.take(i as int), d));
        }
        i = i + 1;
    }
    assert(listing@.take(listing@.len() as int) =~= listing@);
    assert(rs.of(Class::IndexRoot).count == class_count(k, listing@, Class::IndexRoot));
    if rs.index_root.count == 0 {
        if let Some(n) = root_size {
            sizes.push(n);
            proof {
                lemma_no_class_bytes(k, listing@, Class::IndexRoot);
                assert(rs.of(Class::IndexRoot).bytes == 0);
            }
            let ghost before = rs;
            rs.index_root.add(n);
            assert forall|c: Class| c != Class::IndexRoot implies (#[trigger] rs.of(c)).count
                == class_count(k, listing@, c) && rs.of(c).bytes == class_bytes(k, listing@, c) by {
                assert(before.of(c) == rs.of(c));
            }
        }
    }
    (rs, sizes)
}

proof fn lemma_no_class_bytes(k: KeysView, listing: Seq<(String, u64)>, c: Class)
    requires
        class_count(k, listing, c) == 0,
    ensures
        class_bytes(k, listing, c) == 0,
    decreases listing.len(),
{
    if listing.len() > 0 {
        lemma_no_class_bytes(k, listing.drop_last(), c);
    }
}

proof fn lemma_classes_add_up(k: KeysView, listing: Seq<(String, u64)>)
    ensures
        class_count(k, listing, Class::Pack) + class_count(k, listing, Class::Index) + class_count(
            k,
            listing,
            Class::Bloom,
        ) + class_count(k, listing, Class::Standalone) + class_count(k, listing, Class::IndexRoot)
            + class_count(k, listing, Class::Orphan) == listing.len(),
        class_bytes(k, listing, Class::Pack) + class_bytes(k, listing, Class::Index) + class_bytes(
            k,
            listing,
            Class::Bloom,
        ) + class_bytes(k, listing, Class::Standalone) + class_bytes(k, listing, Class::IndexRoot)
            + class_bytes(k, listing, Class::Orphan) == figures::sum(listed_sizes(listing)),
    decreases listing.len(),
{
    if listing.len() > 0 {
        lemma_classes_add_up(k, listing.drop_last());
        assert(listed_sizes(listing).drop_last() =~= listed_sizes(listing.drop_last()));
    }
}

/// Every object of a remote is in one class: the classes add up to the number of the
/// sizes, and to their sum.
pub proof fn law_storage_totals(
    rs: RemoteStorage,
    k: KeysView,
    listing: Seq<(String, u64)>,
    root: Option<u64>,
)
    requires
        is_storage(rs, k, listing, root),
    ensures
        rs.objects() == all_sizes(k, listing, root).len(),
        rs.bytes() == figures::sum(all_sizes(k, listing, root)),
{
    lemma_classes_add_up(k, listing);
    assert(rs.of(Class::Pack) == rs.pack_files);
    assert(rs.of(Class::Index) == rs.index_files);
    assert(rs.of(Class::Bloom) == rs.bloom);
    assert(rs.of(Class::Standalone) == rs.standalone_objects);
    assert(rs.of(Class::Orphan) == rs.orphans);
    if root_apart(k, listing, root) {
        lemma_no_class_bytes(k, listing, Class::IndexRoot);
        let all = all_sizes(k, listing, root);
        assert(all.drop_last() =~= listed_sizes(listing));
    }
}

} // verus!
