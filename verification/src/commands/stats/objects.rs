//! What the objects of the local store are.

use crate::collections::PathMap;
use crate::text;
use vstd::prelude::*;
use vstd::utf8;

verus! {

/// Sizes of objects, added up.
#[derive(Clone, Copy, Debug, PartialEq, Eq, Structural)]
pub struct SizeStats {
    pub count: u64,
    pub total_stored: u64,
    pub total_logical: u64,
    pub min_stored: Option<u64>,
    pub max_stored: Option<u64>,
}

/// The smaller of what there was and `n`.
pub open spec fn min_with(m: Option<u64>, n: u64) -> u64 {
    match m {
        Some(k) => if k < n {
            k
        } else {
            n
        },
        None => n,
    }
}

/// The larger of what there was and `n`.
pub open spec fn max_with(m: Option<u64>, n: u64) -> u64 {
    match m {
        Some(k) => if k > n {
            k
        } else {
            n
        },
        None => n,
    }
}

impl SizeStats {
    /// No objects.
    pub open spec fn none() -> SizeStats {
        SizeStats {
            count: 0,
            total_stored: 0,
            total_logical: 0,
            min_stored: None,
            max_stored: None,
        }
    }

    /// Whether one more object can be counted.
    pub open spec fn has_room(self, stored: u64, logical: u64) -> bool {
        self.count < u64::MAX && self.total_stored + stored <= u64::MAX && self.total_logical
            + logical <= u64::MAX
    }

    /// With one more object.
    pub open spec fn with(self, stored: u64, logical: u64) -> SizeStats {
        SizeStats {
            count: (self.count + 1) as u64,
            total_stored: (self.total_stored + stored) as u64,
            total_logical: (self.total_logical + logical) as u64,
            min_stored: Some(min_with(self.min_stored, stored)),
            max_stored: Some(max_with(self.max_stored, stored)),
        }
    }

    pub fn new() -> (r: SizeStats)
        ensures
            r == SizeStats::none(),
    {
        SizeStats {
            count: 0,
            total_stored: 0,
            total_logical: 0,
            min_stored: None,
            max_stored: None,
        }
    }

    /// Counts one more object.
    pub fn add(&mut self, stored: u64, logical: u64)
        requires
            old(self).has_room(stored, logical),
        ensures
            *final(self) == old(self).with(stored, logical),
    {
        self.count = self.count + 1;
        self.total_stored = self.total_stored + stored;
        self.total_logical = self.total_logical + logical;
        let low: u64 = match self.min_stored {
            Some(k) => if k < stored {
                k
            } else {
                stored
            },
            None => stored,
        };
        let high: u64 = match self.max_stored {
            Some(k) => if k > stored {
                k
            } else {
                stored
            },
            None => stored,
        };
        self.min_stored = Some(low);
        self.max_stored = Some(high);
    }
}

/// How an object is compressed, by its first two bytes.
#[derive(Clone, Copy, Debug, PartialEq, Eq, Structural)]
pub enum Method {
    DictZstd,
    PlainZstd,
    EscapedRaw,
    Raw,
}

/// How an object is compressed, by its first two bytes.
pub open spec fn method_of(a: u8, b: u8) -> Method {
    if a == 0xED && b == 0xDE {
        Method::DictZstd
    } else if a == 0xED && b == 0xDF {
        Method::PlainZstd
    } else if a == 0xED && b == 0xD0 {
        Method::EscapedRaw
    } else {
        Method::Raw
    }
}

fn method(a: u8, b: u8) -> (r: Method)
    ensures
        r == method_of(a, b),
{
    if a == 0xED && b == 0xDE {
        Method::DictZstd
    } else if a == 0xED && b == 0xDF {
        Method::PlainZstd
    } else if a == 0xED && b == 0xD0 {
        Method::EscapedRaw
    } else {
        Method::Raw
    }
}

/// Objects and stored bytes by the method of compression.
#[derive(Clone, Copy, Debug, PartialEq, Eq, Structural)]
pub struct CompressCount {
    pub dict_zstd: u64,
    pub plain_zstd: u64,
    pub escaped_raw: u64,
    pub raw: u64,
    pub dict_zstd_bytes: u64,
    pub plain_zstd_bytes: u64,
    pub escaped_raw_bytes: u64,
    pub raw_bytes: u64,
}

impl CompressCount {
    /// No objects.
    pub open spec fn none() -> CompressCount {
        CompressCount {
            dict_zstd: 0,
            plain_zstd: 0,
            escaped_raw: 0,
            raw: 0,
            dict_zstd_bytes: 0,
            plain_zstd_bytes: 0,
            escaped_raw_bytes: 0,
            raw_bytes: 0,
        }
    }

    pub fn new() -> (r: CompressCount)
        ensures
            r == CompressCount::none(),
    {
        CompressCount {
            dict_zstd: 0,
            plain_zstd: 0,
            escaped_raw: 0,
            raw: 0,
            dict_zstd_bytes: 0,
            plain_zstd_bytes: 0,
            escaped_raw_bytes: 0,
            raw_bytes: 0,
        }
    }

    /// How many objects were counted.
    pub open spec fn objects(self) -> nat {
        (self.dict_zstd + self.plain_zstd + self.escaped_raw + self.raw) as nat
    }

    /// How many bytes were counted.
    pub open spec fn bytes(self) -> nat {
        (self.dict_zstd_bytes + self.plain_zstd_bytes + self.escaped_raw_bytes + self.raw_bytes)
            as nat
    }

    /// With one more object of `len` stored bytes.
    pub open spec fn with(self, m: Method, len: u64) -> CompressCount {
        match m {
            Method::DictZstd => CompressCount {
                dict_zstd: (self.dict_zstd + 1) as u64,
                dict_zstd_bytes: (self.dict_zstd_bytes + len) as u64,
                ..self
            },
            Method::PlainZstd => CompressCount {
                plain_zstd: (self.plain_zstd + 1) as u64,
                plain_zstd_bytes: (self.plain_zstd_bytes + len) as u64,
                ..self
            },
            Method::EscapedRaw => CompressCount {
                escaped_raw: (self.escaped_raw + 1) as u64,
                escaped_raw_bytes: (self.escaped_raw_bytes + len) as u64,
                ..self
            },
            Method::Raw => CompressCount {
                raw: (self.raw + 1) as u64,
                raw_bytes: (self.raw_bytes + len) as u64,
                ..self
            },
        }
    }

    /// Counts one more object.
    pub fn add(&mut self, m: Method)
        requires
            old(self).objects() < u64::MAX,
        ensures
            *final(self) == old(self).with(m, 0),
    {
        match m {
            Method::DictZstd => {
                self.dict_zstd = self.dict_zstd + 1;
            },
            Method::PlainZstd => {
                self.plain_zstd = self.plain_zstd + 1;
            },
            Method::EscapedRaw => {
                self.escaped_raw = self.escaped_raw + 1;
            },
            Method::Raw => {
                self.raw = self.raw + 1;
            },
        }
    }

    /// Counts one more object and its stored bytes.
    pub fn add_sized(&mut self, m: Method, len: u64)
        requires
            old(self).objects() < u64::MAX,
            old(self).bytes() + len <= u64::MAX,
        ensures
            *final(self) == old(self).with(m, len),
    {
        match m {
            Method::DictZstd => {
                self.dict_zstd = self.dict_zstd + 1;
                self.dict_zstd_bytes = self.dict_zstd_bytes + len;
            },
            Method::PlainZstd => {
                self.plain_zstd = self.plain_zstd + 1;
                self.plain_zstd_bytes = self.plain_zstd_bytes + len;
            },
            Method::EscapedRaw => {
                self.escaped_raw = self.escaped_raw + 1;
                self.escaped_raw_bytes = self.escaped_raw_bytes + len;
            },
            Method::Raw => {
                self.raw = self.raw + 1;
                self.raw_bytes = self.raw_bytes + len;
            },
        }
    }

    /// How many objects were counted.
    pub fn total(&self) -> (r: u64)
        requires
            self.objects() <= u64::MAX,
        ensures
            r == self.objects(),
    {
        self.dict_zstd + self.plain_zstd + self.escaped_raw + self.raw
    }
}

/// Files of one content type.
#[derive(Clone, Copy, Debug, PartialEq, Eq, Structural)]
pub struct BlobTypeEntry {
    pub size: SizeStats,
    pub compress: CompressCount,
}

// ---------------------------------------------------------------------------
// Content types
// ---------------------------------------------------------------------------

/// Whether bytes begin with others.
pub open spec fn begins(data: Seq<u8>, head: Seq<u8>) -> bool {
    head.len() <= data.len() && data.take(head.len() as int) == head
}

/// Whether a byte is a control character other than a tab, a line break or a form
/// feed.
pub open spec fn is_control(b: u8) -> bool {
    b < 0x09 || 0x0D < b < 0x20
}

/// The first bytes, 1024 at most.
pub open spec fn sample(data: Seq<u8>) -> Seq<u8> {
    if data.len() < 1024 {
        data
    } else {
        data.take(1024)
    }
}

/// Whether a sample of the content is text: valid UTF-8 without control characters.
pub open spec fn is_text(data: Seq<u8>) -> bool {
    utf8::valid_utf8(sample(data)) && forall|i: int|
        0 <= i < sample(data).len() ==> !is_control(#[trigger] sample(data)[i])
}

/// The content type of a file, by its first bytes.
pub open spec fn blob_type(data: Seq<u8>) -> Seq<char> {
    if begins(data, seq![0xFFu8, 0xD8, 0xFF]) {
        "jpeg"@
    } else if begins(data, seq![0x89u8, 0x50, 0x4E, 0x47, 0x0D, 0x0A, 0x1A, 0x0A]) {
        "png"@
    } else if begins(data, seq![0x47u8, 0x49, 0x46, 0x38]) {
        "gif"@
    } else if data.len() >= 12 && begins(data, seq![0x52u8, 0x49, 0x46, 0x46]) && begins(
        data.skip(8),
        seq![0x57u8, 0x45, 0x42, 0x50],
    ) {
        "webp"@
    } else if begins(data, seq![0x25u8, 0x50, 0x44, 0x46]) {
        "pdf"@
    } else if begins(data, seq![0x50u8, 0x4B, 0x03, 0x04]) {
        "zip"@
    } else if begins(data, seq![0x1Fu8, 0x8B]) {
        "gzip"@
    } else if begins(data, seq![0x28u8, 0xB5, 0x2F, 0xFD]) {
        "zstd"@
    } else if begins(data, seq![0x78u8, 0x01]) || begins(data, seq![0x78u8, 0x5E]) || begins(
        data,
        seq![0x78u8, 0x9C],
    ) || begins(data, seq![0x78u8, 0xDA]) {
        "zlib"@
    } else if is_text(data) {
        "text"@
    } else {
        "binary"@
    }
}

/// `std::str::from_utf8`: it accepts exactly the valid UTF-8 sequences.
#[verifier::external_body]
fn is_utf8(bytes: &[u8]) -> (r: bool)
    ensures
        r == utf8::valid_utf8(bytes@),
{
    std::str::from_utf8(bytes).is_ok()
}

fn begins_with(data: &Vec<u8>, from: usize, head: &Vec<u8>) -> (r: bool)
    requires
        from <= data@.len(),
    ensures
        r == begins(data@.skip(from as int), head@),
{
    let ghost rest = data@.skip(from as int);
    if data.len() - from < head.len() {
        return false;
    }
    let mut i: usize = 0;
    while i < head.len()
        invariant
            i <= head@.len(),
            from + head@.len() <= data.len(),
            rest == data@.skip(from as int),
            forall|k: int| 0 <= k < i ==> rest[k] == #[trigger] head@[k],
        decreases head.len() - i,
    {
        assert(rest[i as int] == data@[from + i]);
        if data[from + i] != head[i] {
            assert(rest.take(head@.len() as int)[i as int] == rest[i as int]);
            return false;
        }
        i = i + 1;
    }
    assert(rest.take(head@.len() as int) =~= head@);
    true
}

fn is_text_sample(data: &Vec<u8>) -> (r: bool)
    ensures
        r == is_text(data@),
{
    let n: usize = if data.len() < 1024 {
        data.len()
    } else {
        1024
    };
    let ghost s = sample(data@);
    assert(data@.subrange(0, n as int) =~= s);
    if !is_utf8(vstd::slice::slice_subrange(data.as_slice(), 0, n)) {
        return false;
    }
    let mut i: usize = 0;
    while i < n
        invariant
            i <= n,
            n <= data@.len(),
            s == sample(data@),
            n == s.len(),
            s == data@.subrange(0, n as int),
            utf8::valid_utf8(s),
            forall|k: int| 0 <= k < i ==> !is_control(#[trigger] s[k]),
        decreases n - i,
    {
        let b: u8 = data[i];
        assert(s[i as int] == b);
        if b < 0x09 || (b > 0x0D && b < 0x20) {
            assert(is_control(s[i as int]));
            return false;
        }
        i = i + 1;
    }
    true
}

/// The content type of a file, by its first bytes.
pub fn detect_blob_type(data: &Vec<u8>) -> (r: String)
    ensures
        r@ == blob_type(data@),
{
    assert(data@.skip(0) =~= data@);
    if begins_with(data, 0, &vec![0xFFu8, 0xD8, 0xFF]) {
        return "jpeg".to_owned();
    }
    if begins_with(data, 0, &vec![0x89u8, 0x50, 0x4E, 0x47, 0x0D, 0x0A, 0x1A, 0x0A]) {
        return "png".to_owned();
    }
    if begins_with(data, 0, &vec![0x47u8, 0x49, 0x46, 0x38]) {
        return "gif".to_owned();
    }
    if data.len() >= 12 && begins_with(data, 0, &vec![0x52u8, 0x49, 0x46, 0x46]) && begins_with(
        data,
        8,
        &vec![0x57u8, 0x45, 0x42, 0x50],
    ) {
        return "webp".to_owned();
    }
    if begins_with(data, 0, &vec![0x25u8, 0x50, 0x44, 0x46]) {
        return "pdf".to_owned();
    }
    if begins_with(data, 0, &vec![0x50u8, 0x4B, 0x03, 0x04]) {
        return "zip".to_owned();
    }
    if begins_with(data, 0, &vec![0x1Fu8, 0x8B]) {
        return "gzip".to_owned();
    }
    if begins_with(data, 0, &vec![0x28u8, 0xB5, 0x2F, 0xFD]) {
        return "zstd".to_owned();
    }
    if begins_with(data, 0, &vec![0x78u8, 0x01]) || begins_with(data, 0, &vec![0x78u8, 0x5E])
        || begins_with(data, 0, &vec![0x78u8, 0x9C]) || begins_with(data, 0, &vec![0x78u8, 0xDA]) {
        return "zlib".to_owned();
    }
    if is_text_sample(data) {
        return "text".to_owned();
    }
    "binary".to_owned()
}

// ---------------------------------------------------------------------------
// The local store
// ---------------------------------------------------------------------------

/// The first bytes of the contents that are not a file's.
pub struct TypeTags {
    pub manifest: Vec<u8>,
    pub chunk: Vec<u8>,
    pub tree: Vec<u8>,
}

/// What the local store is made of.
pub struct Stats {
    pub total: u64,
    pub tree_stats: SizeStats,
    pub blob_stats: SizeStats,
    pub chunk_manifest_count: u64,
    pub chunk_body_count: u64,
    pub unknown_count: u64,
    pub compress_total: CompressCount,
    pub compress_tree: CompressCount,
    pub compress_blob: CompressCount,
    pub total_stored_bytes: u64,
    pub blob_type_stats: PathMap<BlobTypeEntry>,
}

/// What the local store is made of.
#[verifier::ext_equal]
pub struct StatsView {
    pub total: u64,
    pub tree_stats: SizeStats,
    pub blob_stats: SizeStats,
    pub chunk_manifest_count: u64,
    pub chunk_body_count: u64,
    pub unknown_count: u64,
    pub compress_total: CompressCount,
    pub compress_tree: CompressCount,
    pub compress_blob: CompressCount,
    pub total_stored_bytes: u64,
    pub blob_type_stats: Map<Seq<char>, BlobTypeEntry>,
}

impl View for Stats {
    type V = StatsView;

    open spec fn view(&self) -> StatsView {
        StatsView {
            total: self.total,
            tree_stats: self.tree_stats,
            blob_stats: self.blob_stats,
            chunk_manifest_count: self.chunk_manifest_count,
            chunk_body_count: self.chunk_body_count,
            unknown_count: self.unknown_count,
            compress_total: self.compress_total,
            compress_tree: self.compress_tree,
            compress_blob: self.compress_blob,
            total_stored_bytes: self.total_stored_bytes,
            blob_type_stats: self.blob_type_stats@,
        }
    }
}

impl StatsView {
    /// No objects.
    pub open spec fn none() -> StatsView {
        StatsView {
            total: 0,
            tree_stats: SizeStats::none(),
            blob_stats: SizeStats::none(),
            chunk_manifest_count: 0,
            chunk_body_count: 0,
            unknown_count: 0,
            compress_total: CompressCount::none(),
            compress_tree: CompressCount::none(),
            compress_blob: CompressCount::none(),
            total_stored_bytes: 0,
            blob_type_stats: Map::empty(),
        }
    }

    /// Every object is counted under one head, and what is counted of a part is not
    /// more than what is counted of the whole.
    pub open spec fn adds_up(self) -> bool {
        &&& self.total == self.tree_stats.count + self.blob_stats.count + self.chunk_manifest_count
            + self.chunk_body_count + self.unknown_count
        &&& self.tree_stats.total_stored + self.blob_stats.total_stored <= self.total_stored_bytes
        &&& self.compress_total.objects() <= self.total
        &&& self.compress_total.bytes() <= self.total_stored_bytes
        &&& self.compress_tree.objects() == self.tree_stats.count
        &&& self.compress_blob.objects() == self.blob_stats.count
        &&& forall|t: Seq<char>| #[trigger]
            self.blob_type_stats.dom().contains(t) ==> {
                let e = self.blob_type_stats[t];
                e.size.count <= self.blob_stats.count && e.size.total_stored
                    <= self.blob_stats.total_stored && e.size.total_logical
                    <= self.blob_stats.total_logical && e.compress.objects() == e.size.count
            }
    }

    /// Whether one more object can be counted.
    pub open spec fn has_room(self, stored: nat, logical: nat) -> bool {
        &&& self.total < u64::MAX
        &&& self.total_stored_bytes + stored <= u64::MAX
        &&& self.tree_stats.total_logical + logical <= u64::MAX
        &&& self.blob_stats.total_logical + logical <= u64::MAX
    }
}

/// The bytes of a stored object behind the mark that escapes it.
pub open spec fn effective(stored: Seq<u8>) -> Seq<u8> {
    if begins(stored, seq![0xEDu8, 0xE0]) {
        stored.skip(2)
    } else {
        stored
    }
}

/// Whether an object belongs to the packed layer of a remote.
pub open spec fn is_packed(data: Seq<u8>) -> bool {
    data.len() >= 2 && data[0] == 0xED && 0xE1 <= data[1] <= 0xEF
}

/// The method by which an object is compressed.
pub open spec fn object_method(data: Seq<u8>) -> Method {
    if data.len() >= 2 {
        method_of(data[0], data[1])
    } else {
        Method::Raw
    }
}

/// What is counted of a file's content type.
pub open spec fn type_entry(m: Map<Seq<char>, BlobTypeEntry>, t: Seq<char>) -> BlobTypeEntry {
    if m.dom().contains(t) {
        m[t]
    } else {
        BlobTypeEntry { size: SizeStats::none(), compress: CompressCount::none() }
    }
}

/// `s` with one more object: what it is made of, and its content where it could be
/// decompressed. `tree_ok` tells whether a tree's content can be read as one.
pub open spec fn counted(
    s: StatsView,
    stored: Seq<u8>,
    logical: Option<Seq<u8>>,
    tags: TypeTags,
    tree_ok: bool,
) -> StatsView {
    let len = stored.len() as u64;
    let data = effective(stored);
    let m = object_method(data);
    let seen = StatsView {
        total: (s.total + 1) as u64,
        total_stored_bytes: (s.total_stored_bytes + len) as u64,
        ..s
    };
    if is_packed(data) {
        StatsView { unknown_count: (s.unknown_count + 1) as u64, ..seen }
    } else {
        let base = StatsView { compress_total: s.compress_total.with(m, len), ..seen };
        match logical {
            None => StatsView { unknown_count: (s.unknown_count + 1) as u64, ..base },
            Some(l) => {
                let n = l.len() as u64;
                if begins(l, tags.manifest@) {
                    StatsView {
                        chunk_manifest_count: (s.chunk_manifest_count + 1) as u64,
                        ..base
                    }
                } else if begins(l, tags.chunk@) {
                    StatsView { chunk_body_count: (s.chunk_body_count + 1) as u64, ..base }
                } else if begins(l, tags.tree@) {
                    if tree_ok {
                        StatsView {
                            tree_stats: s.tree_stats.with(len, n),
                            compress_tree: s.compress_tree.with(m, 0),
                            ..base
                        }
                    } else {
                        StatsView { unknown_count: (s.unknown_count + 1) as u64, ..base }
                    }
                } else {
                    let t = blob_type(l);
                    let e = type_entry(s.blob_type_stats, t);
                    StatsView {
                        blob_stats: s.blob_stats.with(len, n),
                        compress_blob: s.compress_blob.with(m, 0),
                        blob_type_stats: s.blob_type_stats.insert(
                            t,
                            BlobTypeEntry {
                                size: e.size.with(len, n),
                                compress: e.compress.with(m, 0),
                            },
                        ),
                        ..base
                    }
                }
            },
        }
    }
}

/// The length of the content, where it is known.
pub open spec fn content_len(logical: Option<Seq<u8>>) -> nat {
    match logical {
        Some(l) => l.len(),
        None => 0,
    }
}

/// The content behind a reference.
pub open spec fn content_view(logical: Option<&Vec<u8>>) -> Option<Seq<u8>> {
    match logical {
        Some(l) => Some(l@),
        None => None,
    }
}

impl Stats {
    pub open spec fn wf(self) -> bool {
        self.blob_type_stats.wf() && self@.adds_up()
    }

    pub fn new() -> (r: Stats)
        ensures
            r.wf(),
            r@ == StatsView::none(),
    {
        Stats {
            total: 0,
            tree_stats: SizeStats::new(),
            blob_stats: SizeStats::new(),
            chunk_manifest_count: 0,
            chunk_body_count: 0,
            unknown_count: 0,
            compress_total: CompressCount::new(),
            compress_tree: CompressCount::new(),
            compress_blob: CompressCount::new(),
            total_stored_bytes: 0,
            blob_type_stats: PathMap::new(),
        }
    }

    /// Counts an object that could not be read.
    pub fn count_unreadable(&mut self)
        requires
            old(self).wf(),
            old(self).total < u64::MAX,
        ensures
            final(self).wf(),
            final(self)@ == (StatsView {
                total: (old(self).total + 1) as u64,
                unknown_count: (old(self).unknown_count + 1) as u64,
                ..old(self)@
            }),
    {
        self.unknown_count = self.unknown_count + 1;
        self.total = self.total + 1;
    }

    /// Counts one file of a content type.
    fn add_type(&mut self, t: String, m: Method, stored: u64, logical: u64)
        requires
            old(self).blob_type_stats.wf(),
            ({
                let e = type_entry(old(self).blob_type_stats@, t@);
                e.size.has_room(stored, logical) && e.compress.objects() < u64::MAX
            }),
        ensures
            final(self).blob_type_stats.wf(),
            final(self)@ == (StatsView {
                blob_type_stats: old(self).blob_type_stats@.insert(
                    t@,
                    BlobTypeEntry {
                        size: type_entry(old(self).blob_type_stats@, t@).size.with(stored, logical),
                        compress: type_entry(old(self).blob_type_stats@, t@).compress.with(m, 0),
                    },
                ),
                ..old(self)@
            }),
    {
        let mut e = match self.blob_type_stats.get(t.as_str()) {
            Some(e) => *e,
            None => BlobTypeEntry { size: SizeStats::new(), compress: CompressCount::new() },
        };
        e.size.add(stored, logical);
        e.compress.add(m);
        self.blob_type_stats.insert(t, e);
    }
}

/// Counts one stored object, given its content where it could be decompressed, and
/// whether that can be read as a tree.
pub fn classify_object(
    stored: &Vec<u8>,
    logical: Option<&Vec<u8>>,
    tags: &TypeTags,
    tree_ok: bool,
    stats: &mut Stats,
)
    requires
        old(stats).wf(),
        old(stats)@.has_room(stored@.len(), content_len(content_view(logical))),
    ensures
        final(stats).wf(),
        final(stats)@ == counted(old(stats)@, stored@, content_view(logical), *tags, tree_ok),
{
    let len: u64 = stored.len() as u64;
    assert(stored@.skip(0) =~= stored@);
    let from: usize = if begins_with(stored, 0, &vec![0xEDu8, 0xE0]) {
        2
    } else {
        0
    };
    let ghost data = effective(stored@);
    assert(data =~= stored@.skip(from as int));
    stats.total_stored_bytes = stats.total_stored_bytes + len;
    stats.total = stats.total + 1;
    let two = stored.len() - from >= 2;
    if two && stored[from] == 0xED && stored[from + 1] >= 0xE1 && stored[from + 1] <= 0xEF {
        stats.unknown_count = stats.unknown_count + 1;
        return;
    }
    let m = if two {
        method(stored[from], stored[from + 1])
    } else {
        Method::Raw
    };
    stats.compress_total.add_sized(m, len);
    let l = match logical {
        None => {
            stats.unknown_count = stats.unknown_count + 1;
            return;
        },
        Some(l) => l,
    };
    let n: u64 = l.len() as u64;
    assert(l@.skip(0) =~= l@);
    if begins_with(l, 0, &tags.manifest) {
        stats.chunk_manifest_count = stats.chunk_manifest_count + 1;
    } else if begins_with(l, 0, &tags.chunk) {
        stats.chunk_body_count = stats.chunk_body_count + 1;
    } else if begins_with(l, 0, &tags.tree) {
        if tree_ok {
            stats.tree_stats.add(len, n);
            stats.compress_tree.add(m);
        } else {
            stats.unknown_count = stats.unknown_count + 1;
        }
    } else {
        let t = detect_blob_type(l);
        stats.blob_stats.add(len, n);
        stats.compress_blob.add(m);
        stats.add_type(t, m, len, n);
    }
}

} // verus!
