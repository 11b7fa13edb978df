//! The object model: content hashes, directory trees and stubs.

use crate::text::{self, opt_copy, str_eq, string_of};
use vstd::prelude::*;
use vstd::string::*;

pub mod reached;

verus! {

// ---------------------------------------------------------------------------
// Hashes
// ---------------------------------------------------------------------------

/// The 256-bit name of an object, as four big-endian words.
#[derive(Clone, Copy, Debug, PartialEq, Eq, Structural)]
pub struct ObjectHash {
    pub w0: u64,
    pub w1: u64,
    pub w2: u64,
    pub w3: u64,
}

/// The lower-case hexadecimal digit of `d`.
pub open spec fn hex_char(d: int) -> char {
    if d < 10 {
        ('0' as u32 + d) as char
    } else {
        ('a' as u32 + d - 10) as char
    }
}

/// The last `n` hexadecimal digits of `w`.
pub open spec fn hex_digits(w: nat, n: nat) -> Seq<char>
    decreases n,
{
    if n == 0 {
        seq![]
    } else {
        hex_digits(w / 16, (n - 1) as nat).push(hex_char((w % 16) as int))
    }
}

/// The value of a hexadecimal digit of either case.
pub open spec fn hex_value(c: char) -> nat {
    if '0' <= c <= '9' {
        (c as u32 - '0' as u32) as nat
    } else if 'a' <= c <= 'f' {
        (c as u32 - 'a' as u32 + 10) as nat
    } else {
        (c as u32 - 'A' as u32 + 10) as nat
    }
}

/// The number that a row of hexadecimal digits writes.
pub open spec fn hex_number(s: Seq<char>) -> nat
    decreases s.len(),
{
    if s.len() == 0 {
        0
    } else {
        hex_number(s.drop_last()) * 16 + hex_value(s.last())
    }
}

/// Whether `s` is the hexadecimal form of a hash.
pub open spec fn is_hash_text(s: Seq<char>) -> bool {
    s.len() == 64 && forall|i: int| 0 <= i < 64 ==> crate::text::is_hex(#[trigger] s[i])
}

fn hex_char_of(d: u64) -> (r: char)
    requires
        d < 16,
    ensures
        r == hex_char(d as int),
{
    if d < 10 {
        let b: u8 = 48 + d as u8;
        b as char
    } else {
        let b: u8 = 87 + d as u8;
        b as char
    }
}

fn hex_word(w: u64, n: usize) -> (r: String)
    ensures
        r@ == hex_digits(w as nat, n as nat),
    decreases n,
{
    if n == 0 {
        let s = String::new();
        assert(s@ =~= hex_digits(w as nat, 0));
        s
    } else {
        let mut s = hex_word(w / 16, n - 1);
        s.push(hex_char_of(w % 16));
        s
    }
}

fn value_of_hex(c: char) -> (r: u64)
    requires
        crate::text::is_hex(c),
    ensures
        r == hex_value(c),
        r < 16,
{
    if '0' <= c && c <= '9' {
        (c as u32 - '0' as u32) as u64
    } else if 'a' <= c && c <= 'f' {
        (c as u32 - 'a' as u32 + 10) as u64
    } else {
        (c as u32 - 'A' as u32 + 10) as u64
    }
}

proof fn lemma_hex_bound(s: Seq<char>)
    requires
        s.len() <= 16,
        forall|i: int| 0 <= i < s.len() ==> crate::text::is_hex(#[trigger] s[i]),
    ensures
        hex_number(s) < vstd::arithmetic::power::pow(16, s.len()),
    decreases s.len(),
{
    reveal(vstd::arithmetic::power::pow);
    if s.len() > 0 {
        lemma_hex_bound(s.drop_last());
        assert(crate::text::is_hex(s[s.len() - 1]));
        let p = vstd::arithmetic::power::pow(16, (s.len() - 1) as nat);
        assert(vstd::arithmetic::power::pow(16, s.len()) == 16 * p);
    }
}

/// The word that sixteen hexadecimal digits write.
fn word_of(chars: &Vec<char>, from: usize) -> (r: u64)
    requires
        from + 16 <= chars@.len(),
        forall|i: int| 0 <= i < chars@.len() ==> crate::text::is_hex(#[trigger] chars@[i]),
    ensures
        r == hex_number(chars@.subrange(from as int, from + 16)),
{
    let mut n: u64 = 0;
    let mut i: usize = 0;
    assert(chars@.subrange(from as int, from as int) =~= seq![]);
    while i < 16
        invariant
            i <= 16,
            from + 16 <= chars.len(),
            forall|k: int| 0 <= k < chars@.len() ==> crate::text::is_hex(#[trigger] chars@[k]),
            n == hex_number(chars@.subrange(from as int, from + i)),
        decreases 16 - i,
    {
        let ghost upto = chars@.subrange(from as int, from + i + 1);
        assert(upto.drop_last() =~= chars@.subrange(from as int, from + i));
        let v: u64 = value_of_hex(chars[from + i]);
        assert(hex_number(upto) == n * 16 + v);
        proof {
            lemma_hex_bound(upto);
            assert(vstd::arithmetic::power::pow(16, (i + 1) as nat) <= 0x1_0000_0000_0000_0000)
                by {
                reveal_with_fuel(vstd::arithmetic::power::pow, 18);
            }
        }
        n = n * 16 + v;
        i = i + 1;
    }
    n
}

pub proof fn lemma_hex_round_trip(w: nat, n: nat)
    ensures
        hex_digits(w, n).len() == n,
        forall|i: int| 0 <= i < n ==> crate::text::is_hex(#[trigger] hex_digits(w, n)[i]),
        hex_number(hex_digits(w, n)) == w % (vstd::arithmetic::power::pow(16, n) as nat),
        vstd::arithmetic::power::pow(16, n) > 0,
    decreases n,
{
    reveal(vstd::arithmetic::power::pow);
    if n > 0 {
        lemma_hex_round_trip(w / 16, (n - 1) as nat);
        let p = vstd::arithmetic::power::pow(16, (n - 1) as nat);
        let q = vstd::arithmetic::power::pow(16, n);
        assert(q == 16 * p);
        let d = hex_digits(w, n);
        assert(d.drop_last() =~= hex_digits(w / 16, (n - 1) as nat));
        assert(hex_value(hex_char((w % 16) as int)) == w % 16);
        assert(((w / 16) % (p as nat)) * 16 + w % 16 == w % (q as nat)) by {
            vstd::arithmetic::div_mod::lemma_breakdown(w as int, 16, p);
        }
    }
}

impl ObjectHash {
    /// The hexadecimal form: 64 lower-case digits.
    pub open spec fn hex(self) -> Seq<char> {
        hex_digits(self.w0 as nat, 16) + hex_digits(self.w1 as nat, 16) + hex_digits(
            self.w2 as nat,
            16,
        ) + hex_digits(self.w3 as nat, 16)
    }

    /// The first eight hexadecimal digits.
    pub open spec fn short(self) -> Seq<char> {
        self.hex().take(8)
    }

    /// The hash that 64 hexadecimal digits write.
    pub open spec fn of_hex(s: Seq<char>) -> ObjectHash {
        ObjectHash {
            w0: hex_number(s.subrange(0, 16)) as u64,
            w1: hex_number(s.subrange(16, 32)) as u64,
            w2: hex_number(s.subrange(32, 48)) as u64,
            w3: hex_number(s.subrange(48, 64)) as u64,
        }
    }

    /// The hexadecimal form: 64 lower-case digits.
    pub fn to_hex(&self) -> (r: String)
        ensures
            r@ == self.hex(),
    {
        let mut s = hex_word(self.w0, 16);
        s.append(hex_word(self.w1, 16).as_str());
        s.append(hex_word(self.w2, 16).as_str());
        s.append(hex_word(self.w3, 16).as_str());
        s
    }

    /// The first eight hexadecimal digits.
    pub fn to_short(&self) -> (r: String)
        ensures
            r@ == self.short(),
    {
        let s = self.to_hex();
        let chars = crate::text::chars_of(s.as_str());
        proof {
            law_hash_text(*self);
            assert(self.hex().take(8) =~= self.hex().subrange(0, 8));
        }
        string_of(&chars, 0, 8)
    }

    /// Reads the hexadecimal form; `None` unless `s` is 64 hexadecimal digits.
    pub fn from_hex(s: &str) -> (r: Option<ObjectHash>)
        ensures
            r is Some <==> is_hash_text(s@),
            r is Some ==> r->0 == ObjectHash::of_hex(s@),
    {
        let chars = crate::text::chars_of(s);
        if chars.len() != 64 {
            return None;
        }
        let mut i: usize = 0;
        while i < 64
            invariant
                i <= 64,
                chars@ == s@,
                chars@.len() == 64,
                forall|k: int| 0 <= k < i ==> crate::text::is_hex(#[trigger] chars@[k]),
            decreases 64 - i,
        {
            if !crate::text::hex_digit(chars[i]) {
                return None;
            }
            i = i + 1;
        }
        Some(
            ObjectHash {
                w0: word_of(&chars, 0),
                w1: word_of(&chars, 16),
                w2: word_of(&chars, 32),
                w3: word_of(&chars, 48),
            },
        )
    }

    /// Whether every bit is zero: the mark of an absent hash.
    pub fn is_zero(&self) -> (r: bool)
        ensures
            r == (*self == (ObjectHash { w0: 0, w1: 0, w2: 0, w3: 0 })),
    {
        self.w0 == 0 && self.w1 == 0 && self.w2 == 0 && self.w3 == 0
    }
}

/// The hexadecimal form of a hash is 64 hexadecimal digits.
pub proof fn law_hash_text(h: ObjectHash)
    ensures
        is_hash_text(h.hex()),
{
    lemma_hex_round_trip(h.w0 as nat, 16);
    lemma_hex_round_trip(h.w1 as nat, 16);
    lemma_hex_round_trip(h.w2 as nat, 16);
    lemma_hex_round_trip(h.w3 as nat, 16);
    let s = h.hex();
    assert forall|i: int| 0 <= i < 64 implies crate::text::is_hex(#[trigger] s[i]) by {
        if i < 16 {
            assert(s[i] == hex_digits(h.w0 as nat, 16)[i]);
        } else if i < 32 {
            assert(s[i] == hex_digits(h.w1 as nat, 16)[i - 16]);
        } else if i < 48 {
            assert(s[i] == hex_digits(h.w2 as nat, 16)[i - 32]);
        } else {
            assert(s[i] == hex_digits(h.w3 as nat, 16)[i - 48]);
        }
    }
}

/// Reading the hexadecimal form of a hash gives the hash back.
pub proof fn law_hash_round_trip(h: ObjectHash)
    ensures
        ObjectHash::of_hex(h.hex()) == h,
{
    let s = h.hex();
    lemma_hex_round_trip(h.w0 as nat, 16);
    lemma_hex_round_trip(h.w1 as nat, 16);
    lemma_hex_round_trip(h.w2 as nat, 16);
    lemma_hex_round_trip(h.w3 as nat, 16);
    assert(vstd::arithmetic::power::pow(16, 16) == 0x1_0000_0000_0000_0000) by {
        reveal_with_fuel(vstd::arithmetic::power::pow, 18);
    }
    vstd::arithmetic::div_mod::lemma_small_mod(h.w0 as nat, 0x1_0000_0000_0000_0000);
    vstd::arithmetic::div_mod::lemma_small_mod(h.w1 as nat, 0x1_0000_0000_0000_0000);
    vstd::arithmetic::div_mod::lemma_small_mod(h.w2 as nat, 0x1_0000_0000_0000_0000);
    vstd::arithmetic::div_mod::lemma_small_mod(h.w3 as nat, 0x1_0000_0000_0000_0000);
    assert(s.subrange(0, 16) =~= hex_digits(h.w0 as nat, 16));
    assert(s.subrange(16, 32) =~= hex_digits(h.w1 as nat, 16));
    assert(s.subrange(32, 48) =~= hex_digits(h.w2 as nat, 16));
    assert(s.subrange(48, 64) =~= hex_digits(h.w3 as nat, 16));
}

// ---------------------------------------------------------------------------
// Trees
// ---------------------------------------------------------------------------

/// A point in time, in seconds and nanoseconds since the Unix epoch.
#[derive(Clone, Copy, Debug, PartialEq, Eq, Structural)]
pub struct Timestamp {
    pub secs: i64,
    pub nanos: u32,
}

/// One entry of a directory tree.
pub enum TreeEntry {
    Blob {
        name: String,
        hash: ObjectHash,
        size: u64,
        mtime: Option<Timestamp>,
        mode: Option<String>,
    },
    Tree { name: String, size: u64, mtime: Option<Timestamp>, blob_count: u64, node: TreeNode },
    Symlink { name: String, target: String, mtime: Option<Timestamp> },
}

/// What is known of a tree object's contents.
pub enum Content {
    /// The object has not been read yet.
    Unread,
    /// The object was looked for and is not there.
    Missing,
    /// The entries of the object.
    Entries(Vec<TreeEntry>),
}

/// A tree object, as far as it has been read.
pub struct TreeNode {
    pub hash: ObjectHash,
    pub content: Content,
}

/// Why a walk over a tree could not go on.
#[derive(Clone, Copy, Debug, PartialEq, Eq, Structural)]
pub enum Halt {
    /// This object has to be read first.
    Unread(ObjectHash),
    /// This object is not there.
    Missing(ObjectHash),
}

impl TreeEntry {
    pub open spec fn name_text(self) -> Seq<char> {
        match self {
            TreeEntry::Blob { name, .. } => name@,
            TreeEntry::Tree { name, .. } => name@,
            TreeEntry::Symlink { name, .. } => name@,
        }
    }

    /// The name of the entry within its directory.
    pub fn name(&self) -> (r: &String)
        ensures
            r@ == self.name_text(),
    {
        match self {
            TreeEntry::Blob { name, .. } => name,
            TreeEntry::Tree { name, .. } => name,
            TreeEntry::Symlink { name, .. } => name,
        }
    }

    /// A copy of a file or symlink entry.
    pub fn copy_leaf(&self) -> (r: TreeEntry)
        requires
            !(*self is Tree),
        ensures
            r == *self,
    {
        match self {
            TreeEntry::Blob { name, hash, size, mtime, mode } => TreeEntry::Blob {
                name: name.clone(),
                hash: *hash,
                size: *size,
                mtime: *mtime,
                mode: opt_copy(mode),
            },
            TreeEntry::Symlink { name, target, mtime } => TreeEntry::Symlink {
                name: name.clone(),
                target: target.clone(),
                mtime: *mtime,
            },
            TreeEntry::Tree { name, size, mtime, blob_count, node } => TreeEntry::Tree {
                name: name.clone(),
                size: *size,
                mtime: *mtime,
                blob_count: *blob_count,
                node: TreeNode { hash: node.hash, content: Content::Unread },
            },
        }
    }

    pub open spec fn hash_of(self) -> Option<ObjectHash> {
        match self {
            TreeEntry::Blob { hash, .. } => Some(hash),
            TreeEntry::Tree { node, .. } => Some(node.hash),
            TreeEntry::Symlink { .. } => None,
        }
    }

    /// The object that the entry refers to; a symlink refers to none.
    pub fn hash(&self) -> (r: Option<ObjectHash>)
        ensures
            r == self.hash_of(),
    {
        match self {
            TreeEntry::Blob { hash, .. } => Some(*hash),
            TreeEntry::Tree { node, .. } => Some(node.hash),
            TreeEntry::Symlink { .. } => None,
        }
    }
}

impl TreeNode {
    /// The entries of the object, or why they are not known.
    pub open spec fn listing(self) -> Result<Seq<TreeEntry>, Halt> {
        match self.content {
            Content::Unread => Err(Halt::Unread(self.hash)),
            Content::Missing => Err(Halt::Missing(self.hash)),
            Content::Entries(es) => Ok(es@),
        }
    }

    /// The entries of the object, or why they are not known.
    pub fn entries(&self) -> (r: Result<&Vec<TreeEntry>, Halt>)
        ensures
            match r {
                Ok(es) => self.content == Content::Entries(*es) && self.listing() == Ok::<
                    Seq<TreeEntry>,
                    Halt,
                >(es@),
                Err(h) => self.listing() == Err::<Seq<TreeEntry>, Halt>(h),
            },
    {
        match &self.content {
            Content::Unread => Err(Halt::Unread(self.hash)),
            Content::Missing => Err(Halt::Missing(self.hash)),
            Content::Entries(es) => Ok(es),
        }
    }
}

/// The index of the last entry with this name.
pub open spec fn last_named(es: Seq<TreeEntry>, name: Seq<char>) -> Option<int>
    decreases es.len(),
{
    if es.len() == 0 {
        None
    } else if es.last().name_text() == name {
        Some(es.len() - 1)
    } else {
        last_named(es.drop_last(), name)
    }
}

/// The index of the last entry with this name.
pub fn find_last(es: &Vec<TreeEntry>, name: &str) -> (r: Option<usize>)
    ensures
        match r {
            Some(i) => last_named(es@, name@) == Some(i as int) && i < es@.len(),
            None => last_named(es@, name@) == None::<int>,
        },
{
    let mut i: usize = es.len();
    assert(es@.take(i as int) =~= es@);
    while i > 0
        invariant
            i <= es@.len(),
            last_named(es@, name@) == last_named(es@.take(i as int), name@),
        decreases i,
    {
        assert(es@.take(i as int).drop_last() =~= es@.take(i - 1));
        if str_eq(es[i - 1].name().as_str(), name) {
            return Some(i - 1);
        }
        i = i - 1;
    }
    None
}

/// What [`last_named`] finds is an entry with that name; it finds one if there is one.
pub proof fn lemma_last_named(es: Seq<TreeEntry>, name: Seq<char>)
    ensures
        match last_named(es, name) {
            Some(i) => 0 <= i < es.len() && es[i].name_text() == name,
            None => forall|i: int|
                0 <= i < es.len() ==> (#[trigger] es[i]).name_text() != name,
        },
    decreases es.len(),
{
    if es.len() > 0 && es.last().name_text() != name {
        lemma_last_named(es.drop_last(), name);
        match last_named(es.drop_last(), name) {
            Some(i) => {
                assert(es[i] == es.drop_last()[i]);
            },
            None => {
                assert forall|i: int| 0 <= i < es.len() implies (
                #[trigger] es[i]).name_text() != name by {
                    if i < es.len() - 1 {
                        assert(es.drop_last()[i] == es[i]);
                    }
                }
            },
        }
    }
}

/// The last entry with this name.
pub open spec fn entry_named(es: Seq<TreeEntry>, name: Seq<char>) -> Option<TreeEntry> {
    match last_named(es, name) {
        Some(i) => Some(es[i]),
        None => None,
    }
}

/// The last entry with this name.
pub fn get_entry<'a>(es: &'a Vec<TreeEntry>, name: &str) -> (r: Option<&'a TreeEntry>)
    ensures
        match r {
            Some(e) => entry_named(es@, name@) == Some(*e),
            None => entry_named(es@, name@) == None::<TreeEntry>,
        },
{
    match find_last(es, name) {
        Some(i) => Some(&es[i]),
        None => None,
    }
}

/// The names of the entries.
pub open spec fn names(es: Seq<TreeEntry>) -> Seq<Seq<char>> {
    Seq::new(es.len(), |i: int| es[i].name_text())
}

/// The entry that the components from `from` on lead to.
pub open spec fn entry_at(node: TreeNode, comps: Seq<Seq<char>>, from: nat) -> Result<
    Option<TreeEntry>,
    Halt,
>
    decreases node,
{
    if from >= comps.len() {
        Ok(None)
    } else {
        match node.content {
            Content::Unread => Err(Halt::Unread(node.hash)),
            Content::Missing => Err(Halt::Missing(node.hash)),
            Content::Entries(es) => match last_named(es@, comps[from as int]) {
                None => Ok(None),
                Some(i) => if i < 0 || i >= es@.len() {
                    Ok(None)
                } else if from + 1 == comps.len() {
                    Ok(Some(es@[i]))
                } else {
                    match es@[i] {
                        TreeEntry::Tree { node: sub, .. } => entry_at(sub, comps, from + 1),
                        _ => Ok(None),
                    }
                },
            },
        }
    }
}

/// Follows the components from `from` on down the tree.
pub fn navigate_entry<'a>(node: &'a TreeNode, comps: &Vec<String>, from: usize) -> (r: Result<
    Option<&'a TreeEntry>,
    Halt,
>)
    ensures
        match r {
            Ok(Some(e)) => entry_at(*node, text::views(comps@), from as nat) == Ok::<
                Option<TreeEntry>,
                Halt,
            >(Some(*e)),
            Ok(None) => entry_at(*node, text::views(comps@), from as nat) == Ok::<
                Option<TreeEntry>,
                Halt,
            >(None),
            Err(h) => entry_at(*node, text::views(comps@), from as nat) == Err::<
                Option<TreeEntry>,
                Halt,
            >(h),
        },
    decreases node,
{
    if from >= comps.len() {
        return Ok(None);
    }
    let es = match node.entries() {
        Ok(es) => es,
        Err(h) => {
            return Err(h);
        },
    };
    assert(text::views(comps@)[from as int] == comps@[from as int]@);
    match find_last(es, comps[from].as_str()) {
        None => Ok(None),
        Some(i) => {
            if from + 1 == comps.len() {
                return Ok(Some(&es[i]));
            }
            match &es[i] {
                TreeEntry::Tree { node: sub, .. } => navigate_entry(sub, comps, from + 1),
                _ => Ok(None),
            }
        },
    }
}

/// The object that a path leads to, from the root `node`; the empty path leads
/// to the root itself.
pub open spec fn hash_at(node: TreeNode, comps: Seq<Seq<char>>) -> Result<Option<ObjectHash>, Halt> {
    if comps.len() == 0 {
        Ok(Some(node.hash))
    } else {
        match entry_at(node, comps, 0) {
            Err(h) => Err(h),
            Ok(None) => Ok(None),
            Ok(Some(e)) => Ok(e.hash_of()),
        }
    }
}

/// The object that a path leads to, from the root `node`.
pub fn navigate(node: &TreeNode, comps: &Vec<String>) -> (r: Result<Option<ObjectHash>, Halt>)
    ensures
        r == hash_at(*node, text::views(comps@)),
{
    assert(text::views(comps@).len() == comps@.len());
    if comps.len() == 0 {
        return Ok(Some(node.hash));
    }
    match navigate_entry(node, comps, 0) {
        Err(h) => Err(h),
        Ok(None) => Ok(None),
        Ok(Some(e)) => Ok(e.hash()),
    }
}

// ---------------------------------------------------------------------------
// Stubs
// ---------------------------------------------------------------------------

/// What a stub stands for.
#[derive(Clone, Copy, Debug, PartialEq, Eq, Structural)]
pub enum StubTargetType {
    Blob,
    Tree,
}

/// The local reference kept in place of content that is not on disk.
pub struct StubRecord {
    pub target_type: StubTargetType,
    pub hash: ObjectHash,
    pub size: u64,
    pub mtime: Option<Timestamp>,
    pub mode: Option<String>,
    pub blob_count: u64,
}

/// The record of a stubbed file.
pub fn blob_stub(
    hash: ObjectHash,
    size: u64,
    mtime: Option<Timestamp>,
    mode: &Option<String>,
) -> (r: StubRecord)
    ensures
        r == (StubRecord {
            target_type: StubTargetType::Blob,
            hash,
            size,
            mtime,
            mode: *mode,
            blob_count: 0,
        }),
{
    StubRecord {
        target_type: StubTargetType::Blob,
        hash,
        size,
        mtime,
        mode: opt_copy(mode),
        blob_count: 0,
    }
}

/// The record of a stubbed directory.
pub fn tree_stub(hash: ObjectHash, size: u64, mtime: Option<Timestamp>, blob_count: u64) -> (r:
    StubRecord)
    ensures
        r == (StubRecord {
            target_type: StubTargetType::Tree,
            hash,
            size,
            mtime,
            mode: None,
            blob_count,
        }),
{
    StubRecord {
        target_type: StubTargetType::Tree,
        hash,
        size,
        mtime,
        mode: None,
        blob_count,
    }
}

} // verus!
