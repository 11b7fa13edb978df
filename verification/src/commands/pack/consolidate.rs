//! Putting the contents of small pack files together into larger ones.

use super::index::{self, copy_bytes, put_all, EntryView, IndexEntry};
use crate::error::Error;
use crate::object::ObjectHash;
use crate::text::{self, decimal_of};
use vstd::prelude::*;
use vstd::string::*;

verus! {

/// A pack file below this many bytes is a candidate for consolidation.
pub const CONSOLIDATION_THRESHOLD: u64 = 2097152;

/// The bytes in front of the packed objects, in every pack file.
pub open spec fn magic() -> Seq<u8> {
    seq![0xEDu8, 0xE1u8]
}

// ---------------------------------------------------------------------------
// Candidates
// ---------------------------------------------------------------------------

/// The pack file that an entry refers to.
pub open spec fn pack_of(e: EntryView) -> Option<ObjectHash> {
    match e {
        EntryView::Pack { pack_hash, .. } => Some(pack_hash),
        _ => None,
    }
}

/// The pack files that entries refer to, each once, in the order of first mention.
pub open spec fn packs_in(es: Seq<EntryView>) -> Seq<ObjectHash>
    decreases es.len(),
{
    if es.len() == 0 {
        seq![]
    } else {
        let before = packs_in(es.drop_last());
        match pack_of(es.last()) {
            Some(p) => if before.contains(p) {
                before
            } else {
                before.push(p)
            },
            None => before,
        }
    }
}

/// Whether a list holds a hash.
pub fn holds(hs: &Vec<ObjectHash>, h: ObjectHash) -> (r: bool)
    ensures
        r == hs@.contains(h),
{
    let mut i: usize = 0;
    while i < hs.len()
        invariant
            i <= hs@.len(),
            forall|j: int| 0 <= j < i ==> hs@[j] != h,
        decreases hs.len() - i,
    {
        if hs[i] == h {
            assert(hs@[i as int] == h);
            return true;
        }
        i = i + 1;
    }
    false
}

/// The pack files that entries refer to, each once.
pub fn pack_hashes(entries: &Vec<IndexEntry>) -> (r: Vec<ObjectHash>)
    ensures
        r@ == packs_in(index::entry_views(entries@)),
{
    let mut out: Vec<ObjectHash> = Vec::new();
    let ghost all = index::entry_views(entries@);
    let mut i: usize = 0;
    while i < entries.len()
        invariant
            i <= entries@.len(),
            all == index::entry_views(entries@),
            out@ == packs_in(all.take(i as int)),
        decreases entries.len() - i,
    {
        proof {
            assert(all.take(i + 1).drop_last() =~= all.take(i as int));
            assert(all.take(i + 1).last() == entries@[i as int]@);
        }
        if let IndexEntry::Pack { pack_hash, .. } = &entries[i] {
            if !holds(&out, *pack_hash) {
                out.push(*pack_hash);
            }
        }
        i = i + 1;
    }
    assert(all.take(i as int) =~= all);
    out
}

/// The pack files, of those given with their sizes, that are small enough.
pub open spec fn small_packs(sizes: Seq<(ObjectHash, u64)>) -> Seq<ObjectHash> {
    sizes.filter(|s: (ObjectHash, u64)| s.1 < CONSOLIDATION_THRESHOLD).map_values(
        |s: (ObjectHash, u64)| s.0,
    )
}

/// The candidates for consolidation among the pack files given with their sizes.
pub fn candidates(sizes: &Vec<(ObjectHash, u64)>) -> (r: Vec<ObjectHash>)
    ensures
        r@ == small_packs(sizes@),
{
    let mut out: Vec<ObjectHash> = Vec::new();
    let mut i: usize = 0;
    proof {
        reveal(Seq::filter);
        assert(sizes@.take(0) =~= Seq::<(ObjectHash, u64)>::empty());
        assert(small_packs(sizes@.take(0)) =~= Seq::<ObjectHash>::empty());
    }
    while i < sizes.len()
        invariant
            i <= sizes@.len(),
            out@ == small_packs(sizes@.take(i as int)),
        decreases sizes.len() - i,
    {
        let s = sizes[i];
        let ghost before = out@;
        if s.1 < CONSOLIDATION_THRESHOLD {
            out.push(s.0);
        }
        proof {
            reveal(Seq::filter);
            let now = sizes@.take(i + 1);
            assert(now.drop_last() =~= sizes@.take(i as int));
            assert(now.last() == s);
            assert(out@ =~= small_packs(now));
        }
        i = i + 1;
    }
    assert(sizes@.take(i as int) =~= sizes@);
    out
}

// ---------------------------------------------------------------------------
// Regrouping
// ---------------------------------------------------------------------------

/// A pack file that was read whole.
pub struct PackBytes {
    pub hash: ObjectHash,
    pub bytes: Vec<u8>,
}

/// The contents of a candidate; `None` of a file that is no candidate.
pub open spec fn file_of(bufs: Seq<PackBytes>, h: ObjectHash, from: nat) -> Option<Seq<u8>>
    decreases bufs.len() - from,
{
    if from >= bufs.len() {
        None
    } else if bufs[from as int].hash == h {
        Some(bufs[from as int].bytes@)
    } else {
        file_of(bufs, h, from + 1)
    }
}

fn find_file<'a>(bufs: &'a Vec<PackBytes>, h: ObjectHash) -> (r: Option<&'a Vec<u8>>)
    ensures
        match r {
            Some(b) => file_of(bufs@, h, 0) == Some(b@),
            None => file_of(bufs@, h, 0) is None,
        },
{
    let mut i: usize = 0;
    while i < bufs.len()
        invariant
            i <= bufs@.len(),
            file_of(bufs@, h, 0) == file_of(bufs@, h, i as nat),
        decreases bufs.len() - i,
    {
        if bufs[i].hash == h {
            return Some(&bufs[i].bytes);
        }
        i = i + 1;
    }
    None
}

/// An object within a new pack file.
#[derive(Clone, Copy, Debug, PartialEq, Eq, Structural)]
pub struct Slice {
    pub hash: ObjectHash,
    pub offset: u32,
    pub length: u32,
}

/// The objects of a new pack file, and where each lies.
pub struct NewPack {
    /// The packed objects, without the magic.
    pub body: Vec<u8>,
    pub slices: Vec<Slice>,
}

/// The value of a new pack file.
#[verifier::ext_equal]
pub struct PackView {
    pub body: Seq<u8>,
    pub slices: Seq<Slice>,
}

impl View for NewPack {
    type V = PackView;

    open spec fn view(&self) -> PackView {
        PackView { body: self.body@, slices: self.slices@ }
    }
}

/// The values of new pack files.
pub open spec fn pack_views(ps: Seq<NewPack>) -> Seq<PackView> {
    ps.map_values(|p: NewPack| p@)
}

/// How far the regrouping has come.
#[verifier::ext_equal]
pub struct Regrouping {
    /// The entries that stay as they are.
    pub kept: Seq<EntryView>,
    /// The pack files that are full.
    pub done: Seq<PackView>,
    /// The pack file that is being filled.
    pub open: PackView,
}

/// The pack file without objects.
pub open spec fn empty_pack() -> PackView {
    PackView { body: seq![], slices: seq![] }
}

/// The bytes of an object in a candidate file: `length` of them at `offset` behind
/// the magic; `None` where the file ends before them.
pub open spec fn slice_of(file: Seq<u8>, offset: u32, length: u32) -> Option<Seq<u8>> {
    if 2 + offset + length > file.len() {
        None
    } else {
        Some(file.subrange(2 + offset as int, 2 + offset as int + length as int))
    }
}

/// One entry: that of a candidate moves to the open pack file, which is full when
/// it has reached `target` or `max`; any other stays. `None` where the entry points
/// out of its file.
pub open spec fn regroup_one(
    g: Regrouping,
    e: EntryView,
    bufs: Seq<PackBytes>,
    target: usize,
    max: usize,
) -> Option<Regrouping> {
    match e {
        EntryView::Pack { hash, pack_hash, offset, length } => match file_of(bufs, pack_hash, 0) {
            Some(file) => match slice_of(file, offset, length) {
                None => None,
                Some(bytes) => {
                    let open = PackView {
                        body: g.open.body + bytes,
                        slices: g.open.slices.push(
                            Slice { hash, offset: g.open.body.len() as u32, length },
                        ),
                    };
                    if open.body.len() >= target || open.body.len() >= max {
                        Some(
                            Regrouping { kept: g.kept, done: g.done.push(open), open: empty_pack() },
                        )
                    } else {
                        Some(Regrouping { kept: g.kept, done: g.done, open })
                    }
                },
            },
            None => Some(Regrouping { kept: g.kept.push(e), done: g.done, open: g.open }),
        },
        _ => Some(Regrouping { kept: g.kept.push(e), done: g.done, open: g.open }),
    }
}

/// The state before the first entry.
pub open spec fn regroup_start() -> Regrouping {
    Regrouping { kept: seq![], done: seq![], open: empty_pack() }
}

/// The entries in a row; `None` where one points out of its file.
pub open spec fn regroup_all(
    es: Seq<EntryView>,
    bufs: Seq<PackBytes>,
    target: usize,
    max: usize,
) -> Option<Regrouping>
    decreases es.len(),
{
    if es.len() == 0 {
        Some(regroup_start())
    } else {
        match regroup_all(es.drop_last(), bufs, target, max) {
            Some(g) => regroup_one(g, es.last(), bufs, target, max),
            None => None,
        }
    }
}

/// The new pack files: the full ones, and the one that is open unless it is empty.
pub open spec fn all_packs(g: Regrouping) -> Seq<PackView> {
    if g.open.slices.len() == 0 {
        g.done
    } else {
        g.done.push(g.open)
    }
}

/// How many bytes the candidates' entries refer to.
pub open spec fn moved_bytes(es: Seq<EntryView>, bufs: Seq<PackBytes>) -> nat
    decreases es.len(),
{
    if es.len() == 0 {
        0
    } else {
        moved_bytes(es.drop_last(), bufs) + match es.last() {
            EntryView::Pack { pack_hash, length, .. } => if file_of(bufs, pack_hash, 0) is Some {
                length as nat
            } else {
                0
            },
            _ => 0,
        }
    }
}

/// The complaint about an entry that points out of its file.
pub open spec fn range_error(e: EntryView, bufs: Seq<PackBytes>) -> Seq<char> {
    match e {
        EntryView::Pack { hash, pack_hash, offset, length } => match file_of(bufs, pack_hash, 0) {
            Some(file) => "pack "@ + pack_hash.hex() + " entry "@ + hash.hex() + " out of range: "@
                + text::decimal((2 + offset) as nat) + ".."@ + text::decimal(
                (2 + offset + length) as nat,
            ) + " exceeds "@ + text::decimal(file.len()) + " bytes"@,
            None => seq![],
        },
        _ => seq![],
    }
}

/// The entries and pack files after regrouping.
pub struct Regrouped {
    pub kept: Vec<IndexEntry>,
    pub packs: Vec<NewPack>,
    /// How many bytes were moved.
    pub bytes_in: u64,
}

proof fn lemma_moved_monotone(es: Seq<EntryView>, n: int, bufs: Seq<PackBytes>)
    requires
        0 <= n <= es.len(),
    ensures
        moved_bytes(es.take(n), bufs) <= moved_bytes(es, bufs),
    decreases es.len(),
{
    if n < es.len() {
        assert(es.drop_last().take(n) =~= es.take(n));
        lemma_moved_monotone(es.drop_last(), n, bufs);
    } else {
        assert(es.take(n) =~= es);
    }
}

fn range_message(hash: ObjectHash, pack_hash: ObjectHash, start: u64, end: u64, len: usize) -> (r:
    String)
    ensures
        r@ == "pack "@ + pack_hash.hex() + " entry "@ + hash.hex() + " out of range: "@
            + text::decimal(start as nat) + ".."@ + text::decimal(end as nat) + " exceeds "@
            + text::decimal(len as nat) + " bytes"@,
{
    let mut s: String = "pack ".to_owned();
    s.append(pack_hash.to_hex().as_str());
    s.append(" entry ");
    s.append(hash.to_hex().as_str());
    s.append(" out of range: ");
    s.append(decimal_of(start).as_str());
    s.append("..");
    s.append(decimal_of(end).as_str());
    s.append(" exceeds ");
    s.append(decimal_of(len as u64).as_str());
    s.append(" bytes");
    s
}

fn append_range(out: &mut Vec<u8>, from: &Vec<u8>, start: usize, end: usize)
    requires
        start <= end <= from@.len(),
    ensures
        final(out)@ == old(out)@ + from@.subrange(start as int, end as int),
{
    let ghost before = out@;
    let mut i: usize = start;
    assert(before + from@.subrange(start as int, start as int) =~= before);
    while i < end
        invariant
            start <= i <= end <= from@.len(),
            out@ == before + from@.subrange(start as int, i as int),
        decreases end - i,
    {
        out.push(from[i]);
        assert(from@.subrange(start as int, i + 1) =~= from@.subrange(start as int, i as int).push(
            from@[i as int],
        ));
        i = i + 1;
    }
}

/// The first entry that points out of its file.
pub open spec fn first_fault(es: Seq<EntryView>, bufs: Seq<PackBytes>, from: int) -> Option<int>
    decreases es.len() - from,
{
    if from < 0 || from >= es.len() {
        None
    } else if points_out(es[from], bufs) {
        Some(from)
    } else {
        first_fault(es, bufs, from + 1)
    }
}

/// Whether an entry points out of its file.
pub open spec fn points_out(e: EntryView, bufs: Seq<PackBytes>) -> bool {
    match e {
        EntryView::Pack { pack_hash, offset, length, .. } => match file_of(bufs, pack_hash, 0) {
            Some(file) => slice_of(file, offset, length) is None,
            None => false,
        },
        _ => false,
    }
}

/// Moves the objects of the candidate files into new pack files. `bufs` holds the
/// candidates. A pack file is closed when it has reached `target` or `max` bytes.
#[verifier::loop_isolation(false)]
#[verifier::rlimit(40)]
pub fn consolidate_pack_files(
    entries: &Vec<IndexEntry>,
    bufs: &Vec<PackBytes>,
    target: usize,
    max: usize,
) -> (r: Result<Regrouped, Error>)
    requires
        target <= u32::MAX,
        moved_bytes(index::entry_views(entries@), bufs@) <= u64::MAX,
    ensures
        match r {
            Ok(done) => {
                &&& first_fault(index::entry_views(entries@), bufs@, 0) is None
                &&& regroup_all(index::entry_views(entries@), bufs@, target, max) is Some
                &&& index::entry_views(done.kept@) == regroup_all(
                    index::entry_views(entries@),
                    bufs@,
                    target,
                    max,
                )->0.kept
                &&& pack_views(done.packs@) == all_packs(
                    regroup_all(index::entry_views(entries@), bufs@, target, max)->0,
                )
                &&& done.bytes_in == moved_bytes(index::entry_views(entries@), bufs@)
            },
            Err(e) => {
                &&& first_fault(index::entry_views(entries@), bufs@, 0) is Some
                &&& e matches Error::InvalidObject(s) && s@ == range_error(
                    index::entry_views(entries@)[first_fault(
                        index::entry_views(entries@),
                        bufs@,
                        0,
                    )->0],
                    bufs@,
                )
            },
        },
{
    let ghost all = index::entry_views(entries@);
    let mut kept: Vec<IndexEntry> = Vec::new();
    let mut done: Vec<NewPack> = Vec::new();
    let mut body: Vec<u8> = Vec::new();
    let mut slices: Vec<Slice> = Vec::new();
    let mut bytes_in: u64 = 0;
    let mut i: usize = 0;
    proof {
        assert(all.take(0) =~= Seq::<EntryView>::empty());
        assert(index::entry_views(kept@) =~= Seq::<EntryView>::empty());
        assert(pack_views(done@) =~= Seq::<PackView>::empty());
    }
    while i < entries.len()
        invariant
            i <= entries@.len(),
            body@.len() < target || body@.len() == 0,
            first_fault(all, bufs@, 0) == first_fault(all, bufs@, i as int),
            regroup_all(all.take(i as int), bufs@, target, max) == Some(
                Regrouping {
                    kept: index::entry_views(kept@),
                    done: pack_views(done@),
                    open: PackView { body: body@, slices: slices@ },
                },
            ),
            bytes_in == moved_bytes(all.take(i as int), bufs@),
        decreases entries.len() - i,
    {
        let ghost g = regroup_all(all.take(i as int), bufs@, target, max)->0;
        let e: &IndexEntry = &entries[i];
        proof {
            assert(all[i as int] == e@);
            assert(all.take(i + 1).drop_last() =~= all.take(i as int));
            assert(all.take(i + 1).last() == e@);
            lemma_moved_monotone(all, i + 1, bufs@);
        }
        let file: Option<&Vec<u8>> = match e {
            IndexEntry::Pack { pack_hash, .. } => find_file(bufs, *pack_hash),
            _ => None,
        };
        match (e, file) {
            (IndexEntry::Pack { hash, pack_hash, offset, length }, Some(buf)) => {
                let start: u64 = 2 + *offset as u64;
                let end: u64 = start + *length as u64;
                let len: usize = buf.len();
                if end > len as u64 {
                    return Err(
                        Error::InvalidObject(range_message(*hash, *pack_hash, start, end, len)),
                    );
                }
                let at: u32 = body.len() as u32;
                append_range(&mut body, buf, start as usize, end as usize);
                slices.push(Slice { hash: *hash, offset: at, length: *length });
                bytes_in = bytes_in + *length as u64;
                if body.len() >= target || body.len() >= max {
                    let ghost before = pack_views(done@);
                    done.push(NewPack { body, slices });
                    body = Vec::new();
                    slices = Vec::new();
                    assert(pack_views(done@) =~= before.push(
                        regroup_one(g, e@, bufs@, target, max)->0.done.last(),
                    ));
                }
                proof {
                    assert(regroup_one(g, e@, bufs@, target, max)->0 =~= Regrouping {
                        kept: index::entry_views(kept@),
                        done: pack_views(done@),
                        open: PackView { body: body@, slices: slices@ },
                    });
                }
            },
            _ => {
                let ghost before = index::entry_views(kept@);
                kept.push(e.copy());
                assert(index::entry_views(kept@) =~= before.push(e@));
            },
        }
        i = i + 1;
    }
    assert(all.take(i as int) =~= all);
    let ghost g = regroup_all(all, bufs@, target, max)->0;
    if slices.len() > 0 {
        let ghost before = pack_views(done@);
        done.push(NewPack { body, slices });
        assert(pack_views(done@) =~= before.push(g.open));
    }
    Ok(Regrouped { kept, packs: done, bytes_in })
}

// ---------------------------------------------------------------------------
// New pack files
// ---------------------------------------------------------------------------

/// The bytes of a new pack file.
pub open spec fn file_bytes(p: PackView) -> Seq<u8> {
    magic() + p.body
}

/// The bytes of a new pack file.
pub fn pack_file(p: &NewPack) -> (r: Vec<u8>)
    ensures
        r@ == file_bytes(p@),
{
    let mut out: Vec<u8> = vec![0xEDu8, 0xE1u8];
    let mut rest: Vec<u8> = copy_bytes(&p.body);
    assert(out@ =~= magic());
    out.append(&mut rest);
    out
}

/// The index entry of an object in a new pack file.
pub open spec fn slice_entry(s: Slice, pack: ObjectHash) -> EntryView {
    EntryView::Pack { hash: s.hash, pack_hash: pack, offset: s.offset, length: s.length }
}

/// The index entries of the objects of the first `n` new pack files.
pub open spec fn placed(packs: Seq<PackView>, hashes: Seq<ObjectHash>, n: nat) -> Seq<EntryView>
    decreases n,
{
    if n == 0 || n > packs.len() {
        seq![]
    } else {
        placed(packs, hashes, (n - 1) as nat) + packs[n - 1].slices.map_values(
            |s: Slice| slice_entry(s, hashes[n - 1]),
        )
    }
}

fn slice_entries(slices: &Vec<Slice>, pack: ObjectHash) -> (r: Vec<IndexEntry>)
    ensures
        index::entry_views(r@) == slices@.map_values(|s: Slice| slice_entry(s, pack)),
{
    let mut out: Vec<IndexEntry> = Vec::new();
    let ghost all = slices@.map_values(|s: Slice| slice_entry(s, pack));
    let mut i: usize = 0;
    assert(index::entry_views(out@) =~= all.take(0));
    while i < slices.len()
        invariant
            i <= slices@.len(),
            all == slices@.map_values(|s: Slice| slice_entry(s, pack)),
            index::entry_views(out@) == all.take(i as int),
        decreases slices.len() - i,
    {
        let ghost before = index::entry_views(out@);
        let s = slices[i];
        let e = IndexEntry::Pack {
            hash: s.hash,
            pack_hash: pack,
            offset: s.offset,
            length: s.length,
        };
        proof {
            assert(e@ == slice_entry(slices@[i as int], pack));
            assert(all[i as int] == e@);
        }
        out.push(e);
        proof {
            assert(index::entry_views(out@) =~= before.push(e@));
            assert(all.take(i + 1) =~= all.take(i as int).push(e@));
        }
        i = i + 1;
    }
    assert(all.take(i as int) =~= all);
    out
}

/// The index after consolidation, given the names of the new pack files: what was
/// kept, and the objects in their new places.
///
/// The order of the result is not part of the contract.
pub fn place_packs(kept: &Vec<IndexEntry>, packs: &Vec<NewPack>, hashes: &Vec<ObjectHash>) -> (r:
    Vec<IndexEntry>)
    requires
        packs@.len() == hashes@.len(),
    ensures
        index::distinct(index::entry_views(r@)),
        forall|k: ObjectHash| #[trigger]
            index::last_of(index::entry_views(r@), k) == index::last_of(
                index::entry_views(kept@) + placed(pack_views(packs@), hashes@, packs@.len()),
                k,
            ),
{
    let mut out: Vec<IndexEntry> = Vec::new();
    put_all(&mut out, kept);
    let ghost base = index::entry_views(kept@);
    let ghost ps = pack_views(packs@);
    let mut i: usize = 0;
    assert(base + placed(ps, hashes@, 0) =~= base);
    while i < packs.len()
        invariant
            i <= packs@.len(),
            packs@.len() == hashes@.len(),
            ps == pack_views(packs@),
            index::distinct(index::entry_views(out@)),
            forall|k: ObjectHash| #[trigger]
                index::last_of(index::entry_views(out@), k) == index::last_of(
                    base + placed(ps, hashes@, i as nat),
                    k,
                ),
        decreases packs.len() - i,
    {
        let more = slice_entries(&packs[i].slices, hashes[i]);
        put_all(&mut out, &more);
        proof {
            let add = index::entry_views(more@);
            let so_far = base + placed(ps, hashes@, i as nat);
            assert(ps[i as int] == packs@[i as int]@);
            assert(base + placed(ps, hashes@, (i + 1) as nat) =~= so_far + add);
            assert forall|k: ObjectHash| #[trigger]
                index::last_of(index::entry_views(out@), k) == index::last_of(
                    base + placed(ps, hashes@, (i + 1) as nat),
                    k,
                ) by {
                index::lemma_last_of_append(so_far, add, k);
            }
        }
        i = i + 1;
    }
    out
}

// ---------------------------------------------------------------------------
// Nothing is lost
// ---------------------------------------------------------------------------

/// The objects of the candidates with their bytes, in the order of the entries.
pub open spec fn wanted(es: Seq<EntryView>, bufs: Seq<PackBytes>) -> Seq<(ObjectHash, Seq<u8>)>
    decreases es.len(),
{
    if es.len() == 0 {
        seq![]
    } else {
        let before = wanted(es.drop_last(), bufs);
        match es.last() {
            EntryView::Pack { hash, pack_hash, offset, length } => match file_of(
                bufs,
                pack_hash,
                0,
            ) {
                Some(file) => match slice_of(file, offset, length) {
                    Some(bytes) => before.push((hash, bytes)),
                    None => before,
                },
                None => before,
            },
            _ => before,
        }
    }
}

/// The objects of a new pack file with the bytes that a reader finds at their places.
pub open spec fn contents(p: PackView) -> Seq<(ObjectHash, Seq<u8>)> {
    p.slices.map_values(
        |s: Slice| (s.hash, slice_of(file_bytes(p), s.offset, s.length)->0),
    )
}

/// The objects of all new pack files.
pub open spec fn all_contents(ps: Seq<PackView>) -> Seq<(ObjectHash, Seq<u8>)>
    decreases ps.len(),
{
    if ps.len() == 0 {
        seq![]
    } else {
        all_contents(ps.drop_last()) + contents(ps.last())
    }
}

/// Whether every object of a pack file lies within it.
pub open spec fn in_range(p: PackView) -> bool {
    forall|i: int|
        0 <= i < p.slices.len() ==> (#[trigger] p.slices[i]).offset + p.slices[i].length
            <= p.body.len()
}

/// Whether an entry stays as it is.
pub open spec fn is_kept(e: EntryView, bufs: Seq<PackBytes>) -> bool {
    match pack_of(e) {
        Some(p) => file_of(bufs, p, 0) is None,
        None => true,
    }
}

/// Consolidation keeps every object: read at its new place, each object of a
/// candidate has the bytes that it had at its old place, and every other entry stays
/// as it was.
pub proof fn law_consolidation_keeps_content(
    es: Seq<EntryView>,
    bufs: Seq<PackBytes>,
    target: usize,
    max: usize,
)
    requires
        target <= u32::MAX,
        regroup_all(es, bufs, target, max) is Some,
    ensures
        all_contents(all_packs(regroup_all(es, bufs, target, max)->0)) == wanted(es, bufs),
        regroup_all(es, bufs, target, max)->0.kept == es.filter(|e: EntryView| is_kept(e, bufs)),
        forall|i: int|
            #![trigger all_packs(regroup_all(es, bufs, target, max)->0)[i]]
            0 <= i < all_packs(regroup_all(es, bufs, target, max)->0).len() ==> in_range(
                all_packs(regroup_all(es, bufs, target, max)->0)[i],
            ),
{
    lemma_regroup_keeps(es, bufs, target, max);
    let g = regroup_all(es, bufs, target, max)->0;
    if g.open.slices.len() == 0 {
        assert(contents(g.open) =~= seq![]);
        assert(all_contents(g.done) + contents(g.open) =~= all_contents(g.done));
    } else {
        assert(g.done.push(g.open).drop_last() =~= g.done);
    }
}

proof fn lemma_regroup_keeps(es: Seq<EntryView>, bufs: Seq<PackBytes>, target: usize, max: usize)
    requires
        target <= u32::MAX,
        regroup_all(es, bufs, target, max) is Some,
    ensures
        ({
            let g = regroup_all(es, bufs, target, max)->0;
            &&& all_contents(g.done) + contents(g.open) == wanted(es, bufs)
            &&& g.kept == es.filter(|e: EntryView| is_kept(e, bufs))
            &&& in_range(g.open)
            &&& g.open.body.len() < target || g.open.body.len() == 0
            &&& forall|i: int| 0 <= i < g.done.len() ==> in_range(#[trigger] g.done[i])
        }),
    decreases es.len(),
{
    reveal(Seq::filter);
    if es.len() == 0 {
        assert(contents(empty_pack()) =~= seq![]);
        assert(all_contents(seq![]) + contents(empty_pack()) =~= seq![]);
    } else {
        lemma_regroup_keeps(es.drop_last(), bufs, target, max);
        let g = regroup_all(es.drop_last(), bufs, target, max)->0;
        let h = regroup_all(es, bufs, target, max)->0;
        let e = es.last();
        if let EntryView::Pack { hash, pack_hash, offset, length } = e {
            if file_of(bufs, pack_hash, 0) is Some {
                let bytes = slice_of(file_of(bufs, pack_hash, 0)->0, offset, length)->0;
                lemma_contents_grow(g.open, hash, bytes, length);
                let open = PackView {
                    body: g.open.body + bytes,
                    slices: g.open.slices.push(
                        Slice { hash, offset: g.open.body.len() as u32, length },
                    ),
                };
                if open.body.len() >= target || open.body.len() >= max {
                    assert(g.done.push(open).drop_last() =~= g.done);
                    assert(contents(empty_pack()) =~= seq![]);
                    assert(all_contents(h.done) + contents(h.open) =~= all_contents(g.done)
                        + contents(open));
                }
                assert(all_contents(g.done) + contents(open) =~= wanted(es, bufs));
            }
        }
    }
}

proof fn lemma_contents_grow(p: PackView, hash: ObjectHash, bytes: Seq<u8>, length: u32)
    requires
        in_range(p),
        p.body.len() <= u32::MAX,
        bytes.len() == length,
    ensures
        ({
            let s = Slice { hash, offset: p.body.len() as u32, length };
            let q = PackView { body: p.body + bytes, slices: p.slices.push(s) };
            in_range(q) && contents(q) == contents(p).push((hash, bytes))
        }),
{
    let s = Slice { hash, offset: p.body.len() as u32, length };
    let q = PackView { body: p.body + bytes, slices: p.slices.push(s) };
    assert forall|i: int| 0 <= i < q.slices.len() implies (#[trigger] q.slices[i]).offset
        + q.slices[i].length <= q.body.len() by {
        if i < p.slices.len() {
            assert(q.slices[i] == p.slices[i]);
        }
    }
    assert forall|i: int| 0 <= i < q.slices.len() implies #[trigger] contents(q)[i] == contents(
        p,
    ).push((hash, bytes))[i] by {
        if i < p.slices.len() {
            let t = p.slices[i];
            assert(q.slices[i] == t);
            assert(t.offset + t.length <= p.body.len());
            assert(slice_of(file_bytes(q), t.offset, t.length)->0 =~= slice_of(
                file_bytes(p),
                t.offset,
                t.length,
            )->0);
        } else {
            assert(slice_of(file_bytes(q), s.offset, s.length)->0 =~= bytes);
        }
    }
    assert(contents(q) =~= contents(p).push((hash, bytes)));
}

/// Whether `f` stands for what `e` stood for: the same object, in a new pack file, with
/// the bytes that it had in the old one.
pub open spec fn moved(
    e: EntryView,
    f: EntryView,
    bufs: Seq<PackBytes>,
    packs: Seq<PackView>,
    hashes: Seq<ObjectHash>,
) -> bool {
    match (e, f) {
        (
            EntryView::Pack { hash, pack_hash, offset, length },
            EntryView::Pack { hash: h, pack_hash: p, offset: o, length: l },
        ) => {
            &&& h == hash
            &&& file_of(bufs, pack_hash, 0) is Some
            &&& slice_of(file_of(bufs, pack_hash, 0)->0, offset, length) is Some
            &&& exists|i: int|
                0 <= i < packs.len() && p == hashes[i] && slice_of(
                    file_bytes(#[trigger] packs[i]),
                    o,
                    l,
                ) == slice_of(file_of(bufs, pack_hash, 0)->0, offset, length)
        },
        _ => false,
    }
}

/// Whether an entry asks for these bytes of this object.
pub open spec fn asks_for(e: EntryView, bufs: Seq<PackBytes>, want: (ObjectHash, Seq<u8>)) -> bool {
    match e {
        EntryView::Pack { hash, pack_hash, offset, length } => hash == want.0 && (file_of(
            bufs,
            pack_hash,
            0,
        ) matches Some(file) && slice_of(file, offset, length) == Some(want.1)),
        _ => false,
    }
}

proof fn lemma_wanted(es: Seq<EntryView>, bufs: Seq<PackBytes>, want: (ObjectHash, Seq<u8>))
    ensures
        wanted(es, bufs).contains(want) <==> exists|i: int|
            0 <= i < es.len() && asks_for(#[trigger] es[i], bufs, want),
    decreases es.len(),
{
    if es.len() > 0 {
        let es0 = es.drop_last();
        lemma_wanted(es0, bufs, want);
        let before = wanted(es0, bufs);
        let all = wanted(es, bufs);
        if before.contains(want) {
            let k = choose|k: int| 0 <= k < before.len() && before[k] == want;
            assert(all[k] == want);
            let i = choose|i: int| 0 <= i < es0.len() && asks_for(#[trigger] es0[i], bufs, want);
            assert(asks_for(es[i], bufs, want));
        }
        if asks_for(es.last(), bufs, want) {
            assert(all[before.len() as int] == want);
            assert(asks_for(es[es.len() - 1], bufs, want));
        }
        if all.contains(want) && !before.contains(want) {
            let k = choose|k: int| 0 <= k < all.len() && all[k] == want;
            if k < before.len() {
                assert(before[k] == want);
            }
            assert(asks_for(es[es.len() - 1], bufs, want));
        }
        if exists|i: int| 0 <= i < es.len() && asks_for(#[trigger] es[i], bufs, want) {
            let i = choose|i: int| 0 <= i < es.len() && asks_for(#[trigger] es[i], bufs, want);
            if i < es0.len() {
                assert(asks_for(es0[i], bufs, want));
            }
        }
    }
}

/// Whether slice `j` of pack `i` holds these bytes of this object.
pub open spec fn gives(ps: Seq<PackView>, i: int, j: int, want: (ObjectHash, Seq<u8>)) -> bool {
    &&& 0 <= i < ps.len()
    &&& 0 <= j < ps[i].slices.len()
    &&& ps[i].slices[j].hash == want.0
    &&& slice_of(file_bytes(ps[i]), ps[i].slices[j].offset, ps[i].slices[j].length)->0 == want.1
}

proof fn lemma_all_contents(ps: Seq<PackView>, want: (ObjectHash, Seq<u8>))
    ensures
        all_contents(ps).contains(want) <==> exists|i: int, j: int| gives(ps, i, j, want),
    decreases ps.len(),
{
    if ps.len() > 0 {
        let ps0 = ps.drop_last();
        let n = ps.len() - 1;
        lemma_all_contents(ps0, want);
        let before = all_contents(ps0);
        let here = contents(ps.last());
        let all = all_contents(ps);
        if before.contains(want) {
            let k = choose|k: int| 0 <= k < before.len() && before[k] == want;
            assert(all[k] == want);
            let (i, j) = choose|i: int, j: int| gives(ps0, i, j, want);
            assert(gives(ps, i, j, want));
        }
        if all.contains(want) && !before.contains(want) {
            let k = choose|k: int| 0 <= k < all.len() && all[k] == want;
            if k < before.len() {
                assert(before[k] == want);
            }
            assert(here[k - before.len()] == want);
            assert(gives(ps, n, k - before.len(), want));
        }
        if exists|i: int, j: int| gives(ps, i, j, want) {
            let (i, j) = choose|i: int, j: int| gives(ps, i, j, want);
            if i < n {
                assert(gives(ps0, i, j, want));
            } else {
                assert(here[j] == want);
                assert(all[before.len() + j] == want);
            }
        }
    }
}

/// Whether an entry is that of slice `j` of pack `i`.
pub open spec fn is_slice(
    packs: Seq<PackView>,
    hashes: Seq<ObjectHash>,
    i: int,
    j: int,
    f: EntryView,
) -> bool {
    0 <= i < packs.len() && 0 <= j < packs[i].slices.len() && f == slice_entry(
        packs[i].slices[j],
        hashes[i],
    )
}

proof fn lemma_placed(packs: Seq<PackView>, hashes: Seq<ObjectHash>, n: nat, f: EntryView)
    requires
        n <= packs.len(),
    ensures
        placed(packs, hashes, n).contains(f) <==> exists|i: int, j: int|
            i < n && #[trigger] is_slice(packs, hashes, i, j, f),
    decreases n,
{
    if n > 0 {
        let m = (n - 1) as nat;
        lemma_placed(packs, hashes, m, f);
        let before = placed(packs, hashes, m);
        let here = packs[m as int].slices.map_values(|s: Slice| slice_entry(s, hashes[m as int]));
        let all = placed(packs, hashes, n);
        assert(all == before + here);
        if before.contains(f) {
            let k = choose|k: int| 0 <= k < before.len() && before[k] == f;
            assert(all[k] == f);
            let (i, j) = choose|i: int, j: int|
                i < m && #[trigger] is_slice(packs, hashes, i, j, f);
            assert(i < n && is_slice(packs, hashes, i, j, f));
        }
        if all.contains(f) && !before.contains(f) {
            let k = choose|k: int| 0 <= k < all.len() && all[k] == f;
            if k < before.len() {
                assert(before[k] == f);
            }
            assert(here[k - before.len()] == f);
            assert(is_slice(packs, hashes, m as int, k - before.len(), f));
        }
        if exists|i: int, j: int| i < n && #[trigger] is_slice(packs, hashes, i, j, f) {
            let (i, j) = choose|i: int, j: int|
                i < n && #[trigger] is_slice(packs, hashes, i, j, f);
            if i == m {
                assert(here[j] == f);
                assert(all[before.len() + j] == f);
            }
        }
    }
}

proof fn lemma_no_fault(
    es: Seq<EntryView>,
    bufs: Seq<PackBytes>,
    target: usize,
    max: usize,
    e: EntryView,
)
    requires
        regroup_all(es, bufs, target, max) is Some,
        es.contains(e),
    ensures
        !points_out(e, bufs),
    decreases es.len(),
{
    let k = choose|k: int| 0 <= k < es.len() && es[k] == e;
    if k < es.len() - 1 {
        assert(es.drop_last()[k] == e);
        lemma_no_fault(es.drop_last(), bufs, target, max, e);
    }
}

/// An index whose packs were consolidated still finds every object: by the entry that
/// it had, or by one that leads to the same bytes in a new pack file.
pub proof fn law_consolidated_index_finds_all(
    es: Seq<EntryView>,
    bufs: Seq<PackBytes>,
    target: usize,
    max: usize,
    hashes: Seq<ObjectHash>,
    after: Seq<EntryView>,
    e: EntryView,
)
    requires
        target <= u32::MAX,
        index::distinct(es),
        es.contains(e),
        regroup_all(es, bufs, target, max) is Some,
        ({
            let g = regroup_all(es, bufs, target, max)->0;
            let packs = all_packs(g);
            &&& hashes.len() == packs.len()
            &&& index::last_of(after, e.named()) == index::last_of(
                g.kept + placed(packs, hashes, packs.len()),
                e.named(),
            )
        }),
    ensures
        ({
            let packs = all_packs(regroup_all(es, bufs, target, max)->0);
            match index::last_of(after, e.named()) {
                Some(f) => f == e || moved(e, f, bufs, packs, hashes),
                None => false,
            }
        }),
{
    let g = regroup_all(es, bufs, target, max)->0;
    let packs = all_packs(g);
    let k = e.named();
    let new = placed(packs, hashes, packs.len());
    law_consolidation_keeps_content(es, bufs, target, max);
    index::lemma_part_distinct(es, |x: EntryView| is_kept(x, bufs));
    index::lemma_last_of_append(g.kept, new, k);
    let at = choose|at: int| 0 <= at < es.len() && es[at] == e;
    if index::last_of(new, k) is Some {
        let f = index::last_of(new, k)->0;
        index::lemma_last_of_contained(new, k);
        lemma_placed(packs, hashes, packs.len(), f);
        let (i, j) = choose|i: int, j: int|
            i < packs.len() && #[trigger] is_slice(packs, hashes, i, j, f);
        let s = packs[i].slices[j];
        assert(in_range(packs[i]));
        assert(s.offset + s.length <= packs[i].body.len());
        let bytes = slice_of(file_bytes(packs[i]), s.offset, s.length)->0;
        assert(gives(packs, i, j, (k, bytes)));
        lemma_all_contents(packs, (k, bytes));
        lemma_wanted(es, bufs, (k, bytes));
        let w = choose|w: int| 0 <= w < es.len() && asks_for(#[trigger] es[w], bufs, (k, bytes));
        index::lemma_last_of_found(es, w);
        index::lemma_last_of_found(es, at);
        assert(es[w] == e);
        assert(slice_of(file_bytes(packs[i]), s.offset, s.length) == Some(bytes));
        assert(moved(e, f, bufs, packs, hashes));
    } else if is_kept(e, bufs) {
        assert(g.kept.contains(e));
        let q = choose|q: int| 0 <= q < g.kept.len() && g.kept[q] == e;
        index::lemma_last_of_found(g.kept, q);
    } else {
        lemma_no_fault(es, bufs, target, max, e);
        if let EntryView::Pack { hash, pack_hash, offset, length } = e {
            let bytes = slice_of(file_of(bufs, pack_hash, 0)->0, offset, length)->0;
            assert(asks_for(es[at], bufs, (k, bytes)));
            lemma_wanted(es, bufs, (k, bytes));
            lemma_all_contents(packs, (k, bytes));
            let (i, j) = choose|i: int, j: int| gives(packs, i, j, (k, bytes));
            let f = slice_entry(packs[i].slices[j], hashes[i]);
            assert(is_slice(packs, hashes, i, j, f));
            lemma_placed(packs, hashes, packs.len(), f);
            if index::last_of(new, k) is None {
                let z = choose|z: int| 0 <= z < new.len() && new[z] == f;
                lemma_found(new, k, z);
            }
        }
    }
}

proof fn lemma_found(es: Seq<EntryView>, k: ObjectHash, i: int)
    requires
        0 <= i < es.len(),
        es[i].named() == k,
    ensures
        index::last_of(es, k) is Some,
    decreases es.len(),
{
    if i < es.len() - 1 {
        assert(es.drop_last()[i] == es[i]);
        lemma_found(es.drop_last(), k, i);
    }
}

} // verus!
