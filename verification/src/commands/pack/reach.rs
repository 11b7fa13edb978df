//! Which objects are in use on this clone.

use crate::collections::PathSet;
use crate::commands::transfer::HashNames;
use crate::object::{Content, ObjectHash, TreeEntry, TreeNode};
use crate::text::{self, join_path, replace_char, str_eq};
use crate::worktree::{self, logical_name, DiskEntry, DiskKind, DIR_STUB_NAME, STATE_DIR};
use vstd::prelude::*;

verus! {

/// The chunks of a file that is stored in parts.
pub struct Manifest {
    pub blob: ObjectHash,
    pub chunks: Vec<ObjectHash>,
}

/// The chunks of a blob; none where it is not stored in parts.
pub open spec fn chunks_of(ms: Seq<Manifest>, blob: ObjectHash) -> Set<ObjectHash>
    decreases ms.len(),
{
    if ms.len() == 0 {
        Set::empty()
    } else {
        chunks_of(ms.drop_last(), blob).union(
            if ms.last().blob == blob {
                ms.last().chunks@.to_set()
            } else {
                Set::empty()
            },
        )
    }
}

/// The objects that a tree uses: its own, and those of its entries. Of a directory
/// that is stubbed only the directory's own object counts.
pub open spec fn used(
    node: TreeNode,
    prefix: Seq<char>,
    stubbed: Set<Seq<char>>,
    ms: Seq<Manifest>,
) -> Set<ObjectHash>
    decreases node, 0nat,
{
    match node.content {
        Content::Entries(es) => used_upto(es@, es@.len(), prefix, stubbed, ms).insert(node.hash),
        _ => set![node.hash],
    }
}

/// The objects that the first `n` entries use.
pub open spec fn used_upto(
    es: Seq<TreeEntry>,
    n: nat,
    prefix: Seq<char>,
    stubbed: Set<Seq<char>>,
    ms: Seq<Manifest>,
) -> Set<ObjectHash>
    decreases es, n,
{
    if n == 0 || n > es.len() {
        Set::empty()
    } else {
        used_upto(es, (n - 1) as nat, prefix, stubbed, ms).union(
            match es[n - 1] {
                TreeEntry::Blob { hash, .. } => chunks_of(ms, hash).insert(hash),
                TreeEntry::Tree { name, node, .. } => if stubbed.contains(
                    text::joined(prefix, name@),
                ) {
                    set![node.hash]
                } else {
                    used(node, text::joined(prefix, name@), stubbed, ms)
                },
                TreeEntry::Symlink { .. } => Set::empty(),
            },
        )
    }
}

/// The first object on the walk that has not been looked for yet.
pub open spec fn unread(
    node: TreeNode,
    prefix: Seq<char>,
    stubbed: Set<Seq<char>>,
) -> Option<ObjectHash>
    decreases node, 0nat,
{
    match node.content {
        Content::Unread => Some(node.hash),
        Content::Missing => None,
        Content::Entries(es) => unread_upto(es@, es@.len(), prefix, stubbed),
    }
}

/// The first object that has not been looked for yet below the first `n` entries.
pub open spec fn unread_upto(
    es: Seq<TreeEntry>,
    n: nat,
    prefix: Seq<char>,
    stubbed: Set<Seq<char>>,
) -> Option<ObjectHash>
    decreases es, n,
{
    if n == 0 || n > es.len() {
        None
    } else {
        match unread_upto(es, (n - 1) as nat, prefix, stubbed) {
            Some(h) => Some(h),
            None => match es[n - 1] {
                TreeEntry::Tree { name, node, .. } => if stubbed.contains(
                    text::joined(prefix, name@),
                ) {
                    None
                } else {
                    unread(node, text::joined(prefix, name@), stubbed)
                },
                _ => None,
            },
        }
    }
}

proof fn lemma_unread_halts(
    es: Seq<TreeEntry>,
    n: nat,
    m: nat,
    prefix: Seq<char>,
    stubbed: Set<Seq<char>>,
)
    requires
        n <= m <= es.len(),
        unread_upto(es, n, prefix, stubbed) is Some,
    ensures
        unread_upto(es, m, prefix, stubbed) == unread_upto(es, n, prefix, stubbed),
    decreases m - n,
{
    if n < m {
        lemma_unread_halts(es, n, (m - 1) as nat, prefix, stubbed);
    }
}

fn insert_all(out: &mut HashNames, hs: &Vec<ObjectHash>)
    ensures
        final(out)@ == old(out)@.union(hs@.to_set()),
{
    let ghost start = out@;
    let mut i: usize = 0;
    assert(start.union(hs@.take(0).to_set()) =~= start);
    while i < hs.len()
        invariant
            i <= hs@.len(),
            out@ == start.union(hs@.take(i as int).to_set()),
        decreases hs.len() - i,
    {
        out.insert(hs[i]);
        proof {
            let now = hs@.take(i + 1);
            let before = hs@.take(i as int);
            assert forall|x: ObjectHash| now.contains(x) <==> before.contains(x) || x
                == hs@[i as int] by {
                if before.contains(x) {
                    let j = choose|j: int| 0 <= j < before.len() && before[j] == x;
                    assert(now[j] == x);
                }
                assert(now[i as int] == hs@[i as int]);
                if now.contains(x) && x != hs@[i as int] {
                    let j = choose|j: int| 0 <= j < now.len() && now[j] == x;
                    assert(before[j] == x);
                }
            }
            assert(out@ =~= start.union(now.to_set()));
        }
        i = i + 1;
    }
    assert(hs@.take(i as int) =~= hs@);
}

fn insert_chunks(out: &mut HashNames, ms: &Vec<Manifest>, blob: ObjectHash)
    ensures
        final(out)@ == old(out)@.union(chunks_of(ms@, blob)),
{
    let ghost start = out@;
    let mut i: usize = 0;
    proof {
        assert(ms@.take(0).len() == 0);
        assert(start.union(chunks_of(ms@.take(0), blob)) =~= start);
    }
    while i < ms.len()
        invariant
            i <= ms@.len(),
            out@ == start.union(chunks_of(ms@.take(i as int), blob)),
        decreases ms.len() - i,
    {
        let ghost before = out@;
        if ms[i].blob == blob {
            insert_all(out, &ms[i].chunks);
        }
        proof {
            let now = ms@.take(i + 1);
            assert(now.drop_last() =~= ms@.take(i as int));
            assert(now.last() == ms@[i as int]);
            assert(out@ =~= start.union(chunks_of(now, blob)));
        }
        i = i + 1;
    }
    assert(ms@.take(i as int) =~= ms@);
}

/// Adds the objects that a tree uses.
///
/// An object that is not there is counted and not walked. The walk stops at an
/// object that has not been looked for.
#[verifier::loop_isolation(false)]
pub fn collect_tree_hashes(
    node: &TreeNode,
    prefix: &str,
    stubbed: &PathSet,
    manifests: &Vec<Manifest>,
    out: &mut HashNames,
) -> (r: Result<(), ObjectHash>)
    ensures
        match r {
            Ok(()) => unread(*node, prefix@, stubbed@) is None && final(out)@ == old(out)@.union(
                used(*node, prefix@, stubbed@, manifests@),
            ),
            Err(h) => unread(*node, prefix@, stubbed@) == Some(h),
        },
    decreases node,
{
    let ghost start = out@;
    out.insert(node.hash);
    match &node.content {
        Content::Unread => Err(node.hash),
        Content::Missing => {
            assert(out@ =~= start.union(set![node.hash]));
            Ok(())
        },
        Content::Entries(es) => {
            let mut i: usize = 0;
            proof {
                assert(out@ =~= start.union(
                    used_upto(es@, 0, prefix@, stubbed@, manifests@).insert(node.hash),
                ));
            }
            while i < es.len()
                invariant
                    i <= es@.len(),
                    unread_upto(es@, i as nat, prefix@, stubbed@) is None,
                    out@ == start.union(
                        used_upto(es@, i as nat, prefix@, stubbed@, manifests@).insert(node.hash),
                    ),
                decreases es.len() - i,
            {
                let ghost before = used_upto(es@, i as nat, prefix@, stubbed@, manifests@);
                match &es[i] {
                    TreeEntry::Blob { hash, .. } => {
                        out.insert(*hash);
                        insert_chunks(out, manifests, *hash);
                    },
                    TreeEntry::Tree { name, node: child, .. } => {
                        let rel = join_path(prefix, name.as_str());
                        if stubbed.contains(rel.as_str()) {
                            out.insert(child.hash);
                        } else {
                            match collect_tree_hashes(
                                child,
                                rel.as_str(),
                                stubbed,
                                manifests,
                                out,
                            ) {
                                Ok(()) => {},
                                Err(h) => {
                                    proof {
                                        lemma_unread_halts(
                                            es@,
                                            (i + 1) as nat,
                                            es@.len(),
                                            prefix@,
                                            stubbed@,
                                        );
                                    }
                                    return Err(h);
                                },
                            }
                        }
                    },
                    TreeEntry::Symlink { .. } => {},
                }
                proof {
                    assert(out@ =~= start.union(
                        used_upto(es@, (i + 1) as nat, prefix@, stubbed@, manifests@).insert(
                            node.hash,
                        ),
                    ));
                }
                i = i + 1;
            }
            Ok(())
        },
    }
}

// ---------------------------------------------------------------------------
// Stubs on disk
// ---------------------------------------------------------------------------

/// The path that a stub file in the directory `prefix` stands for. The marker of a
/// directory stands for the directory itself.
pub open spec fn stubbed_path(prefix: Seq<char>, name: Seq<char>) -> Seq<char> {
    let logical = name.take(name.len() - DIR_STUB_NAME@.len());
    text::replaced(
        if logical.len() == 0 {
            prefix
        } else {
            text::joined(prefix, logical)
        },
        '\\',
        '/',
    )
}

/// Whether an entry is a regular file, itself or through a link.
pub open spec fn is_file(kind: DiskKind) -> bool {
    match kind {
        DiskKind::File { .. } => true,
        DiskKind::Symlink { to_file, .. } => to_file,
        _ => false,
    }
}

/// The paths that are stubbed below the directory `prefix`.
pub open spec fn stub_paths(es: Seq<DiskEntry>, n: nat, prefix: Seq<char>) -> Set<Seq<char>>
    decreases es, n,
{
    if n == 0 || n > es.len() {
        Set::empty()
    } else {
        let e = es[n - 1];
        stub_paths(es, (n - 1) as nat, prefix).union(
            if e.name@ == STATE_DIR@ {
                Set::empty()
            } else {
                match e.kind {
                    DiskKind::Dir(sub) => stub_paths(
                        sub@,
                        sub@.len(),
                        text::joined(prefix, e.name@),
                    ),
                    _ => if is_file(e.kind) && worktree::stub_name(e.name@) {
                        set![stubbed_path(prefix, e.name@)]
                    } else {
                        Set::empty()
                    },
                }
            },
        )
    }
}

fn collect_stub_paths(es: &Vec<DiskEntry>, prefix: &str, out: &mut PathSet)
    requires
        old(out).wf(),
    ensures
        final(out).wf(),
        final(out)@ == old(out)@.union(stub_paths(es@, es@.len(), prefix@)),
    decreases es,
{
    let ghost start = out@;
    let mut i: usize = 0;
    assert(start.union(stub_paths(es@, 0, prefix@)) =~= start);
    while i < es.len()
        invariant
            i <= es@.len(),
            out.wf(),
            out@ == start.union(stub_paths(es@, i as nat, prefix@)),
        decreases es.len() - i,
    {
        let e: &DiskEntry = &es[i];
        if !str_eq(e.name.as_str(), STATE_DIR) {
            match &e.kind {
                DiskKind::Dir(sub) => {
                    let rel = join_path(prefix, e.name.as_str());
                    assert(decreases_to!(es => es@[i as int]));
                    collect_stub_paths(sub, rel.as_str(), out);
                },
                DiskKind::File { .. } | DiskKind::Symlink { to_file: true, .. } => {
                    if let Some(logical) = logical_name(e.name.as_str()) {
                        proof {
                            reveal_strlit("");
                            assert(logical@.len() == 0 ==> logical@ =~= ""@);
                        }
                        let path = if str_eq(logical.as_str(), "") {
                            replace_char(prefix, '\\', '/')
                        } else {
                            replace_char(
                                join_path(prefix, logical.as_str()).as_str(),
                                '\\',
                                '/',
                            )
                        };
                        proof {
                            assert(path@ == stubbed_path(prefix@, e.name@));
                        }
                        out.insert(path);
                    }
                },
                _ => {},
            }
        }
        proof {
            assert(out@ =~= start.union(stub_paths(es@, (i + 1) as nat, prefix@)));
        }
        i = i + 1;
    }
}

/// The paths of the working tree that are stubbed. The entries of a directory that
/// a link leads to are given as those of a directory.
pub fn collect_stubbed_paths(work_dir: &Vec<DiskEntry>) -> (r: PathSet)
    ensures
        r.wf(),
        r@ == stub_paths(work_dir@, work_dir@.len(), seq![]),
{
    let mut out = PathSet::new();
    proof {
        reveal_strlit("");
        assert(""@ =~= Seq::<char>::empty());
    }
    collect_stub_paths(work_dir, "", &mut out);
    assert(out@ =~= stub_paths(work_dir@, work_dir@.len(), seq![]));
    out
}

/// What the two roots of a clone use together.
pub open spec fn hot_set(
    clone_root: Option<&TreeNode>,
    remote_root: Option<&TreeNode>,
    stubbed: Set<Seq<char>>,
    ms: Seq<Manifest>,
) -> Set<ObjectHash> {
    root_uses(clone_root, stubbed, ms).union(root_uses(remote_root, stubbed, ms))
}

/// What a root uses, where there is one.
pub open spec fn root_uses(root: Option<&TreeNode>, stubbed: Set<Seq<char>>, ms: Seq<Manifest>) -> Set<
    ObjectHash,
> {
    match root {
        Some(node) => used(*node, seq![], stubbed, ms),
        None => Set::empty(),
    }
}

/// The first object below a root that has not been looked for.
pub open spec fn root_unread(root: Option<&TreeNode>, stubbed: Set<Seq<char>>) -> Option<ObjectHash> {
    match root {
        Some(node) => unread(*node, seq![], stubbed),
        None => None,
    }
}

/// The objects that the roots of this clone use, apart from what is stubbed.
pub fn collect_hot_hashes(
    clone_root: Option<&TreeNode>,
    remote_root: Option<&TreeNode>,
    work_dir: &Vec<DiskEntry>,
    manifests: &Vec<Manifest>,
) -> (r: Result<HashNames, ObjectHash>)
    ensures
        ({
            let stubbed = stub_paths(work_dir@, work_dir@.len(), seq![]);
            match r {
                Ok(hot) => {
                    &&& root_unread(clone_root, stubbed) is None
                    &&& root_unread(remote_root, stubbed) is None
                    &&& hot@ == hot_set(clone_root, remote_root, stubbed, manifests@)
                },
                Err(h) => match root_unread(clone_root, stubbed) {
                    Some(first) => h == first,
                    None => root_unread(remote_root, stubbed) == Some(h),
                },
            }
        }),
{
    let stubbed = collect_stubbed_paths(work_dir);
    let mut hot = HashNames::new();
    proof {
        reveal_strlit("");
        assert(""@ =~= Seq::<char>::empty());
    }
    if let Some(node) = clone_root {
        match collect_tree_hashes(node, "", &stubbed, manifests, &mut hot) {
            Ok(()) => {},
            Err(h) => {
                return Err(h);
            },
        }
    }
    assert(hot@ =~= root_uses(clone_root, stubbed@, manifests@));
    if let Some(node) = remote_root {
        match collect_tree_hashes(node, "", &stubbed, manifests, &mut hot) {
            Ok(()) => {},
            Err(h) => {
                return Err(h);
            },
        }
    }
    assert(hot@ =~= hot_set(clone_root, remote_root, stubbed@, manifests@));
    Ok(hot)
}

} // verus!
