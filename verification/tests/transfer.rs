use omemfs::commands::transfer::{
    child_hashes, copy_hashes, resolve_concurrency, resolve_memory_budget, ByteBudget, HashNames,
    Next, ObjectContent, Walk, DEFAULT_TRANSFER_MEMORY_BUDGET,
};
use omemfs::error::Error;
use omemfs::object::{Content, ObjectHash, TreeEntry, TreeNode};
use std::collections::{BTreeMap, BTreeSet};

fn hash(n: u64) -> ObjectHash {
    ObjectHash { w0: n, w1: 0, w2: 0, w3: 0 }
}

#[test]
fn resolve_concurrency_env_overrides_default() {
    assert_eq!(resolve_concurrency(None, 16), 16);
    assert_eq!(resolve_concurrency(Some("4"), 16), 4);
}

#[test]
fn concurrency_is_never_zero() {
    assert!(resolve_concurrency(Some("0"), 16) >= 1);
    assert_eq!(resolve_concurrency(Some("many"), 16), 16);
}

#[test]
fn byte_budget_serialises_when_full() {
    // Capacity for exactly one 10-byte object: of eight takers, one at a time gets in.
    let mut budget = ByteBudget::new(10);
    let mut waiting = 8;
    let mut held = Vec::new();
    let mut max_overlap = 0;
    while waiting > 0 || !held.is_empty() {
        let mut admitted = 0;
        for _ in 0..waiting {
            if let Some(g) = budget.acquire(10) {
                held.push(g);
                admitted += 1;
            }
        }
        waiting -= admitted;
        max_overlap = max_overlap.max(held.len());
        if let Some(g) = held.pop() {
            budget.release(g);
        }
    }
    assert_eq!(
        max_overlap, 1,
        "a single-object budget must never admit two objects at once"
    );
}

#[test]
fn byte_budget_admits_oversized_object_alone() {
    let mut budget = ByteBudget::new(16);
    let g = budget.acquire(1_000_000).expect("an oversized object is admitted alone");
    // The budget is drained now.
    assert!(budget.acquire(8).is_none());
    budget.release(g);
    assert!(budget.acquire(8).is_some());
}

#[test]
fn byte_budget_packs_small_objects_concurrently() {
    let mut budget = ByteBudget::new(100);
    let g1 = budget.acquire(10).expect("there is room");
    let g2 = budget.acquire(10).expect("there is room for another");
    budget.release(g1);
    budget.release(g2);
}

#[test]
fn resolve_memory_budget_defaults_when_unset() {
    assert_eq!(resolve_memory_budget(None), DEFAULT_TRANSFER_MEMORY_BUDGET);
}

#[test]
fn memory_budget_is_read_from_its_setting() {
    assert_eq!(resolve_memory_budget(Some("1024")), 1024);
    assert_eq!(resolve_memory_budget(Some("lots")), DEFAULT_TRANSFER_MEMORY_BUDGET);
}

#[test]
fn child_hashes_of_leaf_is_empty() {
    assert!(child_hashes(&ObjectContent::Leaf(b"not a tree or manifest".to_vec())).is_empty());
}

#[test]
fn child_hashes_of_trees_and_manifests() {
    let es = vec![
        TreeEntry::Blob { name: "a".to_string(), hash: hash(1), size: 0, mtime: None, mode: None },
        TreeEntry::Symlink { name: "l".to_string(), target: "t".to_string(), mtime: None },
        TreeEntry::Tree {
            name: "d".to_string(),
            size: 0,
            mtime: None,
            blob_count: 0,
            node: TreeNode { hash: hash(2), content: Content::Unread },
        },
    ];
    assert_eq!(child_hashes(&ObjectContent::Tree(es)), vec![hash(1), hash(2)]);
    assert_eq!(
        child_hashes(&ObjectContent::Manifest(vec![hash(3), hash(4)])),
        vec![hash(3), hash(4)]
    );
    assert_eq!(copy_hashes(&vec![hash(5)]), vec![hash(5)]);
}

/// A graph of objects, what was written of it, and how often objects were visited.
struct GraphStore {
    objects: BTreeMap<u64, Vec<u64>>,
    written: BTreeSet<u64>,
    visits: usize,
}

/// Walks a graph, with up to `workers` objects in flight.
fn parallel_bfs(
    roots: &[u64],
    workers: usize,
    node_fn: &mut dyn FnMut(u64) -> Result<Vec<u64>, Error>,
) -> Result<(), Error> {
    let hashes: Vec<ObjectHash> = roots.iter().map(|n| hash(*n)).collect();
    let mut walk = Walk::new(&hashes);
    let mut flying: Vec<ObjectHash> = Vec::new();
    loop {
        let mut idle = true;
        while flying.len() < workers {
            match walk.next() {
                Next::Process(h) => {
                    flying.push(h);
                    idle = false;
                }
                Next::Wait | Next::Done => break,
            }
        }
        if idle && flying.is_empty() {
            return walk.outcome();
        }
        let h = flying.remove(0);
        match node_fn(h.w0) {
            Ok(children) => {
                let children: Vec<ObjectHash> = children.iter().map(|n| hash(*n)).collect();
                walk.complete(h, &children);
            }
            Err(e) => walk.record_error(h, e),
        }
    }
}

fn store(objects: &[(u64, &[u64])]) -> GraphStore {
    GraphStore {
        objects: objects.iter().map(|(n, c)| (*n, c.to_vec())).collect(),
        written: BTreeSet::new(),
        visits: 0,
    }
}

fn visit(s: &mut GraphStore, n: u64) -> Result<Vec<u64>, Error> {
    s.visits += 1;
    s.written.insert(n);
    Ok(s.objects[&n].clone())
}

#[test]
fn parallel_bfs_visits_every_node_once() {
    // root -> [a, b]; a -> [shared]; b -> [shared].
    let mut s = store(&[(1, &[2, 3]), (2, &[4]), (3, &[4]), (4, &[])]);
    parallel_bfs(&[1], 4, &mut |n| visit(&mut s, n)).unwrap();
    assert_eq!(s.written.len(), 4);
    assert_eq!(s.visits, 4);
}

#[test]
fn parallel_bfs_propagates_first_error() {
    let mut s = store(&[(1, &[2]), (2, &[])]);
    let err = parallel_bfs(&[1], 4, &mut |n| {
        if n == 2 {
            return Err(Error::Other("boom".into()));
        }
        visit(&mut s, n)
    })
    .unwrap_err();
    assert!(err.message().contains("boom"));
}

#[test]
fn parallel_bfs_multiple_independent_roots() {
    let mut s = store(&[(1, &[]), (2, &[])]);
    parallel_bfs(&[1, 2], 4, &mut |n| visit(&mut s, n)).unwrap();
    assert_eq!(s.written.len(), 2);
    assert_eq!(s.visits, 2);
}

#[test]
fn parallel_bfs_multiple_roots_dedup_shared_subtree() {
    let mut s = store(&[(1, &[3]), (2, &[3]), (3, &[])]);
    parallel_bfs(&[1, 2], 4, &mut |n| visit(&mut s, n)).unwrap();
    assert_eq!(s.written.len(), 3);
    assert_eq!(s.visits, 3);
}

#[test]
fn parallel_bfs_duplicate_roots_processed_once() {
    let mut s = store(&[(1, &[])]);
    parallel_bfs(&[1, 1], 4, &mut |n| visit(&mut s, n)).unwrap();
    assert_eq!(s.written.len(), 1);
    assert_eq!(
        s.visits, 1,
        "a duplicate root hash must be claimed and processed exactly once"
    );
}

#[test]
fn parallel_bfs_first_error_wins_across_multiple_roots() {
    let mut s = store(&[(1, &[]), (2, &[])]);
    let err = parallel_bfs(&[1, 2], 4, &mut |n| {
        if n == 2 {
            return Err(Error::Other("boom-multi-root".into()));
        }
        visit(&mut s, n)
    })
    .unwrap_err();
    assert!(err.message().contains("boom-multi-root"));
}

#[test]
fn only_what_the_roots_lead_to_is_walked() {
    let mut s = store(&[(1, &[2]), (2, &[1]), (3, &[4]), (4, &[])]);
    let mut seen = Vec::new();
    let walked = parallel_bfs(&[1], 4, &mut |n| {
        seen.push(n);
        visit(&mut s, n)
    });
    assert!(walked.is_ok());
    assert_eq!(seen, vec![1, 2]);
}

#[test]
fn names_are_kept_once() {
    let mut s = HashNames::new();
    assert!(s.insert(hash(1)));
    assert!(!s.insert(hash(1)));
    assert!(s.contains(hash(1)) && !s.contains(hash(2)));
}
