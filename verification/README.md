# omemfs

The decisions of a content-addressed file sync tool, verified with Verus.

A repository knows three states: the working tree on disk, the *clone root* (the tree of
the last sync) and the *remote root*. Both roots are trees of hash-addressed objects.
Commands compare the three states and decide what to write, upload, stub or report.

## Layout

- `src/` is the library. It does no I/O: it takes what was read and gives back what is to
  be done, and every function is verified.
  - `object`, `worktree`, `text`, `collections`, `error`: trees, snapshots of the disk,
    strings, maps and sets by path, errors.
  - `debug`: the layers of the log and nested timers.
  - `commands`: one module for each command, and `transfer` for walking objects with
    several workers and within a budget of memory.
- `tests/` runs the library on concrete values.
- `app/` is the ordinary Rust around it: files, terminals, threads, and the traits through
  which repositories and stores are reached.

## How trees and questions are handed in

A `TreeNode` is read as far as it is known: its content is a list of entries, missing, or
not read yet. A walk that meets a node that is not read yet stops and names it; the caller
reads the object and asks again. Questions to the user, or to Git, work alike: a function
takes the answers so far, and says what it asks next. Where work and decisions alternate,
a state takes up what was done and says what is done next.

## What is proved

Each function states exactly what it returns. Laws that span functions are proof functions
whose names begin with `law_`, among them:

- applying the diff of two trees to one gives the other, and a pull without conflicts is a
  three-way merge, whatever the threshold for stubs; a stub in the diff stands for a new
  directory with all that it holds. Left out are a file that turned into a directory, files
  of a directory that turned into a file, and names that are empty, doubled or have a slash
  on the way to a path (`commands/pull/leaves.rs`);
- every remote change is either applied or reported as a conflict (`commands/pull.rs`);
- a restore sees to every path of the tree, and a second one does nothing
  (`commands/restore.rs`); a clone and an expansion see to every path, too
  (`commands/clone/populate.rs`, `commands/expand.rs`). A stub that is left names the hash
  of the tree's directory;
- a scoped diff of a listing finds exactly what the diff of the whole finds in scope, in
  trees whose root has no directory without a name (`commands/ls/restrict.rs`);
- packing an index loses no object of the hot index and the deltas: each goes to the cold
  shards or is found again with the bytes that it had; and no entry that the cold shards
  lead to is lost (`commands/pack.rs`, `commands/pack/`);
- a walk over objects processes each of them once, and exactly those that can be reached
  (`commands/transfer.rs`), so a transfer leaves nothing behind (`commands/push.rs`);
- a push of some paths ends with the roots that its changes, one after the other, give,
  and writes nothing where there was nothing to remove (`commands/push/scoped.rs`);
- only content that the last sync holds is stubbed (`commands/stub.rs`), and a stub is
  expanded to what it stands for (`commands/expand.rs`).

What the library takes on trust from other crates and from the standard library stands in
items marked `external_body` or `assume_specification`; a comment above each says what is
claimed.
