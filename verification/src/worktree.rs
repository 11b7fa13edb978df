//! The working tree as it stands on disk, and the names that have a meaning in it.

use crate::text::{self, str_eq, strip_suffix};
use vstd::prelude::*;

pub mod found;

verus! {

/// What an entry of a directory is.
pub enum DiskKind {
    File { size: u64 },
    /// A symbolic link: whether it leads anywhere, and whether that is a regular file.
    Symlink { leads: bool, to_file: bool },
    Dir(Vec<DiskEntry>),
    Other,
}

/// One entry of a directory on disk.
pub struct DiskEntry {
    pub name: String,
    /// Whether the ignore rules exclude the entry.
    pub ignored: bool,
    /// Whether the name is reserved without having a known meaning.
    pub reserved: bool,
    pub kind: DiskKind,
}

/// The file that marks a directory as stubbed.
pub const DIR_STUB_NAME: &'static str = ".omemfs-stub";

/// The directory that holds the state of the repository.
pub const STATE_DIR: &'static str = ".omemfs";

/// Whether `name` is that of a stub file: the marker of a stubbed directory, or
/// the stub of a file.
pub open spec fn stub_name(name: Seq<char>) -> bool {
    text::has_suffix(name, DIR_STUB_NAME@)
}

/// Whether `name` is that of a stub file.
pub fn is_stub_filename(name: &str) -> (r: bool)
    ensures
        r == stub_name(name@),
{
    crate::text::ends_with(name, DIR_STUB_NAME)
}

/// The name of the file that a file stub stands for.
pub fn logical_name(name: &str) -> (r: Option<String>)
    ensures
        r is Some <==> stub_name(name@),
        r is Some ==> r->0@ == name@.take(name@.len() - DIR_STUB_NAME@.len()),
{
    strip_suffix(name, DIR_STUB_NAME)
}

/// The index of the first entry with this name.
pub open spec fn first_named(es: Seq<DiskEntry>, name: Seq<char>, from: nat) -> Option<nat>
    decreases es.len() - from,
{
    if from >= es.len() {
        None
    } else if es[from as int].name@ == name {
        Some(from)
    } else {
        first_named(es, name, from + 1)
    }
}

/// The entry that a path leads to, from component `from` on.
pub open spec fn at_path(es: Seq<DiskEntry>, comps: Seq<Seq<char>>, from: nat) -> Option<DiskEntry>
    decreases es,
{
    if from >= comps.len() {
        None
    } else {
        match first_named(es, comps[from as int], 0) {
            None => None,
            Some(i) => if i >= es.len() {
                None
            } else if from + 1 == comps.len() {
                Some(es[i as int])
            } else {
                match es[i as int].kind {
                    DiskKind::Dir(sub) => at_path(sub@, comps, from + 1),
                    _ => None,
                }
            },
        }
    }
}

/// The entry that a path leads to, from component `from` on.
pub fn find_path<'a>(es: &'a Vec<DiskEntry>, comps: &Vec<String>, from: usize) -> (r: Option<
    &'a DiskEntry,
>)
    ensures
        match r {
            Some(e) => at_path(es@, crate::text::views(comps@), from as nat) == Some(*e),
            None => at_path(es@, crate::text::views(comps@), from as nat) == None::<DiskEntry>,
        },
    decreases es,
{
    if from >= comps.len() {
        return None;
    }
    let ghost wanted = crate::text::views(comps@)[from as int];
    let mut i: usize = 0;
    while i < es.len()
        invariant
            from < comps.len(),
            i <= es@.len(),
            wanted == comps@[from as int]@,
            wanted == crate::text::views(comps@)[from as int],
            first_named(es@, wanted, 0) == first_named(es@, wanted, i as nat),
        decreases es.len() - i,
    {
        if str_eq(es[i].name.as_str(), comps[from].as_str()) {
            if from + 1 == comps.len() {
                return Some(&es[i]);
            }
            return match &es[i].kind {
                DiskKind::Dir(sub) => find_path(sub, comps, from + 1),
                _ => None,
            };
        }
        i = i + 1;
    }
    None
}

} // verus!
