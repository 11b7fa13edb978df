//! `cat`: what an object holds, named by a root, by a hash or by a prefix of one.

pub mod found;
pub mod pieces;

use crate::commands::pack::index::{EntryView, IndexEntry};
use crate::error::Error;
use crate::object::{self, navigate, Halt, ObjectHash, TreeNode};
use crate::text::{
    self, byte_count, chars_of, concat, concat3, decimal_of, hex_digit, join, path_components,
    starts_with, str_eq, string_of, strip_prefix,
};
use vstd::prelude::*;
use vstd::string::*;

verus! {

/// The fewest characters of a hash that can name an object.
pub const MIN_HASH_PREFIX_LEN: usize = 4;

pub struct CatOptions {
    pub work_dir: String,
    /// A root or a hash, with a path behind it or not, or `index-root`.
    pub target: String,
    /// Whether only the hash is printed.
    pub hash_only: bool,
    /// The remote to look at, `origin` by default.
    pub remote_name: String,
}

// ---------------------------------------------------------------------------
// Targets
// ---------------------------------------------------------------------------

/// A path behind a reference: none if it is empty.
pub open spec fn path_if_any(rest: Seq<char>) -> Option<Seq<char>> {
    if rest.len() == 0 {
        None
    } else {
        Some(rest)
    }
}

/// A target that begins with a name and a separator, split there.
pub open spec fn split_alias(target: Seq<char>, alias: Seq<char>) -> Option<
    (Seq<char>, Option<Seq<char>>),
> {
    if target == alias {
        Some((alias, None))
    } else if text::has_prefix(target, alias.push('/')) || text::has_prefix(
        target,
        alias.push(':'),
    ) {
        Some((alias, path_if_any(target.skip(alias.len() as int + 1))))
    } else {
        None
    }
}

/// The first colon or slash from `from` on, or the length.
pub open spec fn first_separator(s: Seq<char>, from: nat) -> nat
    decreases s.len() - from,
{
    if from >= s.len() {
        s.len()
    } else if s[from as int] == ':' || s[from as int] == '/' {
        from
    } else {
        first_separator(s, from + 1)
    }
}

/// Whether a text can name an object by a prefix of its hash.
pub open spec fn prefix_shaped(s: Seq<char>) -> bool {
    s.len() >= MIN_HASH_PREFIX_LEN && forall|i: int|
        0 <= i < s.len() ==> text::is_hex(#[trigger] s[i])
}

/// A target, split into what it refers to and a path. The first colon or slash
/// separates the two, if a root's name or a hash stands before it.
pub open spec fn target_parts(target: Seq<char>) -> (Seq<char>, Option<Seq<char>>) {
    match split_alias(target, "clone-root"@) {
        Some(p) => p,
        None => match split_alias(target, "remote-root"@) {
            Some(p) => p,
            None => {
                let at = first_separator(target, 0) as int;
                if at < target.len() && prefix_shaped(target.take(at)) {
                    (target.take(at), path_if_any(target.skip(at + 1)))
                } else {
                    (target, None)
                }
            },
        },
    }
}

/// What a split target says.
pub open spec fn parts_view(p: (String, Option<String>)) -> (Seq<char>, Option<Seq<char>>) {
    (p.0@, text::opt_view(p.1))
}

fn path_of(rest: String) -> (r: Option<String>)
    ensures
        text::opt_view(r) == path_if_any(rest@),
{
    if rest.as_str().is_empty() {
        None
    } else {
        Some(rest)
    }
}

fn alias_parts(target: &str, alias: &str) -> (r: Option<(String, Option<String>)>)
    ensures
        match r {
            Some(p) => split_alias(target@, alias@) == Some(parts_view(p)),
            None => split_alias(target@, alias@) is None,
        },
{
    if str_eq(target, alias) {
        return Some((alias.to_owned(), None));
    }
    let mut slashed: String = alias.to_owned();
    slashed.push('/');
    if let Some(rest) = strip_prefix(target, slashed.as_str()) {
        return Some((alias.to_owned(), path_of(rest)));
    }
    let mut with_colon: String = alias.to_owned();
    with_colon.push(':');
    if let Some(rest) = strip_prefix(target, with_colon.as_str()) {
        return Some((alias.to_owned(), path_of(rest)));
    }
    None
}

fn is_prefix_shaped(chars: &Vec<char>, n: usize) -> (r: bool)
    requires
        n <= chars@.len(),
    ensures
        r == prefix_shaped(chars@.take(n as int)),
{
    let ghost head = chars@.take(n as int);
    if n < MIN_HASH_PREFIX_LEN {
        return false;
    }
    let mut i: usize = 0;
    while i < n
        invariant
            i <= n <= chars@.len(),
            head == chars@.take(n as int),
            forall|k: int| 0 <= k < i ==> text::is_hex(#[trigger] head[k]),
        decreases n - i,
    {
        if !hex_digit(chars[i]) {
            assert(!text::is_hex(head[i as int]));
            return false;
        }
        i = i + 1;
    }
    true
}

/// Splits a target into what it refers to and a path. A colon and a slash separate
/// the two alike; the first one counts.
pub fn split_target(target: &str) -> (r: (String, Option<String>))
    ensures
        parts_view(r) == target_parts(target@),
{
    if let Some(p) = alias_parts(target, "clone-root") {
        return p;
    }
    if let Some(p) = alias_parts(target, "remote-root") {
        return p;
    }
    let chars = chars_of(target);
    let mut at: usize = 0;
    while at < chars.len() && chars[at] != ':' && chars[at] != '/'
        invariant
            at <= chars@.len(),
            chars@ == target@,
            first_separator(target@, 0) == first_separator(target@, at as nat),
        decreases chars.len() - at,
    {
        at = at + 1;
    }
    if at < chars.len() && is_prefix_shaped(&chars, at) {
        let head = string_of(&chars, 0, at);
        let rest = string_of(&chars, at + 1, chars.len());
        assert(head@ =~= target@.take(at as int));
        assert(rest@ =~= target@.skip(at + 1));
        return (head, path_of(rest));
    }
    (target.to_owned(), None)
}

/// The two separators mean the same: a hash with a path behind it is split alike by a
/// colon and by a slash.
pub proof fn law_separators_agree(hash: Seq<char>, path: Seq<char>)
    requires
        prefix_shaped(hash),
    ensures
        target_parts(hash.push(':') + path) == (hash, path_if_any(path)),
        target_parts(hash.push('/') + path) == (hash, path_if_any(path)),
{
    lemma_hash_target(hash, path, ':');
    lemma_hash_target(hash, path, '/');
}

proof fn lemma_hash_target(hash: Seq<char>, path: Seq<char>, sep: char)
    requires
        prefix_shaped(hash),
        sep == ':' || sep == '/',
    ensures
        target_parts(hash.push(sep) + path) == (hash, path_if_any(path)),
{
    let t = hash.push(sep) + path;
    let n = hash.len() as int;
    reveal_strlit("clone-root");
    reveal_strlit("remote-root");
    assert(t[1] == hash[1]);
    assert(text::is_hex(hash[1]));
    assert(text::is_hex(hash[0]));
    assert(t[0] == hash[0]);
    assert("clone-root"@[1] == 'l');
    assert("remote-root"@[0] == 'r');
    let c1 = "clone-root"@.push('/');
    let c2 = "clone-root"@.push(':');
    assert(c1[1] == 'l' && c2[1] == 'l');
    assert(!text::has_prefix(t, c1)) by {
        if text::has_prefix(t, c1) {
            assert(t.take(c1.len() as int)[1] == t[1]);
        }
    }
    assert(!text::has_prefix(t, c2)) by {
        if text::has_prefix(t, c2) {
            assert(t.take(c2.len() as int)[1] == t[1]);
        }
    }
    let r1 = "remote-root"@.push('/');
    let r2 = "remote-root"@.push(':');
    assert(r1[0] == 'r' && r2[0] == 'r');
    assert(!text::has_prefix(t, r1)) by {
        if text::has_prefix(t, r1) {
            assert(t.take(r1.len() as int)[0] == t[0]);
        }
    }
    assert(!text::has_prefix(t, r2)) by {
        if text::has_prefix(t, r2) {
            assert(t.take(r2.len() as int)[0] == t[0]);
        }
    }
    lemma_first_separator(t, hash.len(), 0);
    assert(t.take(n) =~= hash);
    assert(t.skip(n + 1) =~= path);
}

proof fn lemma_first_separator(s: Seq<char>, at: nat, from: nat)
    requires
        from <= at < s.len(),
        s[at as int] == ':' || s[at as int] == '/',
        forall|i: int| from <= i < at ==> text::is_hex(#[trigger] s[i]),
    ensures
        first_separator(s, from) == at,
    decreases at - from,
{
    if from < at {
        assert(text::is_hex(s[from as int]));
        lemma_first_separator(s, at, from + 1);
    }
}

// ---------------------------------------------------------------------------
// Hashes
// ---------------------------------------------------------------------------

/// The texts that begin with `s` and are hashes.
pub open spec fn matching(hexes: Seq<Seq<char>>, s: Seq<char>) -> Seq<Seq<char>>
    decreases hexes.len(),
{
    if hexes.len() == 0 {
        seq![]
    } else {
        let prev = matching(hexes.drop_last(), s);
        if text::has_prefix(hexes.last(), s) && object::is_hash_text(hexes.last()) {
            prev.push(hexes.last())
        } else {
            prev
        }
    }
}

/// What a full hash, or the beginning of one, names in a store. `full_exists` tells
/// whether the object of a full hash is there.
pub open spec fn resolved(s: Seq<char>, full_exists: bool, hexes: Seq<Seq<char>>) -> Result<
    ObjectHash,
    HashError,
> {
    if text::byte_len(s) == 64 {
        if object::is_hash_text(s) && full_exists {
            Ok(ObjectHash::of_hex(s))
        } else {
            Err(HashError::NotFound)
        }
    } else if text::byte_len(s) < MIN_HASH_PREFIX_LEN {
        Err(HashError::TooShort)
    } else {
        let found = matching(hexes, s);
        if found.len() == 0 {
            Err(HashError::NotFound)
        } else if found.len() == 1 {
            Ok(ObjectHash::of_hex(found[0]))
        } else {
            Err(HashError::Ambiguous)
        }
    }
}

/// Why a hash names nothing.
#[derive(Clone, Copy, Debug, PartialEq, Eq, Structural)]
pub enum HashError {
    NotFound,
    TooShort,
    Ambiguous,
}

/// What a full hash, or a prefix that only one object has, names in the local store.
/// `hexes` are the hashes there, and `full_exists` tells whether the object of a full
/// hash is there.
pub fn resolve_hash(s: &str, full_exists: bool, hexes: &Vec<String>) -> (r: Result<
    ObjectHash,
    HashError,
>)
    ensures
        r == resolved(s@, full_exists, text::views(hexes@)),
{
    let n: usize = byte_count(s);
    if n == 64 {
        return match ObjectHash::from_hex(s) {
            Some(h) => if full_exists {
                Ok(h)
            } else {
                Err(HashError::NotFound)
            },
            None => Err(HashError::NotFound),
        };
    }
    if n < MIN_HASH_PREFIX_LEN {
        return Err(HashError::TooShort);
    }
    let ghost all = text::views(hexes@);
    let mut found: Vec<ObjectHash> = Vec::new();
    let mut i: usize = 0;
    assert(all.take(0) =~= seq![]);
    while i < hexes.len()
        invariant
            i <= hexes@.len(),
            all == text::views(hexes@),
            found@.len() == matching(all.take(i as int), s@).len(),
            forall|k: int|
                0 <= k < found@.len() ==> #[trigger] found@[k] == ObjectHash::of_hex(
                    matching(all.take(i as int), s@)[k],
                ),
        decreases hexes.len() - i,
    {
        assert(all.take(i + 1).drop_last() =~= all.take(i as int));
        assert(all[i as int] == hexes@[i as int]@);
        if starts_with(hexes[i].as_str(), s) {
            if let Some(h) = ObjectHash::from_hex(hexes[i].as_str()) {
                found.push(h);
            }
        }
        i = i + 1;
    }
    assert(all.take(all.len() as int) =~= all);
    if found.len() == 0 {
        Err(HashError::NotFound)
    } else if found.len() == 1 {
        Ok(found[0])
    } else {
        Err(HashError::Ambiguous)
    }
}

/// The message for a prefix that is too short.
pub open spec fn too_short_text() -> Seq<char> {
    "hash prefix must be at least 4 characters"@
}

impl HashError {
    /// The error to report for the text `s`.
    pub fn report(&self, s: &str) -> (r: Error)
        ensures
            match *self {
                HashError::NotFound => r matches Error::ObjectNotFound(t) && t@ == s@,
                HashError::TooShort => r matches Error::Other(t) && t@ == too_short_text(),
                HashError::Ambiguous => r matches Error::AmbiguousHash(t) && t@ == s@,
            },
    {
        match self {
            HashError::NotFound => Error::ObjectNotFound(s.to_owned()),
            HashError::TooShort => Error::Other(
                "hash prefix must be at least 4 characters".to_owned(),
            ),
            HashError::Ambiguous => Error::AmbiguousHash(s.to_owned()),
        }
    }
}

/// Reads a full hash of an object of the packed layer.
pub fn parse_hash_for_remote(s: &str) -> (r: Result<ObjectHash, Error>)
    ensures
        match r {
            Ok(h) => object::is_hash_text(s@) && text::byte_len(s@) == 64 && h
                == ObjectHash::of_hex(s@),
            Err(e) => if text::byte_len(s@) != 64 {
                e.is_other("pack-layer lookup requires a full 64-character hash"@)
            } else {
                !object::is_hash_text(s@) && e.is_other("invalid hash: "@ + s@)
            },
        },
{
    if byte_count(s) != 64 {
        return Err(Error::Other("pack-layer lookup requires a full 64-character hash".to_owned()));
    }
    match ObjectHash::from_hex(s) {
        Some(h) => Ok(h),
        None => Err(Error::Other(concat("invalid hash: ", s))),
    }
}

/// The first `n` hashes in full.
pub open spec fn hexes_of(hs: Seq<ObjectHash>, n: nat) -> Seq<Seq<char>> {
    Seq::new(n, |i: int| hs[i].hex())
}

/// The message for a prefix that several objects of a remote have: it shows four of
/// them.
pub open spec fn ambiguous_text(prefix: Seq<char>, hs: Seq<ObjectHash>) -> Seq<char> {
    let shown: nat = if hs.len() < 4 {
        hs.len()
    } else {
        4
    };
    "ambiguous hash prefix '"@ + prefix + "' matches "@ + text::decimal(hs.len()) + " objects: "@
        + text::join_with(hexes_of(hs, shown), ", "@) + if hs.len() > 4 {
        ", ..."@
    } else {
        ""@
    }
}

/// What a prefix names on a remote, given the objects whose hashes begin with it.
pub fn resolve_prefix_on_remote(prefix: &str, found: &Vec<ObjectHash>) -> (r: Result<
    ObjectHash,
    Error,
>)
    ensures
        match r {
            Ok(h) => text::byte_len(prefix@) >= MIN_HASH_PREFIX_LEN && found@.len() == 1 && h
                == found@[0],
            Err(e) => if text::byte_len(prefix@) < MIN_HASH_PREFIX_LEN {
                e.is_other(too_short_text())
            } else if found@.len() == 0 {
                e matches Error::ObjectNotFound(t) && t@ == prefix@
            } else {
                found@.len() > 1 && e.is_other(ambiguous_text(prefix@, found@))
            },
        },
{
    if byte_count(prefix) < MIN_HASH_PREFIX_LEN {
        return Err(HashError::TooShort.report(prefix));
    }
    if found.len() == 0 {
        return Err(HashError::NotFound.report(prefix));
    }
    if found.len() == 1 {
        return Ok(found[0]);
    }
    let shown: usize = if found.len() < 4 {
        found.len()
    } else {
        4
    };
    let mut sample: Vec<String> = Vec::new();
    let mut i: usize = 0;
    while i < shown
        invariant
            i <= shown <= found@.len(),
            text::views(sample@) =~= hexes_of(found@, i as nat),
        decreases shown - i,
    {
        let ghost before = text::views(sample@);
        let hex = found[i].to_hex();
        let ghost v = hex@;
        sample.push(hex);
        assert(text::views(sample@) =~= before.push(v));
        i = i + 1;
    }
    let mut s: String = "ambiguous hash prefix '".to_owned();
    s.append(prefix);
    s.append("' matches ");
    s.append(decimal_of(found.len() as u64).as_str());
    s.append(" objects: ");
    s.append(join(&sample, ", ").as_str());
    s.append(
        if found.len() > shown {
            ", ..."
        } else {
            ""
        },
    );
    Err(Error::Other(s))
}

// ---------------------------------------------------------------------------
// Steps
// ---------------------------------------------------------------------------

/// The message for what a hash alone cannot be printed of.
pub open spec fn no_hash_text() -> Seq<char> {
    "--hash is not supported for pack-layer objects"@
}

/// Where to begin.
pub enum CatStart {
    Fail(Error),
    /// Show the index root of the remote.
    IndexRoot,
    /// Begin at the clone root.
    CloneRoot(Option<String>),
    /// Begin at the root of the remote.
    RemoteRoot(Option<String>),
    /// Find an object by its hash.
    ByHash(String, Option<String>),
}

/// Decides where to begin.
pub fn run(opts: &CatOptions) -> (r: CatStart)
    ensures
        match r {
            CatStart::Fail(e) => opts.target@ == "index-root"@ && opts.hash_only && e.is_other(
                no_hash_text(),
            ),
            CatStart::IndexRoot => opts.target@ == "index-root"@ && !opts.hash_only,
            CatStart::CloneRoot(p) => opts.target@ != "index-root"@ && target_parts(opts.target@)
                == ("clone-root"@, text::opt_view(p)),
            CatStart::RemoteRoot(p) => opts.target@ != "index-root"@ && target_parts(opts.target@)
                == ("remote-root"@, text::opt_view(p)),
            CatStart::ByHash(s, p) => opts.target@ != "index-root"@ && target_parts(opts.target@)
                == (s@, text::opt_view(p)) && s@ != "clone-root"@ && s@ != "remote-root"@,
        },
{
    if str_eq(opts.target.as_str(), "index-root") {
        if opts.hash_only {
            return CatStart::Fail(
                Error::Other("--hash is not supported for pack-layer objects".to_owned()),
            );
        }
        return CatStart::IndexRoot;
    }
    let (reference, path) = split_target(opts.target.as_str());
    if str_eq(reference.as_str(), "clone-root") {
        CatStart::CloneRoot(path)
    } else if str_eq(reference.as_str(), "remote-root") {
        CatStart::RemoteRoot(path)
    } else {
        CatStart::ByHash(reference, path)
    }
}

/// The clone root to begin at.
pub fn clone_root_start(clone_root: Option<ObjectHash>) -> (r: Result<ObjectHash, Error>)
    ensures
        match r {
            Ok(h) => clone_root == Some(h),
            Err(e) => clone_root is None && e.is_other(
                "no clone_root — repository has never been synced"@,
            ),
        },
{
    match clone_root {
        Some(h) => Ok(h),
        None => Err(
            Error::Other("no clone_root — repository has never been synced".to_owned()),
        ),
    }
}

/// The root of the remote to begin at.
pub fn remote_root_start(root: Option<ObjectHash>, remote_name: &str) -> (r: Result<
    ObjectHash,
    Error,
>)
    ensures
        match r {
            Ok(h) => root == Some(h),
            Err(e) => root is None && e.is_other("no index root on "@ + remote_name@),
        },
{
    match root {
        Some(h) => Ok(h),
        None => Err(Error::Other(concat("no index root on ", remote_name))),
    }
}

/// What follows a search by hash in the local store.
pub enum CatNext {
    Fail(Error),
    /// The object is there.
    Local(ObjectHash),
    /// Show the object of this hash from the remote's packed layer.
    PackLayer(ObjectHash),
    /// Look for the prefix on the remote, and fetch what it names.
    RemotePrefix,
}

/// Decides what follows a search by hash in the local store. What is not found there,
/// and has no path behind it, is looked for on the remote: a full hash in the packed
/// layer, a prefix in the index.
pub fn after_local(
    local: Result<ObjectHash, HashError>,
    reference: &str,
    has_path: bool,
    hash_only: bool,
) -> (r: CatNext)
    ensures
        match local {
            Ok(h) => r == CatNext::Local(h),
            Err(HashError::NotFound) if !has_path => if hash_only {
                r matches CatNext::Fail(e) && e.is_other(no_hash_text())
            } else if text::byte_len(reference@) != 64 {
                r is RemotePrefix
            } else if object::is_hash_text(reference@) {
                r == CatNext::PackLayer(ObjectHash::of_hex(reference@))
            } else {
                r matches CatNext::Fail(e) && e.is_other("invalid hash: "@ + reference@)
            },
            Err(HashError::NotFound) => r matches CatNext::Fail(Error::ObjectNotFound(t)) && t@
                == reference@,
            Err(HashError::TooShort) => r matches CatNext::Fail(Error::Other(t)) && t@
                == too_short_text(),
            Err(HashError::Ambiguous) => r matches CatNext::Fail(Error::AmbiguousHash(t)) && t@
                == reference@,
        },
{
    match local {
        Ok(h) => CatNext::Local(h),
        Err(why) => {
            if matches!(why, HashError::NotFound) && !has_path {
                if hash_only {
                    return CatNext::Fail(
                        Error::Other("--hash is not supported for pack-layer objects".to_owned()),
                    );
                }
                if byte_count(reference) == 64 {
                    return match parse_hash_for_remote(reference) {
                        Ok(h) => CatNext::PackLayer(h),
                        Err(e) => CatNext::Fail(e),
                    };
                }
                return CatNext::RemotePrefix;
            }
            CatNext::Fail(why.report(reference))
        },
    }
}

/// The object to show: the one that was found, or the one that a path leads to from it.
/// An object that has to be read first is asked for.
pub fn final_object(root: &TreeNode, path: &Option<String>) -> (r: Result<ObjectHash, CatStop>)
    ensures
        match *path {
            None => r == Ok::<ObjectHash, CatStop>(root.hash),
            Some(p) => match object::hash_at(*root, text::components(p@)) {
                Ok(Some(h)) => r == Ok::<ObjectHash, CatStop>(h),
                Ok(None) => r matches Err(CatStop::NotFound(t)) && t@ == root.hash.hex() + "/"@
                    + p@,
                Err(Halt::Unread(h)) => r matches Err(CatStop::Unread(k)) && k == h,
                Err(Halt::Missing(h)) => r matches Err(CatStop::NotFound(t)) && t@ == h.hex(),
            },
        },
{
    match path {
        None => Ok(root.hash),
        Some(p) => {
            let comps = path_components(p.as_str());
            match navigate(root, &comps) {
                Ok(Some(h)) => Ok(h),
                Ok(None) => Err(
                    CatStop::NotFound(concat3(root.hash.to_hex().as_str(), "/", p.as_str())),
                ),
                Err(Halt::Unread(h)) => Err(CatStop::Unread(h)),
                Err(Halt::Missing(h)) => Err(CatStop::NotFound(h.to_hex())),
            }
        },
    }
}

/// Why there is nothing to show.
pub enum CatStop {
    /// This object has to be read first.
    Unread(ObjectHash),
    /// There is no such object.
    NotFound(String),
}

// ---------------------------------------------------------------------------
// The packed layer
// ---------------------------------------------------------------------------

/// What an object of the packed layer is.
#[derive(Clone, Copy, Debug, PartialEq, Eq, Structural)]
pub enum PackObject {
    /// Known by its stored bytes, which are not encrypted.
    PackFile,
    Index,
    Bloom,
    /// A file or a tree.
    Logical,
    TooShort,
}

/// Whether stored bytes are a pack file's.
pub fn is_pack_file(raw: &Vec<u8>) -> (r: bool)
    ensures
        r == (raw@.len() >= 2 && raw@[0] == 0xED && raw@[1] == 0xE0),
{
    raw.len() >= 2 && raw[0] == 0xED && raw[1] == 0xE0
}

/// What a decrypted object of the packed layer is.
pub open spec fn pack_object(plain: Seq<u8>) -> PackObject {
    if plain.len() < 2 {
        PackObject::TooShort
    } else if plain[0] == 0xED && plain[1] == 0xE2 {
        PackObject::Index
    } else if plain[0] == 0xED && plain[1] == 0xE4 {
        PackObject::Bloom
    } else {
        PackObject::Logical
    }
}

/// What a decrypted object of the packed layer is.
pub fn print_pack_object(plain: &Vec<u8>) -> (r: PackObject)
    ensures
        r == pack_object(plain@),
{
    if plain.len() < 2 {
        PackObject::TooShort
    } else if plain[0] == 0xED && plain[1] == 0xE2 {
        PackObject::Index
    } else if plain[0] == 0xED && plain[1] == 0xE4 {
        PackObject::Bloom
    } else {
        PackObject::Logical
    }
}

/// What is said of a file or a tree that was looked for in the packed layer.
pub fn logical_note(h: &ObjectHash) -> (r: String)
    ensures
        r@ == "this is a logical object; use 'omemfs cat "@ + h.hex() + "' to view its content"@,
{
    concat3(
        "this is a logical object; use 'omemfs cat ",
        h.to_hex().as_str(),
        "' to view its content",
    )
}

/// An index root as it is shown: a hash of zeros stands for none.
pub struct IndexRootDoc {
    pub remote_root: Option<String>,
    pub hot_hash: Option<String>,
    pub bloom_hash: Option<String>,
    pub cold_prefix_bits: u8,
    pub delta_hashes: Vec<Option<String>>,
    pub cold_shards: Vec<Option<String>>,
}

/// An index root.
pub struct IndexRootInfo {
    pub remote_root: ObjectHash,
    pub hot_hash: ObjectHash,
    pub bloom_hash: ObjectHash,
    pub cold_prefix_bits: u8,
    pub delta_hashes: Vec<ObjectHash>,
    pub cold_shards: Vec<ObjectHash>,
}

/// A hash in full; none for zeros.
pub open spec fn hash_or_null(h: ObjectHash) -> Option<Seq<char>> {
    if h == (ObjectHash { w0: 0, w1: 0, w2: 0, w3: 0 }) {
        None
    } else {
        Some(h.hex())
    }
}

fn shown_hash(h: &ObjectHash) -> (r: Option<String>)
    ensures
        text::opt_view(r) == hash_or_null(*h),
{
    if h.is_zero() {
        None
    } else {
        Some(h.to_hex())
    }
}

/// Whether the texts are those of the hashes, one for one.
pub open spec fn shows_hashes(texts: Seq<Option<String>>, hs: Seq<ObjectHash>) -> bool {
    texts.len() == hs.len() && forall|i: int|
        0 <= i < hs.len() ==> text::opt_view(#[trigger] texts[i]) == hash_or_null(hs[i])
}

fn shown_hashes(hs: &Vec<ObjectHash>) -> (r: Vec<Option<String>>)
    ensures
        shows_hashes(r@, hs@),
{
    let mut r: Vec<Option<String>> = Vec::new();
    let mut i: usize = 0;
    while i < hs.len()
        invariant
            i <= hs@.len(),
            r@.len() == i,
            forall|k: int| 0 <= k < i ==> text::opt_view(#[trigger] r@[k]) == hash_or_null(hs@[k]),
        decreases hs.len() - i,
    {
        r.push(shown_hash(&hs[i]));
        i = i + 1;
    }
    r
}

/// What is shown of an index root.
pub fn print_index_root_json(ir: &IndexRootInfo) -> (r: IndexRootDoc)
    ensures
        text::opt_view(r.remote_root) == hash_or_null(ir.remote_root),
        text::opt_view(r.hot_hash) == hash_or_null(ir.hot_hash),
        text::opt_view(r.bloom_hash) == hash_or_null(ir.bloom_hash),
        r.cold_prefix_bits == ir.cold_prefix_bits,
        shows_hashes(r.delta_hashes@, ir.delta_hashes@),
        shows_hashes(r.cold_shards@, ir.cold_shards@),
{
    IndexRootDoc {
        remote_root: shown_hash(&ir.remote_root),
        hot_hash: shown_hash(&ir.hot_hash),
        bloom_hash: shown_hash(&ir.bloom_hash),
        cold_prefix_bits: ir.cold_prefix_bits,
        delta_hashes: shown_hashes(&ir.delta_hashes),
        cold_shards: shown_hashes(&ir.cold_shards),
    }
}

/// An index entry as it is shown: an object that the index itself holds by its length.
pub enum IndexEntryDoc {
    Inline { hash: String, data_length: usize },
    Pack { hash: String, pack_hash: String, offset: u32, length: u32 },
    Standalone { hash: String },
}

/// An index file as it is shown.
pub struct IndexFileDoc {
    pub logical_hash: String,
    pub storage_key: String,
    pub entry_count: usize,
    pub entries: Vec<IndexEntryDoc>,
}

/// Whether an entry is shown as it is.
pub open spec fn shows_entry(d: IndexEntryDoc, e: EntryView) -> bool {
    match (d, e) {
        (
            IndexEntryDoc::Inline { hash, data_length },
            EntryView::Inline { hash: h, data },
        ) => hash@ == h.hex() && data_length == data.len(),
        (
            IndexEntryDoc::Pack { hash, pack_hash, offset, length },
            EntryView::Pack { hash: h, pack_hash: p, offset: at, length: n },
        ) => hash@ == h.hex() && pack_hash@ == p.hex() && offset == at && length == n,
        (IndexEntryDoc::Standalone { hash }, EntryView::Standalone { hash: h }) => hash@ == h.hex(),
        _ => false,
    }
}

fn shown_entry(e: &IndexEntry) -> (r: IndexEntryDoc)
    ensures
        shows_entry(r, e@),
{
    match e {
        IndexEntry::Inline { hash, data } => IndexEntryDoc::Inline {
            hash: hash.to_hex(),
            data_length: data.len(),
        },
        IndexEntry::Pack { hash, pack_hash, offset, length } => IndexEntryDoc::Pack {
            hash: hash.to_hex(),
            pack_hash: pack_hash.to_hex(),
            offset: *offset,
            length: *length,
        },
        IndexEntry::Standalone { hash } => IndexEntryDoc::Standalone { hash: hash.to_hex() },
    }
}

/// What is shown of an index file: its entries in order.
pub fn print_index_file_json(
    entries: &Vec<IndexEntry>,
    logical_hash: &ObjectHash,
    storage_key: &ObjectHash,
) -> (r: IndexFileDoc)
    ensures
        r.logical_hash@ == logical_hash.hex(),
        r.storage_key@ == storage_key.hex(),
        r.entry_count == entries@.len(),
        r.entries@.len() == entries@.len(),
        forall|i: int|
            0 <= i < entries@.len() ==> shows_entry(#[trigger] r.entries@[i], entries@[i]@),
{
    let mut shown: Vec<IndexEntryDoc> = Vec::new();
    let mut i: usize = 0;
    while i < entries.len()
        invariant
            i <= entries@.len(),
            shown@.len() == i,
            forall|k: int| 0 <= k < i ==> shows_entry(#[trigger] shown@[k], entries@[k]@),
        decreases entries.len() - i,
    {
        shown.push(shown_entry(&entries[i]));
        i = i + 1;
    }
    IndexFileDoc {
        logical_hash: logical_hash.to_hex(),
        storage_key: storage_key.to_hex(),
        entry_count: entries.len(),
        entries: shown,
    }
}

/// How many bits of a byte are set.
pub open spec fn ones(b: nat) -> nat
    decreases b,
{
    if b == 0 {
        0
    } else {
        b % 2 + ones(b / 2)
    }
}

/// How many bits of the bytes are set.
pub open spec fn all_ones(bytes: Seq<u8>) -> nat
    decreases bytes.len(),
{
    if bytes.len() == 0 {
        0
    } else {
        all_ones(bytes.drop_last()) + ones(bytes.last() as nat)
    }
}

proof fn lemma_ones(b: nat, k: nat)
    requires
        b < vstd::arithmetic::power::pow(2, k),
    ensures
        ones(b) <= k,
    decreases k,
{
    reveal(vstd::arithmetic::power::pow);
    if b > 0 && k > 0 {
        let p = vstd::arithmetic::power::pow(2, (k - 1) as nat);
        assert(vstd::arithmetic::power::pow(2, k) == 2 * p);
        lemma_ones(b / 2, (k - 1) as nat);
    }
}

fn ones_of(b: u8) -> (r: u64)
    ensures
        r == ones(b as nat),
        r <= 8,
{
    proof {
        assert(vstd::arithmetic::power::pow(2, 8) == 256) by {
            reveal_with_fuel(vstd::arithmetic::power::pow, 9);
        }
        lemma_ones(b as nat, 8);
    }
    let mut v: u8 = b;
    let mut n: u64 = 0;
    while v > 0
        invariant
            ones(b as nat) <= 8,
            n + ones(v as nat) == ones(b as nat),
        decreases v,
    {
        n = n + (v % 2) as u64;
        v = v / 2;
    }
    n
}

/// How many bytes stand before the bits of a Bloom filter.
pub const BLOOM_HEADER_LEN: usize = 20;

proof fn lemma_all_ones(bytes: Seq<u8>)
    ensures
        all_ones(bytes) <= 8 * bytes.len(),
    decreases bytes.len(),
{
    if bytes.len() > 0 {
        lemma_all_ones(bytes.drop_last());
        assert(vstd::arithmetic::power::pow(2, 8) == 256) by {
            reveal_with_fuel(vstd::arithmetic::power::pow, 9);
        }
        lemma_ones(bytes.last() as nat, 8);
    }
}

/// How many bits are set behind the header.
pub open spec fn set_bits(bytes: Seq<u8>) -> nat {
    if bytes.len() <= BLOOM_HEADER_LEN {
        0
    } else {
        all_ones(bytes.skip(BLOOM_HEADER_LEN as int))
    }
}

/// How many bits of a Bloom filter are set, from its serialised form.
pub fn count_set_bits_public(bytes: &Vec<u8>) -> (r: u64)
    requires
        8 * bytes@.len() <= u64::MAX,
    ensures
        r == set_bits(bytes@),
{
    if bytes.len() <= BLOOM_HEADER_LEN {
        return 0;
    }
    let ghost bits = bytes@.skip(BLOOM_HEADER_LEN as int);
    let mut n: u64 = 0;
    let mut i: usize = BLOOM_HEADER_LEN;
    assert(bits.take(0) =~= seq![]);
    while i < bytes.len()
        invariant
            BLOOM_HEADER_LEN <= i <= bytes@.len(),
            8 * bytes@.len() <= u64::MAX,
            bits == bytes@.skip(BLOOM_HEADER_LEN as int),
            n == all_ones(bits.take(i - BLOOM_HEADER_LEN)),
        decreases bytes.len() - i,
    {
        let ghost k = i - BLOOM_HEADER_LEN;
        proof {
            assert(bits.take(k + 1).drop_last() =~= bits.take(k));
            assert(bits[k] == bytes@[i as int]);
            lemma_all_ones(bits.take(k));
        }
        n = n + ones_of(bytes[i]);
        i = i + 1;
    }
    assert(bits.take(bits.len() as int) =~= bits);
    n
}

/// A Bloom filter.
pub struct BloomInfo {
    pub num_hash_functions: u64,
    pub num_bits: u64,
    pub element_count: u64,
    /// The filter in its serialised form.
    pub bytes: Vec<u8>,
}

/// A Bloom filter as it is shown. The fill rate is the share of `set_bits` in
/// `num_bits`.
pub struct BloomDoc {
    pub logical_hash: String,
    pub storage_key: String,
    pub num_hash_functions: u64,
    pub num_bits: u64,
    pub element_count: u64,
    pub set_bits: u64,
}

/// What is shown of a Bloom filter.
pub fn print_bloom_json(
    bf: &BloomInfo,
    logical_hash: &ObjectHash,
    storage_key: &ObjectHash,
) -> (r: BloomDoc)
    requires
        8 * bf.bytes@.len() <= u64::MAX,
    ensures
        r.logical_hash@ == logical_hash.hex(),
        r.storage_key@ == storage_key.hex(),
        r.num_hash_functions == bf.num_hash_functions,
        r.num_bits == bf.num_bits,
        r.element_count == bf.element_count,
        r.set_bits == set_bits(bf.bytes@),
{
    BloomDoc {
        logical_hash: logical_hash.to_hex(),
        storage_key: storage_key.to_hex(),
        num_hash_functions: bf.num_hash_functions,
        num_bits: bf.num_bits,
        element_count: bf.element_count,
        set_bits: count_set_bits_public(&bf.bytes),
    }
}

// ---------------------------------------------------------------------------
// Colours
// ---------------------------------------------------------------------------

/// What a piece of JSON is.
#[derive(Clone, Copy, Debug, PartialEq, Eq, Structural)]
pub enum Token {
    Key,
    Text,
    /// A number, `true` or `false`.
    Literal,
    Null,
    /// Anything else, which has no colour.
    Plain,
}

/// What switches a colour on.
pub open spec fn colour_on(t: Token) -> Seq<char> {
    match t {
        Token::Key => "\x1b[38;5;75m"@,
        Token::Text => "\x1b[38;5;114m"@,
        Token::Literal => "\x1b[38;5;179m"@,
        Token::Null => "\x1b[38;5;242m"@,
        Token::Plain => ""@,
    }
}

/// What switches a colour off.
pub open spec fn colour_off(t: Token) -> Seq<char> {
    if t == Token::Plain {
        ""@
    } else {
        "\x1b[0m"@
    }
}

/// Pieces with their colours.
pub open spec fn coloured(ps: Seq<(Token, Seq<char>)>) -> Seq<char>
    decreases ps.len(),
{
    if ps.len() == 0 {
        seq![]
    } else {
        colour_on(ps[0].0) + ps[0].1 + colour_off(ps[0].0) + coloured(ps.drop_first())
    }
}

/// Pieces without colours.
pub open spec fn uncoloured(ps: Seq<(Token, Seq<char>)>) -> Seq<char>
    decreases ps.len(),
{
    if ps.len() == 0 {
        seq![]
    } else {
        ps[0].1 + uncoloured(ps.drop_first())
    }
}

/// Where a quoted text ends, from behind its first quote on.
pub open spec fn quote_end(s: Seq<char>, i: nat, escaped: bool) -> nat
    decreases s.len() - i,
{
    if i >= s.len() {
        s.len()
    } else if escaped {
        quote_end(s, i + 1, false)
    } else if s[i as int] == '\\' {
        quote_end(s, i + 1, true)
    } else if s[i as int] == '"' {
        i + 1
    } else {
        quote_end(s, i + 1, false)
    }
}

/// Where blanks and line breaks end.
pub open spec fn blank_end(s: Seq<char>, i: nat) -> nat
    decreases s.len() - i,
{
    if i < s.len() && (s[i as int] == ' ' || s[i as int] == '\n' || s[i as int] == '\r') {
        blank_end(s, i + 1)
    } else if i < s.len() {
        i
    } else {
        s.len()
    }
}

/// Whether a character can stand in a number.
pub open spec fn in_number(c: char) -> bool {
    '0' <= c <= '9' || c == '.' || c == 'e' || c == 'E' || c == '+' || c == '-'
}

/// Where a number ends.
pub open spec fn number_end(s: Seq<char>, i: nat) -> nat
    decreases s.len() - i,
{
    if i < s.len() && in_number(s[i as int]) {
        number_end(s, i + 1)
    } else if i < s.len() {
        i
    } else {
        s.len()
    }
}

/// Where a word of `n` characters ends, or the text does.
pub open spec fn word_end(s: Seq<char>, i: nat, n: nat) -> nat {
    if i + n < s.len() {
        i + n
    } else {
        s.len()
    }
}

/// What a word is: `true`, `false` and `null` have colours.
pub open spec fn word_token(w: Seq<char>) -> Token {
    if w == seq!['t', 'r', 'u', 'e'] || w == seq!['f', 'a', 'l', 's', 'e'] {
        Token::Literal
    } else if w == seq!['n', 'u', 'l', 'l'] {
        Token::Null
    } else {
        Token::Plain
    }
}

proof fn lemma_ends(s: Seq<char>, i: nat, escaped: bool)
    requires
        i <= s.len(),
    ensures
        i <= quote_end(s, i, escaped) <= s.len(),
        i <= blank_end(s, i) <= s.len(),
        i <= number_end(s, i) <= s.len(),
    decreases s.len() - i,
{
    if i < s.len() {
        lemma_ends(s, i + 1, false);
        lemma_ends(s, i + 1, true);
    }
}

/// The pieces of JSON from `i` on. A quoted text with a colon behind it, blanks
/// aside, is a key.
pub open spec fn tokens(s: Seq<char>, i: nat) -> Seq<(Token, Seq<char>)>
    decreases s.len() - i,
    via tokens_end
{
    if i >= s.len() {
        seq![]
    } else {
        let c = s[i as int];
        if c == '"' {
            let end = quote_end(s, i + 1, false);
            let next = blank_end(s, end);
            let t = if next < s.len() && s[next as int] == ':' {
                Token::Key
            } else {
                Token::Text
            };
            seq![
                (t, s.subrange(i as int, end as int)),
                (Token::Plain, s.subrange(end as int, next as int)),
            ] + tokens(s, next)
        } else if '0' <= c <= '9' || c == '-' {
            let end = number_end(s, i + 1);
            seq![(Token::Literal, s.subrange(i as int, end as int))] + tokens(s, end)
        } else if c == 't' || c == 'n' || c == 'f' {
            let end = word_end(
                s,
                i,
                if c == 'f' {
                    5
                } else {
                    4
                },
            );
            let w = s.subrange(i as int, end as int);
            seq![(word_token(w), w)] + tokens(s, end)
        } else {
            seq![(Token::Plain, seq![c])] + tokens(s, i + 1)
        }
    }
}

#[via_fn]
proof fn tokens_end(s: Seq<char>, i: nat) {
    if i < s.len() {
        lemma_ends(s, i + 1, false);
        lemma_ends(s, quote_end(s, i + 1, false), false);
    }
}

/// Colouring does not change what JSON says: without the colours, the pieces are the
/// text.
pub proof fn law_colours_keep_text(s: Seq<char>, i: nat)
    requires
        i <= s.len(),
    ensures
        uncoloured(tokens(s, i)) == s.skip(i as int),
    decreases s.len() - i,
{
    if i < s.len() {
        lemma_ends(s, i + 1, false);
        lemma_ends(s, quote_end(s, i + 1, false), false);
        let c = s[i as int];
        let ps = tokens(s, i);
        if c == '"' {
            let end = quote_end(s, i + 1, false);
            let next = blank_end(s, end);
            law_colours_keep_text(s, next);
            let rest = tokens(s, next);
            assert(ps.drop_first().drop_first() =~= rest);
            assert(uncoloured(ps.drop_first()) == ps[1].1 + uncoloured(rest)) by {
                assert(ps.drop_first()[0] == ps[1]);
            }
            assert(s.skip(i as int) =~= s.subrange(i as int, end as int) + (s.subrange(
                end as int,
                next as int,
            ) + s.skip(next as int)));
        } else {
            let end = if '0' <= c <= '9' || c == '-' {
                number_end(s, i + 1)
            } else if c == 't' || c == 'n' || c == 'f' {
                word_end(
                    s,
                    i,
                    if c == 'f' {
                        5
                    } else {
                        4
                    },
                )
            } else {
                i + 1
            };
            law_colours_keep_text(s, end);
            assert(ps.drop_first() =~= tokens(s, end));
            assert(ps[0].1 =~= s.subrange(i as int, end as int));
            assert(s.skip(i as int) =~= s.subrange(i as int, end as int) + s.skip(end as int));
        }
    } else {
        assert(s.skip(i as int) =~= seq![]);
    }
}

fn put_token(out: &mut String, t: Token, s: &str)
    ensures
        final(out)@ == old(out)@ + (colour_on(t) + s@ + colour_off(t)),
{
    let ghost before = out@;
    match t {
        Token::Key => {
            out.append("\x1b[38;5;75m");
        },
        Token::Text => {
            out.append("\x1b[38;5;114m");
        },
        Token::Literal => {
            out.append("\x1b[38;5;179m");
        },
        Token::Null => {
            out.append("\x1b[38;5;242m");
        },
        Token::Plain => {
            out.append("");
        },
    }
    out.append(s);
    if t == Token::Plain {
        out.append("");
    } else {
        out.append("\x1b[0m");
    }
    assert(out@ =~= before + (colour_on(t) + s@ + colour_off(t)));
}

fn find_quote_end(chars: &Vec<char>, from: usize) -> (r: usize)
    requires
        from <= chars@.len(),
    ensures
        r == quote_end(chars@, from as nat, false),
        from <= r <= chars@.len(),
{
    let mut i: usize = from;
    let mut escaped = false;
    while i < chars.len()
        invariant
            from <= i <= chars@.len(),
            quote_end(chars@, from as nat, false) == quote_end(chars@, i as nat, escaped),
        decreases chars.len() - i,
    {
        let c = chars[i];
        i = i + 1;
        if escaped {
            escaped = false;
        } else if c == '\\' {
            escaped = true;
        } else if c == '"' {
            return i;
        }
    }
    i
}

fn find_blank_end(chars: &Vec<char>, from: usize) -> (r: usize)
    requires
        from <= chars@.len(),
    ensures
        r == blank_end(chars@, from as nat),
        from <= r <= chars@.len(),
{
    let mut i: usize = from;
    while i < chars.len() && (chars[i] == ' ' || chars[i] == '\n' || chars[i] == '\r')
        invariant
            from <= i <= chars@.len(),
            blank_end(chars@, from as nat) == blank_end(chars@, i as nat),
        decreases chars.len() - i,
    {
        i = i + 1;
    }
    i
}

fn is_in_number(c: char) -> (r: bool)
    ensures
        r == in_number(c),
{
    ('0' <= c && c <= '9') || c == '.' || c == 'e' || c == 'E' || c == '+' || c == '-'
}

fn find_number_end(chars: &Vec<char>, from: usize) -> (r: usize)
    requires
        from <= chars@.len(),
    ensures
        r == number_end(chars@, from as nat),
        from <= r <= chars@.len(),
{
    let mut i: usize = from;
    while i < chars.len() && is_in_number(chars[i])
        invariant
            from <= i <= chars@.len(),
            number_end(chars@, from as nat) == number_end(chars@, i as nat),
        decreases chars.len() - i,
    {
        i = i + 1;
    }
    i
}

fn token_of_word(w: &str) -> (r: Token)
    ensures
        r == word_token(w@),
{
    proof {
        reveal_strlit("true");
        reveal_strlit("false");
        reveal_strlit("null");
        assert("true"@ =~= seq!['t', 'r', 'u', 'e']);
        assert("false"@ =~= seq!['f', 'a', 'l', 's', 'e']);
        assert("null"@ =~= seq!['n', 'u', 'l', 'l']);
    }
    if str_eq(w, "true") || str_eq(w, "false") {
        Token::Literal
    } else if str_eq(w, "null") {
        Token::Null
    } else {
        Token::Plain
    }
}

proof fn lemma_coloured_one(p: (Token, Seq<char>), rest: Seq<(Token, Seq<char>)>)
    ensures
        coloured(seq![p] + rest) == colour_on(p.0) + p.1 + colour_off(p.0) + coloured(rest),
{
    assert((seq![p] + rest).drop_first() =~= rest);
}

proof fn lemma_regroup(a: Seq<char>, b: Seq<char>, c: Seq<char>, d: Seq<char>)
    ensures
        (a + b) + c == a + (b + c),
        ((a + b) + c) + d == a + (b + (c + d)),
{
    assert((a + b) + c =~= a + (b + c));
    assert(((a + b) + c) + d =~= a + (b + (c + d)));
}

/// Colours a quoted text, and passes over the blanks behind it.
fn colour_quoted(chars: &Vec<char>, i: usize, out: &mut String) -> (r: usize)
    requires
        i < chars@.len(),
        chars@[i as int] == '"',
    ensures
        i < r <= chars@.len(),
        final(out)@ + coloured(tokens(chars@, r as nat)) == old(out)@ + coloured(
            tokens(chars@, i as nat),
        ),
{
    let ghost before = out@;
    let ghost s = chars@;
    let n: usize = chars.len();
    let end: usize = find_quote_end(chars, i + 1);
    let next: usize = find_blank_end(chars, end);
    let t = if next < n && chars[next] == ':' {
        Token::Key
    } else {
        Token::Text
    };
    put_token(out, t, string_of(chars, i, end).as_str());
    put_token(out, Token::Plain, string_of(chars, end, next).as_str());
    proof {
        let rest = tokens(s, next as nat);
        let p = (t, s.subrange(i as int, end as int));
        let q = (Token::Plain, s.subrange(end as int, next as int));
        assert(tokens(s, i as nat) =~= seq![p] + (seq![q] + rest));
        lemma_coloured_one(p, seq![q] + rest);
        lemma_coloured_one(q, rest);
        lemma_regroup(
            before,
            colour_on(p.0) + p.1 + colour_off(p.0),
            colour_on(q.0) + q.1 + colour_off(q.0),
            coloured(rest),
        );
    }
    next
}

/// Where the piece that begins at `i`, and is not quoted, ends, and what it is.
fn next_token(chars: &Vec<char>, i: usize) -> (r: (usize, Token))
    requires
        i < chars@.len(),
        chars@[i as int] != '"',
    ensures
        i < r.0 <= chars@.len(),
        tokens(chars@, i as nat) == seq![(r.1, chars@.subrange(i as int, r.0 as int))] + tokens(
            chars@,
            r.0 as nat,
        ),
{
    let n: usize = chars.len();
    let c = chars[i];
    if ('0' <= c && c <= '9') || c == '-' {
        (find_number_end(chars, i + 1), Token::Literal)
    } else if c == 't' || c == 'n' || c == 'f' {
        let len: usize = if c == 'f' {
            5
        } else {
            4
        };
        let end: usize = if n - i > len {
            i + len
        } else {
            n
        };
        (end, token_of_word(string_of(chars, i, end).as_str()))
    } else {
        assert(chars@.subrange(i as int, i + 1) =~= seq![c]);
        (i + 1, Token::Plain)
    }
}

/// Colours the keys, texts, numbers and words of JSON that is spread over lines.
pub fn colorize_json(json: &str) -> (r: String)
    ensures
        r@ == coloured(tokens(json@, 0)),
{
    let chars = chars_of(json);
    let ghost s = json@;
    let mut out = String::new();
    let mut i: usize = 0;
    assert(out@ + coloured(tokens(s, 0)) =~= coloured(tokens(s, 0)));
    while i < chars.len()
        invariant
            i <= chars@.len(),
            chars@ == s,
            out@ + coloured(tokens(s, i as nat)) == coloured(tokens(s, 0)),
        decreases chars.len() - i,
    {
        if chars[i] == '"' {
            i = colour_quoted(&chars, i, &mut out);
        } else {
            let ghost before = out@;
            let (end, t) = next_token(&chars, i);
            put_token(&mut out, t, string_of(&chars, i, end).as_str());
            proof {
                let p = (t, s.subrange(i as int, end as int));
                let rest = tokens(s, end as nat);
                lemma_coloured_one(p, rest);
                lemma_regroup(
                    before,
                    colour_on(p.0) + p.1 + colour_off(p.0),
                    coloured(rest),
                    seq![],
                );
            }
            i = end;
        }
    }
    assert(tokens(s, i as nat) =~= seq![]);
    assert(out@ + coloured(tokens(s, i as nat)) =~= out@);
    out
}

} // verus!
