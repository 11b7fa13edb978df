//! Which paths a listing is about.

use crate::text::{self, starts_with, str_eq, strip_prefix};
use vstd::prelude::*;

verus! {

/// Precomputed scope filter for path-scoped listings.
pub struct ScopeFilter {
    /// The scopes. None means unscoped: everything matches.
    prefixes: Vec<String>,
}

/// Whether a path is a scope itself or lies inside one.
pub open spec fn within(prefixes: Seq<Seq<char>>, path: Seq<char>) -> bool {
    prefixes.len() == 0 || exists|i: int|
        0 <= i < prefixes.len() && (path == #[trigger] prefixes[i] || text::has_prefix(
            path,
            prefixes[i].push('/'),
        ))
}

/// Whether a walk goes down into a directory: it lies inside a scope, or a scope
/// lies inside it.
pub open spec fn leads_to(prefixes: Seq<Seq<char>>, dir: Seq<char>) -> bool {
    prefixes.len() == 0 || exists|i: int|
        0 <= i < prefixes.len() && (dir == #[trigger] prefixes[i] || text::has_prefix(
            dir,
            prefixes[i].push('/'),
        ) || text::has_prefix(prefixes[i], dir.push('/')))
}

/// The scopes that a list of prefixes stands for: none, if one of them is the root.
pub open spec fn scopes_of(prefixes: Seq<Seq<char>>) -> Seq<Seq<char>> {
    if exists|i: int| 0 <= i < prefixes.len() && (#[trigger] prefixes[i]).len() == 0 {
        seq![]
    } else {
        prefixes
    }
}

impl ScopeFilter {
    /// The scopes of the filter.
    pub closed spec fn scopes(self) -> Seq<Seq<char>> {
        text::views(self.prefixes@)
    }

    /// Build a filter from relative scope prefixes. An empty list, or any empty
    /// prefix (the root), yields an unscoped filter.
    pub fn new(scoped_prefixes: &Vec<String>) -> (r: Self)
        ensures
            r.scopes() == scopes_of(text::views(scoped_prefixes@)),
    {
        let mut i: usize = 0;
        let ghost all = text::views(scoped_prefixes@);
        while i < scoped_prefixes.len()
            invariant
                i <= scoped_prefixes@.len(),
                all == text::views(scoped_prefixes@),
                forall|k: int| 0 <= k < i ==> (#[trigger] all[k]).len() > 0,
            decreases scoped_prefixes.len() - i,
        {
            assert(all[i as int] == scoped_prefixes@[i as int]@);
            if scoped_prefixes[i].as_str().is_empty() {
                return ScopeFilter::unscoped();
            }
            i = i + 1;
        }
        ScopeFilter { prefixes: crate::text::copy_strings(scoped_prefixes) }
    }

    /// The filter that everything matches.
    pub fn unscoped() -> (r: Self)
        ensures
            r.scopes() == Seq::<Seq<char>>::empty(),
    {
        let r = ScopeFilter { prefixes: Vec::new() };
        assert(r.scopes() =~= Seq::<Seq<char>>::empty());
        r
    }

    /// True when `path` is a scope prefix itself or located inside one.
    pub fn in_scope(&self, path: &str) -> (r: bool)
        ensures
            r == within(self.scopes(), path@),
    {
        if self.prefixes.len() == 0 {
            return true;
        }
        let ghost all = self.scopes();
        let mut i: usize = 0;
        while i < self.prefixes.len()
            invariant
                i <= self.prefixes@.len(),
                all == text::views(self.prefixes@),
                all == self.scopes(),
                forall|k: int|
                    0 <= k < i ==> !(path@ == #[trigger] all[k] || text::has_prefix(
                        path@,
                        all[k].push('/'),
                    )),
            decreases self.prefixes.len() - i,
        {
            assert(all[i as int] == self.prefixes@[i as int]@);
            let mut slashed = self.prefixes[i].clone();
            slashed.push('/');
            if str_eq(path, self.prefixes[i].as_str()) || starts_with(path, slashed.as_str()) {
                return true;
            }
            i = i + 1;
        }
        false
    }

    /// True when a tree walk should descend into `dir_path`: the directory is
    /// inside a scope, or is an ancestor of one.
    pub fn should_descend(&self, dir_path: &str) -> (r: bool)
        ensures
            r == leads_to(self.scopes(), dir_path@),
    {
        if self.prefixes.len() == 0 {
            return true;
        }
        let ghost all = self.scopes();
        let mut inner = dir_path.to_owned();
        inner.push('/');
        let mut i: usize = 0;
        while i < self.prefixes.len()
            invariant
                i <= self.prefixes@.len(),
                all == text::views(self.prefixes@),
                all == self.scopes(),
                inner@ == dir_path@.push('/'),
                forall|k: int|
                    0 <= k < i ==> !(dir_path@ == #[trigger] all[k] || text::has_prefix(
                        dir_path@,
                        all[k].push('/'),
                    ) || text::has_prefix(all[k], dir_path@.push('/'))),
            decreases self.prefixes.len() - i,
        {
            assert(all[i as int] == self.prefixes@[i as int]@);
            let mut slashed = self.prefixes[i].clone();
            slashed.push('/');
            if str_eq(dir_path, self.prefixes[i].as_str()) || starts_with(
                dir_path,
                slashed.as_str(),
            ) || starts_with(self.prefixes[i].as_str(), inner.as_str()) {
                return true;
            }
            i = i + 1;
        }
        false
    }
}

/// Nothing in scope is missed: a walk goes down into every directory above a path
/// that is in scope.
pub proof fn law_walk_reaches_scope(prefixes: Seq<Seq<char>>, dir: Seq<char>, path: Seq<char>)
    requires
        within(prefixes, path),
        text::has_prefix(path, dir.push('/')),
    ensures
        leads_to(prefixes, dir),
{
    if prefixes.len() > 0 {
        let i = choose|i: int|
            0 <= i < prefixes.len() && (path == #[trigger] prefixes[i] || text::has_prefix(
                path,
                prefixes[i].push('/'),
            ));
        let s = prefixes[i];
        if path != s {
            let a = dir.push('/');
            let b = s.push('/');
            assert forall|k: int| 0 <= k < a.len() implies path[k] == a[k] by {
                assert(path.take(a.len() as int)[k] == path[k]);
            }
            assert forall|k: int| 0 <= k < b.len() implies path[k] == b[k] by {
                assert(path.take(b.len() as int)[k] == path[k]);
            }
            if dir.len() == s.len() {
                assert forall|k: int| 0 <= k < dir.len() implies dir[k] == s[k] by {
                    assert(a[k] == b[k]);
                }
                assert(dir =~= s);
            } else if dir.len() < s.len() {
                assert forall|k: int| 0 <= k < a.len() implies a[k] == s[k] by {
                    assert(path[k] == b[k]);
                    assert(b[k] == s[k]);
                }
                assert(s.take(a.len() as int) =~= a);
            } else {
                assert forall|k: int| 0 <= k < b.len() implies b[k] == dir[k] by {
                    assert(path[k] == a[k]);
                    assert(a[k] == dir[k]);
                }
                assert(dir.take(b.len() as int) =~= b);
            }
        }
    }
}

/// Whether `path` lies directly in the directory `prefix`, the empty prefix being
/// the root.
pub open spec fn direct_child(path: Seq<char>, prefix: Seq<char>) -> bool {
    if prefix.len() == 0 {
        !path.contains('/')
    } else {
        text::has_prefix(path, prefix.push('/')) && !path.skip(prefix.len() as int + 1).contains('/')
    }
}

/// Whether a text holds a slash.
fn has_slash(s: &str) -> (r: bool)
    ensures
        r == s@.contains('/'),
{
    let chars = crate::text::chars_of(s);
    let i: usize = crate::text::find_char(&chars, '/', 0);
    if i < chars.len() {
        assert(s@[i as int] == '/');
    }
    i < chars.len()
}

/// Returns true when `path` is a direct child of `prefix`, which is empty for the
/// root.
pub fn is_direct_child(path: &str, prefix: &str) -> (r: bool)
    ensures
        r == direct_child(path@, prefix@),
{
    if prefix.is_empty() {
        return !has_slash(path);
    }
    let mut slashed: String = prefix.to_owned();
    slashed.push('/');
    match strip_prefix(path, slashed.as_str()) {
        Some(child) => !has_slash(child.as_str()),
        None => false,
    }
}

/// The first scope that a path belongs to; the root if it belongs to none.
pub open spec fn scope_root(prefixes: Seq<Seq<char>>, path: Seq<char>, from: nat) -> Seq<char>
    decreases prefixes.len() - from,
{
    if from >= prefixes.len() {
        seq![]
    } else {
        let p = prefixes[from as int];
        if p.len() == 0 || path == p || text::has_prefix(path, p.push('/')) {
            p
        } else {
            scope_root(prefixes, path, from + 1)
        }
    }
}

/// The first scope that a path belongs to; the root if it belongs to none.
pub fn find_scope_root(prefixes: &Vec<String>, path: &str) -> (r: String)
    ensures
        r@ == scope_root(text::views(prefixes@), path@, 0),
{
    let mut i: usize = 0;
    let ghost all = text::views(prefixes@);
    while i < prefixes.len()
        invariant
            i <= prefixes@.len(),
            all == text::views(prefixes@),
            scope_root(all, path@, 0) == scope_root(all, path@, i as nat),
        decreases prefixes.len() - i,
    {
        assert(all[i as int] == prefixes@[i as int]@);
        let mut slashed = prefixes[i].clone();
        slashed.push('/');
        if prefixes[i].as_str().is_empty() || str_eq(path, prefixes[i].as_str()) || starts_with(
            path,
            slashed.as_str(),
        ) {
            return prefixes[i].clone();
        }
        i = i + 1;
    }
    let r = String::new();
    assert(r@ =~= seq![]);
    r
}

/// The scope prefix of a listing of a single path, relative to the root: the empty
/// text for the root, and `None` where there is not exactly one path.
pub fn single_scope_prefix(rels: &Vec<String>) -> (r: Option<String>)
    ensures
        match r {
            Some(p) => rels@.len() == 1 && p@ == slash_trimmed(rels@[0]@),
            None => rels@.len() != 1,
        },
{
    if rels.len() != 1 {
        return None;
    }
    Some(trim_slashes(rels[0].as_str()))
}

/// A text without the slashes at its start.
pub open spec fn trim_slash_start(s: Seq<char>) -> Seq<char>
    decreases s.len(),
{
    if s.len() > 0 && s[0] == '/' {
        trim_slash_start(s.drop_first())
    } else {
        s
    }
}

/// A text without the slashes at its end.
pub open spec fn bare(s: Seq<char>) -> Seq<char> {
    text::trim_end_of(s, '/')
}

/// A text without the slashes at its two ends.
pub open spec fn slash_trimmed(s: Seq<char>) -> Seq<char> {
    bare(trim_slash_start(s))
}

/// A text without the slashes at its end.
pub fn trim_slash_end(s: &str) -> (r: String)
    ensures
        r@ == bare(s@),
{
    text::trim_char_end(s, '/')
}

/// A text without the slashes at its two ends.
pub fn trim_slashes(s: &str) -> (r: String)
    ensures
        r@ == slash_trimmed(s@),
{
    let chars = crate::text::chars_of(s);
    let mut from: usize = 0;
    assert(s@.skip(0) =~= s@);
    while from < chars.len() && chars[from] == '/'
        invariant
            chars@ == s@,
            from <= s@.len(),
            trim_slash_start(s@) == trim_slash_start(s@.skip(from as int)),
        decreases chars.len() - from,
    {
        assert(s@.skip(from as int).drop_first() =~= s@.skip(from + 1));
        from = from + 1;
    }
    let rest = crate::text::string_of(&chars, from, chars.len());
    assert(rest@ =~= s@.skip(from as int));
    trim_slash_end(rest.as_str())
}

} // verus!
