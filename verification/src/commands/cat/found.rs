//! What targets and prefixes of hashes name.

use super::{HashError, MIN_HASH_PREFIX_LEN};
use crate::object::{self, ObjectHash};
use crate::text;
use vstd::prelude::*;

verus! {

/// A root's name stands for itself, and a path may stand behind it, separated by a slash or
/// by a colon.
pub proof fn law_roots_are_named(path: Seq<char>)
    ensures
        super::target_parts("clone-root"@) == ("clone-root"@, None::<Seq<char>>),
        super::target_parts("remote-root"@) == ("remote-root"@, None::<Seq<char>>),
        super::target_parts("clone-root"@.push('/') + path) == (
            "clone-root"@,
            super::path_if_any(path),
        ),
        super::target_parts("clone-root"@.push(':') + path) == (
            "clone-root"@,
            super::path_if_any(path),
        ),
        super::target_parts("remote-root"@.push('/') + path) == (
            "remote-root"@,
            super::path_if_any(path),
        ),
        super::target_parts("remote-root"@.push(':') + path) == (
            "remote-root"@,
            super::path_if_any(path),
        ),
{
    lemma_alias("clone-root"@, path, '/');
    lemma_alias("clone-root"@, path, ':');
    lemma_alias("remote-root"@, path, '/');
    lemma_alias("remote-root"@, path, ':');
    reveal_strlit("clone-root");
    reveal_strlit("remote-root");
    let r = "remote-root"@;
    let c = "clone-root"@;
    assert(r[0] != c[0]);
    assert forall|t: Seq<char>| t.len() > 0 && t[0] == r[0] implies super::split_alias(
        t,
        c,
    ) is None by {
        assert(c.push('/')[0] == c[0]);
        assert(c.push(':')[0] == c[0]);
        if text::has_prefix(t, c.push('/')) {
            assert(t.take(c.len() as int + 1)[0] == t[0]);
        }
        if text::has_prefix(t, c.push(':')) {
            assert(t.take(c.len() as int + 1)[0] == t[0]);
        }
    }
    assert((r.push('/') + path)[0] == r[0]);
    assert((r.push(':') + path)[0] == r[0]);
}

proof fn lemma_alias(alias: Seq<char>, path: Seq<char>, sep: char)
    requires
        sep == '/' || sep == ':',
    ensures
        super::split_alias(alias.push(sep) + path, alias) == Some(
            (alias, super::path_if_any(path)),
        ),
{
    let t = alias.push(sep) + path;
    assert(t.take(alias.len() as int + 1) =~= alias.push(sep));
    assert(t.skip(alias.len() as int + 1) =~= path);
    assert(t.len() > alias.len());
}

/// What a target refers to, and the path behind it, make up the target again, but for the
/// separator between the two.
pub proof fn law_nothing_of_a_target_is_lost(target: Seq<char>)
    ensures
        ({
            let (reference, path) = super::target_parts(target);
            match path {
                None => target == reference || target == reference.push('/') || target
                    == reference.push(':'),
                Some(p) => p.len() > 0 && (target == reference.push('/') + p || target
                    == reference.push(':') + p),
            }
        }),
{
    lemma_alias_parts(target, "clone-root"@);
    lemma_alias_parts(target, "remote-root"@);
    let at = super::first_separator(target, 0) as int;
    lemma_separator(target, 0);
    if at < target.len() {
        let rest = target.skip(at + 1);
        assert(target =~= target.take(at).push(target[at]) + rest);
        if rest.len() == 0 {
            assert(target =~= target.take(at).push(target[at]));
        }
    }
}

proof fn lemma_alias_parts(target: Seq<char>, alias: Seq<char>)
    ensures
        super::split_alias(target, alias) matches Some((reference, path)) ==> reference == alias
            && match path {
            None => target == reference || target == reference.push('/') || target
                == reference.push(':'),
            Some(p) => p.len() > 0 && (target == reference.push('/') + p || target
                == reference.push(':') + p),
        },
{
    let n = alias.len() as int + 1;
    if text::has_prefix(target, alias.push('/')) {
        assert(target =~= alias.push('/') + target.skip(n));
        if target.skip(n).len() == 0 {
            assert(target =~= alias.push('/'));
        }
    } else if text::has_prefix(target, alias.push(':')) {
        assert(target =~= alias.push(':') + target.skip(n));
        if target.skip(n).len() == 0 {
            assert(target =~= alias.push(':'));
        }
    }
}

proof fn lemma_separator(s: Seq<char>, from: nat)
    ensures
        super::first_separator(s, from) < s.len() ==> s[super::first_separator(s, from) as int]
            == ':' || s[super::first_separator(s, from) as int] == '/',
        super::first_separator(s, from) <= s.len() || from > s.len(),
    decreases s.len() - from,
{
    if from < s.len() && s[from as int] != ':' && s[from as int] != '/' {
        lemma_separator(s, from + 1);
    }
}

// ---------------------------------------------------------------------------
// Prefixes
// ---------------------------------------------------------------------------

/// Whether the hash at a place in the store begins with a prefix.
pub open spec fn fits(hexes: Seq<Seq<char>>, s: Seq<char>, i: int) -> bool {
    0 <= i < hexes.len() && text::has_prefix(hexes[i], s) && object::is_hash_text(hexes[i])
}

proof fn lemma_matching(hexes: Seq<Seq<char>>, s: Seq<char>)
    ensures
        ({
            let found = super::matching(hexes, s);
            &&& found.len() == 0 <==> forall|i: int| !#[trigger] fits(hexes, s, i)
            &&& found.len() == 1 ==> exists|i: int| #[trigger]
                fits(hexes, s, i) && hexes[i] == found[0] && forall|j: int| #[trigger]
                    fits(hexes, s, j) ==> j == i
            &&& found.len() > 1 ==> exists|i: int, j: int|
                i < j && #[trigger] fits(hexes, s, i) && #[trigger] fits(hexes, s, j)
        }),
    decreases hexes.len(),
{
    let found = super::matching(hexes, s);
    if hexes.len() > 0 {
        let init = hexes.drop_last();
        let last = hexes.len() - 1;
        lemma_matching(init, s);
        let prev = super::matching(init, s);
        assert forall|i: int| 0 <= i < last implies #[trigger] fits(hexes, s, i) == fits(
            init,
            s,
            i,
        ) by {}
        assert(fits(hexes, s, last) <==> found.len() == prev.len() + 1);
        if fits(hexes, s, last) {
            if prev.len() == 0 {
                assert forall|j: int| #[trigger] fits(hexes, s, j) implies j == last by {
                    if j < last {
                        assert(fits(init, s, j));
                    }
                }
                assert(hexes[last] == found[0]);
            } else {
                if prev.len() == 1 {
                    let i = choose|i: int| #[trigger]
                        fits(init, s, i) && init[i] == prev[0] && forall|j: int| #[trigger]
                            fits(init, s, j) ==> j == i;
                    assert(fits(hexes, s, i));
                } else {
                    let (i, j) = choose|i: int, j: int|
                        i < j && #[trigger] fits(init, s, i) && #[trigger] fits(init, s, j);
                    assert(fits(hexes, s, i) && fits(hexes, s, j));
                }
            }
        } else {
            assert(found == prev);
            if prev.len() == 0 {
                assert forall|i: int| !#[trigger] fits(hexes, s, i) by {
                    if fits(hexes, s, i) {
                        assert(fits(init, s, i));
                    }
                }
            } else if prev.len() == 1 {
                let i = choose|i: int| #[trigger]
                    fits(init, s, i) && init[i] == prev[0] && forall|j: int| #[trigger]
                        fits(init, s, j) ==> j == i;
                assert(fits(hexes, s, i) && hexes[i] == found[0]);
                assert forall|j: int| #[trigger] fits(hexes, s, j) implies j == i by {
                    assert(j != last);
                    assert(fits(init, s, j));
                }
            } else {
                let (i, j) = choose|i: int, j: int|
                    i < j && #[trigger] fits(init, s, i) && #[trigger] fits(init, s, j);
                assert(fits(hexes, s, i) && fits(hexes, s, j));
            }
        }
    }
}

/// A prefix that is long enough names the one object in the store whose hash begins with it.
/// It names none where there is no such object, and none where there are several.
pub proof fn law_prefix_names_the_only_match(
    s: Seq<char>,
    full_exists: bool,
    hexes: Seq<Seq<char>>,
    i: int,
)
    requires
        MIN_HASH_PREFIX_LEN <= text::byte_len(s),
        text::byte_len(s) != 64,
        fits(hexes, s, i),
    ensures
        super::resolved(s, full_exists, hexes) == if forall|j: int| #[trigger]
            fits(hexes, s, j) ==> j == i {
            Ok::<ObjectHash, HashError>(ObjectHash::of_hex(hexes[i]))
        } else {
            Err(HashError::Ambiguous)
        },
{
    lemma_matching(hexes, s);
    let found = super::matching(hexes, s);
    if found.len() == 1 {
        let x = choose|x: int| #[trigger]
            fits(hexes, s, x) && hexes[x] == found[0] && forall|j: int| #[trigger]
                fits(hexes, s, j) ==> j == x;
        assert(x == i);
    } else {
        let (x, y) = choose|x: int, y: int|
            x < y && #[trigger] fits(hexes, s, x) && #[trigger] fits(hexes, s, y);
        assert(x != i || y != i);
    }
}

/// A prefix that no hash in the store begins with names nothing, and neither does one that
/// is too short, whatever is in the store.
pub proof fn law_prefix_without_match(s: Seq<char>, full_exists: bool, hexes: Seq<Seq<char>>)
    requires
        text::byte_len(s) != 64,
    ensures
        text::byte_len(s) < MIN_HASH_PREFIX_LEN ==> super::resolved(s, full_exists, hexes) == Err::<
            ObjectHash,
            HashError,
        >(HashError::TooShort),
        text::byte_len(s) >= MIN_HASH_PREFIX_LEN && (forall|i: int| !#[trigger] fits(hexes, s, i))
            ==> super::resolved(s, full_exists, hexes) == Err::<ObjectHash, HashError>(
            HashError::NotFound,
        ),
{
    lemma_matching(hexes, s);
}

/// A full hash names its object exactly where that is in the store.
pub proof fn law_full_hash_names_itself(h: ObjectHash, full_exists: bool, hexes: Seq<Seq<char>>)
    requires
        text::byte_len(h.hex()) == 64,
    ensures
        super::resolved(h.hex(), full_exists, hexes) == if full_exists {
            Ok::<ObjectHash, HashError>(h)
        } else {
            Err(HashError::NotFound)
        },
{
    object::law_hash_text(h);
    object::law_hash_round_trip(h);
}

/// A hash that is shown reads as the hash; only zeros are not shown.
pub proof fn law_shown_hash_reads_back(h: ObjectHash)
    ensures
        match super::hash_or_null(h) {
            Some(t) => ObjectHash::of_hex(t) == h,
            None => h.w0 == 0 && h.w1 == 0 && h.w2 == 0 && h.w3 == 0,
        },
        super::hash_or_null(h) is None <==> h.w0 == 0 && h.w1 == 0 && h.w2 == 0 && h.w3 == 0,
{
    object::law_hash_round_trip(h);
}

// ---------------------------------------------------------------------------
// Bits
// ---------------------------------------------------------------------------

/// Doubling a number adds no set bit, and adding one to an even number adds one.
pub proof fn law_ones_of_halves(b: nat)
    ensures
        super::ones(2 * b) == super::ones(b),
        super::ones(2 * b + 1) == super::ones(b) + 1,
{
    if b > 0 {
        assert((2 * b) % 2 == 0 && (2 * b) / 2 == b);
    }
    assert((2 * b + 1) % 2 == 1 && (2 * b + 1) / 2 == b);
}

proof fn lemma_all_ones_sum(a: Seq<u8>, b: Seq<u8>)
    ensures
        super::all_ones(a + b) == super::all_ones(a) + super::all_ones(b),
    decreases b.len(),
{
    if b.len() > 0 {
        lemma_all_ones_sum(a, b.drop_last());
        assert((a + b).drop_last() =~= a + b.drop_last());
    } else {
        assert(a + b =~= a);
    }
}

/// The set bits of a filter are those behind its header of twenty bytes, whatever the header
/// holds, and those of two parts add up.
pub proof fn law_header_does_not_count(header: Seq<u8>, a: Seq<u8>, b: Seq<u8>)
    requires
        header.len() == 20,
    ensures
        super::set_bits(header + (a + b)) == super::set_bits(header + a) + super::set_bits(
            header + b,
        ),
        super::set_bits(header + seq![255u8]) == 8,
        super::set_bits(header) == 0,
{
    lemma_all_ones_sum(a, b);
    assert((header + (a + b)).skip(20) =~= a + b);
    assert((header + a).skip(20) =~= a);
    assert((header + b).skip(20) =~= b);
    assert((header + seq![255u8]).skip(20) =~= seq![255u8]);
    assert(super::all_ones(Seq::<u8>::empty()) == 0);
    if a.len() == 0 {
        assert(a =~= Seq::<u8>::empty());
    }
    if b.len() == 0 {
        assert(b =~= Seq::<u8>::empty());
    }
    reveal_with_fuel(super::ones, 9);
    assert(super::ones(255) == 8);
    assert(seq![255u8].drop_last() =~= Seq::<u8>::empty());
    assert(super::all_ones(seq![255u8]) == 8);
}

} // verus!
