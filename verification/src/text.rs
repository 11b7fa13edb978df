//! Text primitives. A string is seen as the sequence of its characters.

use vstd::prelude::*;
use vstd::string::*;
use vstd::utf8::*;

pub mod parts;

verus! {

/// `String::push` appends one character.
pub assume_specification[ String::push ](s: &mut String, c: char)
    ensures
        final(s)@ == old(s)@.push(c),
;

// ---------------------------------------------------------------------------
// Characters and slices
// ---------------------------------------------------------------------------

/// The characters of `s`, in order.
pub fn chars_of(s: &str) -> (r: Vec<char>)
    ensures
        r@ == s@,
{
    let mut out: Vec<char> = Vec::new();
    for c in it: s.chars()
        invariant
            out@ == s@.take(it.index() as int),
            it.seq() == s@,
    {
        out.push(c);
        assert(out@ =~= s@.take(it.index() + 1));
    }
    assert(out@ =~= s@);
    out
}

/// The string made of the characters `chars[from..to]`.
pub fn string_of(chars: &Vec<char>, from: usize, to: usize) -> (r: String)
    requires
        from <= to <= chars@.len(),
    ensures
        r@ == chars@.subrange(from as int, to as int),
{
    let mut out = String::new();
    let mut i: usize = from;
    while i < to
        invariant
            from <= i <= to <= chars@.len(),
            out@ == chars@.subrange(from as int, i as int),
        decreases to - i,
    {
        out.push(chars[i]);
        i = i + 1;
        assert(out@ =~= chars@.subrange(from as int, i as int));
    }
    out
}

/// Whether two strings hold the same characters.
pub fn str_eq(a: &str, b: &str) -> (r: bool)
    ensures
        r == (a@ == b@),
{
    let x: String = a.to_owned();
    let y: String = b.to_owned();
    x == y
}

/// `a` followed by `b`.
pub fn concat(a: &str, b: &str) -> (r: String)
    ensures
        r@ == a@ + b@,
{
    let mut s: String = a.to_owned();
    s.append(b);
    s
}

/// `a`, `b` and `c` in a row.
pub fn concat3(a: &str, b: &str, c: &str) -> (r: String)
    ensures
        r@ == a@ + b@ + c@,
{
    let mut s: String = a.to_owned();
    s.append(b);
    s.append(c);
    s
}

/// The characters of an optional string.
pub open spec fn opt_view(o: Option<String>) -> Option<Seq<char>> {
    match o {
        Some(s) => Some(s@),
        None => None,
    }
}

/// Whether two optional strings are both absent, or both present and equal.
pub fn opt_eq(a: &Option<String>, b: &Option<String>) -> (r: bool)
    ensures
        r == (opt_view(*a) == opt_view(*b)),
{
    match (a, b) {
        (Some(x), Some(y)) => *x == *y,
        (None, None) => true,
        _ => false,
    }
}

/// A copy of an optional string.
pub fn opt_copy(a: &Option<String>) -> (r: Option<String>)
    ensures
        r == *a,
{
    match a {
        Some(x) => Some(x.clone()),
        None => None,
    }
}

/// The characters of each string of a list.
pub open spec fn views(v: Seq<String>) -> Seq<Seq<char>> {
    Seq::new(v.len(), |i: int| v[i]@)
}

/// A copy of a list of strings.
pub fn copy_strings(v: &Vec<String>) -> (r: Vec<String>)
    ensures
        r@ == v@,
{
    let mut out: Vec<String> = Vec::new();
    let mut i: usize = 0;
    while i < v.len()
        invariant
            i <= v.len(),
            out@ == v@.take(i as int),
        decreases v.len() - i,
    {
        out.push(v[i].clone());
        i = i + 1;
        assert(out@ =~= v@.take(i as int));
    }
    assert(out@ =~= v@);
    out
}

// ---------------------------------------------------------------------------
// Prefixes, suffixes and search
// ---------------------------------------------------------------------------

/// Whether `s` begins with `p`.
pub open spec fn has_prefix(s: Seq<char>, p: Seq<char>) -> bool {
    p.len() <= s.len() && s.take(p.len() as int) == p
}

/// Whether `s` ends with `p`.
pub open spec fn has_suffix(s: Seq<char>, p: Seq<char>) -> bool {
    p.len() <= s.len() && s.skip(s.len() - p.len()) == p
}

/// Whether `p` stands in `s` at position `i`.
pub open spec fn occurs_at(s: Seq<char>, p: Seq<char>, i: int) -> bool {
    0 <= i && i + p.len() <= s.len() && s.subrange(i, i + p.len()) == p
}

/// Whether `p` stands anywhere in `s`.
pub open spec fn has_part(s: Seq<char>, p: Seq<char>) -> bool {
    exists|i: int| occurs_at(s, p, i)
}

/// Whether `chars` holds `p` at position `at`.
fn matches_at(chars: &Vec<char>, p: &Vec<char>, at: usize) -> (r: bool)
    requires
        at + p@.len() <= chars@.len(),
    ensures
        r == (chars@.subrange(at as int, at + p@.len()) == p@),
{
    let mut i: usize = 0;
    while i < p.len()
        invariant
            i <= p.len(),
            at + p.len() <= chars.len(),
            forall|k: int| 0 <= k < i ==> chars@[at + k] == p@[k],
        decreases p.len() - i,
    {
        if chars[at + i] != p[i] {
            assert(chars@.subrange(at as int, at + p@.len())[i as int] != p@[i as int]);
            return false;
        }
        i = i + 1;
    }
    assert(chars@.subrange(at as int, at + p@.len()) =~= p@);
    true
}

/// Whether `s` begins with `p`.
pub fn starts_with(s: &str, p: &str) -> (r: bool)
    ensures
        r == has_prefix(s@, p@),
{
    let a = chars_of(s);
    let b = chars_of(p);
    if b.len() > a.len() {
        return false;
    }
    let r = matches_at(&a, &b, 0);
    assert(a@.subrange(0, b@.len() as int) =~= a@.take(b@.len() as int));
    r
}

/// Whether `s` ends with `p`.
pub fn ends_with(s: &str, p: &str) -> (r: bool)
    ensures
        r == has_suffix(s@, p@),
{
    let a = chars_of(s);
    let b = chars_of(p);
    if b.len() > a.len() {
        return false;
    }
    let at: usize = a.len() - b.len();
    let r = matches_at(&a, &b, at);
    assert(a@.subrange(at as int, at + b@.len()) =~= a@.skip(a@.len() - b@.len()));
    r
}

/// Whether `p` stands anywhere in `s`.
pub fn contains(s: &str, p: &str) -> (r: bool)
    ensures
        r == has_part(s@, p@),
{
    let a = chars_of(s);
    let b = chars_of(p);
    if b.len() > a.len() {
        return false;
    }
    let last: usize = a.len() - b.len();
    let mut i: usize = 0;
    while i <= last
        invariant
            a@ == s@,
            b@ == p@,
            last == a@.len() - b@.len(),
            i <= last + 1,
            forall|k: int| 0 <= k < i ==> !occurs_at(s@, p@, k),
        decreases last + 1 - i,
    {
        if matches_at(&a, &b, i) {
            assert(occurs_at(s@, p@, i as int));
            return true;
        }
        if i == last {
            assert forall|k: int| !occurs_at(s@, p@, k) by {
                if occurs_at(s@, p@, k) {
                    assert(0 <= k <= last);
                }
            }
            return false;
        }
        i = i + 1;
    }
    false
}

/// The part of `s` after the prefix `p`, when `s` has that prefix.
pub fn strip_prefix(s: &str, p: &str) -> (r: Option<String>)
    ensures
        r is Some <==> has_prefix(s@, p@),
        r is Some ==> r->0@ == s@.skip(p@.len() as int),
{
    if starts_with(s, p) {
        let a = chars_of(s);
        let b = chars_of(p);
        assert(a@.subrange(b@.len() as int, a@.len() as int) =~= s@.skip(p@.len() as int));
        Some(string_of(&a, b.len(), a.len()))
    } else {
        None
    }
}

/// The part of `s` before the suffix `p`, when `s` has that suffix.
pub fn strip_suffix(s: &str, p: &str) -> (r: Option<String>)
    ensures
        r is Some <==> has_suffix(s@, p@),
        r is Some ==> r->0@ == s@.take(s@.len() - p@.len()),
{
    if ends_with(s, p) {
        let a = chars_of(s);
        let b = chars_of(p);
        assert(a@.subrange(0, a@.len() - b@.len()) =~= s@.take(s@.len() - p@.len()));
        Some(string_of(&a, 0, a.len() - b.len()))
    } else {
        None
    }
}

/// The first position from `from` on at which `c` stands, or the length.
pub open spec fn find_from(s: Seq<char>, c: char, from: nat) -> nat
    decreases s.len() - from,
{
    if from >= s.len() {
        s.len()
    } else if s[from as int] == c {
        from
    } else {
        find_from(s, c, from + 1)
    }
}

/// What stands at the position that `find_from` gives.
pub proof fn lemma_find_from(s: Seq<char>, c: char, from: nat)
    requires
        from <= s.len(),
    ensures
        from <= find_from(s, c, from) <= s.len(),
        find_from(s, c, from) < s.len() ==> s[find_from(s, c, from) as int] == c,
        forall|k: int| from <= k < find_from(s, c, from) ==> s[k] != c,
    decreases s.len() - from,
{
    if from < s.len() && s[from as int] != c {
        lemma_find_from(s, c, from + 1);
    }
}

/// The first position from `from` on at which `c` stands, or the length.
pub fn find_char(chars: &Vec<char>, c: char, from: usize) -> (r: usize)
    requires
        from <= chars@.len(),
    ensures
        r == find_from(chars@, c, from as nat),
        from <= r <= chars@.len(),
        r < chars@.len() ==> chars@[r as int] == c,
        forall|k: int| from <= k < r ==> chars@[k] != c,
{
    let mut i: usize = from;
    while i < chars.len()
        invariant
            from <= i <= chars@.len(),
            find_from(chars@, c, from as nat) == find_from(chars@, c, i as nat),
            forall|k: int| from <= k < i ==> chars@[k] != c,
        decreases chars.len() - i,
    {
        if chars[i] == c {
            return i;
        }
        i = i + 1;
    }
    i
}

// ---------------------------------------------------------------------------
// Splitting and joining
// ---------------------------------------------------------------------------

/// The pieces of `s` between occurrences of `sep`, from position `from` on.
pub open spec fn split_from(s: Seq<char>, sep: char, from: nat) -> Seq<Seq<char>>
    decreases s.len() - from,
{
    if from > s.len() {
        seq![]
    } else {
        let stop = find_from(s, sep, from);
        if from <= stop < s.len() {
            seq![s.subrange(from as int, stop as int)] + split_from(s, sep, stop + 1)
        } else {
            seq![s.subrange(from as int, s.len() as int)]
        }
    }
}

/// The non-empty pieces of a list.
pub open spec fn non_empty(parts: Seq<Seq<char>>) -> Seq<Seq<char>> {
    parts.filter(|p: Seq<char>| p.len() > 0)
}

/// The components of a `/`-separated path: its non-empty pieces.
pub open spec fn components(path: Seq<char>) -> Seq<Seq<char>> {
    non_empty(split_from(path, '/', 0))
}

proof fn lemma_find_in_first(a: Seq<char>, b: Seq<char>, c: char, from: nat)
    requires
        from <= a.len(),
    ensures
        find_from(a.push(c) + b, c, from) == find_from(a, c, from),
    decreases a.len() - from,
{
    let s = a.push(c) + b;
    if from < a.len() {
        assert(s[from as int] == a[from as int]);
        if a[from as int] != c {
            lemma_find_in_first(a, b, c, from + 1);
        }
    } else {
        assert(s[from as int] == c);
    }
}

proof fn lemma_find_in_second(a: Seq<char>, b: Seq<char>, c: char, from: nat)
    requires
        from <= b.len(),
    ensures
        find_from(a + b, c, a.len() + from) == a.len() + find_from(b, c, from),
    decreases b.len() - from,
{
    if from < b.len() {
        assert((a + b)[(a.len() + from) as int] == b[from as int]);
        if b[from as int] != c {
            lemma_find_in_second(a, b, c, from + 1);
        }
    }
}

proof fn lemma_split_second(a: Seq<char>, b: Seq<char>, sep: char, from: nat)
    requires
        from <= b.len(),
    ensures
        split_from(a + b, sep, a.len() + from) == split_from(b, sep, from),
    decreases b.len() - from,
{
    lemma_find_in_second(a, b, sep, from);
    lemma_find_from(b, sep, from);
    let stop = find_from(b, sep, from);
    let s = a + b;
    if stop < b.len() {
        lemma_split_second(a, b, sep, stop + 1);
        assert(s.subrange((a.len() + from) as int, (a.len() + stop) as int) =~= b.subrange(
            from as int,
            stop as int,
        ));
    } else {
        assert(s.subrange((a.len() + from) as int, s.len() as int) =~= b.subrange(
            from as int,
            b.len() as int,
        ));
    }
}

pub proof fn lemma_split_joined(a: Seq<char>, b: Seq<char>, sep: char, from: nat)
    requires
        from <= a.len(),
    ensures
        split_from(a.push(sep) + b, sep, from) == split_from(a, sep, from) + split_from(b, sep, 0),
    decreases a.len() - from,
{
    let s = a.push(sep) + b;
    lemma_find_in_first(a, b, sep, from);
    lemma_find_from(a, sep, from);
    let stop = find_from(a, sep, from);
    assert(s.subrange(from as int, stop as int) =~= a.subrange(from as int, stop as int));
    if stop < a.len() {
        lemma_split_joined(a, b, sep, stop + 1);
        assert(seq![a.subrange(from as int, stop as int)] + (split_from(a, sep, stop + 1)
            + split_from(b, sep, 0)) =~= (seq![a.subrange(from as int, stop as int)] + split_from(
            a,
            sep,
            stop + 1,
        )) + split_from(b, sep, 0));
    } else {
        lemma_split_second(a.push(sep), b, sep, 0);
    }
}

proof fn lemma_non_empty_sum(a: Seq<Seq<char>>, b: Seq<Seq<char>>)
    ensures
        non_empty(a + b) == non_empty(a) + non_empty(b),
    decreases b.len(),
{
    reveal(Seq::filter);
    if b.len() == 0 {
        assert(a + b =~= a);
        assert(non_empty(a) + non_empty(b) =~= non_empty(a));
    } else {
        lemma_non_empty_sum(a, b.drop_last());
        assert((a + b).drop_last() =~= a + b.drop_last());
        assert((a + b).last() == b.last());
        assert(non_empty(a + b) =~= non_empty(a) + non_empty(b));
    }
}

/// The empty path has no components.
pub proof fn lemma_components_of_empty(path: Seq<char>)
    requires
        path.len() == 0,
    ensures
        components(path) == Seq::<Seq<char>>::empty(),
{
    reveal(Seq::filter);
    assert(path.subrange(0, 0) =~= Seq::<char>::empty());
    assert(split_from(path, '/', 0) =~= seq![Seq::<char>::empty()]);
    assert(seq![Seq::<char>::empty()].drop_last() =~= Seq::<Seq<char>>::empty());
    assert(non_empty(Seq::<Seq<char>>::empty()) =~= Seq::<Seq<char>>::empty());
    assert(non_empty(seq![Seq::<char>::empty()]) =~= Seq::<Seq<char>>::empty());
}

/// A name with no separator in it is one component, behind those of the directory that it
/// is joined to.
pub proof fn lemma_components_joined(prefix: Seq<char>, name: Seq<char>)
    requires
        name.len() > 0,
        !name.contains('/'),
    ensures
        components(joined(prefix, name)) == components(prefix).push(name),
{
    reveal(Seq::filter);
    lemma_find_from(name, '/', 0);
    assert(find_from(name, '/', 0) == name.len()) by {
        if find_from(name, '/', 0) < name.len() {
            assert(name.contains(name[find_from(name, '/', 0) as int]));
        }
    }
    assert(name.subrange(0, name.len() as int) =~= name);
    assert(split_from(name, '/', 0) =~= seq![name]);
    assert(seq![name].drop_last() =~= Seq::<Seq<char>>::empty());
    assert(non_empty(seq![name]) =~= seq![name]);
    if prefix.len() > 0 {
        lemma_split_joined(prefix, name, '/', 0);
        lemma_non_empty_sum(split_from(prefix, '/', 0), seq![name]);
        assert(components(prefix).push(name) =~= components(prefix) + seq![name]);
    } else {
        lemma_components_of_empty(prefix);
        assert(components(prefix).push(name) =~= seq![name]);
    }
}

/// The pieces of `s` between occurrences of `sep`.
pub fn split(s: &str, sep: char) -> (r: Vec<String>)
    ensures
        views(r@) == split_from(s@, sep, 0),
        r@.len() > 0,
{
    let chars = chars_of(s);
    let mut out: Vec<String> = Vec::new();
    let mut from: usize = 0;
    assert(views(out@) + split_from(s@, sep, 0) =~= split_from(s@, sep, 0));
    loop
        invariant_except_break
            chars@ == s@,
            from <= s@.len(),
            views(out@) + split_from(s@, sep, from as nat) == split_from(s@, sep, 0),
        ensures
            views(out@) == split_from(s@, sep, 0),
            out@.len() > 0,
        decreases s@.len() - from,
    {
        let stop: usize = find_char(&chars, sep, from);
        let piece = string_of(&chars, from, stop);
        let ghost before = out@;
        out.push(piece);
        assert(views(out@) =~= views(before) + seq![piece@]);
        if stop < chars.len() {
            from = stop + 1;
            assert(views(out@) + split_from(s@, sep, from as nat) =~= views(before) + (seq![piece@]
                + split_from(s@, sep, from as nat)));
        } else {
            assert(views(out@) =~= split_from(s@, sep, 0));
            break;
        }
    }
    out
}

/// The components of a `/`-separated path.
pub fn path_components(path: &str) -> (r: Vec<String>)
    ensures
        views(r@) == components(path@),
        forall|i: int| 0 <= i < r@.len() ==> (#[trigger] r@[i])@.len() > 0,
{
    let parts = split(path, '/');
    let mut out: Vec<String> = Vec::new();
    let mut i: usize = 0;
    let ghost all = views(parts@);
    let ghost keep = |p: Seq<char>| p.len() > 0;
    assert(all.take(0).filter(keep) =~= seq![]) by {
        reveal(Seq::filter);
    }
    while i < parts.len()
        invariant
            i <= parts@.len(),
            all == views(parts@),
            keep == (|p: Seq<char>| p.len() > 0),
            views(out@) == all.take(i as int).filter(keep),
            forall|k: int| 0 <= k < out@.len() ==> (#[trigger] out@[k])@.len() > 0,
        decreases parts.len() - i,
    {
        let ghost before = out@;
        let ghost upto = all.take(i + 1);
        assert(upto.drop_last() =~= all.take(i as int));
        assert(upto.filter(keep) == if keep(upto.last()) {
            upto.drop_last().filter(keep).push(upto.last())
        } else {
            upto.drop_last().filter(keep)
        }) by {
            reveal(Seq::filter);
        }
        if !parts[i].as_str().is_empty() {
            out.push(parts[i].clone());
            assert(views(out@) =~= views(before).push(parts@[i as int]@));
        }
        i = i + 1;
    }
    assert(all.take(all.len() as int) =~= all);
    out
}

/// The pieces with `sep` between each two.
pub open spec fn join_with(parts: Seq<Seq<char>>, sep: Seq<char>) -> Seq<char>
    decreases parts.len(),
{
    if parts.len() == 0 {
        seq![]
    } else if parts.len() == 1 {
        parts[0]
    } else {
        join_with(parts.drop_last(), sep) + sep + parts.last()
    }
}

/// The pieces with `sep` between each two.
pub fn join(parts: &Vec<String>, sep: &str) -> (r: String)
    ensures
        r@ == join_with(views(parts@), sep@),
{
    assert(views(parts@).take(parts@.len() as int) =~= views(parts@));
    join_first(parts, parts.len(), sep)
}

/// The first `n` pieces with `sep` between each two.
pub fn join_first(parts: &Vec<String>, n: usize, sep: &str) -> (r: String)
    requires
        n <= parts@.len(),
    ensures
        r@ == join_with(views(parts@).take(n as int), sep@),
{
    let mut out = String::new();
    let mut i: usize = 0;
    let ghost all = views(parts@);
    assert(out@ =~= join_with(all.take(0), sep@));
    while i < n
        invariant
            i <= n <= parts@.len(),
            all == views(parts@),
            out@ == join_with(all.take(i as int), sep@),
        decreases n - i,
    {
        let ghost upto = all.take(i + 1);
        assert(upto.drop_last() =~= all.take(i as int));
        if i > 0 {
            out.append(sep);
        }
        out.append(parts[i].as_str());
        if i == 0 {
            assert(out@ =~= upto[0]);
        }
        i = i + 1;
    }
    out
}

/// `prefix/name`, or `name` alone where the prefix is empty.
pub open spec fn joined(prefix: Seq<char>, name: Seq<char>) -> Seq<char> {
    if prefix.len() == 0 {
        name
    } else {
        prefix.push('/') + name
    }
}

/// `prefix/name`, or `name` alone where the prefix is empty.
pub fn join_path(prefix: &str, name: &str) -> (r: String)
    ensures
        r@ == joined(prefix@, name@),
{
    if prefix.is_empty() {
        name.to_owned()
    } else {
        let mut s: String = prefix.to_owned();
        s.push('/');
        s.append(name);
        s
    }
}

// ---------------------------------------------------------------------------
// Trimming
// ---------------------------------------------------------------------------

/// The characters with the Unicode property `White_Space`.
pub open spec fn is_space(c: char) -> bool {
    let u = c as u32;
    ||| 0x09 <= u <= 0x0d
    ||| u == 0x20
    ||| u == 0x85
    ||| u == 0xa0
    ||| u == 0x1680
    ||| 0x2000 <= u <= 0x200a
    ||| u == 0x2028
    ||| u == 0x2029
    ||| u == 0x202f
    ||| u == 0x205f
    ||| u == 0x3000
}

fn space(c: char) -> (r: bool)
    ensures
        r == is_space(c),
{
    let u: u32 = c as u32;
    (0x09 <= u && u <= 0x0d) || u == 0x20 || u == 0x85 || u == 0xa0 || u == 0x1680 || (0x2000 <= u
        && u <= 0x200a) || u == 0x2028 || u == 0x2029 || u == 0x202f || u == 0x205f || u == 0x3000
}

/// `s` without the white space at its start.
pub open spec fn trim_start(s: Seq<char>) -> Seq<char>
    decreases s.len(),
{
    if s.len() > 0 && is_space(s[0]) {
        trim_start(s.drop_first())
    } else {
        s
    }
}

/// `s` without the white space at its end.
pub open spec fn trim_end(s: Seq<char>) -> Seq<char>
    decreases s.len(),
{
    if s.len() > 0 && is_space(s.last()) {
        trim_end(s.drop_last())
    } else {
        s
    }
}

/// `s` without the white space at its two ends.
pub open spec fn trimmed(s: Seq<char>) -> Seq<char> {
    trim_end(trim_start(s))
}

/// `s` without the white space at its two ends.
pub fn trim(s: &str) -> (r: String)
    ensures
        r@ == trimmed(s@),
{
    let chars = chars_of(s);
    let mut from: usize = 0;
    assert(s@.skip(0) =~= s@);
    while from < chars.len() && space(chars[from])
        invariant
            chars@ == s@,
            from <= s@.len(),
            trim_start(s@) == trim_start(s@.skip(from as int)),
        decreases chars.len() - from,
    {
        assert(s@.skip(from as int).drop_first() =~= s@.skip(from + 1));
        from = from + 1;
    }
    let ghost head = trim_start(s@);
    assert(head == s@.skip(from as int));
    let mut to: usize = chars.len();
    assert(s@.subrange(from as int, to as int) =~= head);
    while to > from && space(chars[to - 1])
        invariant
            chars@ == s@,
            from <= to <= s@.len(),
            trim_end(head) == trim_end(s@.subrange(from as int, to as int)),
        decreases to,
    {
        assert(s@.subrange(from as int, to as int).drop_last() =~= s@.subrange(
            from as int,
            to - 1,
        ));
        to = to - 1;
    }
    string_of(&chars, from, to)
}

// ---------------------------------------------------------------------------
// Numbers
// ---------------------------------------------------------------------------

/// The decimal digit of `d`.
pub open spec fn digit(d: nat) -> char {
    ('0' as u32 + d) as char
}

/// `n` in decimal.
pub open spec fn decimal(n: nat) -> Seq<char>
    decreases n,
{
    if n < 10 {
        seq![digit(n)]
    } else {
        decimal(n / 10).push(digit(n % 10))
    }
}

/// The decimal digit of `d`.
pub fn digit_char(d: u64) -> (r: char)
    requires
        d < 10,
    ensures
        r == digit(d as nat),
{
    let b: u8 = 48 + d as u8;
    b as char
}

/// `n` in decimal.
pub fn decimal_of(n: u64) -> (r: String)
    ensures
        r@ == decimal(n as nat),
    decreases n,
{
    if n < 10 {
        let mut s = String::new();
        s.push(digit_char(n));
        assert(s@ =~= seq![digit(n as nat)]);
        s
    } else {
        let mut s = decimal_of(n / 10);
        s.push(digit_char(n % 10));
        s
    }
}

/// Whether every character of `s` is a decimal digit.
pub open spec fn all_digits(s: Seq<char>) -> bool {
    forall|i: int| 0 <= i < s.len() ==> '0' <= #[trigger] s[i] <= '9'
}

/// The number that a row of decimal digits writes.
pub open spec fn number(s: Seq<char>) -> nat
    decreases s.len(),
{
    if s.len() == 0 {
        0
    } else {
        (number(s.drop_last()) * 10 + (s.last() as u32 - '0' as u32)) as nat
    }
}

/// The digits of a number as it is written: without its one leading `+`.
pub open spec fn unsigned(s: Seq<char>) -> Seq<char> {
    if s.len() > 0 && s[0] == '+' {
        s.drop_first()
    } else {
        s
    }
}

/// What a text reads as: one optional `+`, then at least one digit, at most `max`.
pub open spec fn parsed(s: Seq<char>, max: nat) -> Option<nat> {
    let d = unsigned(s);
    if d.len() > 0 && all_digits(d) && number(d) <= max {
        Some(number(d))
    } else {
        None
    }
}

/// A number that is written in decimal reads as itself, and is written with digits only.
pub proof fn law_decimal_round_trip(n: nat)
    ensures
        all_digits(decimal(n)),
        decimal(n).len() > 0,
        number(decimal(n)) == n,
        n <= u64::MAX ==> parsed(decimal(n), u64::MAX as nat) == Some(n),
    decreases n,
{
    let d = decimal(n);
    if n < 10 {
        assert(d.drop_last() =~= Seq::<char>::empty());
        assert(d.last() == digit(n));
        assert(number(d.drop_last()) == 0);
        assert('0' <= digit(n) <= '9');
    } else {
        law_decimal_round_trip(n / 10);
        assert(d.drop_last() =~= decimal(n / 10));
        assert('0' <= digit(n % 10) <= '9');
        assert forall|i: int| 0 <= i < d.len() implies '0' <= #[trigger] d[i] <= '9' by {
            if i < d.len() - 1 {
                assert(d[i] == decimal(n / 10)[i]);
            }
        }
    }
    assert('0' <= d[0] <= '9');
    assert(unsigned(d) == d);
}

proof fn lemma_number_grows(s: Seq<char>, n: int)
    requires
        all_digits(s),
        0 <= n <= s.len(),
    ensures
        number(s.take(n)) <= number(s),
    decreases s.len(),
{
    if n == s.len() {
        assert(s.take(n) =~= s);
    } else {
        lemma_number_grows(s.drop_last(), n);
        assert(s.drop_last().take(n) =~= s.take(n));
        assert('0' <= s[s.len() - 1] <= '9');
    }
}

/// Reads a 64-bit number; see [`parsed`].
pub fn parse_u64(s: &str) -> (r: Option<u64>)
    ensures
        r is Some <==> parsed(s@, u64::MAX as nat) is Some,
        r is Some ==> r->0 == parsed(s@, u64::MAX as nat)->0,
{
    let chars = chars_of(s);
    let mut i: usize = 0;
    if chars.len() > 0 && chars[0] == '+' {
        i = 1;
    }
    let start: usize = i;
    let ghost d = unsigned(s@);
    assert(d =~= s@.skip(start as int));
    if i == chars.len() {
        return None;
    }
    let mut n: u64 = 0;
    assert(d.take(0) =~= seq![]);
    while i < chars.len()
        invariant
            chars@ == s@,
            start <= i <= chars@.len(),
            start <= 1,
            d == s@.skip(start as int),
            d.len() > 0,
            d == unsigned(s@),
            forall|k: int| 0 <= k < i - start ==> '0' <= #[trigger] d[k] <= '9',
            n == number(d.take(i - start)),
        decreases chars.len() - i,
    {
        let c = chars[i];
        assert(c == d[i - start]);
        if c < '0' || c > '9' {
            return None;
        }
        let ghost upto = d.take(i - start + 1);
        assert(upto.drop_last() =~= d.take(i - start));
        let v: u64 = (c as u32 - '0' as u32) as u64;
        if n > (u64::MAX - v) / 10 {
            proof {
                assert(number(upto) > u64::MAX);
                if all_digits(d) {
                    lemma_number_grows(d, i - start + 1);
                }
            }
            return None;
        }
        n = n * 10 + v;
        i = i + 1;
    }
    assert(d.take(i - start) =~= d);
    Some(n)
}

/// Reads a machine-sized number; see [`parsed`].
pub fn parse_usize(s: &str) -> (r: Option<usize>)
    ensures
        r is Some <==> parsed(s@, usize::MAX as nat) is Some,
        r is Some ==> r->0 == parsed(s@, usize::MAX as nat)->0,
{
    match parse_u64(s) {
        Some(n) => if n <= usize::MAX as u64 {
            Some(n as usize)
        } else {
            None
        },
        None => None,
    }
}

/// Whether `c` is a hexadecimal digit of either case.
pub open spec fn is_hex(c: char) -> bool {
    ||| '0' <= c <= '9'
    ||| 'a' <= c <= 'f'
    ||| 'A' <= c <= 'F'
}

/// Whether `c` is a hexadecimal digit of either case.
pub fn hex_digit(c: char) -> (r: bool)
    ensures
        r == is_hex(c),
{
    ('0' <= c && c <= '9') || ('a' <= c && c <= 'f') || ('A' <= c && c <= 'F')
}

// ---------------------------------------------------------------------------
// Layout
// ---------------------------------------------------------------------------

/// `n` times the character `c`.
pub open spec fn repeated(c: char, n: nat) -> Seq<char> {
    Seq::new(n, |i: int| c)
}

/// `n` times the character `c`.
pub fn repeat(c: char, n: usize) -> (r: String)
    ensures
        r@ == repeated(c, n as nat),
{
    let mut s = String::new();
    let mut i: usize = 0;
    while i < n
        invariant
            i <= n,
            s@ =~= repeated(c, i as nat),
        decreases n - i,
    {
        s.push(c);
        i = i + 1;
    }
    s
}

/// How many blanks bring `s` to `width` characters.
pub open spec fn fill(s: Seq<char>, width: nat) -> Seq<char> {
    repeated(' ', if s.len() < width { (width - s.len()) as nat } else { 0 })
}

/// `s` with blanks behind it up to `width` characters.
pub open spec fn left_in(s: Seq<char>, width: nat) -> Seq<char> {
    s + fill(s, width)
}

/// `s` with blanks before it up to `width` characters.
pub open spec fn right_in(s: Seq<char>, width: nat) -> Seq<char> {
    fill(s, width) + s
}

fn blanks_for(s: &str, width: usize) -> (r: String)
    ensures
        r@ == fill(s@, width as nat),
{
    let n: usize = s.unicode_len();
    if n < width {
        repeat(' ', width - n)
    } else {
        repeat(' ', 0)
    }
}

/// `s` with blanks behind it up to `width` characters.
pub fn align_left(s: &str, width: usize) -> (r: String)
    ensures
        r@ == left_in(s@, width as nat),
{
    let b = blanks_for(s, width);
    concat(s, b.as_str())
}

/// `s` with blanks before it up to `width` characters.
pub fn align_right(s: &str, width: usize) -> (r: String)
    ensures
        r@ == right_in(s@, width as nat),
{
    let b = blanks_for(s, width);
    concat(b.as_str(), s)
}

/// The length of `s` in UTF-8 bytes.
pub open spec fn byte_len(s: Seq<char>) -> nat {
    encode_utf8(s).len()
}

/// `s` with every `from` replaced by `to`.
pub open spec fn replaced(s: Seq<char>, from: char, to: char) -> Seq<char> {
    Seq::new(s.len(), |i: int| if s[i] == from { to } else { s[i] })
}

/// `s` with every `from` replaced by `to`.
pub fn replace_char(s: &str, from: char, to: char) -> (r: String)
    ensures
        r@ == replaced(s@, from, to),
{
    let chars = chars_of(s);
    let mut out = String::new();
    let mut i: usize = 0;
    while i < chars.len()
        invariant
            chars@ == s@,
            i <= chars@.len(),
            out@ =~= replaced(s@, from, to).take(i as int),
        decreases chars.len() - i,
    {
        let c = chars[i];
        if c == from {
            out.push(to);
        } else {
            out.push(c);
        }
        i = i + 1;
    }
    assert(out@ =~= replaced(s@, from, to));
    out
}

/// The length of `s` in UTF-8 bytes.
pub fn byte_count(s: &str) -> (r: usize)
    ensures
        r == byte_len(s@),
{
    s.as_bytes().len()
}

/// A text takes at least one byte for each character.
pub proof fn lemma_byte_len(s: Seq<char>)
    ensures
        byte_len(s) >= s.len(),
    decreases s.len(),
{
    if s.len() > 0 {
        lemma_byte_len(s.drop_first());
    }
}

/// Whether a text can be cut behind its first `at` bytes: no character spans the place.
pub open spec fn cuts(s: Seq<char>, at: int) -> bool {
    is_char_boundary(encode_utf8(s), at)
}

/// The characters that the bytes from `from` up to `to` make up.
pub open spec fn in_bytes(s: Seq<char>, from: int, to: int) -> Seq<char> {
    decode_utf8(encode_utf8(s).subrange(from, to))
}

proof fn lemma_boundary_behind(bytes: Seq<u8>, from: int, to: int)
    requires
        valid_utf8(bytes),
        0 <= from <= to <= bytes.len(),
        is_char_boundary(bytes, from),
        is_char_boundary(bytes, to),
    ensures
        valid_utf8(bytes.skip(from)),
        is_char_boundary(bytes.skip(from), to - from),
    decreases bytes.len(),
{
    if from == 0 {
        assert(bytes.skip(0) =~= bytes);
    } else {
        let k = length_of_first_scalar(bytes);
        let rest = pop_first_scalar(bytes);
        assert(rest =~= bytes.skip(k));
        assert(valid_utf8(rest));
        reveal_with_fuel(is_char_boundary, 2);
        lemma_boundary_behind(rest, from - k, to - k);
        assert(rest.skip(from - k) =~= bytes.skip(from));
    }
}

/// The part of a text from byte `from` up to byte `to`.
pub fn slice_bytes(s: &str, from: usize, to: usize) -> (r: String)
    requires
        from <= to <= byte_len(s@),
        cuts(s@, from as int),
        cuts(s@, to as int),
    ensures
        r@ == in_bytes(s@, from as int, to as int),
{
    broadcast use {encode_utf8_valid_utf8, encode_utf8_decode_utf8};

    let ghost bytes = encode_utf8(s@);
    proof {
        lemma_boundary_behind(bytes, from as int, to as int);
    }
    let (_, rest) = s.split_at(from);
    assert(encode_utf8(rest@) =~= bytes.skip(from as int));
    let (part, _) = rest.split_at(to - from);
    assert(encode_utf8(part@) =~= bytes.subrange(from as int, to as int));
    part.to_owned()
}

/// Of a text in ASCII, bytes are characters.
pub proof fn lemma_ascii_bytes(s: Seq<char>, from: int, to: int)
    requires
        is_ascii_chars(s),
        0 <= from <= to <= s.len(),
    ensures
        byte_len(s) == s.len(),
        cuts(s, from),
        in_bytes(s, from, to) == s.subrange(from, to),
        from < s.len() ==> encode_utf8(s)[from] == s[from] as u8,
{
    broadcast use {
        encode_utf8_valid_utf8,
        encode_utf8_decode_utf8,
        is_ascii_chars_encode_utf8,
        is_char_boundary_start_end_of_seq,
        is_char_boundary_iff_is_leading_byte,
    };

    let bytes = encode_utf8(s);
    let part = s.subrange(from, to);
    assert(is_ascii_chars(part));
    assert(encode_utf8(part) =~= bytes.subrange(from, to));
    if from < s.len() {
        assert(bytes[from] < 128);
        assert(is_leading_byte_width_1(bytes[from]));
    }
}

/// `s` without the characters `c` at its end.
pub open spec fn trim_end_of(s: Seq<char>, c: char) -> Seq<char>
    decreases s.len(),
{
    if s.len() > 0 && s.last() == c {
        trim_end_of(s.drop_last(), c)
    } else {
        s
    }
}

/// `s` without the characters `c` at its end.
pub fn trim_char_end(s: &str, c: char) -> (r: String)
    ensures
        r@ == trim_end_of(s@, c),
{
    let chars = chars_of(s);
    let mut n: usize = chars.len();
    assert(s@.take(n as int) =~= s@);
    while n > 0 && chars[n - 1] == c
        invariant
            n <= chars@.len(),
            chars@ == s@,
            trim_end_of(s@, c) == trim_end_of(s@.take(n as int), c),
        decreases n,
    {
        assert(s@.take(n as int).drop_last() =~= s@.take(n - 1));
        n = n - 1;
    }
    assert(s@.take(n as int) =~= s@.subrange(0, n as int));
    string_of(&chars, 0, n)
}

} // verus!
