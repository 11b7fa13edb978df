//! What splitting, joining, trimming and laying out a text keep of it.

use crate::text;
use vstd::prelude::*;

verus! {

/// The pieces of a text hold no separator, and with a separator between each two they are
/// the text again.
pub proof fn law_pieces_make_the_text(s: Seq<char>, sep: char)
    ensures
        text::split_from(s, sep, 0).len() > 0,
        text::join_with(text::split_from(s, sep, 0), seq![sep]) == s,
        forall|i: int|
            0 <= i < text::split_from(s, sep, 0).len() ==> !(#[trigger] text::split_from(
                s,
                sep,
                0,
            )[i]).contains(sep),
{
    lemma_pieces_from(s, sep, 0);
    assert(s.subrange(0, s.len() as int) =~= s);
}

proof fn lemma_join_front(p: Seq<char>, rest: Seq<Seq<char>>, sep: Seq<char>)
    requires
        rest.len() > 0,
    ensures
        text::join_with(seq![p] + rest, sep) == p + sep + text::join_with(rest, sep),
    decreases rest.len(),
{
    let all = seq![p] + rest;
    assert(all.last() == rest.last());
    assert(all.drop_last() =~= seq![p] + rest.drop_last());
    if rest.len() == 1 {
        assert(all.drop_last() =~= seq![p]);
        assert(text::join_with(seq![p], sep) == p);
    } else {
        lemma_join_front(p, rest.drop_last(), sep);
        assert(text::join_with(all, sep) =~= p + sep + text::join_with(rest, sep));
    }
}

proof fn lemma_pieces_from(s: Seq<char>, sep: char, from: nat)
    requires
        from <= s.len(),
    ensures
        text::split_from(s, sep, from).len() > 0,
        text::join_with(text::split_from(s, sep, from), seq![sep]) == s.subrange(
            from as int,
            s.len() as int,
        ),
        forall|i: int|
            0 <= i < text::split_from(s, sep, from).len() ==> !(#[trigger] text::split_from(
                s,
                sep,
                from,
            )[i]).contains(sep),
    decreases s.len() - from,
{
    text::lemma_find_from(s, sep, from);
    let stop = text::find_from(s, sep, from);
    let first = s.subrange(from as int, stop as int);
    assert forall|k: int| 0 <= k < first.len() implies first[k] != sep by {
        assert(first[k] == s[from + k]);
    }
    let all = text::split_from(s, sep, from);
    if stop < s.len() {
        lemma_pieces_from(s, sep, stop + 1);
        let rest = text::split_from(s, sep, stop + 1);
        lemma_join_front(first, rest, seq![sep]);
        assert(s.subrange(from as int, s.len() as int) =~= first + seq![sep] + s.subrange(
            stop as int + 1,
            s.len() as int,
        ));
        assert forall|i: int| 0 <= i < all.len() implies !(#[trigger] all[i]).contains(sep) by {
            if i > 0 {
                assert(all[i] == rest[i - 1]);
            }
        }
    }
}

/// What is trimmed off a text is white space, and what is left has none at its ends.
pub proof fn law_only_outer_space_is_trimmed(s: Seq<char>)
    ensures
        exists|a: int, b: int|
            0 <= a <= b <= s.len() && text::trimmed(s) == #[trigger] s.subrange(a, b) && (forall|
                i: int,
            |
                0 <= i < a || b <= i < s.len() ==> text::is_space(#[trigger] s[i])),
        text::trimmed(s).len() > 0 ==> !text::is_space(text::trimmed(s)[0]) && !text::is_space(
            text::trimmed(s).last(),
        ),
{
    lemma_trim_start(s);
    let mid = text::trim_start(s);
    lemma_trim_end(mid);
    let a = s.len() - mid.len();
    let b = a + text::trim_end(mid).len();
    assert(s.subrange(a, b) =~= text::trim_end(mid)) by {
        assert forall|i: int| 0 <= i < b - a implies s.subrange(a, b)[i] == text::trim_end(
            mid,
        )[i] by {
            assert(mid[i] == s[a + i]);
        }
    }
    assert forall|i: int| 0 <= i < a || b <= i < s.len() implies text::is_space(
        #[trigger] s[i],
    ) by {
        if i >= b {
            assert(mid[i - a] == s[i]);
        }
    }
}

proof fn lemma_trim_start(s: Seq<char>)
    ensures
        text::trim_start(s).len() <= s.len(),
        text::trim_start(s) == s.skip(s.len() - text::trim_start(s).len()),
        forall|i: int|
            0 <= i < s.len() - text::trim_start(s).len() ==> text::is_space(#[trigger] s[i]),
        text::trim_start(s).len() > 0 ==> !text::is_space(text::trim_start(s)[0]),
    decreases s.len(),
{
    if s.len() > 0 && text::is_space(s[0]) {
        let rest = s.drop_first();
        lemma_trim_start(rest);
        let n = s.len() - text::trim_start(s).len();
        assert(s.skip(n) =~= rest.skip(n - 1));
        assert forall|i: int| 0 <= i < n implies text::is_space(#[trigger] s[i]) by {
            if i > 0 {
                assert(rest[i - 1] == s[i]);
            }
        }
    } else {
        assert(s.skip(0) =~= s);
    }
}

proof fn lemma_trim_end(s: Seq<char>)
    ensures
        text::trim_end(s).len() <= s.len(),
        text::trim_end(s) == s.take(text::trim_end(s).len() as int),
        forall|i: int| text::trim_end(s).len() <= i < s.len() ==> text::is_space(#[trigger] s[i]),
        text::trim_end(s).len() > 0 ==> !text::is_space(text::trim_end(s).last()),
    decreases s.len(),
{
    if s.len() > 0 && text::is_space(s.last()) {
        let rest = s.drop_last();
        lemma_trim_end(rest);
        let n = text::trim_end(s).len() as int;
        assert(s.take(n) =~= rest.take(n));
        assert forall|i: int| n <= i < s.len() implies text::is_space(#[trigger] s[i]) by {
            if i < s.len() - 1 {
                assert(rest[i] == s[i]);
            }
        }
    } else {
        assert(s.take(s.len() as int) =~= s);
    }
}

/// What is cut off the end of a text is one character again and again, and what is left
/// does not end in it.
pub proof fn law_only_the_character_is_cut_off(s: Seq<char>, c: char)
    ensures
        text::trim_end_of(s, c).len() <= s.len(),
        s == text::trim_end_of(s, c) + Seq::new(
            (s.len() - text::trim_end_of(s, c).len()) as nat,
            |i: int| c,
        ),
        text::trim_end_of(s, c).len() > 0 ==> text::trim_end_of(s, c).last() != c,
    decreases s.len(),
{
    if s.len() > 0 && s.last() == c {
        let rest = s.drop_last();
        law_only_the_character_is_cut_off(rest, c);
        let kept = text::trim_end_of(s, c);
        let tail = Seq::new((rest.len() - kept.len()) as nat, |i: int| c);
        assert(s =~= rest.push(c));
        assert(tail.push(c) =~= Seq::new((s.len() - kept.len()) as nat, |i: int| c));
        assert(s =~= kept + tail.push(c));
    } else {
        assert(s =~= s + Seq::new(0, |i: int| c));
    }
}

/// A text that is laid out in a column keeps its characters, fills the column with blanks,
/// and is never cut.
pub proof fn law_columns_are_filled(s: Seq<char>, width: nat)
    ensures
        text::left_in(s, width).len() == if s.len() < width {
            width
        } else {
            s.len()
        },
        text::right_in(s, width).len() == text::left_in(s, width).len(),
        text::left_in(s, width).take(s.len() as int) == s,
        text::right_in(s, width).skip(text::right_in(s, width).len() - s.len()) == s,
        forall|i: int|
            s.len() <= i < text::left_in(s, width).len() ==> #[trigger] text::left_in(
                s,
                width,
            )[i] == ' ',
        forall|i: int|
            0 <= i < text::right_in(s, width).len() - s.len() ==> #[trigger] text::right_in(
                s,
                width,
            )[i] == ' ',
{
}

/// Replacing a character keeps every other one in its place, leaves none of those that
/// were to go, and where the new one did not stand before is undone by replacing it back.
pub proof fn law_replacing_is_undone(s: Seq<char>, from: char, to: char)
    ensures
        from != to ==> !text::replaced(s, from, to).contains(from),
        !s.contains(to) ==> text::replaced(text::replaced(s, from, to), to, from) == s,
        !s.contains(from) ==> text::replaced(s, from, to) == s,
{
    let r = text::replaced(s, from, to);
    if !s.contains(to) {
        assert forall|i: int| 0 <= i < s.len() implies text::replaced(r, to, from)[i]
            == s[i] by {
            assert(s.contains(s[i]));
        }
        assert(text::replaced(r, to, from) =~= s);
    }
    if !s.contains(from) {
        assert forall|i: int| 0 <= i < s.len() implies r[i] == s[i] by {
            assert(s.contains(s[i]));
        }
        assert(r =~= s);
    }
}

} // verus!
