//! Which targets are split, and what the pieces of JSON are.

use super::Token;
use crate::text;
use vstd::prelude::*;

verus! {

/// Whether a text is four or more hexadecimal digits.
pub open spec fn digits_of_a_hash(s: Seq<char>) -> bool {
    s.len() >= 4 && forall|i: int|
        0 <= i < s.len() ==> ('0' <= #[trigger] s[i] <= '9' || 'a' <= s[i] <= 'f' || 'A' <= s[i]
            <= 'F')
}

/// A target is split behind what stands before its first colon or slash exactly where that
/// is at least four hexadecimal digits; any other target, but for those that begin with the
/// name of a root, is taken whole.
pub proof fn law_only_hashes_are_split_off(head: Seq<char>, sep: char, path: Seq<char>)
    requires
        sep == ':' || sep == '/',
        !head.contains(':'),
        !head.contains('/'),
        head != "clone-root"@,
        head != "remote-root"@,
    ensures
        super::target_parts(head.push(sep) + path) == if digits_of_a_hash(head) {
            (
                head,
                if path.len() == 0 {
                    None
                } else {
                    Some(path)
                },
            )
        } else {
            (head.push(sep) + path, None)
        },
        super::target_parts(head) == (head, None::<Seq<char>>),
{
    let t = head.push(sep) + path;
    lemma_no_alias(head, sep, path, "clone-root"@);
    lemma_no_alias(head, sep, path, "remote-root"@);
    lemma_first(t, head.len(), 0);
    lemma_first(head, head.len(), 0);
    assert(t.take(head.len() as int) =~= head);
    assert(t.skip(head.len() as int + 1) =~= path);
    if digits_of_a_hash(head) {
        assert forall|i: int| 0 <= i < head.len() implies text::is_hex(#[trigger] head[i]) by {}
        assert(super::prefix_shaped(head));
    } else if super::prefix_shaped(head) {
        assert forall|i: int| 0 <= i < head.len() implies ('0' <= #[trigger] head[i] <= '9' || 'a'
            <= head[i] <= 'f' || 'A' <= head[i] <= 'F') by {
            assert(text::is_hex(head[i]));
        }
    }
}

proof fn lemma_first(s: Seq<char>, at: nat, from: nat)
    requires
        from <= at <= s.len(),
        at < s.len() ==> s[at as int] == ':' || s[at as int] == '/',
        forall|i: int| 0 <= i < at ==> #[trigger] s[i] != ':' && s[i] != '/',
    ensures
        super::first_separator(s, from) == at,
    decreases at - from,
{
    if from < at {
        lemma_first(s, at, from + 1);
    }
}

proof fn lemma_no_alias(head: Seq<char>, sep: char, path: Seq<char>, alias: Seq<char>)
    requires
        sep == ':' || sep == '/',
        !head.contains(':'),
        !head.contains('/'),
        head != alias,
        alias == "clone-root"@ || alias == "remote-root"@,
    ensures
        super::split_alias(head.push(sep) + path, alias) is None,
        super::split_alias(head, alias) is None,
        forall|i: int|
            0 <= i < head.len() ==> (#[trigger] (head.push(sep) + path)[i]) != ':' && (head.push(
                sep,
            ) + path)[i] != '/',
{
    let t = head.push(sep) + path;
    reveal_strlit("clone-root");
    reveal_strlit("remote-root");
    assert forall|i: int| 0 <= i < head.len() implies (#[trigger] t[i]) != ':' && t[i] != '/' by {
        assert(head.contains(head[i]));
        assert(t[i] == head[i]);
    }
    assert forall|i: int| 0 <= i < alias.len() implies #[trigger] alias[i] != ':' && alias[i]
        != '/' by {}
    assert(t[head.len() as int] == sep);
    if t == alias {
        assert(alias[head.len() as int] == sep);
    }
    assert forall|c: char| c == ':' || c == '/' implies !text::has_prefix(
        t,
        #[trigger] alias.push(c),
    ) && !text::has_prefix(head, alias.push(c)) by {
        let a = alias.push(c);
        let n = alias.len() as int;
        if text::has_prefix(t, a) {
            assert(t.take(n + 1)[n] == t[n]);
            assert(a[n] == c);
            if n < head.len() {
                assert(t[n] != c);
            } else if n > head.len() {
                assert(t.take(n + 1)[head.len() as int] == sep);
                assert(a[head.len() as int] == alias[head.len() as int]);
            } else {
                assert forall|i: int| 0 <= i < n implies head[i] == alias[i] by {
                    assert(t.take(n + 1)[i] == t[i]);
                    assert(a[i] == alias[i]);
                }
                assert(head =~= alias);
            }
        }
        if text::has_prefix(head, a) {
            assert(head.take(n + 1)[n] == head[n]);
            assert(a[n] == c);
            assert(head.contains(head[n]));
        }
    }
}

// ---------------------------------------------------------------------------
// JSON
// ---------------------------------------------------------------------------

/// A quoted text is one piece, with its quotes, up to the first quote that no backslash
/// escapes. It is a key exactly where a colon follows, blanks and line breaks aside.
pub proof fn law_quoted_text_is_one_piece(body: Seq<char>, blanks: Seq<char>, rest: Seq<char>)
    requires
        !body.contains('"'),
        !body.contains('\\'),
        forall|i: int|
            0 <= i < blanks.len() ==> (#[trigger] blanks[i] == ' ' || blanks[i] == '\n'
                || blanks[i] == '\r'),
        rest.len() > 0,
        rest[0] != ' ' && rest[0] != '\n' && rest[0] != '\r',
    ensures
        ({
            let quoted = seq!['"'] + body + seq!['"'];
            let ps = super::tokens(quoted + blanks + rest, 0);
            &&& ps.len() >= 2
            &&& ps[0].1 == quoted
            &&& ps[0].0 == if rest[0] == ':' {
                Token::Key
            } else {
                Token::Text
            }
            &&& ps[1] == (Token::Plain, blanks)
        }),
{
    let quoted = seq!['"'] + body + seq!['"'];
    let s = quoted + blanks + rest;
    assert(s[0] == '"');
    assert forall|i: int| 1 <= i < 1 + body.len() implies #[trigger] s[i] != '"' && s[i]
        != '\\' by {
        assert(s[i] == body[i - 1]);
        assert(body.contains(body[i - 1]));
    }
    assert(s[body.len() as int + 1] == '"');
    lemma_quote(s, 1, (body.len() + 1) as nat);
    let end = quoted.len();
    assert forall|i: int| end <= i < end + blanks.len() implies (#[trigger] s[i] == ' ' || s[i]
        == '\n' || s[i] == '\r') by {
        assert(s[i] == blanks[i - end]);
    }
    assert(s[(end + blanks.len()) as int] == rest[0]);
    lemma_blanks(s, end, (end + blanks.len()) as nat);
    assert(s.subrange(0, end as int) =~= quoted);
    assert(s.subrange(end as int, (end + blanks.len()) as int) =~= blanks);
}

proof fn lemma_quote(s: Seq<char>, i: nat, at: nat)
    requires
        i <= at < s.len(),
        s[at as int] == '"',
        forall|k: int| i <= k < at ==> #[trigger] s[k] != '"' && s[k] != '\\',
    ensures
        super::quote_end(s, i, false) == at + 1,
    decreases at - i,
{
    if i < at {
        lemma_quote(s, i + 1, at);
    }
}

proof fn lemma_blanks(s: Seq<char>, i: nat, at: nat)
    requires
        i <= at < s.len(),
        s[at as int] != ' ' && s[at as int] != '\n' && s[at as int] != '\r',
        forall|k: int|
            i <= k < at ==> (#[trigger] s[k] == ' ' || s[k] == '\n' || s[k] == '\r'),
    ensures
        super::blank_end(s, i) == at,
    decreases at - i,
{
    if i < at {
        lemma_blanks(s, i + 1, at);
    }
}

/// A character that is escaped does not end a quoted text.
pub proof fn law_escapes_are_skipped(s: Seq<char>, i: nat)
    requires
        i + 1 < s.len(),
        s[i as int] == '\\',
    ensures
        super::quote_end(s, i, false) == super::quote_end(s, i + 2, false),
{
    reveal_with_fuel(super::quote_end, 3);
}

/// A number is one piece: a digit or a minus sign, and all that follows of digits, points,
/// exponents and signs.
pub proof fn law_number_is_one_piece(number: Seq<char>, rest: Seq<char>)
    requires
        number.len() > 0,
        '0' <= number[0] <= '9' || number[0] == '-',
        forall|i: int|
            0 <= i < number.len() ==> ('0' <= #[trigger] number[i] <= '9' || number[i] == '.'
                || number[i] == 'e' || number[i] == 'E' || number[i] == '+' || number[i] == '-'),
        rest.len() > 0,
        rest[0] == ',' || rest[0] == '}' || rest[0] == ']' || rest[0] == '\n' || rest[0] == ' ',
    ensures
        super::tokens(number + rest, 0).len() > 0,
        super::tokens(number + rest, 0)[0] == (Token::Literal, number),
{
    let s = number + rest;
    assert(s[0] == number[0]);
    assert forall|i: int| 1 <= i < number.len() implies super::in_number(#[trigger] s[i]) by {
        assert(s[i] == number[i]);
    }
    assert(s[number.len() as int] == rest[0]);
    lemma_number(s, 1, number.len());
    assert(s.subrange(0, number.len() as int) =~= number);
}

proof fn lemma_number(s: Seq<char>, i: nat, at: nat)
    requires
        i <= at < s.len(),
        !super::in_number(s[at as int]),
        forall|k: int| i <= k < at ==> super::in_number(#[trigger] s[k]),
    ensures
        super::number_end(s, i) == at,
    decreases at - i,
{
    if i < at {
        lemma_number(s, i + 1, at);
    }
}

/// The words `true` and `false` are literals, and `null` is told from them.
pub proof fn law_words_are_pieces(rest: Seq<char>)
    requires
        rest.len() > 0,
    ensures
        super::tokens("true"@ + rest, 0).len() > 0,
        super::tokens("true"@ + rest, 0)[0] == (Token::Literal, "true"@),
        super::tokens("false"@ + rest, 0).len() > 0,
        super::tokens("false"@ + rest, 0)[0] == (Token::Literal, "false"@),
        super::tokens("null"@ + rest, 0).len() > 0,
        super::tokens("null"@ + rest, 0)[0] == (Token::Null, "null"@),
{
    reveal_strlit("true");
    reveal_strlit("false");
    reveal_strlit("null");
    let t = "true"@ + rest;
    let f = "false"@ + rest;
    let n = "null"@ + rest;
    assert(t[0] == 't' && f[0] == 'f' && n[0] == 'n');
    assert(t.subrange(0, 4) =~= "true"@);
    assert(f.subrange(0, 5) =~= "false"@);
    assert(n.subrange(0, 4) =~= "null"@);
    assert("true"@ =~= seq!['t', 'r', 'u', 'e']);
    assert("false"@ =~= seq!['f', 'a', 'l', 's', 'e']);
    assert("null"@ =~= seq!['n', 'u', 'l', 'l']);
    assert("null"@[0] != "true"@[0]);
    assert("null"@.len() != "false"@.len());
}

} // verus!
