//! What holds of every line, proved from the grammar.

use crate::arg::{expected, outcome, Arg};
use crate::classes::{is_banned, is_ident_char, is_ident_start, is_quote, is_white_space};
use crate::grammar::{
    components, delimited, ends_with, has_key, ident, immediate, keyword_or_positional,
    lemma_delimited_closed, lemma_ident_bounds, lemma_next_arg_progress, lemma_run_len,
    lemma_run_len_is, lemma_unstopped_next, lemma_unstopped_zero, mirror, naked, next_arg,
    opener_len, parse_line, run_len, stops, string, trimmed, unstopped, Class, Failure, Token,
};
use vstd::prelude::*;

verus! {

/// A line that does not end in white space is its own trimmed form.
pub proof fn lemma_trimmed_same(line: Seq<char>)
    requires
        line.len() > 0 ==> !is_white_space(line.last()),
    ensures
        trimmed(line) == line,
{
    assert(line.take(line.len() as int) =~= line);
}

/// A line that is one component parses to that component alone.
pub proof fn lemma_single_component(line: Seq<char>, a: Token)
    requires
        line.len() > 0,
        next_arg(line, true) == Ok::<(int, Token), Failure>((line.len() as int, a)),
    ensures
        components(line, true) == Ok::<Seq<Token>, Failure>(seq![a]),
{
    let rest = line.skip(line.len() as int);
    assert(rest.len() == 0);
    assert(components(rest, false) == Ok::<Seq<Token>, Failure>(Seq::empty()));
    assert(seq![a] + Seq::<Token>::empty() =~= seq![a]);
}

/// A word without banned scalars and without white space parses to one
/// positional argument, the word itself.
pub proof fn lemma_bare_word(word: Seq<char>)
    requires
        word.len() > 0,
        forall|i: int| 0 <= i < word.len() ==> !is_banned(#[trigger] word[i]) && !is_white_space(word[i]),
    ensures
        parse_line(word) == Ok::<Seq<Token>, Failure>(seq![Token::Positional(word)]),
{
    let n = word.len() as int;
    assert(!is_banned(word[0]) && !is_white_space(word[0]));
    assert(!is_white_space(word.last()));
    lemma_trimmed_same(word);
    lemma_run_len_is(word, Class::Space, 0);
    assert(word.skip(0) =~= word);
    lemma_ident_bounds(word);
    if ident(word) is Ok {
        let k = ident(word)->Ok_0.0;
        if k < n {
            assert(!is_banned(word[k]));
        }
    }
    assert(!has_key(word));
    lemma_run_len_is(word, Class::Naked, n);
    assert(word.take(n) =~= word);
    assert(naked(word) == Ok::<(int, Seq<char>), Failure>((n, word)));
    assert(string(word) == naked(word));
    assert(keyword_or_positional(word) == Ok::<(int, Token), Failure>(
        (n, Token::Positional(word)),
    ));
    assert(immediate(word) == Ok::<(int, Token), Failure>((n, Token::Positional(word))));
    assert(next_arg(word, true) == Ok::<(int, Token), Failure>((n, Token::Positional(word))));
    lemma_single_component(word, Token::Positional(word));
}

/// `n` times the scalar `q`.
pub open spec fn run_of(q: char, n: nat) -> Seq<char> {
    Seq::new(n, |i: int| q)
}

/// `p` stands somewhere in `s`.
pub open spec fn occurs_in(p: Seq<char>, s: Seq<char>) -> bool {
    exists|k: int| 0 <= k && k + p.len() <= s.len() && #[trigger] s.subrange(k, k + p.len()) == p
}

/// Behind an opening run of `n` quotes, a body that neither ends in the quote
/// nor holds `n` of them in a row is closed by the next run and by nothing
/// before it.
proof fn lemma_quoted_body(q: char, n: nat, body: Seq<char>, upto: int)
    requires
        n >= 1,
        body.len() > 0,
        body.last() != q,
        !occurs_in(run_of(q, n), body),
        0 <= upto < body.len() + n,
    ensures
        unstopped(body + run_of(q, n), run_of(q, n), run_of(q, n), upto),
    decreases upto,
{
    let l = run_of(q, n);
    let rest = body + l;
    if upto == 0 {
        lemma_unstopped_zero(rest, l, l);
    } else {
        lemma_quoted_body(q, n, body, upto - 1);
        let t = rest.take(upto);
        if ends_with(t, l) {
            let from = upto - n;
            let w = t.subrange(from, upto);
            if upto <= body.len() {
                assert(body.subrange(from, from + l.len()) =~= w);
            } else {
                let at = body.len() - 1;
                assert(w[at - from] == l[at - from]);
                assert(w[at - from] == body[at]);
            }
        }
        assert(!stops(rest, l, l, upto));
        lemma_unstopped_next(rest, l, l, upto - 1);
    }
}

/// A body wrapped in `n` quotes on either side parses to one positional
/// argument, the body itself, where the body is not empty, neither begins nor
/// ends with that quote, and nowhere holds `n` of them in a row.
pub proof fn lemma_quoted(q: char, n: nat, body: Seq<char>)
    requires
        is_quote(q),
        n >= 1,
        body.len() > 0,
        body[0] != q,
        body.last() != q,
        !occurs_in(run_of(q, n), body),
    ensures
        parse_line(run_of(q, n) + body + run_of(q, n)) == Ok::<Seq<Token>, Failure>(
            seq![Token::Positional(body)],
        ),
{
    let l = run_of(q, n);
    let line = l + body + l;
    let rest = body + l;
    let total = line.len() as int;
    assert(line.last() == q);
    lemma_trimmed_same(line);
    assert(line[0] == q);
    lemma_run_len_is(line, Class::Space, 0);
    assert(line.skip(0) =~= line);
    assert(!has_key(line));
    assert forall|i: int| 0 <= i < n implies crate::grammar::in_class(
        Class::Only(q),
        #[trigger] line[i],
    ) by {}
    assert(line[n as int] == body[0]);
    lemma_run_len_is(line, Class::Only(q), n as int);
    assert(opener_len(line) == n);
    assert(line.take(n as int) =~= l);
    assert(line.skip(n as int) =~= rest);
    assert(mirror(l) =~= l);
    lemma_quoted_body(q, n, body, rest.len() - 1);
    assert(rest.take(rest.len() as int) =~= rest);
    assert(rest.subrange(rest.len() - l.len(), rest.len() as int) =~= l);
    lemma_delimited_closed(rest, l, l, rest.len() as int);
    assert(rest.take(rest.len() - l.len()) =~= body);
    assert(delimited(rest, l, l) == Ok::<(int, Seq<char>), Failure>((rest.len() as int, body)));
    assert(string(line) == Ok::<(int, Seq<char>), Failure>((total, body)));
    assert(keyword_or_positional(line) == Ok::<(int, Token), Failure>(
        (total, Token::Positional(body)),
    ));
    assert(immediate(line) == Ok::<(int, Token), Failure>((total, Token::Positional(body))));
    assert(next_arg(line, true) == Ok::<(int, Token), Failure>((total, Token::Positional(body))));
    lemma_single_component(line, Token::Positional(body));
}

/// `s` is an identifier: a letter or an underscore, then letters, digits and
/// underscores.
pub open spec fn is_identifier(s: Seq<char>) -> bool {
    &&& s.len() > 0
    &&& is_ident_start(s[0])
    &&& forall|i: int| 0 <= i < s.len() ==> is_ident_char(#[trigger] s[i])
}

/// The name of the token, where it has one, is an identifier.
pub open spec fn well_named(t: Token) -> bool {
    match t {
        Token::Positional(_) => true,
        Token::Keyword(name, _) => is_identifier(name),
        Token::Flag(_, name) => is_identifier(name),
    }
}

/// What the grammar reads as an identifier is one.
pub proof fn lemma_ident_is_identifier(rest: Seq<char>)
    ensures
        ident(rest) matches Ok((n, name)) ==> is_identifier(name),
{
    lemma_run_len(rest, Class::Ident);
    lemma_ident_bounds(rest);
}

/// Every name in a parsed line is an identifier.
pub proof fn lemma_names_are_identifiers(rest: Seq<char>, at_start: bool)
    ensures
        components(rest, at_start) matches Ok(v) ==> forall|i: int|
            0 <= i < v.len() ==> well_named(#[trigger] v[i]),
    decreases rest.len(),
{
    if rest.len() > 0 && components(rest, at_start) is Ok {
        lemma_next_arg_progress(rest, at_start);
        let n = next_arg(rest, at_start)->Ok_0.0;
        let a = next_arg(rest, at_start)->Ok_0.1;
        let tail = rest.skip(run_len(rest, Class::Space));
        lemma_ident_is_identifier(tail);
        lemma_ident_is_identifier(tail.skip(1));
        lemma_ident_bounds(tail);
        assert(well_named(a));
        lemma_names_are_identifiers(rest.skip(n), false);
        let v = components(rest.skip(n), false)->Ok_0;
        assert forall|i: int| 0 <= i < (seq![a] + v).len() implies well_named(
            #[trigger] (seq![a] + v)[i],
        ) by {
            if i > 0 {
                assert((seq![a] + v)[i] == v[i - 1]);
            }
        }
    }
}

/// Parsing is a function of the line: whatever two calls of `parse` on the
/// same line return, the tokens or the message are the same.
pub proof fn lemma_parse_repeatable(
    line: Seq<char>,
    first: Result<Vec<Arg>, String>,
    second: Result<Vec<Arg>, String>,
)
    requires
        outcome(first) == expected(line),
        outcome(second) == expected(line),
    ensures
        outcome(first) == outcome(second),
{
}

} // verus!
