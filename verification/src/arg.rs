//! The argument parser: a line of text becomes a sequence of positional,
//! keyword and flag arguments that borrow from the line.
//!
//! Every function here works at a byte offset into the line, which must fall
//! on a scalar boundary, and says what it found in terms of the grammar applied
//! to what remains of the line from that offset on.

use crate::classes::{
    banned, is_banned, is_delimiter, is_ident_start, is_opener, is_quote, is_sign,
    is_white_space, is_whitespace, qualifies_ident,
};
use crate::grammar::{
    components, delimited, ends_with, flag, ident, immediate, in_class, keyword_or_positional,
    lemma_delimited_closed, lemma_delimited_reopened, lemma_delimited_unterminated,
    lemma_next_arg_progress, lemma_opener, lemma_run_len, lemma_run_len_is, lemma_trimmed,
    lemma_unstopped_next, lemma_unstopped_zero, mirror, naked, next_arg, opener_len, parse_line,
    run_len, string, trimmed, trimmed_len, unstopped, Class, Failure, Token,
};
pub use crate::kmp::Kmp;
use crate::message::{
    bad_identifier, bad_string_start, banned_character, message, missing_separator,
    reoccurrence, trailing_garbage, unterminated,
};
use crate::text::{
    byte_len, byte_length, char_at, is_boundary, lemma_boundary_range, lemma_encode_concat,
    lemma_reaches_any, lemma_reaches_compose, lemma_reaches_forward, lemma_reaches_step,
    lemma_reaches_zero, lemma_rest_start, next_char, reaches, rest_at, slice, to_chars,
};
use vstd::pervasive::unreached;
use vstd::prelude::*;
use vstd::string::*;

verus! {

/// One argument of a line. The texts are parts of the line itself: no escape
/// is processed, and no delimiter is part of a text.
#[derive(Clone, Copy, Debug, PartialEq, Eq)]
pub enum Arg<'a> {
    /// A positional argument: a string.
    Pos(&'a str),
    /// A keyword argument: `name=string`.
    Kw(&'a str, &'a str),
    /// A flag: `+name` (on) or `-name` (off).
    Flag(bool, &'a str),
}

impl<'a> View for Arg<'a> {
    type V = Token;

    open spec fn view(&self) -> Token {
        match self {
            Arg::Pos(text) => Token::Positional(text@),
            Arg::Kw(name, text) => Token::Keyword(name@, text@),
            Arg::Flag(on, name) => Token::Flag(*on, name@),
        }
    }
}

/// `got` is what the grammar's outcome `want` looks like where the construct
/// begins at byte offset `i` of `s`: on success the byte offset behind the
/// construct and its text, on failure the failure's message.
pub open spec fn lexed(
    s: Seq<char>,
    i: int,
    want: Result<(int, Seq<char>), Failure>,
    got: Result<(usize, &str), String>,
) -> bool {
    match want {
        Ok((n, text)) => got matches Ok((j, t)) && reaches(s, i, n, j as int) && t@ == text,
        Err(f) => got matches Err(m) && m@ == message(f),
    }
}

/// Reads an identifier at byte offset `i` of `s`.
pub fn expect_ident<'a>(s: &'a str, i: usize) -> (r: Result<(usize, &'a str), String>)
    requires
        is_boundary(s@, i as int),
    ensures
        lexed(s@, i as int, ident(rest_at(s@, i as int)), r),
{
    let ghost rest = rest_at(s@, i as int);
    let mut j: usize = i;
    let mut isfst: bool = true;
    let ghost mut n: int = 0;
    proof {
        lemma_reaches_zero(s@, i as int);
    }
    loop
        invariant
            rest == rest_at(s@, i as int),
            reaches(s@, i as int, n, j as int),
            isfst == (n == 0),
            (n == 0) == (j == i),
            n > 0 ==> is_ident_start(rest[0]),
            forall|x: int| 0 <= x < n ==> in_class(Class::Ident, #[trigger] rest[x]),
        ensures
            n == 0 ==> !(rest.len() > 0 && is_ident_start(rest[0])),
            n > 0 ==> n == run_len(rest, Class::Ident),
        decreases rest.len() - n,
    {
        match next_char(s, j) {
            None => {
                proof {
                    lemma_run_len_is(rest, Class::Ident, n);
                }
                break ;
            },
            Some((c, k)) => {
                proof {
                    lemma_reaches_step(s@, i as int, n, j as int, k as int);
                }
                if !qualifies_ident(c, isfst) {
                    proof {
                        if n > 0 {
                            lemma_run_len_is(rest, Class::Ident, n);
                        }
                    }
                    break ;
                }
                isfst = false;
                j = k;
                proof {
                    n = n + 1;
                }
            },
        }
    }
    if i == j {
        Err(bad_identifier(char_at(s, i)))
    } else {
        Ok((j, slice(s, i, j)))
    }
}

/// Reads an unquoted string at byte offset `i` of `s`.
pub fn expect_naked_string<'a>(s: &'a str, i: usize) -> (r: Result<(usize, &'a str), String>)
    requires
        is_boundary(s@, i as int),
    ensures
        lexed(s@, i as int, naked(rest_at(s@, i as int)), r),
{
    let ghost rest = rest_at(s@, i as int);
    let mut j: usize = i;
    let ghost mut n: int = 0;
    proof {
        lemma_reaches_zero(s@, i as int);
    }
    loop
        invariant
            rest == rest_at(s@, i as int),
            reaches(s@, i as int, n, j as int),
            forall|x: int| 0 <= x < n ==> in_class(Class::Naked, #[trigger] rest[x]),
        ensures
            n == run_len(rest, Class::Naked),
            !(n < rest.len() && is_banned(rest[n])),
        decreases rest.len() - n,
    {
        match next_char(s, j) {
            None => {
                proof {
                    lemma_run_len_is(rest, Class::Naked, n);
                }
                break ;
            },
            Some((c, k)) => {
                proof {
                    lemma_reaches_step(s@, i as int, n, j as int, k as int);
                }
                if banned(c) {
                    proof {
                        lemma_run_len_is(rest, Class::Naked, n);
                    }
                    return Err(banned_character(c));
                }
                if is_whitespace(c) {
                    proof {
                        lemma_run_len_is(rest, Class::Naked, n);
                    }
                    break ;
                }
                j = k;
                proof {
                    n = n + 1;
                }
            },
        }
    }
    Ok((j, slice(s, i, j)))
}

/// Reads the run of one quote character that begins at byte offset `i` of
/// `s`: the opening delimiter of a quoted string.
pub fn _expect_quoteplus<'a>(s: &'a str, i: usize) -> (r: (usize, &'a str))
    requires
        is_boundary(s@, i as int),
        rest_at(s@, i as int).len() > 0,
        is_quote(rest_at(s@, i as int)[0]),
    ensures
        reaches(s@, i as int, opener_len(rest_at(s@, i as int)), r.0 as int),
        r.1@ == rest_at(s@, i as int).take(opener_len(rest_at(s@, i as int))),
{
    let ghost rest = rest_at(s@, i as int);
    let q: char = match char_at(s, i) {
        Some(c) => c,
        None => unreached(),
    };
    let mut j: usize = i;
    let ghost mut n: int = 0;
    proof {
        lemma_reaches_zero(s@, i as int);
    }
    loop
        invariant
            rest == rest_at(s@, i as int),
            rest.len() > 0,
            q == rest[0],
            reaches(s@, i as int, n, j as int),
            forall|x: int| 0 <= x < n ==> in_class(Class::Only(q), #[trigger] rest[x]),
        ensures
            n == run_len(rest, Class::Only(q)),
        decreases rest.len() - n,
    {
        match next_char(s, j) {
            None => {
                proof {
                    lemma_run_len_is(rest, Class::Only(q), n);
                }
                break ;
            },
            Some((c, k)) => {
                proof {
                    lemma_reaches_step(s@, i as int, n, j as int, k as int);
                }
                if c != q {
                    proof {
                        lemma_run_len_is(rest, Class::Only(q), n);
                    }
                    break ;
                }
                j = k;
                proof {
                    n = n + 1;
                }
            },
        }
    }
    (j, slice(s, i, j))
}

/// Reads the run of opening brackets that begins at byte offset `i` of `s`,
/// together with the bar that may end it: the opening delimiter of a bracketed
/// string.
pub fn _expect_brackplus<'a>(s: &'a str, i: usize) -> (r: (usize, &'a str))
    requires
        is_boundary(s@, i as int),
        rest_at(s@, i as int).len() > 0,
        is_opener(rest_at(s@, i as int)[0]),
    ensures
        reaches(s@, i as int, opener_len(rest_at(s@, i as int)), r.0 as int),
        r.1@ == rest_at(s@, i as int).take(opener_len(rest_at(s@, i as int))),
{
    let ghost rest = rest_at(s@, i as int);
    let mut j: usize = i;
    let ghost mut n: int = 0;
    proof {
        lemma_reaches_zero(s@, i as int);
    }
    loop
        invariant_except_break
            forall|x: int| 0 <= x < n ==> in_class(Class::Bracket, #[trigger] rest[x]),
        invariant
            rest == rest_at(s@, i as int),
            rest.len() > 0,
            is_opener(rest[0]),
            reaches(s@, i as int, n, j as int),
        ensures
            n == opener_len(rest),
        decreases rest.len() - n,
    {
        match next_char(s, j) {
            None => {
                proof {
                    lemma_run_len_is(rest, Class::Bracket, n);
                }
                break ;
            },
            Some((c, k)) => {
                proof {
                    lemma_reaches_step(s@, i as int, n, j as int, k as int);
                }
                if !(c == '(' || c == '[' || c == '{' || c == '|') {
                    proof {
                        lemma_run_len_is(rest, Class::Bracket, n);
                    }
                    break ;
                }
                j = k;
                if c == '|' {
                    proof {
                        lemma_run_len_is(rest, Class::Bracket, n);
                        n = n + 1;
                    }
                    break ;
                }
                proof {
                    n = n + 1;
                }
            },
        }
    }
    (j, slice(s, i, j))
}

/// `s` without its trailing white space.
pub fn trim_end<'a>(s: &'a str) -> (r: &'a str)
    ensures
        r@ == trimmed(s@),
{
    let mut j: usize = 0;
    let mut end: usize = 0;
    let ghost mut n: int = 0;
    let ghost mut e: int = 0;
    proof {
        lemma_rest_start(s@);
        assert(s@.take(0) =~= Seq::<char>::empty());
    }
    loop
        invariant
            rest_at(s@, 0) == s@,
            reaches(s@, 0, n, j as int),
            reaches(s@, 0, e, end as int),
            end <= j,
            e == trimmed_len(s@.take(n)),
        ensures
            reaches(s@, 0, e, end as int),
            e == trimmed_len(s@),
        decreases s@.len() - n,
    {
        match next_char(s, j) {
            None => {
                assert(s@.take(n) =~= s@);
                break ;
            },
            Some((c, k)) => {
                proof {
                    lemma_reaches_step(s@, 0, n, j as int, k as int);
                    assert(s@.take(n + 1).drop_last() =~= s@.take(n));
                    assert(s@.take(n + 1).last() == c);
                    n = n + 1;
                }
                j = k;
                if !is_whitespace(c) {
                    end = j;
                    proof {
                        e = n;
                    }
                }
            },
        }
    }
    slice(s, 0, end)
}

/// The closing delimiter for the opening delimiter `d`.
pub fn reversed_string_delimiter(d: &str) -> (r: String)
    requires
        forall|x: int| 0 <= x < d@.len() ==> is_delimiter(#[trigger] d@[x]),
    ensures
        r@ == mirror(d@),
{
    let v = to_chars(d);
    let mut out = String::new();
    let mut k: usize = v.len();
    proof {
        reveal_strlit(")");
        reveal_strlit("]");
        reveal_strlit("}");
        reveal_strlit("|");
        reveal_strlit("'");
        reveal_strlit("\"");
        reveal_strlit("`");
        assert(out@ =~= mirror(d@).take(0));
    }
    while k > 0
        invariant
            v@ == d@,
            k <= v@.len(),
            out@ == mirror(d@).take(v@.len() - k),
            forall|x: int| 0 <= x < d@.len() ==> is_delimiter(#[trigger] d@[x]),
            ")"@ == seq![')'],
            "]"@ == seq![']'],
            "}"@ == seq!['}'],
            "|"@ == seq!['|'],
            "'"@ == seq!['\''],
            "\""@ == seq!['"'],
            "`"@ == seq!['`'],
        decreases k,
    {
        k = k - 1;
        let c: char = v[k];
        let ghost before = out@;
        assert(is_delimiter(d@[k as int]));
        if c == '(' {
            out.append(")");
        } else if c == '[' {
            out.append("]");
        } else if c == '{' {
            out.append("}");
        } else if c == '|' {
            out.append("|");
        } else if c == '\'' {
            out.append("'");
        } else if c == '"' {
            out.append("\"");
        } else {
            out.append("`");
        }
        assert(out@ =~= mirror(d@).take(v@.len() - k)) by {
            assert(out@ =~= before.push(mirror(d@)[v@.len() - k - 1]));
        }
    }
    assert(mirror(d@).take(v@.len() as int) =~= mirror(d@));
    out
}

/// Where `n` scalars end with `tail`, the scalars before `tail` end at a
/// position too, as many bytes back as `tail` is long.
proof fn lemma_cut_back(s: Seq<char>, i: int, n: int, j: int, tail: Seq<char>)
    requires
        is_boundary(s, i),
        reaches(s, i, n, j),
        ends_with(rest_at(s, i).take(n), tail),
    ensures
        i <= j - byte_len(tail),
        reaches(s, i, n - tail.len(), j - byte_len(tail)),
{
    let rest = rest_at(s, i);
    let body = rest.take(n - tail.len());
    assert(rest.take(n) =~= body + tail);
    lemma_encode_concat(body, tail);
    lemma_reaches_any(s, i, n - tail.len());
}

/// Reads the body of a delimited string that begins at byte offset `i` of
/// `s`, just behind the opening delimiter `l`, and ends with the closing
/// delimiter `r`. Two matchers run side by side over the scalars, one for each
/// delimiter.
pub fn expect_string_ex_wo<'a>(s: &'a str, i: usize, l: &str, r: &str) -> (res: Result<
    (usize, &'a str),
    String,
>)
    requires
        is_boundary(s@, i as int),
    ensures
        lexed(s@, i as int, delimited(rest_at(s@, i as int), l@, r@), res),
{
    let ghost rest = rest_at(s@, i as int);
    let mut lkmp = Kmp::new(l);
    let mut rkmp = Kmp::new(r);
    let mut j: usize = i;
    let ghost mut n: int = 0;
    proof {
        lemma_reaches_zero(s@, i as int);
        lemma_unstopped_zero(rest, l@, r@);
        assert(rest.take(0) =~= Seq::<char>::empty());
    }
    loop
        invariant
            is_boundary(s@, i as int),
            rest == rest_at(s@, i as int),
            reaches(s@, i as int, n, j as int),
            lkmp.pattern() == l@,
            rkmp.pattern() == r@,
            lkmp.fed() == rest.take(n),
            rkmp.fed() == rest.take(n),
            unstopped(rest, l@, r@, n),
        decreases rest.len() - n,
    {
        match next_char(s, j) {
            None => {
                proof {
                    lemma_delimited_unterminated(rest, l@, r@);
                }
                return Err(unterminated(l, r));
            },
            Some((c, k)) => {
                proof {
                    lemma_reaches_step(s@, i as int, n, j as int, k as int);
                    assert(rest.take(n + 1) =~= rest.take(n).push(c));
                }
                j = k;
                if rkmp.step(c) {
                    let width = byte_length(r);
                    proof {
                        lemma_delimited_closed(rest, l@, r@, n + 1);
                        lemma_cut_back(s@, i as int, n + 1, j as int, r@);
                    }
                    return Ok((j, slice(s, i, j - width)));
                }
                if lkmp.step(c) {
                    proof {
                        lemma_delimited_reopened(rest, l@, r@, n + 1);
                    }
                    return Err(reoccurrence(l));
                }
                proof {
                    lemma_unstopped_next(rest, l@, r@, n);
                    n = n + 1;
                }
            },
        }
    }
}

/// Reads a string at byte offset `i` of `s`: delimited where it begins with a
/// quote, a bracket or the bar, unquoted otherwise. At or behind the end of
/// `s` there is no string.
pub fn expect_string<'a>(s: &'a str, i: usize) -> (r: Result<(usize, &'a str), String>)
    requires
        i < byte_len(s@) ==> is_boundary(s@, i as int),
    ensures
        lexed(
            s@,
            i as int,
            if i >= byte_len(s@) {
                Err(Failure::BadStringStart(None))
            } else {
                string(rest_at(s@, i as int))
            },
            r,
        ),
{
    if byte_length(s) <= i {
        return Err(bad_string_start(None));
    }
    let ghost rest = rest_at(s@, i as int);
    proof {
        lemma_boundary_range(s@, i as int);
    }
    let fst: char = match char_at(s, i) {
        Some(c) => c,
        None => unreached(),
    };
    let opener = fst == '(' || fst == '[' || fst == '{' || fst == '|';
    let quote = fst == '\'' || fst == '"' || fst == '`';
    if opener || quote {
        let (k, open) = if opener {
            _expect_brackplus(s, i)
        } else {
            _expect_quoteplus(s, i)
        };
        proof {
            lemma_opener(rest);
        }
        let close = reversed_string_delimiter(open);
        match expect_string_ex_wo(s, k, open, close.as_str()) {
            Ok((j, text)) => {
                proof {
                    let n = delimited(rest.skip(opener_len(rest)), open@, close@)->Ok_0.0;
                    lemma_reaches_compose(s@, i as int, opener_len(rest), k as int, n, j as int);
                }
                Ok((j, text))
            },
            Err(m) => Err(m),
        }
    } else if fst == '+' || fst == '-' || fst == '=' {
        Err(bad_string_start(Some(fst)))
    } else {
        expect_naked_string(s, i)
    }
}

/// `got` is what the grammar's outcome `want` looks like where the component
/// begins at byte offset `i` of `s`: on success the byte offset behind the
/// component and the argument, on failure the failure's message.
pub open spec fn parsed(
    s: Seq<char>,
    i: int,
    want: Result<(int, Token), Failure>,
    got: Result<(usize, Arg), String>,
) -> bool {
    match want {
        Ok((n, a)) => got matches Ok((j, x)) && reaches(s, i, n, j as int) && x@ == a,
        Err(f) => got matches Err(m) && m@ == message(f),
    }
}

/// Reads the name of a flag at byte offset `k` of `s`, just behind its sign at
/// byte offset `i`.
fn expect_flag<'a>(s: &'a str, i: usize, sign: char, k: usize) -> (r: Result<
    (usize, Arg<'a>),
    String,
>)
    requires
        is_boundary(s@, i as int),
        reaches(s@, i as int, 1, k as int),
        rest_at(s@, i as int).len() > 0,
        rest_at(s@, i as int)[0] == sign,
        is_sign(sign),
    ensures
        parsed(s@, i as int, flag(rest_at(s@, i as int)), r),
{
    let enabled = sign == '+';
    match expect_ident(s, k) {
        Ok((j, name)) => {
            proof {
                let n = ident(rest_at(s@, k as int))->Ok_0.0;
                lemma_reaches_compose(s@, i as int, 1, k as int, n, j as int);
            }
            Ok((j, Arg::Flag(enabled, name)))
        },
        Err(m) => Err(m),
    }
}

/// Reads one component at byte offset `i` of `s`, where the line has not
/// ended and no white space stands.
pub fn _expect_immediate_arg<'a>(s: &'a str, i: usize) -> (r: Result<(usize, Arg<'a>), String>)
    requires
        is_boundary(s@, i as int),
        rest_at(s@, i as int).len() > 0,
        !is_white_space(rest_at(s@, i as int)[0]),
    ensures
        parsed(s@, i as int, immediate(rest_at(s@, i as int)), r),
{
    let ghost rest = rest_at(s@, i as int);
    let (fst, behind) = match next_char(s, i) {
        Some(p) => p,
        None => unreached(),
    };
    if fst == '+' || fst == '-' {
        return expect_flag(s, i, fst, behind);
    }
    let mut key: Option<(usize, &'a str)> = None;
    match expect_ident(s, i) {
        Ok((k, name)) => {
            match next_char(s, k) {
                Some((c, e)) => {
                    proof {
                        lemma_reaches_step(s@, i as int, ident(rest)->Ok_0.0, k as int, e as int);
                    }
                    if c == '=' {
                        key = Some((e, name));
                    }
                },
                None => {},
            }
        },
        Err(_) => {},
    }
    let ghost unit = keyword_or_positional(rest);
    let found: Result<(usize, Arg<'a>), String> = match key {
        Some((e, name)) => {
            proof {
                lemma_boundary_range(s@, e as int);
            }
            match expect_string(s, e) {
                Ok((j, text)) => {
                    proof {
                        let n = ident(rest)->Ok_0.0;
                        let m = string(rest.skip(n + 1))->Ok_0.0;
                        lemma_reaches_compose(s@, i as int, n + 1, e as int, m, j as int);
                    }
                    Ok((j, Arg::Kw(name, text)))
                },
                Err(m) => Err(m),
            }
        },
        None => {
            proof {
                lemma_boundary_range(s@, i as int);
            }
            match expect_string(s, i) {
                Ok((j, text)) => Ok((j, Arg::Pos(text))),
                Err(m) => Err(m),
            }
        },
    };
    assert(parsed(s@, i as int, unit, found));
    match found {
        Ok((j, a)) => {
            match char_at(s, j) {
                Some(c) => {
                    if !is_whitespace(c) {
                        Err(trailing_garbage())
                    } else {
                        Ok((j, a))
                    }
                },
                None => Ok((j, a)),
            }
        },
        Err(m) => Err(m),
    }
}

/// Reads the next component of a line at byte offset `i` of `s`, together with
/// the white space before it. Behind the start of the line every component, a
/// flag too, needs white space before it. What remains of the line at `i` is
/// not white space alone.
pub fn _expect_next_arg<'a>(s: &'a str, i: usize) -> (r: Result<(usize, Arg<'a>), String>)
    requires
        is_boundary(s@, i as int),
        run_len(rest_at(s@, i as int), Class::Space) < rest_at(s@, i as int).len(),
    ensures
        parsed(s@, i as int, next_arg(rest_at(s@, i as int), i == 0), r),
{
    let ghost rest = rest_at(s@, i as int);
    proof {
        lemma_run_len(rest, Class::Space);
    }
    let fst: char = match char_at(s, i) {
        Some(c) => c,
        None => unreached(),
    };
    let mut j: usize = i;
    let ghost mut w: int = 0;
    proof {
        lemma_reaches_zero(s@, i as int);
    }
    loop
        invariant
            rest == rest_at(s@, i as int),
            reaches(s@, i as int, w, j as int),
            (w == 0) == (j == i),
            forall|x: int| 0 <= x < w ==> in_class(Class::Space, #[trigger] rest[x]),
        ensures
            w == run_len(rest, Class::Space),
        decreases rest.len() - w,
    {
        match next_char(s, j) {
            None => {
                proof {
                    lemma_run_len_is(rest, Class::Space, w);
                }
                break ;
            },
            Some((c, k)) => {
                proof {
                    lemma_reaches_step(s@, i as int, w, j as int, k as int);
                }
                if !is_whitespace(c) {
                    proof {
                        lemma_run_len_is(rest, Class::Space, w);
                    }
                    break ;
                }
                j = k;
                proof {
                    w = w + 1;
                }
            },
        }
    }
    if 0 < i && i == j {
        Err(missing_separator(fst))
    } else {
        proof {
            lemma_run_len(rest, Class::Space);
        }
        match _expect_immediate_arg(s, j) {
            Ok((e, a)) => {
                proof {
                    let n = immediate(rest.skip(w))->Ok_0.0;
                    lemma_reaches_compose(s@, i as int, w, j as int, n, e as int);
                }
                Ok((e, a))
            },
            Err(m) => Err(m),
        }
    }
}

/// The tokens that the arguments stand for.
pub open spec fn tokens(v: Seq<Arg>) -> Seq<Token> {
    v.map_values(|a: Arg| a@)
}

/// What a call of `parse` returned, as the grammar sees it: the tokens, or the
/// message.
pub open spec fn outcome(r: Result<Vec<Arg>, String>) -> Result<Seq<Token>, Seq<char>> {
    match r {
        Ok(v) => Ok(tokens(v@)),
        Err(m) => Err(m@),
    }
}

/// What `parse` is to return for a line: its tokens, or the message of the
/// first failure.
pub open spec fn expected(line: Seq<char>) -> Result<Seq<Token>, Seq<char>> {
    match parse_line(line) {
        Ok(v) => Ok(v),
        Err(f) => Err(message(f)),
    }
}

/// What is done so far, followed by what remains to be found.
pub open spec fn followed_by(done: Seq<Token>, more: Result<Seq<Token>, Failure>) -> Result<
    Seq<Token>,
    Failure,
> {
    match more {
        Ok(v) => Ok(done + v),
        Err(f) => Err(f),
    }
}

/// Parses a line into its arguments, in the order in which they stand.
/// Trailing white space is ignored. The line parses as a whole or not at all:
/// the first failure is returned as its message.
pub fn parse<'a>(s: &'a str) -> (r: Result<Vec<Arg<'a>>, String>)
    ensures
        outcome(r) == expected(s@),
{
    let line = trim_end(s);
    let len = byte_length(line);
    let mut i: usize = 0;
    let mut acc: Vec<Arg<'a>> = Vec::new();
    let ghost mut k: int = 0;
    proof {
        lemma_rest_start(line@);
        lemma_trimmed(s@);
        assert(tokens(acc@) + components(line@, true)->Ok_0 =~= components(line@, true)->Ok_0);
    }
    while i < len
        invariant
            line@ == trimmed(s@),
            len == byte_len(line@),
            rest_at(line@, 0) == line@,
            reaches(line@, 0, k, i as int),
            (k == 0) == (i == 0),
            line@.len() > 0 ==> !is_white_space(line@.last()),
            components(line@, true) == followed_by(
                tokens(acc@),
                components(rest_at(line@, i as int), i == 0),
            ),
        decreases len - i,
    {
        let ghost rest = rest_at(line@, i as int);
        let ghost done = tokens(acc@);
        proof {
            lemma_boundary_range(line@, i as int);
            lemma_run_len(rest, Class::Space);
            lemma_next_arg_progress(rest, i == 0);
            assert(rest.last() == line@.last());
        }
        match _expect_next_arg(line, i) {
            Ok((j, a)) => {
                proof {
                    let n = next_arg(rest, i == 0)->Ok_0.0;
                    lemma_reaches_forward(line@, i as int, n, j as int);
                    lemma_reaches_compose(line@, 0, k, i as int, n, j as int);
                    lemma_boundary_range(line@, j as int);
                    k = k + n;
                }
                acc.push(a);
                i = j;
                proof {
                    assert(tokens(acc@) =~= done.push(a@));
                    let more = components(rest_at(line@, j as int), false);
                    if more is Ok {
                        assert(done + (seq![a@] + more->Ok_0) =~= done.push(a@) + more->Ok_0);
                    }
                }
            },
            Err(m) => {
                return Err(m);
            },
        }
    }
    proof {
        lemma_boundary_range(line@, i as int);
        assert(tokens(acc@) + Seq::<Token>::empty() =~= tokens(acc@));
    }
    Ok(acc)
}

} // verus!
