//! The argument grammar, stated over sequences of scalars.
//!
//! ```plaintext
//! line       := SP* component (SP+ component)* SP*
//! component  := flag | keyword | positional
//! flag       := ('+' | '-') ident
//! keyword    := ident '=' string
//! positional := string
//! ident      := [A-Za-z_][A-Za-z0-9_]*
//! string     := naked | quoted | bracketed
//! naked      := scalars up to white space, none of them banned
//! quoted     := Q^n content Q^n       Q one of ' " `
//! bracketed  := B content B'          B a run of ( [ { that may end in one |
//! ```
//!
//! Each function takes what remains of the line and says how many scalars the
//! construct takes from its front and what it yields, or why it fails.

use crate::classes::{
    is_banned, is_bracket, is_delimiter, is_ident_char, is_ident_start, is_quote, is_sigil, is_sign,
    is_white_space, mirror_char,
};
use vstd::prelude::*;

verus! {

/// One parsed component of a line.
pub enum Token {
    /// A string standing alone.
    Positional(Seq<char>),
    /// A name, an equals sign and a string.
    Keyword(Seq<char>, Seq<char>),
    /// A sign and a name: `+name` switches on, `-name` switches off.
    Flag(bool, Seq<char>),
}

/// Why a line does not parse.
pub enum Failure {
    /// An identifier was due; holds the scalar found there, if any.
    BadIdentifier(Option<char>),
    /// A string was due; holds the sigil found there, or nothing at the end
    /// of the line.
    BadStringStart(Option<char>),
    /// An unquoted string ran into a banned scalar.
    BannedCharacter(char),
    /// The line ended before the closing delimiter; holds the opening and the
    /// closing delimiter.
    Unterminated(Seq<char>, Seq<char>),
    /// The opening delimiter came again before the closing one.
    Reoccurrence(Seq<char>),
    /// A component followed another without white space; holds the scalar
    /// found there.
    MissingSeparator(char),
    /// A string was followed by something other than white space.
    TrailingGarbage,
}

/// The sets of scalars of which the grammar takes runs.
pub enum Class {
    /// White space.
    Space,
    /// What an identifier goes on with.
    Ident,
    /// What an unquoted string is made of: neither banned nor white space.
    Naked,
    /// The three opening brackets.
    Bracket,
    /// One given scalar.
    Only(char),
}

/// The scalar `c` belongs to the class `k`.
pub open spec fn in_class(k: Class, c: char) -> bool {
    match k {
        Class::Space => is_white_space(c),
        Class::Ident => is_ident_char(c),
        Class::Naked => !is_banned(c) && !is_white_space(c),
        Class::Bracket => is_bracket(c),
        Class::Only(d) => c == d,
    }
}

/// Number of scalars at the front of `s` that belong to `k`.
pub open spec fn run_len(s: Seq<char>, k: Class) -> int
    decreases s.len(),
{
    if s.len() > 0 && in_class(k, s[0]) {
        1 + run_len(s.drop_first(), k)
    } else {
        0
    }
}

/// The first scalar of `s`, if there is one.
pub open spec fn first(s: Seq<char>) -> Option<char> {
    if s.len() > 0 {
        Some(s[0])
    } else {
        None
    }
}

/// `t` ends with `p`.
pub open spec fn ends_with(t: Seq<char>, p: Seq<char>) -> bool {
    p.len() <= t.len() && t.subrange(t.len() - p.len(), t.len() as int) == p
}

/// Length of `s` without its trailing white space.
pub open spec fn trimmed_len(s: Seq<char>) -> int
    decreases s.len(),
{
    if s.len() > 0 && is_white_space(s.last()) {
        trimmed_len(s.drop_last())
    } else {
        s.len() as int
    }
}

/// `s` without its trailing white space.
pub open spec fn trimmed(s: Seq<char>) -> Seq<char> {
    s.take(trimmed_len(s))
}

/// The closing delimiter that belongs to the opening delimiter `l`: each
/// scalar mirrored, in reverse order.
pub open spec fn mirror(l: Seq<char>) -> Seq<char> {
    Seq::new(l.len(), |i: int| mirror_char(l[l.len() - 1 - i]))
}

/// An identifier at the front of `rest`.
pub open spec fn ident(rest: Seq<char>) -> Result<(int, Seq<char>), Failure> {
    if rest.len() > 0 && is_ident_start(rest[0]) {
        let n = run_len(rest, Class::Ident);
        Ok((n, rest.take(n)))
    } else {
        Err(Failure::BadIdentifier(first(rest)))
    }
}

/// An unquoted string at the front of `rest`: it ends before the first white
/// space or at the end of the line, may be empty, and fails on a banned
/// scalar.
pub open spec fn naked(rest: Seq<char>) -> Result<(int, Seq<char>), Failure> {
    let n = run_len(rest, Class::Naked);
    if n < rest.len() && is_banned(rest[n]) {
        Err(Failure::BannedCharacter(rest[n]))
    } else {
        Ok((n, rest.take(n)))
    }
}

/// Length of the opening delimiter at the front of `rest`: a run of one quote
/// character, or a run of opening brackets together with the bar that may
/// follow it. Zero where `rest` begins with neither.
pub open spec fn opener_len(rest: Seq<char>) -> int {
    if rest.len() == 0 {
        0
    } else if is_quote(rest[0]) {
        run_len(rest, Class::Only(rest[0]))
    } else {
        let n = run_len(rest, Class::Bracket);
        if n < rest.len() && rest[n] == '|' {
            n + 1
        } else {
            n
        }
    }
}

/// The scan for a closing delimiter stops after `n` scalars of `rest`: they
/// end with the closing delimiter `r` or with the opening delimiter `l`.
pub open spec fn stops(rest: Seq<char>, l: Seq<char>, r: Seq<char>, n: int) -> bool {
    ends_with(rest.take(n), r) || ends_with(rest.take(n), l)
}

/// The least number of scalars greater than `from` after which the scan
/// stops, if the scan stops at all.
pub open spec fn first_stop(rest: Seq<char>, l: Seq<char>, r: Seq<char>, from: int) -> Option<int>
    decreases rest.len() - from,
{
    if from >= rest.len() {
        None
    } else if stops(rest, l, r, from + 1) {
        Some(from + 1)
    } else {
        first_stop(rest, l, r, from + 1)
    }
}

/// The body of a delimited string, where `rest` begins just behind the opening
/// delimiter `l` and `r` is the closing one. The scan takes at least one
/// scalar and stops as soon as what it has taken ends with `r` or with `l`;
/// `r` is looked for first. The count includes `r`, the text does not.
pub open spec fn delimited(rest: Seq<char>, l: Seq<char>, r: Seq<char>) -> Result<
    (int, Seq<char>),
    Failure,
> {
    match first_stop(rest, l, r, 0) {
        None => Err(Failure::Unterminated(l, r)),
        Some(n) => if ends_with(rest.take(n), r) {
            Ok((n, rest.take(n - r.len())))
        } else {
            Err(Failure::Reoccurrence(l))
        },
    }
}

/// A string at the front of `rest`: delimited where it begins with a quote, a
/// bracket or the bar, unquoted otherwise.
pub open spec fn string(rest: Seq<char>) -> Result<(int, Seq<char>), Failure> {
    if rest.len() == 0 {
        Err(Failure::BadStringStart(None))
    } else if is_delimiter(rest[0]) {
        let k = opener_len(rest);
        let l = rest.take(k);
        match delimited(rest.skip(k), l, mirror(l)) {
            Ok((n, text)) => Ok((k + n, text)),
            Err(f) => Err(f),
        }
    } else if is_sigil(rest[0]) {
        Err(Failure::BadStringStart(Some(rest[0])))
    } else {
        naked(rest)
    }
}

/// A flag at the front of `rest`, which begins with a sign.
pub open spec fn flag(rest: Seq<char>) -> Result<(int, Token), Failure> {
    match ident(rest.skip(1)) {
        Ok((n, name)) => Ok((1 + n, Token::Flag(rest[0] == '+', name))),
        Err(f) => Err(f),
    }
}

/// `rest` begins with an identifier and an equals sign.
pub open spec fn has_key(rest: Seq<char>) -> bool {
    match ident(rest) {
        Ok((n, _)) => n < rest.len() && rest[n] == '=',
        Err(_) => false,
    }
}

/// A keyword or a positional at the front of `rest`, not yet looking at what
/// follows it. Once an identifier and an equals sign are there, the component
/// is a keyword, and a failure of its string is the component's failure.
pub open spec fn keyword_or_positional(rest: Seq<char>) -> Result<(int, Token), Failure> {
    if has_key(rest) {
        let n = ident(rest)->Ok_0.0;
        match string(rest.skip(n + 1)) {
            Ok((m, text)) => Ok((n + 1 + m, Token::Keyword(rest.take(n), text))),
            Err(f) => Err(f),
        }
    } else {
        match string(rest) {
            Ok((m, text)) => Ok((m, Token::Positional(text))),
            Err(f) => Err(f),
        }
    }
}

/// One component at the front of `rest`, which begins with no white space. A
/// keyword or a positional must be followed by white space or by the end of
/// the line.
pub open spec fn immediate(rest: Seq<char>) -> Result<(int, Token), Failure> {
    if rest.len() > 0 && is_sign(rest[0]) {
        flag(rest)
    } else {
        match keyword_or_positional(rest) {
            Ok((n, a)) => if n < rest.len() && !is_white_space(rest[n]) {
                Err(Failure::TrailingGarbage)
            } else {
                Ok((n, a))
            },
            Err(f) => Err(f),
        }
    }
}

/// The next component of a line of which `rest` remains, together with the
/// white space before it. Every component, a flag too, is preceded by white
/// space; only the first component of the line may lack it.
pub open spec fn next_arg(rest: Seq<char>, at_start: bool) -> Result<(int, Token), Failure> {
    let w = run_len(rest, Class::Space);
    if !at_start && w == 0 {
        Err(Failure::MissingSeparator(rest[0]))
    } else {
        match immediate(rest.skip(w)) {
            Ok((n, a)) => Ok((w + n, a)),
            Err(f) => Err(f),
        }
    }
}

/// All components of `rest`, which `next_arg` takes one after the other until
/// nothing remains. The first failure is the failure of the whole.
pub open spec fn components(rest: Seq<char>, at_start: bool) -> Result<Seq<Token>, Failure>
    decreases rest.len(),
    via components_decreases
{
    if rest.len() == 0 {
        Ok(Seq::empty())
    } else {
        match next_arg(rest, at_start) {
            Err(f) => Err(f),
            Ok((n, a)) => match components(rest.skip(n), false) {
                Ok(v) => Ok(seq![a] + v),
                Err(f) => Err(f),
            },
        }
    }
}

#[via_fn]
proof fn components_decreases(rest: Seq<char>, at_start: bool) {
    if rest.len() > 0 {
        lemma_next_arg_progress(rest, at_start);
    }
}

/// What a line parses to: the components of the line without its trailing
/// white space.
pub open spec fn parse_line(line: Seq<char>) -> Result<Seq<Token>, Failure> {
    components(trimmed(line), true)
}

/// A run lies within the sequence, holds only scalars of the class, and ends
/// at the first scalar outside it.
pub proof fn lemma_run_len(s: Seq<char>, k: Class)
    ensures
        0 <= run_len(s, k) <= s.len(),
        forall|i: int| 0 <= i < run_len(s, k) ==> in_class(k, #[trigger] s[i]),
        run_len(s, k) < s.len() ==> !in_class(k, s[run_len(s, k)]),
    decreases s.len(),
{
    if s.len() > 0 && in_class(k, s[0]) {
        let t = s.drop_first();
        lemma_run_len(t, k);
        assert forall|i: int| 0 <= i < run_len(s, k) implies in_class(k, #[trigger] s[i]) by {
            if i > 0 {
                assert(s[i] == t[i - 1]);
            }
        }
        if run_len(s, k) < s.len() {
            assert(s[run_len(s, k)] == t[run_len(t, k)]);
        }
    }
}

/// The run is the only prefix of scalars of the class that ends at a scalar
/// outside it.
pub proof fn lemma_run_len_is(s: Seq<char>, k: Class, n: int)
    requires
        0 <= n <= s.len(),
        forall|i: int| 0 <= i < n ==> in_class(k, #[trigger] s[i]),
        n < s.len() ==> !in_class(k, s[n]),
    ensures
        run_len(s, k) == n,
    decreases n,
{
    if n > 0 {
        let t = s.drop_first();
        assert(in_class(k, s[0]));
        assert forall|i: int| 0 <= i < n - 1 implies in_class(k, #[trigger] t[i]) by {
            assert(t[i] == s[i + 1]);
        }
        if n - 1 < t.len() {
            assert(t[n - 1] == s[n]);
        }
        lemma_run_len_is(t, k, n - 1);
    }
}

/// A trimmed sequence is a prefix that does not end in white space.
pub proof fn lemma_trimmed(s: Seq<char>)
    ensures
        0 <= trimmed_len(s) <= s.len(),
        trimmed_len(s) > 0 ==> !is_white_space(s[trimmed_len(s) - 1]),
        forall|i: int| trimmed_len(s) <= i < s.len() ==> is_white_space(#[trigger] s[i]),
    decreases s.len(),
{
    if s.len() > 0 && is_white_space(s.last()) {
        let t = s.drop_last();
        lemma_trimmed(t);
        assert forall|i: int| trimmed_len(s) <= i < s.len() implies is_white_space(
            #[trigger] s[i],
        ) by {
            if i < t.len() {
                assert(s[i] == t[i]);
            }
        }
    }
}

/// An opening delimiter is not empty and is made of delimiter scalars.
pub proof fn lemma_opener(rest: Seq<char>)
    requires
        rest.len() > 0,
        is_delimiter(rest[0]),
    ensures
        1 <= opener_len(rest) <= rest.len(),
        forall|i: int| 0 <= i < opener_len(rest) ==> is_delimiter(#[trigger] rest[i]),
{
    lemma_run_len(rest, Class::Only(rest[0]));
    lemma_run_len(rest, Class::Bracket);
}

/// What the scan for a closing delimiter finds lies behind `from`, within
/// `rest`, and is the first place where the scan stops.
pub proof fn lemma_first_stop(rest: Seq<char>, l: Seq<char>, r: Seq<char>, from: int)
    requires
        0 <= from,
    ensures
        match first_stop(rest, l, r, from) {
            Some(n) => from < n <= rest.len() && stops(rest, l, r, n) && forall|m: int|
                from < m < n ==> !stops(rest, l, r, m),
            None => forall|m: int| from < m <= rest.len() ==> !stops(rest, l, r, m),
        },
    decreases rest.len() - from,
{
    if from < rest.len() && !stops(rest, l, r, from + 1) {
        lemma_first_stop(rest, l, r, from + 1);
    }
}

/// The scan for a closing delimiter does not stop within the first `n`
/// scalars of `rest`.
#[verifier::opaque]
pub open spec fn unstopped(rest: Seq<char>, l: Seq<char>, r: Seq<char>, n: int) -> bool {
    forall|m: int| 0 < m <= n ==> !stops(rest, l, r, m)
}

/// Before its first scalar the scan has not stopped.
pub proof fn lemma_unstopped_zero(rest: Seq<char>, l: Seq<char>, r: Seq<char>)
    ensures
        unstopped(rest, l, r, 0),
{
    reveal(unstopped);
}

/// A scan that has not stopped and does not stop at the next scalar has not
/// stopped one scalar on.
pub proof fn lemma_unstopped_next(rest: Seq<char>, l: Seq<char>, r: Seq<char>, n: int)
    requires
        unstopped(rest, l, r, n),
        !stops(rest, l, r, n + 1),
    ensures
        unstopped(rest, l, r, n + 1),
{
    reveal(unstopped);
}

/// A scan that never stops leaves the string unterminated.
pub proof fn lemma_delimited_unterminated(rest: Seq<char>, l: Seq<char>, r: Seq<char>)
    requires
        unstopped(rest, l, r, rest.len() as int),
    ensures
        delimited(rest, l, r) == Err::<(int, Seq<char>), Failure>(Failure::Unterminated(l, r)),
{
    reveal(unstopped);
    lemma_first_stop(rest, l, r, 0);
}

/// A scan that first stops at the closing delimiter yields what stands before
/// it.
pub proof fn lemma_delimited_closed(rest: Seq<char>, l: Seq<char>, r: Seq<char>, n: int)
    requires
        0 < n <= rest.len(),
        unstopped(rest, l, r, n - 1),
        ends_with(rest.take(n), r),
    ensures
        delimited(rest, l, r) == Ok::<(int, Seq<char>), Failure>((n, rest.take(n - r.len()))),
{
    reveal(unstopped);
    lemma_first_stop(rest, l, r, 0);
    assert(stops(rest, l, r, n));
}

/// A scan that first stops at the opening delimiter, and not at the closing
/// one, fails.
pub proof fn lemma_delimited_reopened(rest: Seq<char>, l: Seq<char>, r: Seq<char>, n: int)
    requires
        0 < n <= rest.len(),
        unstopped(rest, l, r, n - 1),
        !ends_with(rest.take(n), r),
        ends_with(rest.take(n), l),
    ensures
        delimited(rest, l, r) == Err::<(int, Seq<char>), Failure>(Failure::Reoccurrence(l)),
{
    reveal(unstopped);
    lemma_first_stop(rest, l, r, 0);
    assert(stops(rest, l, r, n));
}

/// An identifier takes at least one scalar and no more than there are.
pub proof fn lemma_ident_bounds(rest: Seq<char>)
    ensures
        ident(rest) matches Ok((n, name)) ==> 1 <= n <= rest.len() && name == rest.take(n),
{
    lemma_run_len(rest, Class::Ident);
}

/// A string takes no more scalars than there are, and at least one unless it
/// is the empty unquoted string in front of white space.
pub proof fn lemma_string_bounds(rest: Seq<char>)
    ensures
        string(rest) matches Ok((n, text)) ==> 0 <= n <= rest.len() && (n == 0 ==> rest.len() > 0
            && is_white_space(rest[0])),
{
    if rest.len() > 0 {
        if is_delimiter(rest[0]) {
            let k = opener_len(rest);
            lemma_run_len(rest, Class::Only(rest[0]));
            lemma_run_len(rest, Class::Bracket);
            lemma_first_stop(rest.skip(k), rest.take(k), mirror(rest.take(k)), 0);
        } else {
            lemma_run_len(rest, Class::Naked);
        }
    }
}

/// A component is never empty and never longer than what remains.
pub proof fn lemma_next_arg_progress(rest: Seq<char>, at_start: bool)
    requires
        rest.len() > 0,
    ensures
        next_arg(rest, at_start) matches Ok((n, a)) ==> 1 <= n <= rest.len(),
{
    let w = run_len(rest, Class::Space);
    lemma_run_len(rest, Class::Space);
    let tail = rest.skip(w);
    if w == 0 {
        assert(tail =~= rest);
    }
    if tail.len() > 0 && is_sign(tail[0]) {
        lemma_ident_bounds(tail.skip(1));
    } else {
        lemma_ident_bounds(tail);
        lemma_string_bounds(tail);
        if has_key(tail) {
            let n = ident(tail)->Ok_0.0;
            lemma_string_bounds(tail.skip(n + 1));
        }
    }
}

} // verus!
