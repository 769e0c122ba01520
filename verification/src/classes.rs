//! Character classes of the argument grammar.

use vstd::prelude::*;

verus! {

/// The scalars with the Unicode property `White_Space`.
pub open spec fn is_white_space(c: char) -> bool {
    let u = c as u32;
    ||| 0x09 <= u <= 0x0D
    ||| u == 0x20
    ||| u == 0x85
    ||| u == 0xA0
    ||| u == 0x1680
    ||| 0x2000 <= u <= 0x200A
    ||| u == 0x2028
    ||| u == 0x2029
    ||| u == 0x202F
    ||| u == 0x205F
    ||| u == 0x3000
}

/// An ASCII letter or the underscore: what an identifier begins with.
pub open spec fn is_ident_start(c: char) -> bool {
    c == '_' || ('a' <= c <= 'z') || ('A' <= c <= 'Z')
}

/// An ASCII letter, an ASCII digit or the underscore: what an identifier
/// goes on with.
pub open spec fn is_ident_char(c: char) -> bool {
    is_ident_start(c) || ('0' <= c <= '9')
}

/// One of the three quote characters.
pub open spec fn is_quote(c: char) -> bool {
    c == '\'' || c == '"' || c == '`'
}

/// One of the three opening brackets.
pub open spec fn is_bracket(c: char) -> bool {
    c == '(' || c == '[' || c == '{'
}

/// An opening bracket or the bar: what a bracket-run is made of.
pub open spec fn is_opener(c: char) -> bool {
    is_bracket(c) || c == '|'
}

/// A scalar that may occur in an opening delimiter.
pub open spec fn is_delimiter(c: char) -> bool {
    is_opener(c) || is_quote(c)
}

/// The sign that begins a flag.
pub open spec fn is_sign(c: char) -> bool {
    c == '+' || c == '-'
}

/// A sign or the equals sign: what no string begins with.
pub open spec fn is_sigil(c: char) -> bool {
    is_sign(c) || c == '='
}

/// A scalar that no unquoted string may hold.
pub open spec fn is_banned(c: char) -> bool {
    is_quote(c) || is_opener(c) || is_sigil(c) || c == ')' || c == ']' || c == '}'
}

/// The closing counterpart of a delimiter scalar: brackets are mirrored,
/// quotes and the bar close themselves.
pub open spec fn mirror_char(c: char) -> char {
    if c == '(' {
        ')'
    } else if c == '[' {
        ']'
    } else if c == '{' {
        '}'
    } else {
        c
    }
}

/// Whether `c` is white space.
pub fn is_whitespace(c: char) -> (b: bool)
    ensures
        b == is_white_space(c),
{
    let u: u32 = c as u32;
    (0x09 <= u && u <= 0x0D) || u == 0x20 || u == 0x85 || u == 0xA0 || u == 0x1680 || (0x2000 <= u
        && u <= 0x200A) || u == 0x2028 || u == 0x2029 || u == 0x202F || u == 0x205F || u == 0x3000
}

/// Whether `c` may stand in an identifier: as its first scalar where `first`
/// is set, as a later one otherwise.
pub fn qualifies_ident(c: char, first: bool) -> (b: bool)
    ensures
        b == (if first {
            is_ident_start(c)
        } else {
            is_ident_char(c)
        }),
{
    c == '_' || ('a' <= c && c <= 'z') || ('A' <= c && c <= 'Z') || (!first && '0' <= c && c <= '9')
}

/// Whether `c` is banned from unquoted strings.
pub fn banned(c: char) -> (b: bool)
    ensures
        b == is_banned(c),
{
    c == '\'' || c == '"' || c == '`' || c == '|' || c == '{' || c == '[' || c == '(' || c == '='
        || c == '+' || c == '-' || c == ')' || c == ']' || c == '}'
}

} // verus!
