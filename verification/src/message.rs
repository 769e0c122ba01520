//! The text shown for each failure.

use crate::grammar::Failure;
use vstd::prelude::*;
use vstd::string::*;

verus! {

/// What `{:?}` prints for the scalar `c`: the scalar in single quotes, escaped
/// where it is not printable.
pub uninterp spec fn char_debug(c: char) -> Seq<char>;

/// What `{:?}` prints for the string `s`: the string in double quotes, escaped
/// where it is not printable.
pub uninterp spec fn str_debug(s: Seq<char>) -> Seq<char>;

/// The message that describes a failure.
pub open spec fn message(f: Failure) -> Seq<char> {
    match f {
        Failure::BadIdentifier(Some(c)) => "Expected ASCII letter to begin identifier; found "@
            + char_debug(c),
        Failure::BadIdentifier(None) =>
            "Expected ASCII letter to begin identifier; found end-of-input"@,
        Failure::BadStringStart(Some(c)) => "Expected string, found "@ + char_debug(c),
        Failure::BadStringStart(None) => "Expected string, found end of input"@,
        Failure::BannedCharacter(c) => "In naked string, encountered banned character "@
            + char_debug(c) + "; try wrapping the string in quotes or delimiters."@,
        Failure::Unterminated(l, r) => "Unclosed string at end-of-input (left: "@ + str_debug(l)
            + ", expected right: "@ + str_debug(r) + ")"@,
        Failure::Reoccurrence(l) => "Opening delimiter (here: "@ + str_debug(l)
            + ") not allowed in string content"@,
        Failure::MissingSeparator(c) =>
            "Expected flag, or some whitespace before more input; found "@ + char_debug(c),
        Failure::TrailingGarbage => "Strings should be followed by whitespace or end-of-input"@,
    }
}

/// Formats a scalar with `{:?}`, that is through `<char as Debug>::fmt`. The
/// output depends on the scalar alone; nothing more is claimed of it.
#[verifier::external_body]
fn debug_char(c: char) -> (r: String)
    ensures
        r@ == char_debug(c),
{
    format!("{:?}", c)
}

/// Formats a string with `{:?}`, that is through `<str as Debug>::fmt`. The
/// output depends on the string alone; nothing more is claimed of it.
#[verifier::external_body]
fn debug_str(s: &str) -> (r: String)
    ensures
        r@ == str_debug(s@),
{
    format!("{:?}", s)
}

/// The message for an identifier that does not begin as one.
pub fn bad_identifier(found: Option<char>) -> (m: String)
    ensures
        m@ == message(Failure::BadIdentifier(found)),
{
    match found {
        Some(c) => {
            let mut m = String::from_str("Expected ASCII letter to begin identifier; found ");
            m.append(debug_char(c).as_str());
            m
        },
        None => String::from_str("Expected ASCII letter to begin identifier; found end-of-input"),
    }
}

/// The message for a string that begins with a sigil or not at all.
pub fn bad_string_start(found: Option<char>) -> (m: String)
    ensures
        m@ == message(Failure::BadStringStart(found)),
{
    match found {
        Some(c) => {
            let mut m = String::from_str("Expected string, found ");
            m.append(debug_char(c).as_str());
            m
        },
        None => String::from_str("Expected string, found end of input"),
    }
}

/// The message for a banned scalar in an unquoted string.
pub fn banned_character(c: char) -> (m: String)
    ensures
        m@ == message(Failure::BannedCharacter(c)),
{
    let mut m = String::from_str("In naked string, encountered banned character ");
    m.append(debug_char(c).as_str());
    m.append("; try wrapping the string in quotes or delimiters.");
    m
}

/// The message for a delimited string that the line ends in.
pub fn unterminated(l: &str, r: &str) -> (m: String)
    ensures
        m@ == message(Failure::Unterminated(l@, r@)),
{
    let mut m = String::from_str("Unclosed string at end-of-input (left: ");
    m.append(debug_str(l).as_str());
    m.append(", expected right: ");
    m.append(debug_str(r).as_str());
    m.append(")");
    m
}

/// The message for an opening delimiter that comes again in the string.
pub fn reoccurrence(l: &str) -> (m: String)
    ensures
        m@ == message(Failure::Reoccurrence(l@)),
{
    let mut m = String::from_str("Opening delimiter (here: ");
    m.append(debug_str(l).as_str());
    m.append(") not allowed in string content");
    m
}

/// The message for a component that lacks white space before it.
pub fn missing_separator(c: char) -> (m: String)
    ensures
        m@ == message(Failure::MissingSeparator(c)),
{
    let mut m = String::from_str("Expected flag, or some whitespace before more input; found ");
    m.append(debug_char(c).as_str());
    m
}

/// The message for a string that is followed by more than white space.
pub fn trailing_garbage() -> (m: String)
    ensures
        m@ == message(Failure::TrailingGarbage),
{
    String::from_str("Strings should be followed by whitespace or end-of-input")
}

} // verus!
