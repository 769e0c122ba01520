use argline::arg::{
    _expect_brackplus, _expect_immediate_arg, _expect_next_arg, _expect_quoteplus, expect_ident,
    expect_naked_string, expect_string, expect_string_ex_wo, reversed_string_delimiter, trim_end,
    Arg,
};

#[test]
fn ident_stops_at_the_first_other_scalar() {
    assert_eq!(expect_ident("abc_9=x", 0), Ok((5, "abc_9")));
    assert_eq!(expect_ident("x _y", 2), Ok((4, "_y")));
    assert_eq!(expect_ident("aé", 0), Ok((1, "a")));
}

#[test]
fn ident_needs_a_letter_or_underscore_first() {
    assert_eq!(
        expect_ident("9a", 0),
        Err("Expected ASCII letter to begin identifier; found '9'".to_string())
    );
    assert_eq!(
        expect_ident("x", 1),
        Err("Expected ASCII letter to begin identifier; found end-of-input".to_string())
    );
    assert_eq!(
        expect_ident("\n", 0),
        Err("Expected ASCII letter to begin identifier; found '\\n'".to_string())
    );
}

#[test]
fn naked_string_ends_at_white_space() {
    assert_eq!(expect_naked_string("héllo wörld", 0), Ok((6, "héllo")));
    assert_eq!(expect_naked_string("héllo wörld", 7), Ok((13, "wörld")));
    assert_eq!(expect_naked_string("a b", 1), Ok((1, "")));
    assert_eq!(expect_naked_string("", 0), Ok((0, "")));
}

#[test]
fn naked_string_rejects_each_banned_scalar() {
    for c in "'\"`|{[(=+-)]}".chars() {
        let line = format!("ab{}", c);
        let want = format!(
            "In naked string, encountered banned character {:?}; try wrapping the string in quotes or delimiters.",
            c
        );
        assert_eq!(expect_naked_string(&line, 0), Err(want));
    }
}

#[test]
fn quote_run_takes_one_kind_of_quote() {
    assert_eq!(_expect_quoteplus("'''a", 0), (3, "'''"));
    assert_eq!(_expect_quoteplus("'\"a", 0), (1, "'"));
    assert_eq!(_expect_quoteplus("x``", 1), (3, "``"));
}

#[test]
fn bracket_run_stops_behind_a_bar() {
    assert_eq!(_expect_brackplus("([{x", 0), (3, "([{"));
    assert_eq!(_expect_brackplus("(|[a", 0), (2, "(|"));
    assert_eq!(_expect_brackplus("||a", 0), (1, "|"));
    assert_eq!(_expect_brackplus("(", 0), (1, "("));
}

#[test]
fn closing_delimiter_is_mirrored_and_reversed() {
    assert_eq!(reversed_string_delimiter("([{|"), "|}])");
    assert_eq!(reversed_string_delimiter("'''"), "'''");
    assert_eq!(reversed_string_delimiter("\""), "\"");
    assert_eq!(reversed_string_delimiter("`"), "`");
    assert_eq!(reversed_string_delimiter(""), "");
}

#[test]
fn delimited_body_ends_before_the_closing_delimiter() {
    assert_eq!(expect_string_ex_wo("(a b) c", 1, "(", ")"), Ok((5, "a b")));
    assert_eq!(expect_string_ex_wo("''é'x''", 2, "''", "''"), Ok((8, "é'x")));
    assert_eq!(expect_string_ex_wo("()", 1, "(", ")"), Ok((2, "")));
}

#[test]
fn delimited_body_with_an_empty_closing_delimiter_is_one_scalar() {
    assert_eq!(expect_string_ex_wo("éb", 0, "", ""), Ok((2, "é")));
}

#[test]
fn delimited_body_fails_unclosed_or_reopened() {
    assert_eq!(
        expect_string_ex_wo("(ab", 1, "(", ")"),
        Err("Unclosed string at end-of-input (left: \"(\", expected right: \")\")".to_string())
    );
    assert_eq!(
        expect_string_ex_wo("(a(b)", 1, "(", ")"),
        Err("Opening delimiter (here: \"(\") not allowed in string content".to_string())
    );
}

#[test]
fn string_dispatches_on_its_first_scalar() {
    assert_eq!(expect_string("[(x y)] z", 0), Ok((7, "x y")));
    assert_eq!(expect_string("`x` z", 0), Ok((3, "x")));
    assert_eq!(expect_string("xy z", 0), Ok((2, "xy")));
    assert_eq!(expect_string("+x", 0), Err("Expected string, found '+'".to_string()));
    assert_eq!(expect_string("x", 1), Err("Expected string, found end of input".to_string()));
    assert_eq!(expect_string("x", 7), Err("Expected string, found end of input".to_string()));
}

#[test]
fn immediate_argument_of_each_kind() {
    assert_eq!(_expect_immediate_arg("+on x", 0), Ok((3, Arg::Flag(true, "on"))));
    assert_eq!(_expect_immediate_arg("-off", 0), Ok((4, Arg::Flag(false, "off"))));
    assert_eq!(_expect_immediate_arg("k=(v w) x", 0), Ok((7, Arg::Kw("k", "v w"))));
    assert_eq!(_expect_immediate_arg("kv x", 0), Ok((2, Arg::Pos("kv"))));
    assert_eq!(
        _expect_immediate_arg("(a)b", 0),
        Err("Strings should be followed by whitespace or end-of-input".to_string())
    );
    assert_eq!(
        _expect_immediate_arg("k=(v", 0),
        Err("Unclosed string at end-of-input (left: \"(\", expected right: \")\")".to_string())
    );
}

#[test]
fn next_argument_skips_white_space() {
    assert_eq!(_expect_next_arg("a  b", 1), Ok((4, Arg::Pos("b"))));
    assert_eq!(_expect_next_arg("a +b", 1), Ok((4, Arg::Flag(true, "b"))));
    assert_eq!(_expect_next_arg("+b", 0), Ok((2, Arg::Flag(true, "b"))));
    assert_eq!(
        _expect_next_arg("+a+b", 2),
        Err("Expected flag, or some whitespace before more input; found '+'".to_string())
    );
    assert_eq!(_expect_next_arg("  b", 0), Ok((3, Arg::Pos("b"))));
    assert_eq!(
        _expect_next_arg("+a(b)", 2),
        Err("Expected flag, or some whitespace before more input; found '('".to_string())
    );
}

#[test]
fn trim_end_is_what_std_does() {
    for s in ["", " ", "a", "a ", " a \t\n", "a\u{2003}\u{85}", "é\u{3000}", "a b  ", "\u{200b} "] {
        assert_eq!(trim_end(s), s.trim_end(), "{:?}", s);
    }
}
