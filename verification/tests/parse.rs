use argline::arg::{parse, Arg};

#[test]
fn bare_word_is_one_positional() {
    assert_eq!(parse("hello"), Ok(vec![Arg::Pos("hello")]));
    assert_eq!(parse("héllo_wörld.42"), Ok(vec![Arg::Pos("héllo_wörld.42")]));
}

#[test]
fn empty_line_has_no_arguments() {
    assert_eq!(parse(""), Ok(vec![]));
    assert_eq!(parse("   \t\n"), Ok(vec![]));
}

#[test]
fn trailing_white_space_is_ignored() {
    assert_eq!(parse("a  "), Ok(vec![Arg::Pos("a")]));
    assert_eq!(parse("a\u{3000}\u{a0}"), Ok(vec![Arg::Pos("a")]));
}

#[test]
fn leading_white_space_is_skipped() {
    assert_eq!(parse("  a b"), Ok(vec![Arg::Pos("a"), Arg::Pos("b")]));
}

#[test]
fn doubled_apostrophes_embed_a_single_one() {
    assert_eq!(parse("''it's mine''"), Ok(vec![Arg::Pos("it's mine")]));
    assert_eq!(parse("'''a''b'c'''"), Ok(vec![Arg::Pos("a''b'c")]));
}

#[test]
fn bracket_stack_round_trip() {
    assert_eq!(parse("([hello])"), Ok(vec![Arg::Pos("hello")]));
    assert_eq!(parse("(|a|)"), Ok(vec![Arg::Pos("a")]));
    assert_eq!(parse("([{|bar|content|}])"), Ok(vec![Arg::Pos("bar|content")]));
    assert_eq!(parse("|a b|"), Ok(vec![Arg::Pos("a b")]));
}

#[test]
fn flags_on_and_off() {
    assert_eq!(
        parse("+verbose -quiet"),
        Ok(vec![Arg::Flag(true, "verbose"), Arg::Flag(false, "quiet")])
    );
}

#[test]
fn flags_need_white_space_before_them_too() {
    assert_eq!(
        parse("+a+b"),
        Err("Expected flag, or some whitespace before more input; found '+'".to_string())
    );
    assert_eq!(
        parse("x -b"),
        Ok(vec![Arg::Pos("x"), Arg::Flag(false, "b")])
    );
    assert_eq!(parse(" +a"), Ok(vec![Arg::Flag(true, "a")]));
}

#[test]
fn keyword_with_quoted_value() {
    assert_eq!(parse("name=\"Ada Lovelace\""), Ok(vec![Arg::Kw("name", "Ada Lovelace")]));
    assert_eq!(parse("k=v"), Ok(vec![Arg::Kw("k", "v")]));
    assert_eq!(parse("k= v"), Ok(vec![Arg::Kw("k", ""), Arg::Pos("v")]));
    assert_eq!(parse("_k9=(x)"), Ok(vec![Arg::Kw("_k9", "x")]));
}

#[test]
fn mixed_line_keeps_its_order() {
    assert_eq!(
        parse("run +fast level=`3` {a b} -dry  tail"),
        Ok(vec![
            Arg::Pos("run"),
            Arg::Flag(true, "fast"),
            Arg::Kw("level", "3"),
            Arg::Pos("a b"),
            Arg::Flag(false, "dry"),
            Arg::Pos("tail"),
        ])
    );
}

#[test]
fn adjacent_strings_do_not_concatenate() {
    assert_eq!(
        parse("\"a\"\"b\""),
        Err("Strings should be followed by whitespace or end-of-input".to_string())
    );
    assert_eq!(
        parse("\"a\"b"),
        Err("Strings should be followed by whitespace or end-of-input".to_string())
    );
}

#[test]
fn missing_separator_after_a_flag() {
    assert_eq!(
        parse("+a\"b\""),
        Err("Expected flag, or some whitespace before more input; found '\"'".to_string())
    );
}

#[test]
fn malformed_identifier() {
    assert_eq!(
        parse("+1"),
        Err("Expected ASCII letter to begin identifier; found '1'".to_string())
    );
    assert_eq!(
        parse("a +"),
        Err("Expected ASCII letter to begin identifier; found end-of-input".to_string())
    );
}

#[test]
fn malformed_string_start() {
    assert_eq!(parse("=a"), Err("Expected string, found '='".to_string()));
    assert_eq!(parse("a=-"), Err("Expected string, found '-'".to_string()));
    assert_eq!(parse("a="), Err("Expected string, found end of input".to_string()));
}

#[test]
fn banned_character_in_naked_string() {
    assert_eq!(
        parse("ab)c"),
        Err(
            "In naked string, encountered banned character ')'; try wrapping the string in quotes or delimiters."
                .to_string()
        )
    );
    assert_eq!(
        parse("foo=bar=baz"),
        Err(
            "In naked string, encountered banned character '='; try wrapping the string in quotes or delimiters."
                .to_string()
        )
    );
}

#[test]
fn unterminated_delimiter() {
    assert_eq!(
        parse("''abc'"),
        Err("Unclosed string at end-of-input (left: \"''\", expected right: \"''\")".to_string())
    );
    assert_eq!(
        parse("([x)"),
        Err("Unclosed string at end-of-input (left: \"([\", expected right: \"])\")".to_string())
    );
    assert_eq!(
        parse("''''"),
        Err("Unclosed string at end-of-input (left: \"''''\", expected right: \"''''\")".to_string())
    );
}

#[test]
fn opening_delimiter_may_not_come_again() {
    assert_eq!(
        parse("(a(b)"),
        Err("Opening delimiter (here: \"(\") not allowed in string content".to_string())
    );
}

#[test]
fn quote_run_closes_at_first_recurrence() {
    assert_eq!(parse("'a' 'b'"), Ok(vec![Arg::Pos("a"), Arg::Pos("b")]));
    assert_eq!(
        parse("'a'b'"),
        Err("Strings should be followed by whitespace or end-of-input".to_string())
    );
}

#[test]
fn same_line_parses_the_same_twice() {
    let line = "run +fast level=`3` {a b} -dry  tail";
    assert_eq!(parse(line), parse(line));
    let bad = "([x)";
    assert_eq!(parse(bad), parse(bad));
}

#[test]
fn long_malformed_lines_end_in_an_error() {
    let mut open = String::from("(");
    for _ in 0..10_000 {
        open.push('é');
    }
    assert!(parse(&open).is_err());
    let mut naked = String::new();
    for _ in 0..10_000 {
        naked.push('x');
    }
    naked.push(']');
    assert!(parse(&naked).is_err());
    let mut words = String::new();
    for _ in 0..5_000 {
        words.push_str("w ");
    }
    assert_eq!(parse(&words).map(|v| v.len()), Ok(5_000));
}

#[test]
fn quote_next_to_the_closing_run_does_not_close_it() {
    assert_eq!(
        parse("''a'''"),
        Err("Strings should be followed by whitespace or end-of-input".to_string())
    );
    assert_eq!(
        parse("'''a''"),
        Err("Unclosed string at end-of-input (left: \"'''\", expected right: \"'''\")".to_string())
    );
}

#[test]
fn every_name_is_an_identifier() {
    let args = parse("+a_1 k9=v -_z x=(y)").unwrap();
    for a in args {
        let name = match a {
            Arg::Pos(_) => continue,
            Arg::Kw(name, _) => name,
            Arg::Flag(_, name) => name,
        };
        let mut cs = name.chars();
        let first = cs.next().unwrap();
        assert!(first == '_' || first.is_ascii_alphabetic());
        assert!(cs.all(|c| c == '_' || c.is_ascii_alphanumeric()));
    }
}
