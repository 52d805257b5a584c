use shell_parse::{parse_quoted, parse_space_seperated_chunk, tokenize, ParsedCommand, ParserError};

fn strings(v: &[&str]) -> Vec<String> {
    v.iter().map(|s| String::from(*s)).collect()
}

#[test]
fn test_parse_command() {
    for (input, expected) in [
        (
            r#"ls"#,
            ParsedCommand {
                command: String::from("ls"),
                args: vec![],
            },
        ),
        (
            r#"ls -lha"#,
            ParsedCommand {
                command: String::from("ls"),
                args: vec![String::from("-lha")],
            },
        ),
        (
            r#"ls -lha /sys"#,
            ParsedCommand {
                command: String::from("ls"),
                args: vec![String::from("-lha"), String::from("/sys")],
            },
        ),
        (
            r#"echo  extra   spaces  will    be    removed"#,
            ParsedCommand {
                command: String::from("echo"),
                args: vec![
                    String::from("extra"),
                    String::from("spaces"),
                    String::from("will"),
                    String::from("be"),
                    String::from("removed"),
                ],
            },
        ),
        (
            "echo \"but   not  if    they're    in    quotes\"\n",
            ParsedCommand {
                command: String::from("echo"),
                args: vec![String::from("but   not  if    they're    in    quotes")],
            },
        ),
        (
            r#"/usr/bin/printf "The cat's name is %s.\n" 'Theodore Roosevelt'"#,
            ParsedCommand {
                command: String::from("/usr/bin/printf"),
                args: vec![
                    String::from(r#"The cat's name is %s.\n"#),
                    String::from(r#"Theodore Roosevelt"#),
                ],
            },
        ),
    ] {
        let actual = ParsedCommand::parse_command(input).unwrap();
        assert_eq!(
            actual, expected,
            "got left when expecting right from input `{input:?}`"
        );
    }
}

#[test]
fn test_parse_space_seperated_chunk() {
    for (input, expected) in [
        ("ls", Ok((String::from(""), String::from("ls")))),
        ("ls -l", Ok((String::from(" -l"), String::from("ls")))),
        ("ls -lha", Ok((String::from(" -lha"), String::from("ls")))),
        ("ls -l /sys", Ok((String::from(" -l /sys"), String::from("ls")))),
    ] {
        let actual = parse_space_seperated_chunk(input);
        assert_eq!(
            actual, expected,
            "got left when expecting right from input `{input:?}`"
        );
    }

    for (input, expected) in [
        (r#""ls""#, String::from("ls")),
        (
            r#""Movie name with spaces".mkv"#,
            String::from("Movie name with spaces.mkv"),
        ),
        (r#"'ls'"#, String::from("ls")),
        (
            r#"'Movie name with spaces'.mkv"#,
            String::from("Movie name with spaces.mkv"),
        ),
    ] {
        let actual = parse_space_seperated_chunk(input);
        let expected = Ok((String::from(""), expected));
        assert_eq!(
            actual, expected,
            "got left when expecting right from input `{input:?}`"
        );
    }
}

#[test]
fn test_parse_quoted() {
    for (input, expected) in [
        (r#""ls""#, Ok((String::from(""), String::from("ls")))),
        (
            r#""Movie name with spaces".mkv"#,
            Ok((String::from(".mkv"), String::from("Movie name with spaces"))),
        ),
        (r#"'ls'"#, Ok((String::from(""), String::from("ls")))),
        (
            r#"'Movie name with spaces'.mkv"#,
            Ok((String::from(".mkv"), String::from("Movie name with spaces"))),
        ),
    ] {
        let actual = parse_quoted(input);
        assert_eq!(
            actual, expected,
            "got left when expecting right from input `{input:?}`"
        );
    }

    for input in [r#"Missing Opening Quotes""#, r#""Missing Closing Quotes"#] {
        let actual = parse_quoted(input);
        assert!(actual.is_err());
    }
}

#[test]
fn blank_lines_have_no_tokens() {
    for input in ["", " ", "   \t  ", "\n", " \t\r\n \u{3000}\u{a0}"] {
        assert_eq!(tokenize(input), Ok(vec![]), "input {input:?}");
        assert_eq!(
            ParsedCommand::parse_command(input),
            Err(ParserError::EmptyCommand),
            "input {input:?}"
        );
    }
}

#[test]
fn unquoted_lines_split_on_whitespace_runs() {
    let input = "  a bb\tccc \n d  ";
    let expected: Vec<String> = input.split_whitespace().map(String::from).collect();
    assert_eq!(tokenize(input), Ok(expected));
    assert_eq!(tokenize(input), Ok(strings(&["a", "bb", "ccc", "d"])));
}

#[test]
fn unicode_whitespace_separates_fields() {
    assert_eq!(
        tokenize("a\u{3000}b\u{2003}c\u{85}d"),
        Ok(strings(&["a", "b", "c", "d"]))
    );
    assert_eq!(tokenize("x\u{200b}y"), Ok(strings(&["x\u{200b}y"])));
}

fn requote(t: &str) -> String {
    let mut q = String::from("\"");
    for c in t.chars() {
        if c == '"' {
            q.push_str("\"'\"'\"");
        } else {
            q.push(c);
        }
    }
    q.push('"');
    q
}

#[test]
fn requoted_tokens_read_back() {
    let tokens = strings(&["plain", "two words", "it's", "say \"hi\"", "", "\t", "'\"'"]);
    let line = tokens.iter().map(|t| requote(t)).collect::<Vec<_>>().join(" ");
    assert_eq!(requote("say \"hi\""), r#""say "'"'"hi"'"'"""#);
    assert_eq!(tokenize(&line), Ok(tokens));
}

#[test]
fn adjacent_fragments_merge() {
    assert_eq!(tokenize(r#""a b"c"#), Ok(strings(&["a bc"])));
    assert_eq!(
        tokenize(r#""Movie name with spaces".mkv"#),
        Ok(strings(&["Movie name with spaces.mkv"]))
    );
    assert_eq!(tokenize(r#"pre'mid dle'"post""#), Ok(strings(&["premid dlepost"])));
}

#[test]
fn single_quoted_fragment_merges() {
    assert_eq!(
        tokenize("'Movie name with spaces'.mkv"),
        Ok(strings(&["Movie name with spaces.mkv"]))
    );
}

#[test]
fn whitespace_inside_quotes_is_kept() {
    assert_eq!(
        tokenize(r#"echo "but   not  if    they're    in    quotes""#),
        Ok(strings(&["echo", "but   not  if    they're    in    quotes"]))
    );
}

#[test]
fn other_quote_is_plain_inside_a_span() {
    assert_eq!(tokenize(r#"'say "hi"' "it's""#), Ok(strings(&["say \"hi\"", "it's"])));
}

#[test]
fn unterminated_quote_is_an_error() {
    let expected = ParserError::MismatchedQuotes(String::from(
        "could not find closing quotes when trying to parse `\"Missing Closing Quotes`, expected `\"`",
    ));
    assert_eq!(tokenize("\"Missing Closing Quotes"), Err(expected.clone()));
    assert_eq!(ParsedCommand::parse_command("\"Missing Closing Quotes"), Err(expected.clone()));
    assert_eq!(parse_quoted("\"Missing Closing Quotes"), Err(expected));
    assert_eq!(
        parse_space_seperated_chunk("ab'cd ef"),
        Err(ParserError::MismatchedQuotes(String::from(
            "could not find closing quotes when trying to parse `'cd ef`, expected `'`",
        )))
    );
}

#[test]
fn unterminated_quote_later_fails_the_line() {
    assert_eq!(
        ParsedCommand::parse_command("ls -l 'oops"),
        Err(ParserError::MismatchedQuotes(String::from(
            "could not find closing quotes when trying to parse `'oops`, expected `'`",
        )))
    );
}

#[test]
fn quote_reader_names_unexpected_character() {
    assert_eq!(
        parse_quoted("Missing Opening Quotes\""),
        Err(ParserError::MismatchedQuotes(String::from(
            "Expected a single or double quote, found M at position 0 when trying to parse a quoted string",
        )))
    );
    assert_eq!(
        parse_quoted("é'x'"),
        Err(ParserError::MismatchedQuotes(String::from(
            "Expected a single or double quote, found é at position 0 when trying to parse a quoted string",
        )))
    );
}

#[test]
fn quote_reader_on_empty_input() {
    assert_eq!(
        parse_quoted(""),
        Err(ParserError::Custom(String::from(
            "expected quote, found nothing at position 0 when trying to parse a quoted string",
        )))
    );
}

#[test]
fn quote_reader_takes_first_matching_close() {
    assert_eq!(
        parse_quoted(r#"'a"b' 'c'"#),
        Ok((String::from(" 'c'"), String::from("a\"b")))
    );
    assert_eq!(parse_quoted("\"\"rest"), Ok((String::from("rest"), String::from(""))));
}

#[test]
fn excess_spacing_collapses() {
    assert_eq!(
        tokenize("echo  extra   spaces  will    be    removed"),
        Ok(strings(&["echo", "extra", "spaces", "will", "be", "removed"]))
    );
}

#[test]
fn printf_example_keeps_backslashes() {
    let parsed =
        ParsedCommand::parse_command(r#"/usr/bin/printf "The cat's name is %s.\n" 'Theodore Roosevelt'"#)
            .unwrap();
    assert_eq!(parsed.command, "/usr/bin/printf");
    assert_eq!(
        parsed.args,
        strings(&["The cat's name is %s.\\n", "Theodore Roosevelt"])
    );
}

#[test]
fn empty_quotes_give_an_empty_token() {
    assert_eq!(tokenize(r#"a "" b"#), Ok(strings(&["a", "", "b"])));
    assert_eq!(parse_space_seperated_chunk("  x"), Ok((String::from("  x"), String::from(""))));
}

#[test]
fn multibyte_characters_are_kept_whole() {
    assert_eq!(
        tokenize("héllo 'wörld ✓' 日本"),
        Ok(strings(&["héllo", "wörld ✓", "日本"]))
    );
}
