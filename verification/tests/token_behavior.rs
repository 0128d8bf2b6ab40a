//! Tokenizer and source-parsing behavior.

use bytevm::token::{parse_line, parse_source, strip_comment, tokenize, trim};

#[test]
fn tokenize_splits_on_whitespace_runs() {
    let tokens = tokenize("load 42");
    assert_eq!(tokens, vec!["load".to_string(), "42".to_string()]);

    let tokens = tokenize("a\t  b   c");
    assert_eq!(tokens, vec!["a".to_string(), "b".to_string(), "c".to_string()]);
}

#[test]
fn tokenize_agrees_with_plain_splitting_without_quotes() {
    let line = "  one  two\tthree ";
    let expected: Vec<String> = line.split_whitespace().map(|t| t.to_string()).collect();
    assert_eq!(tokenize(line), expected);
}

#[test]
fn tokenize_keeps_quoted_span_as_one_token() {
    let tokens = tokenize("load \"a b\"");
    assert_eq!(tokens, vec!["load".to_string(), "\"a b\"".to_string()]);
}

#[test]
fn tokenize_quoted_span_keeps_runs_of_spaces() {
    let tokens = tokenize("load \"x   y\" tail");
    assert_eq!(
        tokens,
        vec!["load".to_string(), "\"x   y\"".to_string(), "tail".to_string()]
    );
}

#[test]
fn tokenize_empty_line_gives_no_tokens() {
    assert_eq!(tokenize(""), Vec::<String>::new());
    assert_eq!(tokenize("   \t "), Vec::<String>::new());
}

#[test]
fn trim_removes_leading_and_trailing_whitespace() {
    assert_eq!(trim("  halt \t"), "halt".to_string());
    assert_eq!(trim("halt"), "halt".to_string());
    assert_eq!(trim("  "), String::new());
}

#[test]
fn strip_comment_drops_from_first_semicolon() {
    assert_eq!(strip_comment("load 5 ; five"), "load 5 ".to_string());
    assert_eq!(strip_comment("; all comment"), String::new());
    assert_eq!(strip_comment("halt"), "halt".to_string());
}

#[test]
fn strip_comment_also_cuts_inside_quotes() {
    assert_eq!(strip_comment("load \"a;b\""), "load \"a".to_string());
}

#[test]
fn parse_line_drops_blank_lines_and_keeps_comment_only_lines() {
    assert_eq!(parse_line("   "), None);
    assert_eq!(parse_line("load 1 ; note"), Some(vec!["load".to_string(), "1".to_string()]));
    // A line that holds only a comment still counts as a line with no
    // tokens; executing such a line is an arity error.
    assert_eq!(parse_line("; note"), Some(Vec::new()));
}

#[test]
fn parse_source_splits_lines_and_drops_blanks() {
    let text = "#start\n\n  load 5 ; five\nhalt\n";
    let lines = parse_source(text);
    assert_eq!(
        lines,
        vec![
            vec!["#start".to_string()],
            vec!["load".to_string(), "5".to_string()],
            vec!["halt".to_string()],
        ]
    );
}

#[test]
fn parse_source_without_trailing_newline() {
    let lines = parse_source("#start\nhalt");
    assert_eq!(lines, vec![vec!["#start".to_string()], vec!["halt".to_string()]]);
}
