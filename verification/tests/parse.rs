use ronki::context::ParseCtx;
use ronki::scanner::MsgParser;
use ronki::tree::{ParseCtxType, ParseError, ShellArg, ShellArgs};

fn chars(s: &str) -> Vec<ShellArg> {
    s.chars().map(ShellArg::Char).collect()
}

fn parse_one(msg: &str) -> ShellArgs {
    let mut parser = MsgParser::new("!", msg);
    let mut cmds = parser.parse().expect("parse failed");
    assert_eq!(cmds.len(), 1);
    cmds.pop().unwrap()
}

#[test]
fn plain_words_split_on_spaces() {
    let tree = parse_one("!echo hi");
    assert_eq!(tree, ShellArgs(vec![chars("echo"), chars("hi")]));
}

#[test]
fn repeated_spaces_collapse() {
    let tree = parse_one("!a   b");
    assert_eq!(tree, ShellArgs(vec![chars("a"), chars("b")]));
}

#[test]
fn trailing_space_leaves_one_empty_argument() {
    let tree = parse_one("!a ");
    assert_eq!(tree, ShellArgs(vec![chars("a"), vec![]]));
}

#[test]
fn interpreted_quote_keeps_space_in_one_argument() {
    let tree = parse_one("!echo \"a b\"");
    assert_eq!(tree, ShellArgs(vec![chars("echo"), chars("a b")]));
}

#[test]
fn strict_quote_takes_dollar_literally() {
    let tree = parse_one("!echo '$HOME'");
    assert_eq!(tree, ShellArgs(vec![chars("echo"), chars("$HOME")]));
}

#[test]
fn interpreted_quote_reads_variable_reference() {
    let tree = parse_one("!echo \"$HOME\"");
    assert_eq!(
        tree,
        ShellArgs(vec![chars("echo"), vec![ShellArg::EnvVar(String::from("HOME"))]])
    );
}

#[test]
fn braced_variable_reference() {
    let tree = parse_one("!echo ${NAME}");
    assert_eq!(
        tree,
        ShellArgs(vec![chars("echo"), vec![ShellArg::EnvVar(String::from("NAME"))]])
    );
}

#[test]
fn bare_variable_reference_at_line_end() {
    let tree = parse_one("!echo $NAME");
    assert_eq!(
        tree,
        ShellArgs(vec![chars("echo"), vec![ShellArg::EnvVar(String::from("NAME"))]])
    );
}

#[test]
fn bare_variable_reference_ended_by_space() {
    let tree = parse_one("!echo $A b");
    assert_eq!(
        tree,
        ShellArgs(vec![
            chars("echo"),
            vec![ShellArg::EnvVar(String::from("A"))],
            chars("b"),
        ])
    );
}

#[test]
fn hex_escape_is_a_literal_byte() {
    let tree = parse_one("!echo \\x41");
    assert_eq!(tree, ShellArgs(vec![chars("echo"), vec![ShellArg::Byte(0x41)]]));
}

#[test]
fn unicode_escape_is_a_literal_char() {
    let tree = parse_one("!echo \\u{1F44D}");
    assert_eq!(
        tree,
        ShellArgs(vec![chars("echo"), vec![ShellArg::Char('\u{1F44D}')]])
    );
}

#[test]
fn byte_escapes_decode() {
    let tree = parse_one("!echo \\n\\r\\t\\0");
    assert_eq!(
        tree,
        ShellArgs(vec![
            chars("echo"),
            vec![
                ShellArg::Char('\n'),
                ShellArg::Char('\r'),
                ShellArg::Char('\t'),
                ShellArg::Char('\0'),
            ],
        ])
    );
}

#[test]
fn escaped_space_does_not_separate() {
    let tree = parse_one("!echo a\\ b");
    assert_eq!(tree, ShellArgs(vec![chars("echo"), chars("a b")]));
}

#[test]
fn subshell_parses_to_nested_tree() {
    let tree = parse_one("!echo $(echo hi)");
    assert_eq!(
        tree,
        ShellArgs(vec![
            chars("echo"),
            vec![ShellArg::Subshell(ShellArgs(vec![chars("echo"), chars("hi")]))],
        ])
    );
}

#[test]
fn unterminated_quote_fails_unfinished_last_command() {
    let mut parser = MsgParser::new("!", "!\"abc");
    assert_eq!(parser.parse(), Err(ParseError::UnfinishedLastCommand));
}

#[test]
fn unmatched_closer_at_root() {
    let mut parser = MsgParser::new("!", "!)");
    assert_eq!(parser.parse(), Err(ParseError::UnexpectedCloser(')')));
}

#[test]
fn empty_unicode_escape_is_invalid() {
    let mut parser = MsgParser::new("!", "!echo \\u{}");
    assert_eq!(parser.parse(), Err(ParseError::InvalidEscapeSequence));
}

#[test]
fn out_of_range_unicode_escape_is_invalid() {
    let mut parser = MsgParser::new("!", "!echo \\u{D800}");
    assert_eq!(parser.parse(), Err(ParseError::InvalidEscapeSequence));
}

#[test]
fn bad_hex_escape_is_invalid() {
    let mut parser = MsgParser::new("!", "!echo \\xg1");
    assert_eq!(parser.parse(), Err(ParseError::InvalidEscapeSequence));
}

#[test]
fn unknown_escape_is_invalid() {
    let mut parser = MsgParser::new("!", "!echo \\q5");
    assert_eq!(parser.parse(), Err(ParseError::InvalidEscapeSequence));
}

#[test]
fn lines_without_prefix_are_ignored() {
    let mut parser = MsgParser::new("!", "hello\n!echo hi\nplain chat");
    let cmds = parser.parse().expect("parse failed");
    assert_eq!(cmds, vec![ShellArgs(vec![chars("echo"), chars("hi")])]);
}

#[test]
fn no_command_in_message_yields_nothing() {
    let mut parser = MsgParser::new("!", "just chatting\nno commands here");
    assert_eq!(parser.parse(), Ok(vec![]));
}

#[test]
fn two_commands_in_one_message() {
    let mut parser = MsgParser::new("!", "!a\n!b c");
    let cmds = parser.parse().expect("parse failed");
    assert_eq!(
        cmds,
        vec![
            ShellArgs(vec![chars("a")]),
            ShellArgs(vec![chars("b"), chars("c")]),
        ]
    );
}

#[test]
fn open_quote_continues_to_next_line_with_line_break() {
    let tree = parse_one("!echo \"a\nb\"");
    assert_eq!(tree, ShellArgs(vec![chars("echo"), chars("a\nb")]));
}

#[test]
fn trailing_backslash_escapes_next_line_first_char() {
    // the escaped space joins the argument instead of separating
    let tree = parse_one("!echo a\\\n b");
    assert_eq!(tree, ShellArgs(vec![chars("echo"), chars("a b")]));
}

#[test]
fn crlf_line_endings_are_stripped() {
    let mut parser = MsgParser::new("!", "!a\r\n!b\r\n");
    let cmds = parser.parse().expect("parse failed");
    assert_eq!(
        cmds,
        vec![ShellArgs(vec![chars("a")]), ShellArgs(vec![chars("b")])]
    );
}

#[test]
fn parse_consumes_the_message() {
    let mut parser = MsgParser::new("!", "!a");
    assert_eq!(parser.parse().map(|v| v.len()), Ok(1));
    assert_eq!(parser.parse(), Ok(vec![]));
}

#[test]
fn from_chars_parses_one_command() {
    let cs: Vec<char> = "echo hi".chars().collect();
    let tree = ParseCtx::from_chars(&cs).expect("parse failed");
    assert_eq!(tree, ShellArgs(vec![chars("echo"), chars("hi")]));
}

#[test]
fn from_chars_rejects_explicit_root_closer() {
    let cs: Vec<char> = "echo hi\n".chars().collect();
    assert_eq!(ParseCtx::from_chars(&cs), Err(ParseError::IllegalRootUnnest));
}

#[test]
fn push_char_reports_completion_and_errors() {
    let mut ctx = ParseCtx::new(ParseCtxType::Normal(true));
    assert_eq!(ctx.push_char('a'), Ok(None));
    assert_eq!(ctx.push_char('\n'), Ok(Some(ShellArgs(vec![chars("a")]))));
    let mut ctx = ParseCtx::default();
    assert_eq!(ctx.push_char(')'), Err(ParseError::UnexpectedCloser(')')));
}

#[test]
fn closer_tokens_by_context_kind() {
    assert_eq!(ParseCtxType::Normal(true).closer_token(), '\n');
    assert_eq!(ParseCtxType::Normal(false).closer_token(), ')');
    assert_eq!(ParseCtxType::Quote(true).closer_token(), '\'');
    assert_eq!(ParseCtxType::Quote(false).closer_token(), '"');
    assert_eq!(ParseCtxType::default(), ParseCtxType::Normal(true));
}

#[test]
fn stray_other_quote_kind_is_literal_inside_quotes() {
    let tree = parse_one("!echo \"it's\"");
    assert_eq!(tree, ShellArgs(vec![chars("echo"), chars("it's")]));
}

#[test]
fn open_subshell_continues_to_next_line_as_separator() {
    let tree = parse_one("!echo $(echo a\nb)");
    assert_eq!(
        tree,
        ShellArgs(vec![
            chars("echo"),
            vec![ShellArg::Subshell(ShellArgs(vec![chars("echo"), chars("a"), chars("b")]))],
        ])
    );
}

#[test]
fn unterminated_hex_escape_at_input_end_is_invalid() {
    let mut parser = MsgParser::new("!", "!echo \\x4");
    assert_eq!(parser.parse(), Err(ParseError::InvalidEscapeSequence));
}

#[test]
fn lone_dollar_at_input_end_is_invalid() {
    let mut parser = MsgParser::new("!", "!echo $");
    assert_eq!(parser.parse(), Err(ParseError::InvalidEscapeSequence));
}

#[test]
fn unterminated_braced_variable_is_invalid() {
    let mut parser = MsgParser::new("!", "!echo ${NAME");
    assert_eq!(parser.parse(), Err(ParseError::InvalidEscapeSequence));
}
