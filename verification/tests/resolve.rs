use ronki::environ::{DefaultEnviron, Environ, EnvironValue};
use ronki::executer::{HardcodedExecuter, HardcodedExecuterError, ScriptedExecuter};
use ronki::resolve::ExecuteError;
use ronki::scanner::MsgParser;
use ronki::tree::ShellArgs;

fn parse_all(msg: &str) -> Vec<ShellArgs> {
    MsgParser::new("!", msg).parse().expect("parse failed")
}

fn parse_one(msg: &str) -> ShellArgs {
    let mut cmds = parse_all(msg);
    assert_eq!(cmds.len(), 1);
    cmds.pop().unwrap()
}

fn text(s: &str) -> EnvironValue {
    EnvironValue::Text(s.as_bytes().to_vec())
}

fn run(msg: &str) -> Result<EnvironValue, ExecuteError<HardcodedExecuterError>> {
    let mut env = DefaultEnviron::new();
    let mut exec = HardcodedExecuter { mem: None };
    parse_one(msg).resolve(&mut env, &mut exec)
}

#[test]
fn plain_text_round_trips_through_echo() {
    assert_eq!(run("!echo plain text here"), Ok(text("plain text here")));
}

#[test]
fn quoted_space_is_preserved() {
    assert_eq!(run("!echo \"a b\""), Ok(text("a b")));
}

#[test]
fn strict_quote_content_is_never_expanded() {
    let mut env = DefaultEnviron::new();
    env.set(b"HOME".to_vec(), text("/root"));
    let mut exec = HardcodedExecuter { mem: None };
    let strict = parse_one("!echo '$HOME'").resolve(&mut env, &mut exec);
    assert_eq!(strict, Ok(text("$HOME")));
    let interpreted = parse_one("!echo \"$HOME\"").resolve(&mut env, &mut exec);
    assert_eq!(interpreted, Ok(text("/root")));
}

#[test]
fn hex_escape_resolves_to_the_byte() {
    assert_eq!(run("!echo \\x41"), Ok(text("A")));
}

#[test]
fn unicode_escape_resolves_to_the_char() {
    assert_eq!(run("!echo \\u{1F44D}"), Ok(text("\u{1F44D}")));
}

#[test]
fn braced_and_bare_variable_forms_resolve_identically() {
    let mut env = DefaultEnviron::new();
    env.set(b"NAME".to_vec(), text("value"));
    let mut exec = HardcodedExecuter { mem: None };
    let braced = parse_one("!echo ${NAME}").resolve(&mut env, &mut exec);
    let bare = parse_one("!echo $NAME").resolve(&mut env, &mut exec);
    assert_eq!(braced, Ok(text("value")));
    assert_eq!(bare, Ok(text("value")));
}

#[test]
fn unbound_variable_fails_no_such_env_in_both_forms() {
    let mut env = DefaultEnviron::new();
    let mut exec = HardcodedExecuter { mem: None };
    let braced = parse_one("!echo ${NAME}").resolve(&mut env, &mut exec);
    let bare = parse_one("!echo $NAME").resolve(&mut env, &mut exec);
    assert_eq!(braced, Err(ExecuteError::NoSuchEnv));
    assert_eq!(bare, Err(ExecuteError::NoSuchEnv));
}

#[test]
fn subshell_output_splices_into_outer_argument() {
    assert_eq!(run("!echo $(echo hi)"), Ok(text("hi")));
}

#[test]
fn subshell_output_concatenates_with_fragments() {
    assert_eq!(run("!echo pre$(echo mid)post"), Ok(text("premidpost")));
}

#[test]
fn let_binding_is_visible_to_later_commands() {
    let cmds = parse_all("!let K=V\n!echo $K");
    let mut env = DefaultEnviron::new();
    let mut exec = HardcodedExecuter { mem: None };
    let first = cmds[0].resolve(&mut env, &mut exec);
    assert_eq!(first, Ok(EnvironValue::Null));
    let second = cmds[1].resolve(&mut env, &mut exec);
    assert_eq!(second, Ok(text("V")));
}

#[test]
fn let_binding_made_in_subshell_stays_visible() {
    let cmds = parse_all("!echo $(let K=V)done\n!echo $K");
    let mut env = DefaultEnviron::new();
    let mut exec = HardcodedExecuter { mem: None };
    assert_eq!(cmds[0].resolve(&mut env, &mut exec), Ok(text("done")));
    assert_eq!(cmds[1].resolve(&mut env, &mut exec), Ok(text("V")));
}

#[test]
fn number_value_interpolates_in_decimal() {
    let mut env = DefaultEnviron::new();
    env.set(b"N".to_vec(), EnvironValue::UNumber(1234567890123456789));
    let mut exec = HardcodedExecuter { mem: None };
    let out = parse_one("!echo $N ").resolve(&mut env, &mut exec);
    assert_eq!(out, Ok(text("1234567890123456789 ")));
}

#[test]
fn resolving_twice_with_pure_executor_is_identical() {
    let tree = parse_one("!echo same $(echo again)");
    let mut env = DefaultEnviron::new();
    let mut exec = HardcodedExecuter { mem: None };
    let first = tree.resolve(&mut env, &mut exec);
    let second = tree.resolve(&mut env, &mut exec);
    assert_eq!(first, second);
    assert_eq!(first, Ok(text("same again")));
}

#[test]
fn scripted_executer_answers_in_order_and_records_calls() {
    let tree = parse_one("!anything at all");
    let mut env = DefaultEnviron::new();
    let mut exec = ScriptedExecuter::new(vec![text("first"), text("second")]);
    assert_eq!(tree.resolve(&mut env, &mut exec), Ok(text("first")));
    assert_eq!(tree.resolve(&mut env, &mut exec), Ok(text("second")));
    assert_eq!(tree.resolve(&mut env, &mut exec), Ok(EnvironValue::Null));
    assert_eq!(exec.calls, 3);
}

#[test]
fn scripted_executer_resolves_subshells_inside_out() {
    let tree = parse_one("!outer $(inner)");
    let mut env = DefaultEnviron::new();
    let mut exec = ScriptedExecuter::new(vec![text("in"), text("out")]);
    // the subshell is resolved first, so it gets the first canned reply
    assert_eq!(tree.resolve(&mut env, &mut exec), Ok(text("out")));
    assert_eq!(exec.calls, 2);
}

#[test]
fn default_environ_get_set_entries() {
    let mut env = DefaultEnviron::new();
    assert!(env.get(&b"A".to_vec()).is_none());
    assert_eq!(env.set(b"A".to_vec(), text("1")), None);
    assert_eq!(env.set(b"A".to_vec(), text("2")), Some(text("1")));
    assert_eq!(env.set(b"B".to_vec(), EnvironValue::UNumber(7)), None);
    assert_eq!(env.get(&b"A".to_vec()), Some(&text("2")));
    let entries = env.entries();
    assert_eq!(
        entries,
        vec![
            (b"A".to_vec(), text("2")),
            (b"B".to_vec(), EnvironValue::UNumber(7)),
        ]
    );
}
