use ronki::config::{Schema, SurrealDB, __default_prefix};
use ronki::environ::{DefaultEnviron, Environ, EnvironValue};
use ronki::executer::{
    main_handler, HardcodedExecuter, HardcodedExecuterError, MemStats, HELP_TEXT,
};
use ronki::humanize::{
    bytes_to_binary, bytes_to_metric, normalize_magnitude, normalize_magnitude_binary,
    normalize_magnitude_metric,
};
use ronki::resolve::{ExecuteError, Executer};
use ronki::scanner::MsgParser;

fn text(s: &str) -> EnvironValue {
    EnvironValue::Text(s.as_bytes().to_vec())
}

fn run_with(
    msg: &str,
    exec: &mut HardcodedExecuter,
) -> Result<EnvironValue, ExecuteError<HardcodedExecuterError>> {
    let mut env = DefaultEnviron::new();
    let mut cmds = MsgParser::new("!", msg).parse().expect("parse failed");
    assert_eq!(cmds.len(), 1);
    cmds.pop().unwrap().resolve(&mut env, exec)
}

fn run(msg: &str) -> Result<EnvironValue, ExecuteError<HardcodedExecuterError>> {
    run_with(msg, &mut HardcodedExecuter { mem: None })
}

#[test]
fn help_prints_the_command_list() {
    assert_eq!(run("!help"), Ok(EnvironValue::Text(HELP_TEXT.as_bytes().to_vec())));
}

#[test]
fn echo_joins_arguments_with_single_spaces() {
    assert_eq!(run("!echo a  b   c"), Ok(text("a b c")));
    assert_eq!(run("!echo"), Ok(text("")));
}

#[test]
fn env_lists_entries_in_insertion_order() {
    let mut env = DefaultEnviron::new();
    env.set(b"A".to_vec(), text("x"));
    env.set(b"B".to_vec(), EnvironValue::UNumber(7));
    env.set(b"C".to_vec(), EnvironValue::Null);
    let mut exec = HardcodedExecuter { mem: None };
    let mut cmds = MsgParser::new("!", "!env").parse().expect("parse failed");
    let out = cmds.pop().unwrap().resolve(&mut env, &mut exec);
    assert_eq!(out, Ok(text("A=x\nB=7\nC=")));
}

#[test]
fn let_requires_exactly_two_arguments() {
    assert_eq!(
        run("!let"),
        Err(ExecuteError::ExecuterError(HardcodedExecuterError::CommandError(
            "invalid arg count"
        )))
    );
    assert_eq!(
        run("!let a b"),
        Err(ExecuteError::ExecuterError(HardcodedExecuterError::CommandError(
            "invalid arg count"
        )))
    );
}

#[test]
fn let_requires_an_equals_sign() {
    assert_eq!(
        run("!let ab"),
        Err(ExecuteError::ExecuterError(HardcodedExecuterError::CommandError(
            "no '=' found"
        )))
    );
}

#[test]
fn let_splits_at_the_first_equals_sign() {
    let mut env = DefaultEnviron::new();
    let mut exec = HardcodedExecuter { mem: None };
    let mut cmds = MsgParser::new("!", "!let K=a=b").parse().expect("parse failed");
    assert_eq!(cmds.pop().unwrap().resolve(&mut env, &mut exec), Ok(EnvironValue::Null));
    assert_eq!(env.get(&b"K".to_vec()), Some(&text("a=b")));
}

#[test]
fn printargs_renders_the_whole_argument_list() {
    assert_eq!(run("!printargs a b"), Ok(text("[\"printargs\", \"a\", \"b\"]")));
}

#[test]
fn printargs_renders_numbers_and_null_directly() {
    let mut env = DefaultEnviron::new();
    let mut exec = HardcodedExecuter { mem: None };
    let args = vec![text("printargs"), EnvironValue::UNumber(5), EnvironValue::Null];
    let out = exec.execute(args, &mut env);
    assert_eq!(out, Ok(text("[\"printargs\", 5, ()]")));
}

#[test]
fn memusage_without_stats_is_a_command_error() {
    assert_eq!(
        run("!memusage"),
        Err(ExecuteError::ExecuterError(HardcodedExecuterError::CommandError(
            "no process stats"
        )))
    );
}

#[test]
fn memusage_prints_binary_sizes() {
    let mut exec = HardcodedExecuter {
        mem: Some(MemStats { pid: 1, rss: 2048, vsize: 1048576 }),
    };
    assert_eq!(
        run_with("!memusage", &mut exec),
        Ok(text("pid(1): rss(2 KiB) vsize(1 MiB)"))
    );
}

#[test]
fn music_answers_nothing_yet() {
    assert_eq!(run("!music play something"), Ok(text("")));
    assert_eq!(main_handler(&[]), String::new());
}

#[test]
fn music_rejects_non_text_arguments() {
    let mut env = DefaultEnviron::new();
    let mut exec = HardcodedExecuter { mem: None };
    let args = vec![text("music"), EnvironValue::UNumber(3)];
    assert_eq!(exec.execute(args, &mut env), Ok(text("invalid encoding argument")));
}

#[test]
fn unknown_command_is_reported() {
    assert_eq!(
        run("!frobnicate"),
        Err(ExecuteError::ExecuterError(HardcodedExecuterError::UnknownCommand))
    );
}

#[test]
fn executor_rejects_missing_or_non_text_command_names() {
    let mut env = DefaultEnviron::new();
    let mut exec = HardcodedExecuter { mem: None };
    assert_eq!(
        exec.execute(vec![], &mut env),
        Err(HardcodedExecuterError::NoCommandName)
    );
    assert_eq!(
        exec.execute(vec![EnvironValue::UNumber(1)], &mut env),
        Err(HardcodedExecuterError::NoStringCommandName)
    );
    assert_eq!(
        exec.execute(vec![text("echo"), EnvironValue::UNumber(1)], &mut env),
        Err(HardcodedExecuterError::UnserializableValue)
    );
}

#[test]
fn metric_rendering() {
    assert_eq!(bytes_to_metric(0), "0 B");
    assert_eq!(bytes_to_metric(999), "999 B");
    assert_eq!(bytes_to_metric(1000), "1 KB");
    assert_eq!(bytes_to_metric(1500), "1 KB");
    assert_eq!(bytes_to_metric(123456789), "123 MB");
}

#[test]
fn binary_rendering() {
    assert_eq!(bytes_to_binary(1023), "1023 B");
    assert_eq!(bytes_to_binary(1024), "1 KiB");
    assert_eq!(bytes_to_binary(1048576), "1 MiB");
}

#[test]
fn normalize_magnitude_counts_divisions() {
    assert_eq!(normalize_magnitude(1_000_000u128, 10u128, 0), (1, 6));
    assert_eq!(normalize_magnitude(1_000_000u128, 10u128, 2), (10000, 2));
    assert_eq!(normalize_magnitude_metric(2_000_000u128, 7), (2, 2));
    assert_eq!(normalize_magnitude_binary(4096u128, 7), (4, 1));
}

#[test]
fn default_prefix_is_bang() {
    assert_eq!(__default_prefix(), '!');
}

#[test]
fn config_holds_plain_values() {
    let schema = Schema {
        token: String::from("gateway-token"),
        prefix: __default_prefix(),
        owners: vec![1],
        servers: vec![2, 3],
        surrealdb: SurrealDB {
            address: String::from("localhost:8000"),
            username: String::from("root"),
            password: String::from("database-pass"),
        },
    };
    assert_eq!(schema.prefix, '!');
    assert_eq!(schema.servers.len(), 2);
    assert_eq!(schema.surrealdb.address, "localhost:8000");
}

#[test]
fn let_rejects_a_non_utf8_key() {
    // \xFF is not valid UTF-8, so it cannot become a variable name
    assert_eq!(
        run("!let \\xff=v"),
        Err(ExecuteError::ExecuterError(HardcodedExecuterError::CommandError(
            "key is not a utf8 sequence"
        )))
    );
}

#[test]
fn non_utf8_command_name_is_improper_encoding() {
    assert_eq!(
        run("!\\xff"),
        Err(ExecuteError::ExecuterError(HardcodedExecuterError::ImproperEncoding))
    );
    let mut env = DefaultEnviron::new();
    let mut exec = HardcodedExecuter { mem: None };
    let args = vec![EnvironValue::Text(vec![0xFF])];
    assert_eq!(
        exec.execute(args, &mut env),
        Err(HardcodedExecuterError::ImproperEncoding)
    );
}

#[test]
fn music_rejects_non_utf8_arguments() {
    assert_eq!(run("!music \\xff"), Ok(text("invalid encoding argument")));
}

#[test]
fn normalize_magnitude_accepts_radix_one() {
    // dividing by one never shrinks the amount, so only the cap stops it
    assert_eq!(normalize_magnitude(5u128, 1u128, 3), (5, 3));
    assert_eq!(normalize_magnitude(0u128, 1u128, 3), (0, 0));
}

#[test]
fn help_text_keeps_the_echo_thumbs_up() {
    assert!(HELP_TEXT.contains("'echo': Echo \u{1F44D}"));
}
