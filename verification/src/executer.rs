//! The built-in command executor: a demonstration vocabulary over the
//! resolver's calling convention.
//!
//! The vocabulary is a pluggable collaborator, not fixed by the parser
//! core: any [`Executer`] implementation can replace it.

use vstd::prelude::*;
use vstd::utf8::{encode_utf8, is_ascii_chars, valid_utf8};

use crate::environ::{
    bytes_eq, copy_bytes, copy_value, dec_bytes, push_dec, set_entry, string_bytes, sub_bytes,
    value_bytes, EnvModel, Environ, EnvironValue, ValueV,
};
use crate::humanize::{binary_chars, bytes_to_binary, dec_chars, dec_char_vec};
use crate::resolve::{vals_view, Executer};
use crate::trusted::{bytes_to_string, chars_to_string};

verus! {

/// What the help command prints.
pub const HELP_TEXT: &'static str = "Hardcoded Executer:\n\nCommands:\n  'help': Display list of commands\n  'echo': Echo \u{1F44D}\n  'env': List env variables\n  'let': Define an env variable\n  'printargs': Prints arguments\n  'memusage': Print memory usage\n  'music': Full separate music handler";

/// Process memory numbers for the memusage command; the caller reads them
/// from the system and hands them in as plain values.
#[derive(Debug, Clone, Copy, PartialEq, Eq, Structural)]
pub struct MemStats {
    /// The process id.
    pub pid: u128,
    /// Resident set size, in bytes.
    pub rss: u128,
    /// Virtual memory size, in bytes.
    pub vsize: u128,
}

/// The built-in executor.
#[derive(Debug, Clone, Copy, PartialEq, Eq)]
pub struct HardcodedExecuter {
    /// Memory numbers for the memusage command; None when the caller
    /// supplied none.
    pub mem: Option<MemStats>,
}

impl Default for HardcodedExecuter {
    /// An executor without memory numbers.
    fn default() -> (s: Self)
        ensures
            s == (HardcodedExecuter { mem: None::<MemStats> }),
    {
        HardcodedExecuter { mem: None }
    }
}

/// What the built-in executor can fail with.
#[derive(Debug, Clone, Copy, PartialEq, Eq)]
pub enum HardcodedExecuterError {
    /// No argument at all, so no command name.
    NoCommandName,
    /// The command name's bytes are not valid UTF-8.
    ImproperEncoding,
    /// The command name is not in the vocabulary.
    UnknownCommand,
    /// A command rejected its arguments.
    CommandError(&'static str),
    /// The first argument is not text.
    NoStringCommandName,
    /// An argument that had to be text is not.
    UnserializableValue,
}

/// The echoed text: the arguments after the command name joined by single
/// spaces, from index `i` on; nothing when one of them is not text.
pub open spec fn echo_acc(args: Seq<ValueV>, i: int, acc: Seq<u8>) -> Option<Seq<u8>>
    decreases args.len() - i,
{
    if i < 0 || i >= args.len() {
        Some(acc)
    } else {
        match args[i] {
            ValueV::Text(b) => echo_acc(
                args,
                i + 1,
                if i == 1 {
                    acc + b
                } else {
                    acc + seq![32u8] + b
                },
            ),
            _ => None,
        }
    }
}

/// The environment listing from entry `i` on: one KEY=VALUE line per
/// entry, joined by line feeds.
pub open spec fn env_acc(env: EnvModel, i: int, acc: Seq<u8>) -> Seq<u8>
    decreases env.len() - i,
{
    if i < 0 || i >= env.len() {
        acc
    } else {
        let line = env[i].0 + seq![61u8] + value_bytes(env[i].1);
        env_acc(
            env,
            i + 1,
            if i == 0 {
                acc + line
            } else {
                acc + seq![10u8] + line
            },
        )
    }
}

/// One value as the argument printer shows it: text in double quotes, a
/// number in decimal, no value as `()`.
pub open spec fn render_value(v: ValueV) -> Seq<u8> {
    match v {
        ValueV::Text(b) => seq![34u8] + b + seq![34u8],
        ValueV::UNumber(n) => dec_bytes(n as nat),
        ValueV::Null => seq![40u8, 41u8],
    }
}

/// The printed argument list from index `i` on: renderings joined by a
/// comma and a space, closed with a bracket.
pub open spec fn render_acc(args: Seq<ValueV>, i: int, acc: Seq<u8>) -> Seq<u8>
    decreases args.len() - i,
{
    if i < 0 || i >= args.len() {
        acc + seq![93u8]
    } else {
        render_acc(
            args,
            i + 1,
            if i == 0 {
                acc + render_value(args[i])
            } else {
                acc + seq![44u8, 32u8] + render_value(args[i])
            },
        )
    }
}

/// The index of the first `=` byte, or the length.
pub open spec fn eq_pos(s: Seq<u8>) -> nat
    decreases s.len(),
{
    if s.len() == 0 {
        0
    } else if s.first() == 61u8 {
        0
    } else {
        1 + eq_pos(s.drop_first())
    }
}

/// What the memusage command prints.
pub open spec fn mem_chars(m: MemStats) -> Seq<char> {
    "pid("@ + dec_chars(m.pid as nat) + "): rss("@ + binary_chars(m.rss as nat) + ") vsize("@
        + binary_chars(m.vsize as nat) + ")"@
}

/// Whether every argument from index `i` on is text in valid UTF-8, so
/// it can be decoded into an ordinary string.
pub open spec fn utf8_texts(args: Seq<ValueV>, i: int) -> bool
    decreases args.len() - i,
{
    if i < 0 || i >= args.len() {
        true
    } else {
        match args[i] {
            ValueV::Text(b) => valid_utf8(b) && utf8_texts(args, i + 1),
            _ => false,
        }
    }
}

/// What the let command answers: it takes exactly two arguments, the
/// second a text of the form KEY=VALUE with the key in valid UTF-8.
pub open spec fn let_res(args: Seq<ValueV>) -> Result<ValueV, HardcodedExecuterError> {
    if args.len() != 2 {
        Err(HardcodedExecuterError::CommandError("invalid arg count"))
    } else {
        match args[1] {
            ValueV::Text(expr) => if eq_pos(expr) >= expr.len() {
                Err(HardcodedExecuterError::CommandError("no '=' found"))
            } else if !valid_utf8(expr.take(eq_pos(expr) as int)) {
                Err(HardcodedExecuterError::CommandError("key is not a utf8 sequence"))
            } else {
                Ok(ValueV::Null)
            },
            _ => Err(HardcodedExecuterError::UnserializableValue),
        }
    }
}

/// The music handler; a stub that answers nothing yet.
pub fn main_handler(args: &[String]) -> (r: String)
    ensures
        r@ == Seq::<char>::empty(),
{
    String::new()
}

impl Executer<HardcodedExecuterError> for HardcodedExecuter {
    /// The result of each command of the vocabulary, for given arguments
    /// and environment.
    open spec fn exec_res(self, args: Seq<ValueV>, env: EnvModel) -> Result<
        ValueV,
        HardcodedExecuterError,
    > {
        if args.len() == 0 {
            Err(HardcodedExecuterError::NoCommandName)
        } else {
            match args[0] {
                ValueV::Text(cmd) => {
                    if !valid_utf8(cmd) {
                        Err(HardcodedExecuterError::ImproperEncoding)
                    } else if cmd == encode_utf8("help"@) {
                        Ok(ValueV::Text(encode_utf8(HELP_TEXT@)))
                    } else if cmd == encode_utf8("echo"@) {
                        match echo_acc(args, 1, Seq::empty()) {
                            Some(b) => Ok(ValueV::Text(b)),
                            None => Err(HardcodedExecuterError::UnserializableValue),
                        }
                    } else if cmd == encode_utf8("env"@) {
                        Ok(ValueV::Text(env_acc(env, 0, Seq::empty())))
                    } else if cmd == encode_utf8("let"@) {
                        let_res(args)
                    } else if cmd == encode_utf8("printargs"@) {
                        Ok(ValueV::Text(render_acc(args, 0, seq![91u8])))
                    } else if cmd == encode_utf8("memusage"@) {
                        match self.mem {
                            Some(m) => Ok(ValueV::Text(encode_utf8(mem_chars(m)))),
                            None => Err(HardcodedExecuterError::CommandError("no process stats")),
                        }
                    } else if cmd == encode_utf8("music"@) {
                        if utf8_texts(args, 1) {
                            Ok(ValueV::Text(Seq::empty()))
                        } else {
                            Ok(ValueV::Text(encode_utf8("invalid encoding argument"@)))
                        }
                    } else {
                        Err(HardcodedExecuterError::UnknownCommand)
                    }
                },
                _ => Err(HardcodedExecuterError::NoStringCommandName),
            }
        }
    }

    /// Only a successful let changes the environment: it binds KEY to
    /// VALUE, split at the first `=`.
    open spec fn exec_env(self, args: Seq<ValueV>, env: EnvModel) -> EnvModel {
        if args.len() == 2 {
            match (args[0], args[1]) {
                (ValueV::Text(cmd), ValueV::Text(expr)) => {
                    if cmd == encode_utf8("let"@) && eq_pos(expr) < expr.len() && valid_utf8(
                        expr.take(eq_pos(expr) as int),
                    ) {
                        set_entry(
                            env,
                            expr.take(eq_pos(expr) as int),
                            ValueV::Text(expr.skip(eq_pos(expr) as int + 1)),
                        )
                    } else {
                        env
                    }
                },
                _ => env,
            }
        } else {
            env
        }
    }

    /// The executor itself never changes.
    open spec fn exec_post(self, args: Seq<ValueV>, env: EnvModel) -> Self {
        self
    }

    fn execute<Env: Environ>(&mut self, args: Vec<EnvironValue>, env: &mut Env) -> (r: Result<
        EnvironValue,
        HardcodedExecuterError,
    >) {
        let ghost argsv = vals_view(args@);
        proof {
            assert(argsv.len() == args@.len());
            assert(forall|n: int| 0 <= n < args@.len() ==> argsv[n] == (#[trigger] args@[n])@);
        }
        if args.len() == 0 {
            return Err(HardcodedExecuterError::NoCommandName);
        }
        proof {
            lemma_let_distinct();
        }
        match &args[0] {
            EnvironValue::Text(cmd) => {
                if bytes_to_string(cmd).is_none() {
                    proof {
                        vstd::utf8::encode_utf8_valid_utf8("let"@);
                    }
                    return Err(HardcodedExecuterError::ImproperEncoding);
                }
                if str_eq_bytes(cmd, "help") {
                    Ok(EnvironValue::Text(help_bytes()))
                } else if str_eq_bytes(cmd, "echo") {
                    echo_cmd(&args)
                } else if str_eq_bytes(cmd, "env") {
                    env_cmd(env)
                } else if str_eq_bytes(cmd, "let") {
                    let_cmd(&args, env)
                } else if str_eq_bytes(cmd, "printargs") {
                    printargs_cmd(&args)
                } else if str_eq_bytes(cmd, "memusage") {
                    match self.mem {
                        Some(m) => Ok(EnvironValue::Text(mem_bytes(m))),
                        None => Err(HardcodedExecuterError::CommandError("no process stats")),
                    }
                } else if str_eq_bytes(cmd, "music") {
                    music_cmd(&args)
                } else {
                    Err(HardcodedExecuterError::UnknownCommand)
                }
            },
            _ => Err(HardcodedExecuterError::NoStringCommandName),
        }
    }
}

/// The shorter command names encode to byte strings distinct from `let`,
/// so no other command ever changes the environment.
pub(crate) proof fn lemma_let_distinct()
    ensures
        encode_utf8("help"@) != encode_utf8("let"@),
        encode_utf8("echo"@) != encode_utf8("let"@),
        encode_utf8("env"@) != encode_utf8("let"@),
{
    reveal_strlit("help");
    reveal_strlit("echo");
    reveal_strlit("env");
    reveal_strlit("let");
    assert(is_ascii_chars("help"@));
    assert(is_ascii_chars("echo"@));
    assert(is_ascii_chars("env"@));
    assert(is_ascii_chars("let"@));
    vstd::utf8::is_ascii_chars_encode_utf8("help"@);
    vstd::utf8::is_ascii_chars_encode_utf8("echo"@);
    vstd::utf8::is_ascii_chars_encode_utf8("env"@);
    vstd::utf8::is_ascii_chars_encode_utf8("let"@);
    assert(encode_utf8("env"@)[0] == 'e' as u8);
    assert(encode_utf8("let"@)[0] == 'l' as u8);
}

/// Whether a byte vector holds the UTF-8 of a string.
fn str_eq_bytes(b: &Vec<u8>, s: &str) -> (r: bool)
    ensures
        r == (b@ == encode_utf8(s@)),
{
    let sb = s.as_bytes_vec();
    bytes_eq(b, &sb)
}

/// The help text, as bytes.
fn help_bytes() -> (r: Vec<u8>)
    ensures
        r@ == encode_utf8(HELP_TEXT@),
{
    HELP_TEXT.as_bytes_vec()
}

/// The echo command: join the arguments after the command name.
fn echo_cmd(args: &Vec<EnvironValue>) -> (r: Result<EnvironValue, HardcodedExecuterError>)
    requires
        args@.len() >= 1,
    ensures
        (match r {
            Ok(v) => (match echo_acc(vals_view(args@), 1, Seq::empty()) {
                Some(b) => v@ == ValueV::Text(b),
                None => false,
            }),
            Err(e) => echo_acc(vals_view(args@), 1, Seq::empty()) == None::<Seq<u8>> && e
                == HardcodedExecuterError::UnserializableValue,
        }),
{
    let ghost argsv = vals_view(args@);
    proof {
        assert(forall|n: int| 0 <= n < args@.len() ==> argsv[n] == (#[trigger] args@[n])@);
    }
    let mut out: Vec<u8> = Vec::new();
    let mut i: usize = 1;
    proof {
        assert(out@ =~= Seq::<u8>::empty());
    }
    while i < args.len()
        invariant
            1 <= i <= args@.len(),
            argsv == vals_view(args@),
            argsv.len() == args@.len(),
            forall|n: int| 0 <= n < args@.len() ==> argsv[n] == (#[trigger] args@[n])@,
            echo_acc(argsv, 1, Seq::empty()) == echo_acc(argsv, i as int, out@),
        decreases args@.len() - i,
    {
        let ghost out0 = out@;
        match &args[i] {
            EnvironValue::Text(b) => {
                if i > 1 {
                    out.push(32);
                }
                let mut bs = copy_bytes(b);
                out.append(&mut bs);
                proof {
                    if i > 1 {
                        assert(out@ =~= out0 + seq![32u8] + b@);
                    } else {
                        assert(out@ =~= out0 + b@);
                    }
                }
            },
            _ => {
                return Err(HardcodedExecuterError::UnserializableValue);
            },
        }
        i = i + 1;
    }
    Ok(EnvironValue::Text(out))
}

/// The env command: list every entry.
fn env_cmd<Env: Environ>(env: &mut Env) -> (r: Result<EnvironValue, HardcodedExecuterError>)
    ensures
        *final(env) == *old(env),
        (match r {
            Ok(v) => v@ == ValueV::Text(env_acc(old(env).model(), 0, Seq::empty())),
            Err(e) => false,
        }),
{
    let entries = env.entries();
    let ghost m = env.model();
    let mut out: Vec<u8> = Vec::new();
    let mut i: usize = 0;
    proof {
        assert(out@ =~= Seq::<u8>::empty());
    }
    while i < entries.len()
        invariant
            i <= entries@.len(),
            entries@.len() == m.len(),
            forall|n: int| 0 <= n < entries@.len() ==> ((#[trigger] entries@[n]).0@, entries@[n].1@)
                == m[n],
            env_acc(m, 0, Seq::empty()) == env_acc(m, i as int, out@),
        decreases entries@.len() - i,
    {
        let ghost out0 = out@;
        if i > 0 {
            out.push(10);
        }
        let mut k = copy_bytes(&entries[i].0);
        out.append(&mut k);
        out.push(61);
        append_value(&mut out, &entries[i].1);
        proof {
            let line = m[i as int].0 + seq![61u8] + value_bytes(m[i as int].1);
            if i > 0 {
                assert(out@ =~= out0 + seq![10u8] + line);
            } else {
                assert(out@ =~= out0 + line);
            }
        }
        i = i + 1;
    }
    Ok(EnvironValue::Text(out))
}

/// Append the bytes a value contributes when spliced into text.
fn append_value(out: &mut Vec<u8>, v: &EnvironValue)
    ensures
        final(out)@ == old(out)@ + value_bytes(v@),
{
    match v {
        EnvironValue::Text(b) => {
            let mut bs = copy_bytes(b);
            out.append(&mut bs);
        },
        EnvironValue::UNumber(n) => {
            push_dec(*n, out);
        },
        EnvironValue::Null => {
            proof {
                assert(old(out)@ + value_bytes(v@) =~= out@);
            }
        },
    }
}

/// The index of the first `=` byte, if there is one.
fn find_eq(s: &Vec<u8>) -> (r: Option<usize>)
    ensures
        (match r {
            Some(p) => eq_pos(s@) == p && p < s@.len(),
            None => eq_pos(s@) >= s@.len(),
        }),
{
    let mut i: usize = 0;
    while i < s.len()
        invariant
            i <= s@.len(),
            forall|j: int| 0 <= j < i ==> s@[j] != 61u8,
        decreases s@.len() - i,
    {
        if s[i] == 61 {
            proof {
                lemma_eq_pos(s@, i as int);
            }
            return Some(i);
        }
        i = i + 1;
    }
    proof {
        lemma_eq_pos_absent(s@);
    }
    None
}

/// The first `=` is where scanning finds it.
pub(crate) proof fn lemma_eq_pos(s: Seq<u8>, p: int)
    requires
        0 <= p < s.len(),
        s[p] == 61u8,
        forall|j: int| 0 <= j < p ==> s[j] != 61u8,
    ensures
        eq_pos(s) == p,
    decreases p,
{
    if p > 0 {
        assert(s[0] != 61u8);
        lemma_eq_pos(s.drop_first(), p - 1);
        assert(forall|j: int| 1 <= j < s.len() ==> s.drop_first()[j - 1] == #[trigger] s[j]);
    }
}

/// With no `=` anywhere, the position is the length.
proof fn lemma_eq_pos_absent(s: Seq<u8>)
    requires
        forall|j: int| 0 <= j < s.len() ==> s[j] != 61u8,
    ensures
        eq_pos(s) == s.len(),
    decreases s.len(),
{
    if s.len() > 0 {
        lemma_eq_pos_absent(s.drop_first());
        assert(forall|j: int| 1 <= j < s.len() ==> s.drop_first()[j - 1] == #[trigger] s[j]);
    }
}

/// The let command: bind KEY to VALUE, split at the first `=`.
fn let_cmd<Env: Environ>(args: &Vec<EnvironValue>, env: &mut Env) -> (r: Result<
    EnvironValue,
    HardcodedExecuterError,
>)
    requires
        args@.len() >= 1,
    ensures
        (match r {
            Ok(v) => let_res(vals_view(args@)) == Ok::<ValueV, HardcodedExecuterError>(v@),
            Err(e) => let_res(vals_view(args@)) == Err::<ValueV, HardcodedExecuterError>(e),
        }),
        final(env).model() == (if args@.len() == 2 && (args@[1]@ matches ValueV::Text(expr))
            && eq_pos(args@[1]@->Text_0) < args@[1]@->Text_0.len() && valid_utf8(
            args@[1]@->Text_0.take(eq_pos(args@[1]@->Text_0) as int),
        ) {
            set_entry(
                old(env).model(),
                args@[1]@->Text_0.take(eq_pos(args@[1]@->Text_0) as int),
                ValueV::Text(args@[1]@->Text_0.skip(eq_pos(args@[1]@->Text_0) as int + 1)),
            )
        } else {
            old(env).model()
        }),
{
    let ghost argsv = vals_view(args@);
    proof {
        assert(forall|n: int| 0 <= n < args@.len() ==> argsv[n] == (#[trigger] args@[n])@);
    }
    if args.len() != 2 {
        return Err(HardcodedExecuterError::CommandError("invalid arg count"));
    }
    match &args[1] {
        EnvironValue::Text(expr) => {
            match find_eq(expr) {
                None => Err(HardcodedExecuterError::CommandError("no '=' found")),
                Some(p) => {
                    let n = expr.len();
                    let k = sub_bytes(expr, 0, p);
                    if bytes_to_string(&k).is_none() {
                        return Err(HardcodedExecuterError::CommandError(
                            "key is not a utf8 sequence",
                        ));
                    }
                    let v = sub_bytes(expr, p + 1, n);
                    env.set(k, EnvironValue::Text(v));
                    Ok(EnvironValue::Null)
                },
            }
        },
        _ => Err(HardcodedExecuterError::UnserializableValue),
    }
}

/// The printargs command: render the whole argument list.
fn printargs_cmd(args: &Vec<EnvironValue>) -> (r: Result<EnvironValue, HardcodedExecuterError>)
    ensures
        (match r {
            Ok(v) => v@ == ValueV::Text(render_acc(vals_view(args@), 0, seq![91u8])),
            Err(e) => false,
        }),
{
    let ghost argsv = vals_view(args@);
    proof {
        assert(forall|n: int| 0 <= n < args@.len() ==> argsv[n] == (#[trigger] args@[n])@);
    }
    let mut out: Vec<u8> = Vec::new();
    out.push(91);
    let mut i: usize = 0;
    proof {
        assert(out@ =~= seq![91u8]);
    }
    while i < args.len()
        invariant
            i <= args@.len(),
            argsv == vals_view(args@),
            argsv.len() == args@.len(),
            forall|n: int| 0 <= n < args@.len() ==> argsv[n] == (#[trigger] args@[n])@,
            render_acc(argsv, 0, seq![91u8]) == render_acc(argsv, i as int, out@),
        decreases args@.len() - i,
    {
        let ghost out0 = out@;
        if i > 0 {
            out.push(44);
            out.push(32);
        }
        match &args[i] {
            EnvironValue::Text(b) => {
                out.push(34);
                let mut bs = copy_bytes(b);
                out.append(&mut bs);
                out.push(34);
            },
            EnvironValue::UNumber(n) => {
                push_dec(*n, &mut out);
            },
            EnvironValue::Null => {
                out.push(40);
                out.push(41);
            },
        }
        proof {
            if i > 0 {
                assert(out@ =~= out0 + seq![44u8, 32u8] + render_value(argsv[i as int]));
            } else {
                assert(out@ =~= out0 + render_value(argsv[i as int]));
            }
        }
        i = i + 1;
    }
    out.push(93);
    Ok(EnvironValue::Text(out))
}

/// What the memusage command prints, as bytes.
fn mem_bytes(m: MemStats) -> (r: Vec<u8>)
    ensures
        r@ == encode_utf8(mem_chars(m)),
{
    let mut s = String::new();
    s.append("pid(");
    let pid_digits = dec_char_vec(m.pid);
    let pid_str = chars_to_string(&pid_digits);
    s.append(pid_str.as_str());
    s.append("): rss(");
    let rss_str = bytes_to_binary(m.rss);
    s.append(rss_str.as_str());
    s.append(") vsize(");
    let vsize_str = bytes_to_binary(m.vsize);
    s.append(vsize_str.as_str());
    s.append(")");
    proof {
        assert(s@ =~= mem_chars(m));
    }
    string_bytes(&s)
}

/// The music command: every argument after the command name must be text
/// in valid UTF-8; the decoded arguments go to the music handler, which
/// answers nothing yet.
fn music_cmd(args: &Vec<EnvironValue>) -> (r: Result<EnvironValue, HardcodedExecuterError>)
    requires
        args@.len() >= 1,
    ensures
        (match r {
            Ok(v) => v@ == (if utf8_texts(vals_view(args@), 1) {
                ValueV::Text(Seq::empty())
            } else {
                ValueV::Text(encode_utf8("invalid encoding argument"@))
            }),
            Err(e) => false,
        }),
{
    let ghost argsv = vals_view(args@);
    proof {
        assert(forall|n: int| 0 <= n < args@.len() ==> argsv[n] == (#[trigger] args@[n])@);
    }
    let mut nice_args: Vec<String> = Vec::new();
    let mut i: usize = 1;
    while i < args.len()
        invariant
            1 <= i <= args@.len(),
            argsv == vals_view(args@),
            argsv.len() == args@.len(),
            forall|n: int| 0 <= n < args@.len() ==> argsv[n] == (#[trigger] args@[n])@,
            utf8_texts(argsv, 1) == utf8_texts(argsv, i as int),
        decreases args@.len() - i,
    {
        match &args[i] {
            EnvironValue::Text(b) => {
                match bytes_to_string(b) {
                    Some(s) => {
                        nice_args.push(s);
                        i = i + 1;
                    },
                    None => {
                        let reply = "invalid encoding argument";
                        return Ok(EnvironValue::Text(reply.as_bytes_vec()));
                    },
                }
            },
            _ => {
                let reply = "invalid encoding argument";
                return Ok(EnvironValue::Text(reply.as_bytes_vec()));
            },
        }
    }
    let response = main_handler(nice_args.as_slice());
    let out = string_bytes(&response);
    proof {
        assert(encode_utf8(Seq::<char>::empty()) =~= Seq::<u8>::empty());
    }
    Ok(EnvironValue::Text(out))
}


/// A scripted executor for testing the resolver in isolation: it answers
/// with canned values, in order, and records how many calls it took.  It
/// never touches the environment; past the end of its script it answers
/// no value.
#[derive(Debug)]
pub struct ScriptedExecuter {
    /// The canned replies, in the order they are handed out.
    pub replies: Vec<EnvironValue>,
    /// How many calls have been made.
    pub calls: usize,
}

impl ScriptedExecuter {
    /// A scripted executor that answers with the given values, in order.
    pub fn new(replies: Vec<EnvironValue>) -> (s: Self)
        ensures
            s.replies@ == replies@,
            s.calls == 0,
    {
        ScriptedExecuter { replies, calls: 0 }
    }
}

impl Executer<HardcodedExecuterError> for ScriptedExecuter {
    /// The next canned reply, or no value once the script is exhausted.
    open spec fn exec_res(self, args: Seq<ValueV>, env: EnvModel) -> Result<
        ValueV,
        HardcodedExecuterError,
    > {
        if self.calls < self.replies@.len() {
            Ok(self.replies@[self.calls as int]@)
        } else {
            Ok(ValueV::Null)
        }
    }

    /// The environment is never touched.
    open spec fn exec_env(self, args: Seq<ValueV>, env: EnvModel) -> EnvModel {
        env
    }

    /// One more call is recorded.
    open spec fn exec_post(self, args: Seq<ValueV>, env: EnvModel) -> Self {
        ScriptedExecuter {
            replies: self.replies,
            calls: if self.calls < usize::MAX {
                (self.calls + 1) as usize
            } else {
                self.calls
            },
        }
    }

    fn execute<Env: Environ>(&mut self, args: Vec<EnvironValue>, env: &mut Env) -> (r: Result<
        EnvironValue,
        HardcodedExecuterError,
    >) {
        let reply = if self.calls < self.replies.len() {
            copy_value(&self.replies[self.calls])
        } else {
            EnvironValue::Null
        };
        if self.calls < usize::MAX {
            self.calls = self.calls + 1;
        }
        Ok(reply)
    }
}

} // verus!
