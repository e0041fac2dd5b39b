//! The resolver: an argument tree, the live environment and an injected
//! executor produce one output value.
//!
//! Each argument's fragments are concatenated into one byte-string value:
//! literal bytes, characters, raw strings and text verbatim (characters and
//! text in UTF-8), an environment-variable reference as the bytes of its
//! value, and a subshell by resolving its tree first, against the same
//! environment, and splicing the output in as text.  The flat list of
//! values and the environment are then handed to the executor, whose result
//! is returned as is.

use vstd::prelude::*;
use vstd::utf8::encode_utf8;

use crate::environ::{
    lookup, push_dec, string_bytes, value_bytes, EnvModel, Environ, EnvironValue, ValueV,
};
use crate::tree::{
    arg_view, args_view, frag_view, lemma_arg_view, lemma_args_view, FragV, ShellArg, ShellArgs,
};
use crate::trusted::chars_to_string;

verus! {

/// A resolution-time error: a missing variable, or whatever the executor
/// reports.
#[derive(Debug, Clone, PartialEq, Eq)]
pub enum ExecuteError<E> {
    /// A referenced variable name has no bound value.
    NoSuchEnv,
    /// The executor failed; its error is passed through untouched.
    ExecuterError(E),
}

/// A command executor: a capability that maps a fully resolved argument
/// list, with mutable access to the environment, to a value or an error.
/// The parser core has no knowledge of what commands exist; the three spec
/// functions are each implementation's own account of what it computes,
/// and `execute` must return, change the environment to, and become exactly
/// what they say.
pub trait Executer<E>: Sized {
    /// The result for given arguments and environment.
    spec fn exec_res(self, args: Seq<ValueV>, env: EnvModel) -> Result<ValueV, E>;

    /// The environment afterwards.
    spec fn exec_env(self, args: Seq<ValueV>, env: EnvModel) -> EnvModel;

    /// The executor's own state afterwards.
    spec fn exec_post(self, args: Seq<ValueV>, env: EnvModel) -> Self;

    /// Run one command.
    fn execute<Env: Environ>(&mut self, args: Vec<EnvironValue>, env: &mut Env) -> (r: Result<
        EnvironValue,
        E,
    >)
        ensures
            (match r {
                Ok(v) => old(self).exec_res(vals_view(args@), old(env).model()) == Ok::<ValueV, E>(
                    v@,
                ),
                Err(e) => old(self).exec_res(vals_view(args@), old(env).model()) == Err::<
                    ValueV,
                    E,
                >(e),
            }),
            final(env).model() == old(self).exec_env(vals_view(args@), old(env).model()),
            *final(self) == old(self).exec_post(vals_view(args@), old(env).model()),
    ;
}

/// The views of a list of values.
pub open spec fn vals_view(s: Seq<EnvironValue>) -> Seq<ValueV> {
    s.map_values(|v: EnvironValue| v@)
}

/// Resolve a whole tree and run the executor on the result: the final
/// value or error, the environment afterwards, and the executor afterwards.
pub open spec fn resolve_tree<E, X: Executer<E>>(
    tree: Seq<Seq<FragV>>,
    env: EnvModel,
    x: X,
) -> (Result<ValueV, ExecuteError<E>>, EnvModel, X)
    decreases tree, 3nat, 0nat,
{
    let (r, env2, x2) = resolve_args(tree, 0, Seq::empty(), env, x);
    match r {
        Err(e) => (Err(e), env2, x2),
        Ok(vals) => {
            let res = x2.exec_res(vals, env2);
            let env3 = x2.exec_env(vals, env2);
            let x3 = x2.exec_post(vals, env2);
            match res {
                Ok(v) => (Ok(v), env3, x3),
                Err(e) => (Err(ExecuteError::ExecuterError(e)), env3, x3),
            }
        },
    }
}

/// Resolve the arguments from index `i` on, accumulating resolved values.
pub open spec fn resolve_args<E, X: Executer<E>>(
    tree: Seq<Seq<FragV>>,
    i: int,
    acc: Seq<ValueV>,
    env: EnvModel,
    x: X,
) -> (Result<Seq<ValueV>, ExecuteError<E>>, EnvModel, X)
    decreases tree, 1nat, tree.len() - i,
{
    if i < 0 || i >= tree.len() {
        (Ok(acc), env, x)
    } else {
        let (r, env2, x2) = resolve_frags(tree[i], 0, Seq::empty(), env, x);
        match r {
            Err(e) => (Err(e), env2, x2),
            Ok(bytes) => resolve_args(tree, i + 1, acc.push(ValueV::Text(bytes)), env2, x2),
        }
    }
}

/// Resolve one argument's fragments from index `j` on, concatenating their
/// bytes.
pub open spec fn resolve_frags<E, X: Executer<E>>(
    frags: Seq<FragV>,
    j: int,
    acc: Seq<u8>,
    env: EnvModel,
    x: X,
) -> (Result<Seq<u8>, ExecuteError<E>>, EnvModel, X)
    decreases frags, 2nat, frags.len() - j,
{
    if j < 0 || j >= frags.len() {
        (Ok(acc), env, x)
    } else {
        match frags[j] {
            FragV::Byte(b) => resolve_frags(frags, j + 1, acc.push(b), env, x),
            FragV::Char(c) => resolve_frags(frags, j + 1, acc + encode_utf8(seq![c]), env, x),
            FragV::Raw(bs) => resolve_frags(frags, j + 1, acc + bs, env, x),
            FragV::Text(s) => resolve_frags(frags, j + 1, acc + encode_utf8(s), env, x),
            FragV::Var(name) => match lookup(env, encode_utf8(name)) {
                None => (Err(ExecuteError::NoSuchEnv), env, x),
                Some(v) => resolve_frags(frags, j + 1, acc + value_bytes(v), env, x),
            },
            FragV::Sub(t) => {
                let (r, env2, x2) = resolve_tree(t, env, x);
                match r {
                    Err(e) => (Err(e), env2, x2),
                    Ok(v) => resolve_frags(frags, j + 1, acc + value_bytes(v), env2, x2),
                }
            },
        }
    }
}

/// The UTF-8 bytes of one character.
fn char_bytes(c: char) -> (r: Vec<u8>)
    ensures
        r@ == encode_utf8(seq![c]),
{
    let mut cs: Vec<char> = Vec::new();
    cs.push(c);
    proof {
        assert(cs@ =~= seq![c]);
    }
    let s = chars_to_string(&cs);
    s.as_str().as_bytes_vec()
}

/// Append the bytes a value contributes when spliced into text.
fn append_value_bytes(out: &mut Vec<u8>, v: &EnvironValue)
    ensures
        final(out)@ == old(out)@ + value_bytes(v@),
{
    match v {
        EnvironValue::Text(b) => {
            let mut copy = crate::environ::copy_bytes(b);
            out.append(&mut copy);
        },
        EnvironValue::UNumber(n) => {
            push_dec(*n, out);
        },
        EnvironValue::Null => {
            proof {
                assert(old(out)@ + value_bytes(v@) =~= out@);
            }
        },
    }
}

impl ShellArgs {
    /// Resolve this tree against the environment and hand the flat value
    /// list to the executor; bindings the executor makes, also from nested
    /// subshells, stay in the environment.
    pub fn resolve<Env: Environ, X: Executer<E>, E>(
        &self,
        environ: &mut Env,
        executer: &mut X,
    ) -> (r: Result<EnvironValue, ExecuteError<E>>)
        ensures
            ({
                let (sr, senv, sx) = resolve_tree::<E, X>(
                    self@,
                    old(environ).model(),
                    *old(executer),
                );
                &&& final(environ).model() == senv
                &&& *final(executer) == sx
                &&& (match r {
                    Ok(v) => sr == Ok::<ValueV, ExecuteError<E>>(v@),
                    Err(e) => sr == Err::<ValueV, ExecuteError<E>>(e),
                })
            }),
        decreases *self,
    {
        let ghost tree = self@;
        let ghost env0 = environ.model();
        let ghost x0 = *executer;
        proof {
            lemma_args_view(self.0@);
        }
        let mut vals: Vec<EnvironValue> = Vec::new();
        let mut i: usize = 0;
        proof {
            assert(vals_view(vals@) =~= Seq::<ValueV>::empty());
        }
        while i < self.0.len()
            invariant
                i <= self.0@.len(),
                tree == self@,
                tree.len() == self.0@.len(),
                old(environ).model() == env0,
                *old(executer) == x0,
                forall|n: int|
                    0 <= n < tree.len() ==> tree[n] == arg_view(#[trigger] self.0@[n]@),
                resolve_args(tree, 0, Seq::empty(), env0, x0) == resolve_args(
                    tree,
                    i as int,
                    vals_view(vals@),
                    environ.model(),
                    *executer,
                ),
            decreases self.0@.len() - i,
        {
            let ghost env_a = environ.model();
            let ghost x_a = *executer;
            let ghost argv = tree[i as int];
            proof {
                lemma_arg_view(self.0@[i as int]@);
            }
            let mut bytes: Vec<u8> = Vec::new();
            let mut j: usize = 0;
            proof {
                assert(bytes@ =~= Seq::<u8>::empty());
            }
            while j < self.0[i].len()
                invariant
                    i < self.0@.len(),
                    j <= self.0@[i as int]@.len(),
                    tree == self@,
                    tree.len() == self.0@.len(),
                    old(environ).model() == env0,
                    *old(executer) == x0,
                    argv == tree[i as int],
                    argv.len() == self.0@[i as int]@.len(),
                    forall|n: int|
                        0 <= n < argv.len() ==> argv[n] == frag_view(
                            #[trigger] self.0@[i as int]@[n],
                        ),
                    resolve_args(tree, 0, Seq::empty(), env0, x0) == resolve_args(
                        tree,
                        i as int,
                        vals_view(vals@),
                        env_a,
                        x_a,
                    ),
                    resolve_frags(argv, 0, Seq::empty(), env_a, x_a) == resolve_frags(
                        argv,
                        j as int,
                        bytes@,
                        environ.model(),
                        *executer,
                    ),
                decreases self.0@[i as int]@.len() - j,
            {
                match &self.0[i][j] {
                    ShellArg::Byte(b) => {
                        bytes.push(*b);
                    },
                    ShellArg::Char(c) => {
                        let mut bs = char_bytes(*c);
                        bytes.append(&mut bs);
                    },
                    ShellArg::RawString(rs) => {
                        let mut bs = crate::environ::copy_bytes(rs);
                        bytes.append(&mut bs);
                    },
                    ShellArg::Text(s) => {
                        let mut bs = string_bytes(s);
                        bytes.append(&mut bs);
                    },
                    ShellArg::EnvVar(name) => {
                        let key = string_bytes(name);
                        match environ.get(&key) {
                            None => {
                                return Err(ExecuteError::NoSuchEnv);
                            },
                            Some(v) => {
                                append_value_bytes(&mut bytes, v);
                            },
                        }
                    },
                    ShellArg::Subshell(sub) => {
                        proof {
                            assert(decreases_to!(*self => self.0));
                            assert(decreases_to!(self.0 => self.0@));
                            assert(decreases_to!(self.0@ => self.0@[i as int]));
                            assert(decreases_to!(self.0@[i as int] => self.0@[i as int]@));
                            assert(decreases_to!(self.0@[i as int]@ => self.0@[i as int]@[j as int]));
                            assert(decreases_to!(self.0@[i as int]@[j as int] => *sub));
                        }
                        match sub.resolve(environ, executer) {
                            Err(e) => {
                                return Err(e);
                            },
                            Ok(v) => {
                                append_value_bytes(&mut bytes, &v);
                            },
                        }
                    },
                }
                j = j + 1;
            }
            let ghost vals0 = vals@;
            let ghost bytes_g = bytes@;
            vals.push(EnvironValue::Text(bytes));
            proof {
                assert(vals_view(vals@) =~= vals_view(vals0).push(ValueV::Text(bytes_g)));
            }
            i = i + 1;
        }
        let r = executer.execute(vals, environ);
        match r {
            Ok(v) => Ok(v),
            Err(e) => Err(ExecuteError::ExecuterError(e)),
        }
    }
}

} // verus!
