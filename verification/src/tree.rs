//! The argument-tree data model: the immutable output of parsing.
//!
//! A parsed logical command is a [`ShellArgs`]: an ordered list of arguments,
//! each argument an ordered list of [`ShellArg`] fragments.  Fragments of one
//! argument are concatenated at resolution time; arguments are separated by
//! unescaped spaces at the top context level.

use vstd::prelude::*;

verus! {

/// One atomic piece of a single argument.
#[derive(Debug, PartialEq, Eq)]
pub enum ShellArg {
    /// An exact byte, e.g. from a hex escape; not necessarily valid UTF-8.
    Byte(u8),
    /// A decoded Unicode scalar.
    Char(char),
    /// Opaque, already-encoded text, e.g. substitution output.
    RawString(Vec<u8>),
    /// Decoded text.
    Text(String),
    /// A reference to an environment variable, by name.
    EnvVar(String),
    /// An embedded command, resolved and substituted at resolution time.
    Subshell(ShellArgs),
}

/// The full parsed structure of one logical command.
#[derive(Debug, Default, PartialEq, Eq)]
pub struct ShellArgs(pub Vec<Vec<ShellArg>>);

/// The mathematical shape of one fragment: what [`ShellArg`] abstracts to.
#[verifier::ext_equal]
pub enum FragV {
    Byte(u8),
    Char(char),
    Raw(Seq<u8>),
    Text(Seq<char>),
    Var(Seq<char>),
    Sub(Seq<Seq<FragV>>),
}

/// The mathematical shape of one fragment.
pub open spec fn frag_view(f: ShellArg) -> FragV
    decreases f,
{
    match f {
        ShellArg::Byte(b) => FragV::Byte(b),
        ShellArg::Char(c) => FragV::Char(c),
        ShellArg::RawString(bs) => FragV::Raw(bs@),
        ShellArg::Text(s) => FragV::Text(s@),
        ShellArg::EnvVar(n) => FragV::Var(n@),
        ShellArg::Subshell(t) => FragV::Sub(args_view(t.0@)),
    }
}

/// The mathematical shape of one argument: its fragments, in order.
pub open spec fn arg_view(frags: Seq<ShellArg>) -> Seq<FragV>
    decreases frags,
{
    if frags.len() == 0 {
        Seq::empty()
    } else {
        seq![frag_view(frags.first())] + arg_view(frags.drop_first())
    }
}

/// The mathematical shape of an argument list: each argument's fragments, in order.
pub open spec fn args_view(args: Seq<Vec<ShellArg>>) -> Seq<Seq<FragV>>
    decreases args,
{
    if args.len() == 0 {
        Seq::empty()
    } else {
        seq![arg_view(args.first()@)] + args_view(args.drop_first())
    }
}

impl View for ShellArg {
    type V = FragV;

    open spec fn view(&self) -> FragV {
        frag_view(*self)
    }
}

impl View for ShellArgs {
    type V = Seq<Seq<FragV>>;

    open spec fn view(&self) -> Seq<Seq<FragV>> {
        args_view(self.0@)
    }
}

/// `arg_view` is pointwise `frag_view`.
pub proof fn lemma_arg_view(frags: Seq<ShellArg>)
    ensures
        arg_view(frags).len() == frags.len(),
        forall|i: int| 0 <= i < frags.len() ==> arg_view(frags)[i] == frag_view(#[trigger] frags[i]),
    decreases frags,
{
    if frags.len() > 0 {
        lemma_arg_view(frags.drop_first());
        assert forall|i: int| 0 <= i < frags.len() implies arg_view(frags)[i] == frag_view(
            #[trigger] frags[i],
        ) by {
            if i > 0 {
                assert(frags.drop_first()[i - 1] == frags[i]);
            }
        }
    }
}

/// `args_view` is pointwise `arg_view`.
pub proof fn lemma_args_view(args: Seq<Vec<ShellArg>>)
    ensures
        args_view(args).len() == args.len(),
        forall|i: int| 0 <= i < args.len() ==> args_view(args)[i] == arg_view(#[trigger] args[i]@),
    decreases args,
{
    if args.len() > 0 {
        lemma_args_view(args.drop_first());
        assert forall|i: int| 0 <= i < args.len() implies args_view(args)[i] == arg_view(
            #[trigger] args[i]@,
        ) by {
            if i > 0 {
                assert(args.drop_first()[i - 1] == args[i]);
            }
        }
    }
}

/// Appending a fragment appends its view.
pub proof fn lemma_arg_view_push(frags: Seq<ShellArg>, x: ShellArg)
    ensures
        arg_view(frags.push(x)) == arg_view(frags).push(frag_view(x)),
{
    lemma_arg_view(frags);
    lemma_arg_view(frags.push(x));
    assert forall|i: int| 0 <= i < frags.len() + 1 implies arg_view(frags.push(x))[i] == arg_view(
        frags,
    ).push(frag_view(x))[i] by {
        if i < frags.len() {
            assert(frags.push(x)[i] == frags[i]);
        } else {
            assert(frags.push(x)[i] == x);
        }
    }
    assert(arg_view(frags.push(x)) =~= arg_view(frags).push(frag_view(x)));
}

/// Appending an argument appends its view.
pub proof fn lemma_args_view_push(args: Seq<Vec<ShellArg>>, a: Vec<ShellArg>)
    ensures
        args_view(args.push(a)) == args_view(args).push(arg_view(a@)),
{
    lemma_args_view(args);
    lemma_args_view(args.push(a));
    assert forall|i: int| 0 <= i < args.len() + 1 implies args_view(args.push(a))[i] == args_view(
        args,
    ).push(arg_view(a@))[i] by {
        if i < args.len() {
            assert(args.push(a)[i] == args[i]);
            assert(args.push(a)[i]@ == args[i]@);
        } else {
            assert(args.push(a)[i] == a);
            assert(args.push(a)[i]@ == a@);
        }
    }
    assert(args_view(args.push(a)) =~= args_view(args).push(arg_view(a@)));
}

/// Dropping the first argument drops its view.
pub proof fn lemma_args_view_drop_first(args: Seq<Vec<ShellArg>>)
    requires
        args.len() > 0,
    ensures
        args_view(args.drop_first()) == args_view(args).drop_first(),
        args_view(args).first() == arg_view(args.first()@),
{
    lemma_args_view(args);
    lemma_args_view(args.drop_first());
    assert forall|i: int| 0 <= i < args.len() - 1 implies args_view(args.drop_first())[i]
        == args_view(args).drop_first()[i] by {
        assert(args.drop_first()[i] == args[i + 1]);
        assert(args.drop_first()[i]@ == args[i + 1]@);
    }
    assert(args_view(args.drop_first()) =~= args_view(args).drop_first());
}

/// Dropping the first fragment drops its view.
pub proof fn lemma_arg_view_drop_first(frags: Seq<ShellArg>)
    requires
        frags.len() > 0,
    ensures
        arg_view(frags.drop_first()) == arg_view(frags).drop_first(),
        arg_view(frags).first() == frag_view(frags.first()),
{
    lemma_arg_view(frags);
    lemma_arg_view(frags.drop_first());
    assert forall|i: int| 0 <= i < frags.len() - 1 implies arg_view(frags.drop_first())[i]
        == arg_view(frags).drop_first()[i] by {
        assert(frags.drop_first()[i] == frags[i + 1]);
    }
    assert(arg_view(frags.drop_first()) =~= arg_view(frags).drop_first());
}

/// A parse-time error; fatal to the whole message's parse attempt.
#[derive(Debug, Clone, Copy, PartialEq, Eq, Structural)]
pub enum ParseError {
    /// An unnest action reached the root or fired while a child context was
    /// still open.
    IllegalRootUnnest,
    /// Malformed byte/Unicode escape, malformed variable-name syntax, or an
    /// unterminated escape at end of input.
    InvalidEscapeSequence,
    /// A closing token appeared at root level with no matching opener.
    UnexpectedCloser(char),
    /// Input ended while a command was still open.
    UnfinishedLastCommand,
}

/// Which grammar governs character classification at one nesting level.
#[derive(Debug, Clone, Copy, PartialEq, Eq, Structural)]
pub enum ParseCtxType {
    /// The bool is true at root level (unclosable; terminated only by the end
    /// of the logical command) and false for a parenthesized substitution.
    Normal(bool),
    /// The bool is true for a strict quote (as a single quote in a shell:
    /// content is literal) and false for an interpreted quote (escapes are
    /// active).
    Quote(bool),
}

impl Default for ParseCtxType {
    /// The root context: a fresh parse starts at top level.
    fn default() -> (t: Self)
        ensures
            t == ParseCtxType::Normal(true),
    {
        ParseCtxType::Normal(true)
    }
}

} // verus!
