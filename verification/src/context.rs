//! The parse-context state machine.
//!
//! A [`ParseCtx`] holds one nesting level per open context: the root at the
//! bottom, then one frame per open quote or substitution.  Characters always
//! reach the deepest (top) frame.  The spec-level transition function
//! [`step`] says exactly what one character does to the stack of frames;
//! [`close_step`] says what the end of an input line does.

use vstd::prelude::*;

use crate::classify::{escape_act, token_act, ActV, ParseAction};
use crate::tree::{
    arg_view, args_view, frag_view, lemma_arg_view_drop_first, lemma_arg_view_push,
    lemma_args_view_drop_first, lemma_args_view_push, FragV, ParseCtxType, ParseError, ShellArg,
    ShellArgs,
};
use crate::trusted::{chars_to_string, unicode_alphanumeric};
use crate::classify::{copy_range, is_ident_char};

verus! {

/// One nesting level of a parse in progress.
struct Frame {
    typ: ParseCtxType,
    escape: Vec<char>,
    arg: Vec<ShellArg>,
    args: Vec<Vec<ShellArg>>,
    just_separated: bool,
}

/// The mathematical shape of one nesting level.
#[verifier::ext_equal]
pub struct FrameV {
    /// Which grammar governs this level.
    pub typ: ParseCtxType,
    /// The escape buffer under accumulation, empty when no escape is open.
    pub escape: Seq<char>,
    /// The fragments of the argument under construction.
    pub arg: Seq<FragV>,
    /// The completed arguments of this level.
    pub args: Seq<Seq<FragV>>,
    /// Whether the last action at this level was a separator.
    pub just_separated: bool,
}

impl View for Frame {
    type V = FrameV;

    closed spec fn view(&self) -> FrameV {
        FrameV {
            typ: self.typ,
            escape: self.escape@,
            arg: arg_view(self.arg@),
            args: args_view(self.args@),
            just_separated: self.just_separated,
        }
    }
}

/// A frame as it is when its context opens.
pub open spec fn fresh_frame(t: ParseCtxType) -> FrameV {
    FrameV {
        typ: t,
        escape: Seq::empty(),
        arg: Seq::empty(),
        args: Seq::empty(),
        just_separated: false,
    }
}

/// The outcome of feeding one character (or more) to a context stack.
pub enum StepV {
    /// The command is still open; the stack after the character.
    Cont(Seq<FrameV>),
    /// The root context closed; the completed argument tree.
    Done(Seq<Seq<FragV>>),
    /// The parse failed.
    Fail(ParseError),
}

/// The outcome of an end of line.
pub enum CloseV {
    /// The logical command is complete.
    Done(Seq<Seq<FragV>>),
    /// The command continues on the next line with this stack.
    Open(Seq<FrameV>),
    /// The parse failed.
    Fail(ParseError),
}

/// A separator closes the argument under construction, unless the previous
/// action was already a separator (runs of separators collapse).
pub open spec fn sep_frame(f: FrameV) -> FrameV {
    FrameV {
        typ: f.typ,
        escape: f.escape,
        arg: if f.just_separated {
            f.arg
        } else {
            Seq::empty()
        },
        args: if f.just_separated {
            f.args
        } else {
            f.args.push(f.arg)
        },
        just_separated: true,
    }
}

/// A completed fragment is appended to the argument under construction; any
/// completed escape buffer is discarded.
pub open spec fn push_frame(f: FrameV, fr: FragV) -> FrameV {
    FrameV {
        typ: f.typ,
        escape: Seq::empty(),
        arg: f.arg.push(fr),
        args: f.args,
        just_separated: false,
    }
}

/// An escape opens or continues: the character joins the escape buffer.
pub open spec fn acc_escape(f: FrameV, c: char) -> FrameV {
    FrameV {
        typ: f.typ,
        escape: f.escape.push(c),
        arg: f.arg,
        args: f.args,
        just_separated: false,
    }
}

/// The frame under a newly opened child: its escape buffer is discarded and
/// its separator flag cleared.
pub open spec fn clear_sep(f: FrameV) -> FrameV {
    FrameV {
        typ: f.typ,
        escape: Seq::empty(),
        arg: f.arg,
        args: f.args,
        just_separated: false,
    }
}

/// The finished argument tree of a closing frame: its completed arguments,
/// with the argument still under construction closed as the last one.
pub open spec fn frame_tree(f: FrameV) -> Seq<Seq<FragV>> {
    f.args.push(f.arg)
}

/// The top frame closes.  At the root this completes the logical command.
/// A substitution folds into the parent as one subshell fragment; a quote
/// folds its fragments into the parent's argument under construction, since
/// quoting produces no argument boundary.
pub open spec fn unnest(st: Seq<FrameV>) -> StepV
    recommends
        st.len() >= 1,
{
    let k = st.len() - 1;
    let f = st[k];
    let tree = frame_tree(f);
    if st.len() == 1 {
        StepV::Done(tree)
    } else {
        let p = st[k - 1];
        let arg2 = if f.typ == ParseCtxType::Normal(false) {
            p.arg.push(FragV::Sub(tree))
        } else {
            p.arg + tree.flatten()
        };
        let parent2 = FrameV {
            typ: p.typ,
            escape: p.escape,
            arg: arg2,
            args: p.args,
            just_separated: p.just_separated,
        };
        StepV::Cont(st.subrange(0, k).update(k - 1, parent2))
    }
}

/// Apply the token classifier to one character at the top frame, whose
/// escape buffer is empty.
pub open spec fn apply_token(st: Seq<FrameV>, c: char) -> StepV
    recommends
        st.len() >= 1,
{
    let k = st.len() - 1;
    let f = st[k];
    match token_act(f.typ, c) {
        Err(e) => StepV::Fail(e),
        Ok(a) => match a {
            ActV::Separator => StepV::Cont(st.update(k, sep_frame(f))),
            ActV::Push(fr) => StepV::Cont(st.update(k, push_frame(f, fr))),
            ActV::EscapeSequence => StepV::Cont(st.update(k, acc_escape(f, c))),
            ActV::Nest(t) => StepV::Cont(st.update(k, clear_sep(f)).push(fresh_frame(t))),
            ActV::Unnest => unnest(st),
        },
    }
}

/// Feed one character to the context stack.  With an open escape buffer the
/// escape resolver decides; a completed escape may ask for the character to
/// be reprocessed once in the new state.  Otherwise the token classifier
/// decides directly.
pub open spec fn step(st: Seq<FrameV>, c: char) -> StepV
    recommends
        st.len() >= 1,
{
    let k = st.len() - 1;
    let f = st[k];
    if f.escape.len() == 0 {
        apply_token(st, c)
    } else {
        match escape_act(f.escape, c) {
            Err(e) => StepV::Fail(e),
            Ok((a, requeue)) => match a {
                ActV::EscapeSequence => StepV::Cont(st.update(k, acc_escape(f, c))),
                ActV::Push(fr) => {
                    let st2 = st.update(k, push_frame(f, fr));
                    if requeue {
                        apply_token(st2, c)
                    } else {
                        StepV::Cont(st2)
                    }
                },
                ActV::Nest(t) => {
                    let st2 = st.update(k, clear_sep(f)).push(fresh_frame(t));
                    if requeue {
                        apply_token(st2, c)
                    } else {
                        StepV::Cont(st2)
                    }
                },
                _ => StepV::Fail(ParseError::InvalidEscapeSequence),
            },
        }
    }
}

/// Feed a whole line of characters, one at a time.  A root close with
/// characters still pending is a structural error.
pub open spec fn feed_chars(st: Seq<FrameV>, cs: Seq<char>) -> StepV
    recommends
        st.len() >= 1,
    decreases cs.len(),
{
    if cs.len() == 0 {
        StepV::Cont(st)
    } else {
        match step(st, cs.first()) {
            StepV::Fail(e) => StepV::Fail(e),
            StepV::Done(t) => if cs.len() == 1 {
                StepV::Done(t)
            } else {
                StepV::Fail(ParseError::IllegalRootUnnest)
            },
            StepV::Cont(st2) => feed_chars(st2, cs.drop_first()),
        }
    }
}

/// Whether every character could continue a bare variable name.
pub open spec fn bare_name(s: Seq<char>) -> bool {
    forall|i: int| 0 <= i < s.len() ==> is_ident_char(#[trigger] s[i])
}

/// The end of a line when the top frame has no escape pending: the root
/// completes the command; an open quote takes the line break literally; an
/// open substitution takes it as a separator.
pub open spec fn close_plain(st: Seq<FrameV>) -> CloseV
    recommends
        st.len() >= 1,
{
    let k = st.len() - 1;
    let f = st[k];
    if st.len() == 1 {
        CloseV::Done(frame_tree(f))
    } else if f.typ matches ParseCtxType::Quote(_) {
        CloseV::Open(st.update(k, push_frame(f, FragV::Char('\n'))))
    } else {
        CloseV::Open(st.update(k, sep_frame(f)))
    }
}

/// The end of an input line.  A lone trailing backslash keeps the command
/// open with the escape pending, so the next line's first character is
/// taken as escaped; a pending bare variable reference is completed first;
/// any other pending escape is an unterminated escape.
pub open spec fn close_step(st: Seq<FrameV>) -> CloseV
    recommends
        st.len() >= 1,
{
    let k = st.len() - 1;
    let f = st[k];
    if f.escape.len() == 0 {
        close_plain(st)
    } else if f.escape == seq!['\\'] {
        CloseV::Open(st)
    } else if f.escape.first() == '$' && f.escape.len() >= 2 && bare_name(f.escape.skip(1)) {
        close_plain(st.update(k, push_frame(f, FragV::Var(f.escape.skip(1)))))
    } else {
        CloseV::Fail(ParseError::InvalidEscapeSequence)
    }
}

/// The end of the whole input: only a completed command is acceptable.  A
/// context left open fails as an unfinished last command; a pending escape
/// at the very end is an invalid escape.
pub open spec fn forced_close_spec(st: Seq<FrameV>) -> Result<Seq<Seq<FragV>>, ParseError>
    recommends
        st.len() >= 1,
{
    match close_step(st) {
        CloseV::Done(t) => Ok(t),
        CloseV::Fail(e) => Err(e),
        CloseV::Open(st2) => if st2.len() > 1 {
            Err(ParseError::UnfinishedLastCommand)
        } else {
            Err(ParseError::InvalidEscapeSequence)
        },
    }
}

/// Parsing a whole character sequence as one command, from a fresh root.
pub open spec fn from_chars_spec(cs: Seq<char>) -> Result<Seq<Seq<FragV>>, ParseError> {
    match feed_chars(seq![fresh_frame(ParseCtxType::Normal(true))], cs) {
        StepV::Fail(e) => Err(e),
        StepV::Done(_) => Err(ParseError::IllegalRootUnnest),
        StepV::Cont(st) => forced_close_spec(st),
    }
}

/// The mutable core of the parser: one frame per open nesting level, the
/// root at the bottom.  All characters route to the deepest (last) frame.
pub struct ParseCtx {
    frames: Vec<Frame>,
}

impl View for ParseCtx {
    type V = Seq<FrameV>;

    closed spec fn view(&self) -> Seq<FrameV> {
        self.frames@.map_values(|f: Frame| f@)
    }
}

impl Frame {
    /// A frame for a newly opened context.
    fn fresh(t: ParseCtxType) -> (f: Self)
        ensures
            f@ == fresh_frame(t),
    {
        Frame {
            typ: t,
            escape: Vec::new(),
            arg: Vec::new(),
            args: Vec::new(),
            just_separated: false,
        }
    }
}

impl Default for ParseCtx {
    /// A fresh root-level parse context.
    fn default() -> (s: Self)
        ensures
            s@ == seq![fresh_frame(ParseCtxType::Normal(true))],
            s.wf(),
    {
        ParseCtx::new(ParseCtxType::Normal(true))
    }
}

impl ParseCtx {
    /// A context stack is well formed when the root frame is there.
    pub closed spec fn wf(&self) -> bool {
        self.frames@.len() >= 1
    }

    /// A fresh context of the given kind.
    pub fn new(typ: ParseCtxType) -> (s: Self)
        ensures
            s@ == seq![fresh_frame(typ)],
            s.wf(),
    {
        let mut frames: Vec<Frame> = Vec::new();
        frames.push(Frame::fresh(typ));
        let s = ParseCtx { frames };
        proof {
            assert(s@ =~= seq![fresh_frame(typ)]);
        }
        s
    }

    /// Feed one character.  `Ok(None)` leaves the command open; `Ok(Some)`
    /// is the completed argument tree of a root that just closed, with the
    /// context reset to a fresh root; an error aborts the parse, and the
    /// state it leaves behind is not specified.
    pub fn push_char(&mut self, ch: char) -> (r: Result<Option<ShellArgs>, ParseError>)
        requires
            old(self).wf(),
        ensures
            final(self).wf(),
            (match r {
                Ok(opt) => match opt {
                    Option::None => step(old(self)@, ch) == StepV::Cont(final(self)@),
                    Option::Some(args) => step(old(self)@, ch) == StepV::Done(args@) && final(self)@
                        == seq![fresh_frame(old(self)@[0].typ)],
                },
                Err(e) => step(old(self)@, ch) == StepV::Fail(e),
            }),
    {
        let ghost st0 = self@;
        let k = self.frames.len() - 1;
        proof {
            assert(st0[k as int] == self.frames@[k as int]@);
        }
        if self.frames[k].escape.len() == 0 {
            self.apply_plain(ch)
        } else {
            let mut top = match self.frames.pop() {
                Some(f) => f,
                None => {
                    return Err(ParseError::IllegalRootUnnest);  // unreachable: the root frame is always there
                },
            };
            let res = top.typ.escape(&top.escape, ch);
            match res {
                Err(e) => {
                    self.frames.push(top);
                    Err(e)
                },
                Ok((act, requeue)) => match act {
                    ParseAction::EscapeSequence => {
                        top.escape.push(ch);
                        top.just_separated = false;
                        self.frames.push(top);
                        proof {
                            assert(self@ =~~= st0.update(k as int, acc_escape(st0[k as int], ch)));
                        }
                        Ok(None)
                    },
                    ParseAction::Push(frag) => {
                        let ghost fv = frag_view(frag);
                        top.escape = Vec::new();
                        top.just_separated = false;
                        top.arg.push(frag);
                        self.frames.push(top);
                        proof {
                            lemma_arg_view_push(old(self).frames@[k as int].arg@, frag);
                            assert(self@ =~~= st0.update(k as int, push_frame(st0[k as int], fv)));
                            assert(self@[0].typ == st0[0].typ);
                            assert(self@.last().escape.len() == 0);
                        }
                        if requeue {
                            self.apply_plain(ch)
                        } else {
                            Ok(None)
                        }
                    },
                    ParseAction::Nest(t) => {
                        top.escape = Vec::new();
                        top.just_separated = false;
                        self.frames.push(top);
                        self.frames.push(Frame::fresh(t));
                        proof {
                            assert(self@ =~~= st0.update(k as int, clear_sep(st0[k as int])).push(
                                fresh_frame(t),
                            ));
                            assert(self@[0].typ == st0[0].typ);
                            assert(self@.last().escape.len() == 0);
                        }
                        if requeue {
                            self.apply_plain(ch)
                        } else {
                            Ok(None)
                        }
                    },
                    ParseAction::Separator | ParseAction::Unnest => {
                        self.frames.push(top);
                        Err(ParseError::InvalidEscapeSequence)
                    },
                },
            }
        }
    }

    /// Apply the token classifier at the top frame (no escape pending).
    fn apply_plain(&mut self, ch: char) -> (r: Result<Option<ShellArgs>, ParseError>)
        requires
            old(self).wf(),
            old(self)@.last().escape.len() == 0,
        ensures
            final(self).wf(),
            (match r {
                Ok(opt) => match opt {
                    Option::None => apply_token(old(self)@, ch) == StepV::Cont(final(self)@),
                    Option::Some(args) => apply_token(old(self)@, ch) == StepV::Done(args@)
                        && final(self)@ == seq![fresh_frame(old(self)@[0].typ)],
                },
                Err(e) => apply_token(old(self)@, ch) == StepV::Fail(e),
            }),
    {
        let ghost st0 = self@;
        let ghost k = st0.len() - 1;
        let mut top = match self.frames.pop() {
            Some(f) => f,
            None => {
                return Err(ParseError::IllegalRootUnnest);  // unreachable: the root frame is always there
            },
        };
        proof {
            assert(top@ == st0[k]);
        }
        match top.typ.token(ch) {
            Err(e) => {
                self.frames.push(top);
                Err(e)
            },
            Ok(act) => match act {
                ParseAction::Separator => {
                    if !top.just_separated {
                        let mut a: Vec<ShellArg> = Vec::new();
                        core::mem::swap(&mut a, &mut top.arg);
                        top.args.push(a);
                        proof {
                            lemma_args_view_push(old(self).frames@[k].args@, a);
                        }
                    }
                    top.just_separated = true;
                    self.frames.push(top);
                    proof {
                        assert(self@ =~~= st0.update(k, sep_frame(st0[k])));
                    }
                    Ok(None)
                },
                ParseAction::Push(frag) => {
                    let ghost fv = frag_view(frag);
                    proof {
                        lemma_arg_view_push(top.arg@, frag);
                    }
                    top.arg.push(frag);
                    top.just_separated = false;
                    self.frames.push(top);
                    proof {
                        assert(self@ =~~= st0.update(k, push_frame(st0[k], fv)));
                    }
                    Ok(None)
                },
                ParseAction::EscapeSequence => {
                    top.escape.push(ch);
                    top.just_separated = false;
                    self.frames.push(top);
                    proof {
                        assert(st0[k].escape.push(ch) =~= seq![ch]);
                        assert(self@ =~~= st0.update(k, acc_escape(st0[k], ch)));
                    }
                    Ok(None)
                },
                ParseAction::Nest(t) => {
                    top.just_separated = false;
                    self.frames.push(top);
                    self.frames.push(Frame::fresh(t));
                    proof {
                        assert(st0[k].escape =~= Seq::<char>::empty());
                        assert(self@ =~~= st0.update(k, clear_sep(st0[k])).push(fresh_frame(t)));
                    }
                    Ok(None)
                },
                ParseAction::Unnest => {
                    proof {
                        assert(self@.push(top@) =~~= st0);
                    }
                    self.fold_top(top)
                },
            },
        }
    }

    /// The top frame (already taken off the stack) closes; fold its tree
    /// into the parent, or hand it out if it was the root.
    fn fold_top(&mut self, top: Frame) -> (r: Result<Option<ShellArgs>, ParseError>)
        requires
            old(self)@.len() + 1 >= 1,
        ensures
            final(self).wf(),
            (match r {
                Ok(opt) => match opt {
                    Option::None => old(self)@.len() >= 1 && unnest(old(self)@.push(top@))
                        == StepV::Cont(final(self)@),
                    Option::Some(args) => old(self)@.len() == 0 && unnest(old(self)@.push(top@))
                        == StepV::Done(args@) && final(self)@ == seq![fresh_frame(top@.typ)],
                },
                Err(e) => false,
            }),
    {
        let ghost stp = old(self)@.push(top@);
        let typ = top.typ;
        let mut tree_args = top.args;
        let ghost top_args0 = tree_args@;
        tree_args.push(top.arg);
        proof {
            lemma_args_view_push(top_args0, top.arg);
        }
        let tree = ShellArgs(tree_args);
        proof {
            assert(tree@ == frame_tree(top@));
        }
        if self.frames.len() == 0 {
            self.frames.push(Frame::fresh(typ));
            proof {
                assert(self@ =~= seq![fresh_frame(typ)]);
                assert(stp.len() == 1);
            }
            Ok(Some(tree))
        } else {
            let ghost below = self@;
            let mut parent = match self.frames.pop() {
                Some(f) => f,
                None => {
                    return Err(ParseError::IllegalRootUnnest);  // unreachable: the stack is not empty here
                },
            };
            let ghost parent0 = parent@;
            let ghost tree_v = frame_tree(top@);
            if matches!(typ, ParseCtxType::Normal(false)) {
                proof {
                    lemma_arg_view_push(parent.arg@, ShellArg::Subshell(tree));
                }
                parent.arg.push(ShellArg::Subshell(tree));
            } else {
                // a closing quote folds its fragments into the parent's
                // current argument
                let mut rest = tree.0;
                proof {
                    assert(arg_view(parent.arg@) + args_view(rest@).flatten() =~= parent0.arg
                        + tree_v.flatten());
                }
                while rest.len() > 0
                    invariant
                        arg_view(parent.arg@) + args_view(rest@).flatten() == parent0.arg
                            + tree_v.flatten(),
                        parent.typ == parent0.typ,
                        parent.escape@ == parent0.escape,
                        args_view(parent.args@) == parent0.args,
                        parent.just_separated == parent0.just_separated,
                    decreases rest@.len(),
                {
                    let ghost rest0 = rest@;
                    let mut a = rest.remove(0);
                    proof {
                        assert(rest@ =~= rest0.drop_first());
                        lemma_args_view_drop_first(rest0);
                        assert(args_view(rest0).len() > 0);
                        assert(args_view(rest0).flatten() == args_view(rest0).first() + args_view(
                            rest0,
                        ).drop_first().flatten());
                        assert(args_view(rest0).flatten() == arg_view(a@) + args_view(
                            rest@,
                        ).flatten());
                    }
                    while a.len() > 0
                        invariant
                            arg_view(parent.arg@) + arg_view(a@) + args_view(rest@).flatten()
                                == parent0.arg + tree_v.flatten(),
                            parent.typ == parent0.typ,
                            parent.escape@ == parent0.escape,
                            args_view(parent.args@) == parent0.args,
                            parent.just_separated == parent0.just_separated,
                        decreases a@.len(),
                    {
                        let ghost a0 = a@;
                        let x = a.remove(0);
                        proof {
                            assert(a@ =~= a0.drop_first());
                            lemma_arg_view_drop_first(a0);
                        }
                        let ghost pa0 = parent.arg@;
                        parent.arg.push(x);
                        proof {
                            lemma_arg_view_push(pa0, x);
                            assert(arg_view(a0) == seq![frag_view(x)] + arg_view(a@));
                            assert(arg_view(parent.arg@) + arg_view(a@) + args_view(
                                rest@,
                            ).flatten() =~= parent0.arg + tree_v.flatten());
                        }
                    }
                    proof {
                        assert(a@.len() == 0);
                        assert(arg_view(a@) =~= Seq::<FragV>::empty());
                        assert(arg_view(parent.arg@) + args_view(rest@).flatten() =~= parent0.arg
                            + tree_v.flatten());
                    }
                }
                proof {
                    assert(rest@.len() == 0);
                    assert(args_view(rest@) =~= Seq::<Seq<FragV>>::empty());
                    assert(args_view(rest@).flatten() =~= Seq::<FragV>::empty());
                    assert(arg_view(parent.arg@) =~= parent0.arg + tree_v.flatten());
                }
            }
            self.frames.push(parent);
            proof {
                let k = stp.len() - 1;
                let parent2 = FrameV {
                    typ: parent0.typ,
                    escape: parent0.escape,
                    arg: arg_view(parent.arg@),
                    args: parent0.args,
                    just_separated: parent0.just_separated,
                };
                assert(parent@ =~~= parent2);
                assert(stp.subrange(0, k) =~= below);
                assert(below.update(k - 1, parent2) =~= below.drop_last().push(parent2));
                assert(self@ =~~= below.drop_last().push(parent2));
                assert(self@ =~~= stp.subrange(0, k).update(k - 1, parent2));
            }
            Ok(None)
        }
    }
}


impl ParseCtx {
    /// Feed a whole line of characters, one at a time.  A root close with
    /// characters still pending is a structural error.
    pub fn push_chars(&mut self, chars: &Vec<char>) -> (r: Result<Option<ShellArgs>, ParseError>)
        requires
            old(self).wf(),
        ensures
            final(self).wf(),
            (match r {
                Ok(opt) => match opt {
                    Option::None => feed_chars(old(self)@, chars@) == StepV::Cont(final(self)@),
                    Option::Some(args) => feed_chars(old(self)@, chars@) == StepV::Done(args@)
                        && final(self)@ == seq![fresh_frame(old(self)@[0].typ)],
                },
                Err(e) => feed_chars(old(self)@, chars@) == StepV::Fail(e),
            }),
    {
        let ghost st0 = self@;
        let mut i: usize = 0;
        proof {
            assert(chars@.skip(0) =~= chars@);
        }
        while i < chars.len()
            invariant
                self.wf(),
                old(self)@ == st0,
                st0.len() >= 1,
                self@.len() >= 1,
                i <= chars@.len(),
                feed_chars(st0, chars@) == feed_chars(self@, chars@.skip(i as int)),
                self@[0].typ == st0[0].typ,
            decreases chars@.len() - i,
        {
            let ghost pre = self@;
            proof {
                assert(chars@.skip(i as int).first() == chars@[i as int]);
                assert(chars@.skip(i as int).drop_first() =~= chars@.skip(i + 1));
            }
            match self.push_char(chars[i]) {
                Err(e) => {
                    return Err(e);
                },
                Ok(Some(args)) => {
                    if i + 1 < chars.len() {
                        return Err(ParseError::IllegalRootUnnest);
                    } else {
                        return Ok(Some(args));
                    }
                },
                Ok(None) => {
                    i = i + 1;
                },
            }
        }
        proof {
            assert(chars@.skip(i as int) =~= Seq::<char>::empty());
        }
        Ok(None)
    }

    /// The end of an input line.  `Ok(Some)` is a completed command, with
    /// the context reset to a fresh root; `Ok(None)` keeps the command open
    /// into the next line; an error aborts the parse.
    pub fn close(&mut self) -> (r: Result<Option<ShellArgs>, ParseError>)
        requires
            old(self).wf(),
        ensures
            final(self).wf(),
            (match r {
                Ok(opt) => match opt {
                    Option::Some(args) => close_step(old(self)@) == CloseV::Done(args@) && final(self)@
                        == seq![fresh_frame(old(self)@[0].typ)],
                    Option::None => close_step(old(self)@) == CloseV::Open(final(self)@),
                },
                Err(e) => close_step(old(self)@) == CloseV::Fail(e),
            }),
    {
        let ghost st0 = self@;
        let k = self.frames.len() - 1;
        proof {
            assert(st0[k as int] == self.frames@[k as int]@);
        }
        if self.frames[k].escape.len() == 0 {
            self.close_plain_exec()
        } else if self.frames[k].escape.len() == 1 && self.frames[k].escape[0] == '\\' {
            proof {
                assert(st0[k as int].escape =~= seq!['\\']);
            }
            Ok(None)
        } else {
            let mut top = match self.frames.pop() {
                Some(f) => f,
                None => {
                    return Err(ParseError::IllegalRootUnnest);  // unreachable: the root frame is always there
                },
            };
            proof {
                assert(top@ == st0[k as int]);
                assert(st0[k as int].escape != seq!['\\']);
            }
            if top.escape[0] == '$' && top.escape.len() >= 2 {
                let mut all_ok = true;
                let mut i: usize = 1;
                while i < top.escape.len()
                    invariant
                        1 <= i <= top.escape@.len(),
                        all_ok == (forall|j: int|
                            1 <= j < i ==> is_ident_char(#[trigger] top.escape@[j])),
                    decreases top.escape@.len() - i,
                {
                    if !(unicode_alphanumeric(top.escape[i]) || top.escape[i] == '_') {
                        all_ok = false;
                    }
                    i = i + 1;
                }
                proof {
                    assert(all_ok == bare_name(st0[k as int].escape.skip(1))) by {
                        let e = st0[k as int].escape;
                        if all_ok {
                            assert forall|j: int| 0 <= j < e.skip(1).len() implies is_ident_char(
                                #[trigger] e.skip(1)[j],
                            ) by {
                                assert(e.skip(1)[j] == e[j + 1]);
                            }
                        } else {
                            let j = choose|j: int| 1 <= j < e.len() && !is_ident_char(#[trigger] e[j]);
                            assert(e.skip(1)[j - 1] == e[j]);
                        }
                    }
                }
                if all_ok {
                    let name_chars = copy_range(&top.escape, 1, top.escape.len());
                    let name = chars_to_string(&name_chars);
                    let ghost arg0 = top.arg@;
                    top.arg.push(ShellArg::EnvVar(name));
                    top.escape = Vec::new();
                    top.just_separated = false;
                    self.frames.push(top);
                    proof {
                        lemma_arg_view_push(arg0, ShellArg::EnvVar(name));
                        assert(self@ =~~= st0.update(
                            k as int,
                            push_frame(st0[k as int], FragV::Var(st0[k as int].escape.skip(1))),
                        ));
                        assert(self@[0].typ == st0[0].typ);
                        assert(self@.last().escape.len() == 0);
                    }
                    self.close_plain_exec()
                } else {
                    self.frames.push(top);
                    Err(ParseError::InvalidEscapeSequence)
                }
            } else {
                proof {
                    let e = st0[k as int].escape;
                    assert(e.len() >= 1);
                    if e.first() == '$' && e.len() >= 2 {
                        assert(top.escape@[0] == '$' && top.escape@.len() >= 2);
                    }
                }
                self.frames.push(top);
                Err(ParseError::InvalidEscapeSequence)
            }
        }
    }

    /// The end of a line with no escape pending at the top frame.
    fn close_plain_exec(&mut self) -> (r: Result<Option<ShellArgs>, ParseError>)
        requires
            old(self).wf(),
            old(self)@.last().escape.len() == 0,
        ensures
            final(self).wf(),
            (match r {
                Ok(opt) => match opt {
                    Option::Some(args) => close_plain(old(self)@) == CloseV::Done(args@) && final(self)@
                        == seq![fresh_frame(old(self)@[0].typ)],
                    Option::None => close_plain(old(self)@) == CloseV::Open(final(self)@),
                },
                Err(e) => false,
            }),
    {
        let ghost st0 = self@;
        let ghost k = st0.len() - 1;
        let mut top = match self.frames.pop() {
            Some(f) => f,
            None => {
                return Err(ParseError::IllegalRootUnnest);  // unreachable: the root frame is always there
            },
        };
        proof {
            assert(top@ == st0[k]);
        }
        if self.frames.len() == 0 {
            let typ = top.typ;
            let mut tree_args = top.args;
            let ghost top_args0 = tree_args@;
            tree_args.push(top.arg);
            proof {
                lemma_args_view_push(top_args0, top.arg);
            }
            let tree = ShellArgs(tree_args);
            self.frames.push(Frame::fresh(typ));
            proof {
                assert(tree@ == frame_tree(st0[k]));
                assert(self@ =~= seq![fresh_frame(typ)]);
                assert(st0.len() == 1);
            }
            Ok(Some(tree))
        } else if matches!(top.typ, ParseCtxType::Quote(_)) {
            let ghost arg0 = top.arg@;
            top.arg.push(ShellArg::Char('\n'));
            top.just_separated = false;
            self.frames.push(top);
            proof {
                lemma_arg_view_push(arg0, ShellArg::Char('\n'));
                assert(self@ =~~= st0.update(k, push_frame(st0[k], FragV::Char('\n'))));
            }
            Ok(None)
        } else {
            if !top.just_separated {
                let mut a: Vec<ShellArg> = Vec::new();
                core::mem::swap(&mut a, &mut top.arg);
                let ghost args0 = top.args@;
                top.args.push(a);
                proof {
                    lemma_args_view_push(args0, a);
                }
            }
            top.just_separated = true;
            self.frames.push(top);
            proof {
                assert(self@ =~~= st0.update(k, sep_frame(st0[k])));
            }
            Ok(None)
        }
    }

    /// The end of the whole input: only a completed command is acceptable.
    pub fn forced_close(&mut self) -> (r: Result<ShellArgs, ParseError>)
        requires
            old(self).wf(),
        ensures
            final(self).wf(),
            (match r {
                Ok(args) => forced_close_spec(old(self)@) == Ok::<Seq<Seq<FragV>>, ParseError>(
                    args@,
                ),
                Err(e) => forced_close_spec(old(self)@) == Err::<Seq<Seq<FragV>>, ParseError>(e),
            }),
    {
        match self.close() {
            Err(e) => Err(e),
            Ok(Some(args)) => Ok(args),
            Ok(None) => {
                if self.frames.len() > 1 {
                    Err(ParseError::UnfinishedLastCommand)
                } else {
                    Err(ParseError::InvalidEscapeSequence)
                }
            },
        }
    }

    /// Parse a whole character sequence as one command, from a fresh root.
    pub fn from_chars(chars: &Vec<char>) -> (r: Result<ShellArgs, ParseError>)
        ensures
            (match r {
                Ok(args) => from_chars_spec(chars@) == Ok::<Seq<Seq<FragV>>, ParseError>(args@),
                Err(e) => from_chars_spec(chars@) == Err::<Seq<Seq<FragV>>, ParseError>(e),
            }),
    {
        let mut ctx = ParseCtx::default();
        match ctx.push_chars(chars) {
            Err(e) => Err(e),
            Ok(Some(_)) => Err(ParseError::IllegalRootUnnest),
            Ok(None) => ctx.forced_close(),
        }
    }
}

} // verus!
