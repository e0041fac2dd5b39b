//! The message scanner.
//!
//! A message is split into lines.  While no command is open, a line must
//! start with the prefix to begin one (other lines are ignored, so commands
//! can coexist with ordinary chat text).  Once a command is open, every
//! subsequent line feeds the same parse context, until the context reports
//! the command complete; input ending with a command still open fails.

use vstd::prelude::*;

use crate::context::{close_step, feed_chars, fresh_frame, CloseV, FrameV, ParseCtx, StepV};
use crate::classify::copy_range;
use crate::tree::{args_view, FragV, ParseCtxType, ParseError, ShellArgs};
use crate::trusted::str_to_chars;

verus! {

/// The index of the first line feed in the sequence, or its length.
pub open spec fn line_break(s: Seq<char>) -> nat
    decreases s.len(),
{
    if s.len() == 0 {
        0
    } else if s.first() == '\n' {
        0
    } else {
        1 + line_break(s.drop_first())
    }
}

/// A carriage return is taken off a line end, as part of a CR LF ending.
pub open spec fn strip_cr(l: Seq<char>) -> Seq<char> {
    if l.len() > 0 && l.last() == '\r' {
        l.drop_last()
    } else {
        l
    }
}

/// The lines of a text: split at line feeds, each CR LF counted as one line
/// ending, the final line ending optional.
pub open spec fn split_lines(s: Seq<char>) -> Seq<Seq<char>>
    decreases s.len(),
{
    if s.len() == 0 {
        Seq::empty()
    } else {
        let i = line_break(s);
        if i >= s.len() {
            seq![s]
        } else {
            seq![strip_cr(s.take(i as int))] + split_lines(s.skip(i + 1 as int))
        }
    }
}

/// The first line feed is no earlier than the length says.
pub proof fn lemma_line_break_le(s: Seq<char>)
    ensures
        line_break(s) <= s.len(),
        line_break(s) < s.len() ==> s[line_break(s) as int] == '\n',
        forall|j: int| 0 <= j < line_break(s) ==> s[j] != '\n',
    decreases s.len(),
{
    if s.len() > 0 && s.first() != '\n' {
        lemma_line_break_le(s.drop_first());
        assert(forall|j: int| 1 <= j < s.len() ==> s.drop_first()[j - 1] == #[trigger] s[j]);
    }
}

/// With no line feed on the left of the concatenation, the first line feed
/// is found in the right part.
pub proof fn lemma_line_break_concat(cur: Seq<char>, rest: Seq<char>)
    requires
        forall|j: int| 0 <= j < cur.len() ==> cur[j] != '\n',
    ensures
        line_break(cur + rest) == cur.len() + line_break(rest),
    decreases cur.len(),
{
    if cur.len() == 0 {
        assert(cur + rest =~= rest);
    } else {
        lemma_line_break_concat(cur.drop_first(), rest);
        assert((cur + rest).drop_first() =~= cur.drop_first() + rest);
        assert(forall|j: int| 1 <= j < cur.len() ==> cur.drop_first()[j - 1] == #[trigger] cur[j]);
        assert((cur + rest).first() == cur[0]);
    }
}

/// One step of line splitting: a line feed closes the line under
/// accumulation; the end of input closes it without a line ending.
pub proof fn lemma_split_lines_step(cur: Seq<char>, rest: Seq<char>)
    requires
        forall|j: int| 0 <= j < cur.len() ==> cur[j] != '\n',
    ensures
        rest.len() == 0 ==> split_lines(cur + rest) == (if cur.len() == 0 {
            Seq::<Seq<char>>::empty()
        } else {
            seq![cur]
        }),
        rest.len() > 0 && rest.first() == '\n' ==> split_lines(cur + rest) == seq![strip_cr(cur)]
            + split_lines(rest.drop_first()),
{
    lemma_line_break_concat(cur, rest);
    let s = cur + rest;
    if rest.len() == 0 {
        assert(s =~= cur);
        if cur.len() > 0 {
            lemma_line_break_le(cur);
            assert(line_break(s) >= s.len());
        }
    } else if rest.first() == '\n' {
        assert(line_break(rest) == 0);
        assert(line_break(s) == cur.len());
        assert(s.take(cur.len() as int) =~= cur);
        assert(s.skip(cur.len() + 1 as int) =~= rest.drop_first());
        assert(line_break(s) < s.len());
    }
}

/// Whether a line starts with the prefix.
pub open spec fn line_starts_with(line: Seq<char>, prefix: Seq<char>) -> bool {
    line.len() >= prefix.len() && line.take(prefix.len() as int) == prefix
}

/// Scan lines for commands, from the given state: `cur` is the context of a
/// command left open by the previous line, `acc` the commands completed so
/// far.  A line that opens no command and belongs to none is ignored; input
/// ending with a command open is an unfinished last command.
pub open spec fn scan_lines(
    prefix: Seq<char>,
    lines: Seq<Seq<char>>,
    cur: Option<Seq<FrameV>>,
    acc: Seq<Seq<Seq<FragV>>>,
) -> Result<Seq<Seq<Seq<FragV>>>, ParseError>
    decreases lines.len(),
{
    if lines.len() == 0 {
        match cur {
            Some(_) => Err(ParseError::UnfinishedLastCommand),
            None => Ok(acc),
        }
    } else {
        let line = lines.first();
        let fed = match cur {
            None => if !line_starts_with(line, prefix) {
                None
            } else {
                Some(
                    feed_chars(
                        seq![fresh_frame(ParseCtxType::Normal(true))],
                        line.skip(prefix.len() as int),
                    ),
                )
            },
            Some(st) => Some(feed_chars(st, line)),
        };
        match fed {
            None => scan_lines(prefix, lines.drop_first(), None, acc),
            Some(StepV::Fail(e)) => Err(e),
            Some(StepV::Done(_)) => Err(ParseError::IllegalRootUnnest),
            Some(StepV::Cont(st2)) => match close_step(st2) {
                CloseV::Fail(e) => Err(e),
                CloseV::Done(t) => scan_lines(prefix, lines.drop_first(), None, acc.push(t)),
                CloseV::Open(st3) => scan_lines(prefix, lines.drop_first(), Some(st3), acc),
            },
        }
    }
}

/// What parsing a whole message yields: the ordered argument trees of its
/// commands, or its first error.
pub open spec fn parse_msg(prefix: Seq<char>, lines: Seq<Seq<char>>) -> Result<
    Seq<Seq<Seq<FragV>>>,
    ParseError,
> {
    scan_lines(prefix, lines, None, Seq::empty())
}

/// The views of a vector of parsed commands.
pub open spec fn trees_view(v: Seq<ShellArgs>) -> Seq<Seq<Seq<FragV>>> {
    v.map_values(|t: ShellArgs| args_view(t.0@))
}

/// The mathematical shape of a message parser: its prefix, and the lines it
/// has not consumed yet.
pub struct MsgParserV {
    /// The command prefix, as characters.
    pub prefix: Seq<char>,
    /// The lines not consumed yet.
    pub lines: Seq<Seq<char>>,
}

/// Scans a message line by line for commands that start with a prefix.
pub struct MsgParser {
    prefix: Vec<char>,
    lines: Vec<Vec<char>>,
    pos: usize,
}

impl MsgParser {
    /// The scanner's place in the message is within bounds.
    pub closed spec fn wf(&self) -> bool {
        self.pos <= self.lines@.len()
    }
}

impl View for MsgParser {
    type V = MsgParserV;

    closed spec fn view(&self) -> MsgParserV {
        MsgParserV {
            prefix: self.prefix@,
            lines: self.lines@.map_values(|l: Vec<char>| l@).skip(self.pos as int),
        }
    }
}

/// Whether a line begins with the prefix.
fn starts_with_exec(line: &Vec<char>, prefix: &Vec<char>) -> (b: bool)
    ensures
        b == line_starts_with(line@, prefix@),
{
    if line.len() < prefix.len() {
        proof {
            assert(!line_starts_with(line@, prefix@));
        }
        return false;
    }
    let mut i: usize = 0;
    while i < prefix.len()
        invariant
            i <= prefix@.len() <= line@.len(),
            forall|j: int| 0 <= j < i ==> line@[j] == prefix@[j],
        decreases prefix@.len() - i,
    {
        if line[i] != prefix[i] {
            proof {
                assert(line@.take(prefix@.len() as int)[i as int] == line@[i as int]);
            }
            return false;
        }
        i = i + 1;
    }
    proof {
        assert(line@.take(prefix@.len() as int) =~= prefix@);
    }
    true
}

impl MsgParser {
    /// A scanner over one message, with the given command prefix.
    pub fn new(prefix: &str, msg: &str) -> (s: Self)
        ensures
            s@.prefix == prefix@,
            s@.lines == split_lines(msg@),
            s.wf(),
    {
        let prefix_chars = str_to_chars(prefix);
        let cs = str_to_chars(msg);
        let mut lines: Vec<Vec<char>> = Vec::new();
        let mut cur: Vec<char> = Vec::new();
        let mut i: usize = 0;
        proof {
            assert(cur@ + cs@.skip(0) =~= cs@);
            assert(lines@.map_values(|l: Vec<char>| l@) =~= Seq::<Seq<char>>::empty());
        }
        while i < cs.len()
            invariant
                i <= cs@.len(),
                forall|j: int| 0 <= j < cur@.len() ==> cur@[j] != '\n',
                split_lines(cs@) == lines@.map_values(|l: Vec<char>| l@) + split_lines(
                    cur@ + cs@.skip(i as int),
                ),
            decreases cs@.len() - i,
        {
            let ghost cur0 = cur@;
            let ghost lines0 = lines@;
            let ghost rest0 = cs@.skip(i as int);
            proof {
                assert(rest0.first() == cs@[i as int]);
                assert(rest0.drop_first() =~= cs@.skip(i + 1));
            }
            let c = cs[i];
            if c == '\n' {
                proof {
                    lemma_split_lines_step(cur0, rest0);
                }
                if cur.len() > 0 && cur[cur.len() - 1] == '\r' {
                    cur.pop();
                    proof {
                        assert(cur@ =~= strip_cr(cur0));
                    }
                }
                proof {
                    assert(cur@ == strip_cr(cur0));
                }
                let mut finished: Vec<char> = Vec::new();
                core::mem::swap(&mut finished, &mut cur);
                lines.push(finished);
                proof {
                    assert(lines@.map_values(|l: Vec<char>| l@) =~= lines0.map_values(
                        |l: Vec<char>| l@,
                    ).push(strip_cr(cur0)));
                    assert(lines0.map_values(|l: Vec<char>| l@) + (seq![strip_cr(cur0)]
                        + split_lines(cs@.skip(i + 1))) =~= lines@.map_values(|l: Vec<char>| l@)
                        + split_lines(cs@.skip(i + 1)));
                    assert(cur@ + cs@.skip(i + 1) =~= cs@.skip(i + 1));
                }
            } else {
                cur.push(c);
                proof {
                    assert(cur@ + cs@.skip(i + 1) =~= cur0 + rest0);
                }
            }
            i = i + 1;
        }
        proof {
            assert(cs@.skip(i as int) =~= Seq::<char>::empty());
            assert(cur@ + cs@.skip(i as int) =~= cur@);
        }
        if cur.len() > 0 {
            let ghost lines0 = lines@;
            let ghost cur0 = cur@;
            proof {
                lemma_split_lines_step(cur0, Seq::empty());
                assert(cur0 + Seq::<char>::empty() =~= cur0);
            }
            lines.push(cur);
            proof {
                assert(lines@.map_values(|l: Vec<char>| l@) =~= lines0.map_values(
                    |l: Vec<char>| l@,
                ).push(cur0));
                assert(lines0.map_values(|l: Vec<char>| l@) + seq![cur0] =~= lines@.map_values(
                    |l: Vec<char>| l@,
                ));
            }
        } else {
            proof {
                lemma_split_lines_step(cur@, Seq::empty());
                assert(cur@ + Seq::<char>::empty() =~= cur@);
                assert(lines@.map_values(|l: Vec<char>| l@) + Seq::<Seq<char>>::empty()
                    =~= lines@.map_values(|l: Vec<char>| l@));
            }
        }
        let s = MsgParser { prefix: prefix_chars, lines, pos: 0 };
        proof {
            assert(s@.lines =~= s.lines@.map_values(|l: Vec<char>| l@));
        }
        s
    }

    /// Parse the message: the ordered argument trees of its commands, or
    /// its first error.  The scanner is left at the end of the message.
    pub fn parse(&mut self) -> (r: Result<Vec<ShellArgs>, ParseError>)
        requires
            old(self).wf(),
        ensures
            final(self).wf(),
            (match r {
                Ok(v) => parse_msg(old(self)@.prefix, old(self)@.lines) == Ok::<
                    Seq<Seq<Seq<FragV>>>,
                    ParseError,
                >(trees_view(v@)) && final(self)@.lines == Seq::<Seq<char>>::empty(),
                Err(e) => parse_msg(old(self)@.prefix, old(self)@.lines) == Err::<
                    Seq<Seq<Seq<FragV>>>,
                    ParseError,
                >(e),
            }),
    {
        let ghost lines0 = old(self)@.lines;
        let ghost prefix0 = self.prefix@;
        let mut out: Vec<ShellArgs> = Vec::new();
        let mut ctx = ParseCtx::default();
        let mut open_cmd = false;
        proof {
            assert(trees_view(out@) =~= Seq::<Seq<Seq<FragV>>>::empty());
        }
        while self.pos < self.lines.len()
            invariant
                self.pos <= self.lines@.len(),
                self.prefix@ == prefix0,
                old(self)@.prefix == prefix0,
                old(self)@.lines == lines0,
                ctx.wf(),
                scan_lines(prefix0, lines0, None, Seq::empty()) == scan_lines(
                    prefix0,
                    self.lines@.map_values(|l: Vec<char>| l@).skip(self.pos as int),
                    if open_cmd {
                        Some(ctx@)
                    } else {
                        None
                    },
                    trees_view(out@),
                ),
                self@.lines == self.lines@.map_values(|l: Vec<char>| l@).skip(self.pos as int),
            decreases self.lines@.len() - self.pos,
        {
            let ghost rem = self.lines@.map_values(|l: Vec<char>| l@).skip(self.pos as int);
            proof {
                assert(rem.first() == self.lines@[self.pos as int]@);
                assert(rem.drop_first() =~= self.lines@.map_values(|l: Vec<char>| l@).skip(
                    self.pos + 1,
                ));
            }
            let content: Vec<char>;
            if !open_cmd {
                let is_cmd = starts_with_exec(&self.lines[self.pos], &self.prefix);
                if !is_cmd {
                    self.pos = self.pos + 1;
                    continue ;
                }
                ctx = ParseCtx::new(ParseCtxType::Normal(true));
                let line_len = self.lines[self.pos].len();
                content = copy_range(&self.lines[self.pos], self.prefix.len(), line_len);
                proof {
                    assert(content@ =~= rem.first().skip(prefix0.len() as int));
                }
            } else {
                let line_len = self.lines[self.pos].len();
                content = copy_range(&self.lines[self.pos], 0, line_len);
                proof {
                    assert(content@ =~= rem.first());
                }
            }
            match ctx.push_chars(&content) {
                Err(e) => {
                    return Err(e);
                },
                Ok(Some(_)) => {
                    return Err(ParseError::IllegalRootUnnest);
                },
                Ok(None) => {
                    match ctx.close() {
                        Err(e) => {
                            return Err(e);
                        },
                        Ok(Some(args)) => {
                            let ghost out0 = out@;
                            out.push(args);
                            open_cmd = false;
                            proof {
                                assert(trees_view(out@) =~= trees_view(out0).push(args@));
                            }
                        },
                        Ok(None) => {
                            open_cmd = true;
                        },
                    }
                },
            }
            self.pos = self.pos + 1;
        }
        proof {
            assert(self.lines@.map_values(|l: Vec<char>| l@).skip(self.pos as int)
                =~= Seq::<Seq<char>>::empty());
        }
        if open_cmd {
            Err(ParseError::UnfinishedLastCommand)
        } else {
            Ok(out)
        }
    }
}

} // verus!
