//! Token classification and escape resolution.
//!
//! The token classifier maps (current context kind, next character) to an
//! action.  The escape resolver maps (accumulated escape buffer, next
//! character) to an action together with a flag saying whether the
//! triggering character must be reprocessed.  Both are pure and total; the
//! executable functions return exactly what the spec-level functions
//! [`token_act`] and [`escape_act`] describe.

use vstd::prelude::*;

use crate::tree::{frag_view, FragV, ParseCtxType, ParseError, ShellArg};
use crate::trusted::{char_from_u32, chars_to_string, is_unicode_alphanumeric, unicode_alphanumeric};

verus! {

/// The action the parse state machine takes for one input character.
#[derive(Debug, PartialEq, Eq)]
pub enum ParseAction {
    /// Close the argument under construction: unescaped space at top level.
    Separator,
    /// Append a fragment to the argument under construction.
    Push(ShellArg),
    /// Close the current context.
    Unnest,
    /// Open a nested context of the given kind.
    Nest(ParseCtxType),
    /// Accumulate the character into the escape buffer.
    EscapeSequence,
}

/// The mathematical shape of a [`ParseAction`].
pub enum ActV {
    Separator,
    Push(FragV),
    Unnest,
    Nest(ParseCtxType),
    EscapeSequence,
}

impl View for ParseAction {
    type V = ActV;

    open spec fn view(&self) -> ActV {
        match self {
            ParseAction::Separator => ActV::Separator,
            ParseAction::Push(f) => ActV::Push(frag_view(*f)),
            ParseAction::Unnest => ActV::Unnest,
            ParseAction::Nest(t) => ActV::Nest(*t),
            ParseAction::EscapeSequence => ActV::EscapeSequence,
        }
    }
}

/// The view of a classifier result: the action abstracted, the error kept.
pub open spec fn token_res_view(r: Result<ParseAction, ParseError>) -> Result<ActV, ParseError> {
    match r {
        Ok(a) => Ok(a@),
        Err(e) => Err(e),
    }
}

/// The view of an escape-resolver result.
pub open spec fn esc_res_view(r: Result<(ParseAction, bool), ParseError>) -> Result<
    (ActV, bool),
    ParseError,
> {
    match r {
        Ok((a, q)) => Ok((a@, q)),
        Err(e) => Err(e),
    }
}

/// The token that closes a context of the given kind.
pub open spec fn closer_of(t: ParseCtxType) -> char {
    match t {
        ParseCtxType::Normal(true) => '\n',
        ParseCtxType::Normal(false) => ')',
        ParseCtxType::Quote(true) => '\'',
        ParseCtxType::Quote(false) => '"',
    }
}

/// The characters that a lone backslash escapes to themselves.
pub open spec fn is_escapable_char(c: char) -> bool {
    c == '\\' || c == ' ' || c == '(' || c == ')' || c == '{' || c == '}'
}

/// The fixed single-letter byte escapes: n, r, t and 0.
pub open spec fn byte_escape_of(c: char) -> Option<char> {
    if c == 'n' {
        Some('\n')
    } else if c == 'r' {
        Some('\r')
    } else if c == 't' {
        Some('\t')
    } else if c == '0' {
        Some('\0')
    } else {
        None
    }
}

/// A character that may continue a bare variable name: alphanumeric or '_'.
pub open spec fn is_ident_char(c: char) -> bool {
    is_unicode_alphanumeric(c) || c == '_'
}

/// A hexadecimal digit, either case.
pub open spec fn is_hex_digit(c: char) -> bool {
    let u = c as u32;
    (48 <= u && u <= 57)  // '0' ..= '9'
     || (97 <= u && u <= 102)  // 'a' ..= 'f'
     || (65 <= u && u <= 70)  // 'A' ..= 'F'

}

/// The value of a hexadecimal digit.
pub open spec fn hex_digit_val(c: char) -> u32
    recommends
        is_hex_digit(c),
{
    let u = c as u32;
    if 48 <= u && u <= 57 {
        (u - 48) as u32
    } else if 97 <= u && u <= 102 {
        (u - 87) as u32
    } else {
        (u - 55) as u32
    }
}

/// Whether every character of the sequence is a hexadecimal digit.
pub open spec fn all_hex_digits(s: Seq<char>) -> bool
    decreases s,
{
    s.len() == 0 || (is_hex_digit(s.first()) && all_hex_digits(s.drop_first()))
}

/// The number written by a sequence of hexadecimal digits, most significant
/// digit first.
pub open spec fn hex_val(s: Seq<char>) -> nat
    decreases s,
{
    if s.len() == 0 {
        0
    } else {
        hex_val(s.drop_last()) * 16 + hex_digit_val(s.last()) as nat
    }
}

/// Powers of sixteen.
pub open spec fn pow16(n: nat) -> nat
    decreases n,
{
    if n == 0 {
        1
    } else {
        16 * pow16((n - 1) as nat)
    }
}

/// What the token classifier decides for one character, checked in order,
/// first match wins:
/// - space at a Normal level separates arguments;
/// - a quote character at a Normal level opens the matching quote context;
/// - space inside a quoted context is a literal character;
/// - in a strict quote every character but the closing quote is literal;
/// - backslash and dollar begin an escape (outside strict quotes);
/// - a closer token closes its own context, is a structural error at a
///   Normal level otherwise, and is literal inside the other quote kind;
/// - anything else is a literal character.
pub open spec fn token_act(t: ParseCtxType, c: char) -> Result<ActV, ParseError> {
    if t matches ParseCtxType::Normal(_) && c == ' ' {
        Ok(ActV::Separator)
    } else if t matches ParseCtxType::Normal(_) && (c == '\'' || c == '"') {
        Ok(ActV::Nest(ParseCtxType::Quote(c == '\'')))
    } else if t matches ParseCtxType::Quote(_) && c == ' ' {
        Ok(ActV::Push(FragV::Char(' ')))
    } else if t == ParseCtxType::Quote(true) && c != '\'' {
        Ok(ActV::Push(FragV::Char(c)))
    } else if c == '\\' || c == '$' {
        Ok(ActV::EscapeSequence)
    } else if c == '\n' || c == '\'' || c == '"' || c == ')' {
        if c == closer_of(t) {
            Ok(ActV::Unnest)
        } else if t matches ParseCtxType::Normal(_) {
            Err(ParseError::UnexpectedCloser(c))
        } else {
            Ok(ActV::Push(FragV::Char(c)))
        }
    } else {
        Ok(ActV::Push(FragV::Char(c)))
    }
}

/// What the escape resolver decides for the accumulated buffer and the next
/// character.  The bool of a successful result says that the triggering
/// character must be reprocessed in the new state.
///
/// The backslash family covers self-escapes, the fixed byte escapes,
/// `\xHH` (a literal byte) and `\u{HEX}` (a Unicode scalar).  The dollar
/// family covers `$(`, which opens a substitution context, `${NAME}` and
/// bare `$NAME`.  Any buffer matching none of the forms is an invalid
/// escape.
pub open spec fn escape_act(buf: Seq<char>, c: char) -> Result<(ActV, bool), ParseError> {
    if buf.len() == 0 {
        Err(ParseError::InvalidEscapeSequence)
    } else if buf.first() == '\\' {
        if buf.len() == 1 {
            if is_escapable_char(c) {
                Ok((ActV::Push(FragV::Char(c)), false))
            } else {
                match byte_escape_of(c) {
                    Some(b) => Ok((ActV::Push(FragV::Char(b)), false)),
                    None => Ok((ActV::EscapeSequence, false)),
                }
            }
        } else if buf[1] == 'x' {
            if buf.len() == 2 {
                Ok((ActV::EscapeSequence, false))
            } else if buf.len() == 3 && is_hex_digit(buf[2]) && is_hex_digit(c) {
                Ok((ActV::Push(FragV::Byte((hex_digit_val(buf[2]) * 16 + hex_digit_val(c)) as u8)), false))
            } else {
                Err(ParseError::InvalidEscapeSequence)
            }
        } else if buf[1] == 'u' {
            if buf.len() > 11 {
                Err(ParseError::InvalidEscapeSequence)
            } else if c != '}' {
                Ok((ActV::EscapeSequence, false))
            } else if buf.len() > 3 && buf[2] == '{' && all_hex_digits(buf.skip(3)) && is_scalar_val(hex_val(buf.skip(3))) {
                Ok((ActV::Push(FragV::Char(hex_val(buf.skip(3)) as u32 as char)), false))
            } else {
                Err(ParseError::InvalidEscapeSequence)
            }
        } else {
            Err(ParseError::InvalidEscapeSequence)
        }
    } else if buf.first() == '$' {
        if buf.len() == 1 {
            Ok((ActV::EscapeSequence, false))
        } else if buf[1] == '(' {
            Ok((ActV::Nest(ParseCtxType::Normal(false)), true))
        } else if buf[1] == '{' {
            if c == '}' {
                Ok((ActV::Push(FragV::Var(buf.skip(2))), false))
            } else {
                Ok((ActV::EscapeSequence, false))
            }
        } else if is_ident_char(buf[1]) {
            if !is_ident_char(c) {
                Ok((ActV::Push(FragV::Var(buf.skip(1))), true))
            } else {
                Ok((ActV::EscapeSequence, false))
            }
        } else {
            Err(ParseError::InvalidEscapeSequence)
        }
    } else {
        Err(ParseError::InvalidEscapeSequence)
    }
}

/// Whether a (digit-bounded) hex value is a Unicode scalar value.
pub open spec fn is_scalar_val(v: nat) -> bool {
    v < 0x100000000 && vstd::utf8::is_scalar(v as u32)
}

/// Every element of a hex-digit sequence is a hex digit.
pub proof fn lemma_all_hex_digits(s: Seq<char>)
    ensures
        all_hex_digits(s) <==> (forall|i: int| 0 <= i < s.len() ==> is_hex_digit(#[trigger] s[i])),
    decreases s,
{
    if s.len() > 0 {
        lemma_all_hex_digits(s.drop_first());
        assert(forall|i: int|
            1 <= i < s.len() ==> s.drop_first()[i - 1] == #[trigger] s[i]);
        if is_hex_digit(s.first()) && all_hex_digits(s.drop_first()) {
            assert(forall|i: int| 0 <= i < s.len() ==> is_hex_digit(#[trigger] s[i])) by {
                assert(forall|i: int|
                    1 <= i < s.len() ==> is_hex_digit(#[trigger] s[i]) == is_hex_digit(
                        s.drop_first()[i - 1],
                    ));
            }
        }
    }
}

/// The first powers of sixteen, up to 16^8.
pub proof fn lemma_pow16_small()
    ensures
        pow16(7) == 0x10000000,
        pow16(8) == 0x100000000,
{
    assert(pow16(0) == 1);
    assert(pow16(1) == 16 * pow16(0));
    assert(pow16(2) == 16 * pow16(1));
    assert(pow16(3) == 16 * pow16(2));
    assert(pow16(4) == 16 * pow16(3));
    assert(pow16(5) == 16 * pow16(4));
    assert(pow16(6) == 16 * pow16(5));
    assert(pow16(7) == 16 * pow16(6));
    assert(pow16(8) == 16 * pow16(7));
}

/// Powers of sixteen grow with the exponent.
pub proof fn lemma_pow16_mono(a: nat, b: nat)
    requires
        a <= b,
    ensures
        pow16(a) <= pow16(b),
    decreases b,
{
    if a < b {
        lemma_pow16_mono(a, (b - 1) as nat);
        assert(pow16(b) == 16 * pow16((b - 1) as nat));
        assert(pow16((b - 1) as nat) >= 1) by {
            lemma_pow16_pos((b - 1) as nat);
        }
    }
}

/// Powers of sixteen are positive.
pub proof fn lemma_pow16_pos(n: nat)
    ensures
        pow16(n) >= 1,
    decreases n,
{
    if n > 0 {
        lemma_pow16_pos((n - 1) as nat);
    }
}

impl ParseCtxType {
    /// The token that closes this context.
    pub fn closer_token(&self) -> (c: char)
        ensures
            c == closer_of(*self),
    {
        match self {
            ParseCtxType::Normal(true) => '\n',
            ParseCtxType::Normal(false) => ')',
            ParseCtxType::Quote(true) => '\'',
            ParseCtxType::Quote(false) => '"',
        }
    }

    /// Classify one character outside an escape.
    pub fn token(&self, token: char) -> (r: Result<ParseAction, ParseError>)
        ensures
            token_res_view(r) == token_act(*self, token),
    {
        if matches!(self, ParseCtxType::Normal(_)) && token == ' ' {
            Ok(ParseAction::Separator)
        } else if matches!(self, ParseCtxType::Normal(_)) && (token == '\'' || token == '"') {
            Ok(ParseAction::Nest(ParseCtxType::Quote(token == '\'')))
        } else if matches!(self, ParseCtxType::Quote(_)) && token == ' ' {
            Ok(ParseAction::Push(ShellArg::Char(' ')))
        } else if matches!(self, ParseCtxType::Quote(true)) && token != '\'' {
            Ok(ParseAction::Push(ShellArg::Char(token)))
        } else if token == '\\' || token == '$' {
            Ok(ParseAction::EscapeSequence)
        } else if token == '\n' || token == '\'' || token == '"' || token == ')' {
            if token == self.closer_token() {
                Ok(ParseAction::Unnest)
            } else if matches!(self, ParseCtxType::Normal(_)) {
                Err(ParseError::UnexpectedCloser(token))
            } else {
                Ok(ParseAction::Push(ShellArg::Char(token)))
            }
        } else {
            Ok(ParseAction::Push(ShellArg::Char(token)))
        }
    }

    /// Resolve one more character of an escape sequence.  The bool of a
    /// successful result asks the caller to reprocess the character in the
    /// new state.
    pub fn escape(&self, escape: &Vec<char>, new_char: char) -> (r: Result<
        (ParseAction, bool),
        ParseError,
    >)
        ensures
            esc_res_view(r) == escape_act(escape@, new_char),
    {
        if escape.len() == 0 {
            return Err(ParseError::InvalidEscapeSequence);
        }
        let e0 = escape[0];
        if e0 == '\\' {
            if escape.len() == 1 {
                if is_escapable(new_char) {
                    Ok((ParseAction::Push(ShellArg::Char(new_char)), false))
                } else {
                    match byte_escape(new_char) {
                        Some(b) => Ok((ParseAction::Push(ShellArg::Char(b)), false)),
                        None => Ok((ParseAction::EscapeSequence, false)),
                    }
                }
            } else if escape[1] == 'x' {
                if escape.len() == 2 {
                    Ok((ParseAction::EscapeSequence, false))
                } else if escape.len() == 3 {
                    match (hex_digit(escape[2]), hex_digit(new_char)) {
                        (Some(h), Some(l)) => Ok(
                            (ParseAction::Push(ShellArg::Byte((h * 16 + l) as u8)), false),
                        ),
                        _ => Err(ParseError::InvalidEscapeSequence),
                    }
                } else {
                    Err(ParseError::InvalidEscapeSequence)
                }
            } else if escape[1] == 'u' {
                self.escape_unicode(escape, new_char)
            } else {
                Err(ParseError::InvalidEscapeSequence)
            }
        } else if e0 == '$' {
            if escape.len() == 1 {
                Ok((ParseAction::EscapeSequence, false))
            } else {
                let d = escape[1];
                if d == '(' {
                    Ok((ParseAction::Nest(ParseCtxType::Normal(false)), true))
                } else if d == '{' {
                    if new_char == '}' {
                        let name = copy_range(escape, 2, escape.len());
                        Ok((ParseAction::Push(ShellArg::EnvVar(chars_to_string(&name))), false))
                    } else {
                        Ok((ParseAction::EscapeSequence, false))
                    }
                } else if unicode_alphanumeric(d) || d == '_' {
                    if !(unicode_alphanumeric(new_char) || new_char == '_') {
                        let name = copy_range(escape, 1, escape.len());
                        Ok((ParseAction::Push(ShellArg::EnvVar(chars_to_string(&name))), true))
                    } else {
                        Ok((ParseAction::EscapeSequence, false))
                    }
                } else {
                    Err(ParseError::InvalidEscapeSequence)
                }
            }
        } else {
            Err(ParseError::InvalidEscapeSequence)
        }
    }

    /// The `\u{HEX}` arm of the escape resolver.
    fn escape_unicode(&self, escape: &Vec<char>, new_char: char) -> (r: Result<
        (ParseAction, bool),
        ParseError,
    >)
        requires
            escape@.len() >= 2,
            escape@.first() == '\\',
            escape@[1] == 'u',
        ensures
            esc_res_view(r) == escape_act(escape@, new_char),
    {
        if escape.len() > 11 {
            return Err(ParseError::InvalidEscapeSequence);
        }
        if new_char != '}' {
            return Ok((ParseAction::EscapeSequence, false));
        }
        if escape.len() <= 3 || escape[2] != '{' {
            return Err(ParseError::InvalidEscapeSequence);
        }
        let ghost digits = escape@.skip(3);
        let mut v: u64 = 0;
        let mut i: usize = 3;
        while i < escape.len()
            invariant
                3 <= i <= escape@.len(),
                3 < escape@.len() <= 11,
                escape@.first() == '\\',
                escape@[1] == 'u',
                escape@[2] == '{',
                new_char == '}',
                digits == escape@.skip(3),
                all_hex_digits(escape@.subrange(3, i as int)),
                v == hex_val(escape@.subrange(3, i as int)),
                v < pow16((i - 3) as nat),
            decreases escape@.len() - i,
        {
            match hex_digit(escape[i]) {
                None => {
                    proof {
                        lemma_all_hex_digits(digits);
                        assert(digits[i - 3] == escape@[i as int]);
                        assert(!all_hex_digits(digits));
                    }
                    return Err(ParseError::InvalidEscapeSequence);
                },
                Some(d) => {
                    proof {
                        let pre = escape@.subrange(3, i as int);
                        let post = escape@.subrange(3, i + 1);
                        assert(post.drop_last() =~= pre);
                        assert(post.last() == escape@[i as int]);
                        lemma_all_hex_append(pre, escape@[i as int]);
                        assert(post =~= pre.push(escape@[i as int]));
                        assert(pow16((i + 1 - 3) as nat) == 16 * pow16((i - 3) as nat));
                        lemma_pow16_small();
                        lemma_pow16_mono((i - 3) as nat, 7);
                    }
                    v = v * 16 + (d as u64);
                    i = i + 1;
                },
            }
        }
        proof {
            assert(escape@.subrange(3, escape@.len() as int) == digits);
            lemma_pow16_mono((i - 3) as nat, 8);
            lemma_pow16_small();
        }
        let v32 = v as u32;
        match char_from_u32(v32) {
            Some(ch) => Ok((ParseAction::Push(ShellArg::Char(ch)), false)),
            None => Err(ParseError::InvalidEscapeSequence),
        }
    }
}

/// Appending a hex digit keeps a digit sequence all-hex.
proof fn lemma_all_hex_append(s: Seq<char>, c: char)
    requires
        all_hex_digits(s),
        is_hex_digit(c),
    ensures
        all_hex_digits(s.push(c)),
{
    lemma_all_hex_digits(s);
    lemma_all_hex_digits(s.push(c));
    assert forall|i: int| 0 <= i < s.push(c).len() implies is_hex_digit(#[trigger] s.push(c)[i]) by {
        if i < s.len() {
            assert(s.push(c)[i] == s[i]);
        } else {
            assert(s.push(c)[i] == c);
        }
    }
}

/// A lone backslash escapes these characters to themselves.
fn is_escapable(c: char) -> (r: bool)
    ensures
        r == is_escapable_char(c),
{
    c == '\\' || c == ' ' || c == '(' || c == ')' || c == '{' || c == '}'
}

/// The fixed single-letter byte escapes.
fn byte_escape(c: char) -> (r: Option<char>)
    ensures
        r == byte_escape_of(c),
{
    if c == 'n' {
        Some('\n')
    } else if c == 'r' {
        Some('\r')
    } else if c == 't' {
        Some('\t')
    } else if c == '0' {
        Some('\0')
    } else {
        None
    }
}

/// The value of a hexadecimal digit, if the character is one.
fn hex_digit(c: char) -> (r: Option<u32>)
    ensures
        r == (if is_hex_digit(c) {
            Some(hex_digit_val(c))
        } else {
            None::<u32>
        }),
{
    let u = c as u32;
    if 48 <= u && u <= 57 {
        Some(u - 48)
    } else if 97 <= u && u <= 102 {
        Some(u - 87)
    } else if 65 <= u && u <= 70 {
        Some(u - 55)
    } else {
        None
    }
}

/// Copy a half-open index range of a character vector.
pub(crate) fn copy_range(v: &Vec<char>, from: usize, to: usize) -> (r: Vec<char>)
    requires
        from <= to <= v@.len(),
    ensures
        r@ == v@.subrange(from as int, to as int),
{
    let mut r: Vec<char> = Vec::new();
    let mut i: usize = from;
    while i < to
        invariant
            from <= i <= to <= v@.len(),
            r@ == v@.subrange(from as int, i as int),
        decreases to - i,
    {
        r.push(v[i]);
        proof {
            assert(v@.subrange(from as int, i + 1) =~= v@.subrange(from as int, i as int).push(
                v@[i as int],
            ));
        }
        i = i + 1;
    }
    r
}

} // verus!
