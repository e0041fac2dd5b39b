//! General laws of the parser and resolver, stated and proved once over
//! the spec-level machinery that every contract of this library speaks of.

use vstd::prelude::*;
use vstd::utf8::encode_utf8;

use crate::classify::{escape_act, is_ident_char, token_act, ActV};
use crate::context::{
    close_step, feed_chars, frame_tree, fresh_frame, from_chars_spec, step, CloseV, FrameV, StepV,
};
use crate::environ::{lookup, set_entry, value_bytes, EnvModel, ValueV};
use crate::resolve::{resolve_args, resolve_frags, resolve_tree, Executer};
use crate::tree::{FragV, ParseCtxType, ParseError};

verus! {

/// A character with no special meaning at the top context level: not a
/// separator, not a quote, not an escape opener, not a closer token.
pub open spec fn plain_char(c: char) -> bool {
    c != ' ' && c != '\'' && c != '"' && c != '\\' && c != '$' && c != '\n' && c != ')'
}

/// A literal character fragment.
pub open spec fn char_frag(c: char) -> FragV {
    FragV::Char(c)
}

/// The resolved text of one word.
pub open spec fn word_text(w: Seq<char>) -> ValueV {
    ValueV::Text(encode_utf8(w))
}

/// The fragments of a word of literal characters.
pub open spec fn word_frags(w: Seq<char>) -> Seq<FragV> {
    Seq::new(w.len(), |i: int| char_frag(w[i]))
}

/// The argument trees of a word list.
pub open spec fn words_frags(words: Seq<Seq<char>>) -> Seq<Seq<FragV>> {
    words.map_values(|w: Seq<char>| word_frags(w))
}

/// The resolved texts of a word list.
pub open spec fn words_texts(words: Seq<Seq<char>>) -> Seq<ValueV> {
    words.map_values(|w: Seq<char>| word_text(w))
}

/// Splitting plain text on runs of spaces, from a scan state: the words
/// closed so far, the word under construction, and whether the last
/// character was a space (so that a run of spaces closes only one word).
pub open spec fn plain_fold(cs: Seq<char>, words: Seq<Seq<char>>, cur: Seq<char>, js: bool) -> (
    Seq<Seq<char>>,
    Seq<char>,
    bool,
)
    decreases cs.len(),
{
    if cs.len() == 0 {
        (words, cur, js)
    } else if cs.first() == ' ' {
        if js {
            plain_fold(cs.drop_first(), words, cur, true)
        } else {
            plain_fold(cs.drop_first(), words.push(cur), Seq::empty(), true)
        }
    } else {
        plain_fold(cs.drop_first(), words, cur.push(cs.first()), false)
    }
}

/// The root-level parse state that holds exactly the given words.
pub open spec fn plain_state(words: Seq<Seq<char>>, cur: Seq<char>, js: bool) -> Seq<FrameV> {
    seq![
        FrameV {
            typ: ParseCtxType::Normal(true),
            escape: Seq::empty(),
            arg: word_frags(cur),
            args: words_frags(words),
            just_separated: js,
        },
    ]
}

/// Feeding plain text (no special characters, spaces allowed) to the root
/// context does exactly what splitting on runs of spaces says: every
/// character lands in the word under construction as a literal character
/// fragment, and each run of spaces closes one word.
pub proof fn lemma_plain_feed(cs: Seq<char>, words: Seq<Seq<char>>, cur: Seq<char>, js: bool)
    requires
        forall|i: int| 0 <= i < cs.len() ==> plain_char(#[trigger] cs[i]) || cs[i] == ' ',
    ensures
        feed_chars(plain_state(words, cur, js), cs) == StepV::Cont(
            {
                let (w2, c2, j2) = plain_fold(cs, words, cur, js);
                plain_state(w2, c2, j2)
            },
        ),
    decreases cs.len(),
{
    if cs.len() > 0 {
        let c = cs.first();
        let st = plain_state(words, cur, js);
        assert(forall|i: int|
            0 <= i < cs.len() - 1 ==> cs.drop_first()[i] == #[trigger] cs[i + 1]);
        if c == ' ' {
            assert(token_act(ParseCtxType::Normal(true), ' ') == Ok::<ActV, ParseError>(
                ActV::Separator,
            ));
            if js {
                assert(step(st, c) == StepV::Cont(plain_state(words, cur, true))) by {
                    assert(st.update(0, crate::context::sep_frame(st[0])) =~~= plain_state(
                        words,
                        cur,
                        true,
                    ));
                }
                lemma_plain_feed(cs.drop_first(), words, cur, true);
            } else {
                assert(step(st, c) == StepV::Cont(plain_state(words.push(cur), Seq::empty(), true)))
                    by {
                    assert(words_frags(words.push(cur))
                        =~= words_frags(words).push(word_frags(cur)));
                    assert(word_frags(Seq::empty()) =~= Seq::<FragV>::empty());
                    assert(st.update(0, crate::context::sep_frame(st[0])) =~~= plain_state(
                        words.push(cur),
                        Seq::empty(),
                        true,
                    ));
                }
                lemma_plain_feed(cs.drop_first(), words.push(cur), Seq::empty(), true);
            }
        } else {
            assert(plain_char(c));
            assert(token_act(ParseCtxType::Normal(true), c) == Ok::<ActV, ParseError>(
                ActV::Push(FragV::Char(c)),
            ));
            assert(step(st, c) == StepV::Cont(plain_state(words, cur.push(c), false))) by {
                assert(word_frags(cur.push(c)) =~= word_frags(cur).push(FragV::Char(c)));
                assert(st.update(0, crate::context::push_frame(st[0], FragV::Char(c)))
                    =~~= plain_state(words, cur.push(c), false));
            }
            lemma_plain_feed(cs.drop_first(), words, cur.push(c), false);
        }
    }
}

/// Parsing plain text as one command yields exactly its words, split on
/// runs of spaces, each word a run of literal character fragments, with
/// the word under construction at the end closed as the last argument.
pub proof fn lemma_plain_parse(cs: Seq<char>)
    requires
        forall|i: int| 0 <= i < cs.len() ==> plain_char(#[trigger] cs[i]) || cs[i] == ' ',
    ensures
        from_chars_spec(cs) == Ok::<Seq<Seq<FragV>>, ParseError>(
            {
                let (w2, c2, j2) = plain_fold(cs, Seq::empty(), Seq::empty(), false);
                words_frags(w2.push(c2))
            },
        ),
{
    assert(seq![fresh_frame(ParseCtxType::Normal(true))] =~~= plain_state(
        Seq::empty(),
        Seq::empty(),
        false,
    )) by {
        assert(word_frags(Seq::empty()) =~= Seq::<FragV>::empty());
        assert(words_frags(Seq::<Seq<char>>::empty())
            =~= Seq::<Seq<FragV>>::empty());
    }
    lemma_plain_feed(cs, Seq::empty(), Seq::empty(), false);
    let (w2, c2, j2) = plain_fold(cs, Seq::empty(), Seq::empty(), false);
    let st2 = plain_state(w2, c2, j2);
    assert(close_step(st2) == CloseV::Done(frame_tree(st2[0])));
    assert(frame_tree(st2[0]) =~= words_frags(w2.push(c2))) by {
        assert(words_frags(w2.push(c2)) =~= words_frags(w2).push(word_frags(c2)));
    }
}

/// A one-line message whose command is plain text parses to exactly the
/// words of the text after the prefix, split on runs of spaces.
pub proof fn lemma_plain_message(prefix: Seq<char>, cs: Seq<char>)
    requires
        forall|i: int| 0 <= i < cs.len() ==> plain_char(#[trigger] cs[i]) || cs[i] == ' ',
    ensures
        crate::scanner::parse_msg(prefix, seq![prefix + cs]) == Ok::<
            Seq<Seq<Seq<FragV>>>,
            ParseError,
        >(
            seq![
                {
                    let (w2, c2, j2) = plain_fold(cs, Seq::empty(), Seq::empty(), false);
                    words_frags(w2.push(c2))
                },
            ],
        ),
{
    let line = prefix + cs;
    assert(line.len() >= prefix.len());
    assert(line.take(prefix.len() as int) =~= prefix);
    assert(crate::scanner::line_starts_with(line, prefix));
    assert(line.skip(prefix.len() as int) =~= cs);
    assert(seq![fresh_frame(ParseCtxType::Normal(true))] =~~= plain_state(
        Seq::empty(),
        Seq::empty(),
        false,
    )) by {
        assert(word_frags(Seq::empty()) =~= Seq::<FragV>::empty());
        assert(words_frags(Seq::<Seq<char>>::empty()) =~= Seq::<Seq<FragV>>::empty());
    }
    lemma_plain_feed(cs, Seq::empty(), Seq::empty(), false);
    let (w2, c2, j2) = plain_fold(cs, Seq::empty(), Seq::empty(), false);
    let st2 = plain_state(w2, c2, j2);
    assert(close_step(st2) == CloseV::Done(frame_tree(st2[0])));
    assert(frame_tree(st2[0]) =~= words_frags(w2.push(c2))) by {
        assert(words_frags(w2.push(c2)) =~= words_frags(w2).push(word_frags(c2)));
    }
    assert(seq![line].first() == line);
    assert(seq![line].drop_first() =~= Seq::<Seq<char>>::empty());
    let acc2 = Seq::<Seq<Seq<FragV>>>::empty().push(frame_tree(st2[0]));
    assert(crate::scanner::scan_lines(prefix, Seq::<Seq<char>>::empty(), None::<Seq<FrameV>>, acc2)
        == Ok::<Seq<Seq<Seq<FragV>>>, ParseError>(acc2));
    assert(acc2 =~= seq![words_frags(w2.push(c2))]);
}

/// A word of literal character fragments resolves to exactly its UTF-8
/// text, and touches neither the environment nor the executor.
pub proof fn lemma_resolve_word<E, X: Executer<E>>(
    w: Seq<char>,
    j: int,
    acc: Seq<u8>,
    env: EnvModel,
    x: X,
)
    requires
        0 <= j <= w.len(),
    ensures
        resolve_frags::<E, X>(word_frags(w), j, acc, env, x) == (
            Ok::<Seq<u8>, crate::resolve::ExecuteError<E>>(acc + encode_utf8(w.skip(j))),
            env,
            x,
        ),
    decreases w.len() - j,
{
    if j == w.len() {
        assert(w.skip(j) =~= Seq::<char>::empty());
        assert(acc + encode_utf8(w.skip(j)) =~= acc);
    } else {
        assert(word_frags(w)[j] == FragV::Char(w[j]));
        lemma_resolve_word::<E, X>(w, j + 1, acc + encode_utf8(seq![w[j]]), env, x);
        assert(w.skip(j).drop_first() =~= w.skip(j + 1));
        assert(w.skip(j).first() == w[j]);
        assert(encode_utf8(w.skip(j)) == vstd::utf8::encode_scalar(w[j] as u32) + encode_utf8(
            w.skip(j + 1),
        ));
        assert(encode_utf8(seq![w[j]]) =~= vstd::utf8::encode_scalar(w[j] as u32)) by {
            assert(seq![w[j]].len() == 1);
            assert(seq![w[j]][0] == w[j]);
            assert(seq![w[j]].drop_first() =~= Seq::<char>::empty());
            assert(encode_utf8(Seq::<char>::empty()) =~= Seq::<u8>::empty());
            assert(vstd::utf8::encode_scalar(w[j] as u32) + Seq::<u8>::empty()
                =~= vstd::utf8::encode_scalar(w[j] as u32));
        }
        assert(acc + encode_utf8(seq![w[j]]) + encode_utf8(w.skip(j + 1)) =~= acc + encode_utf8(
            w.skip(j),
        ));
    }
}

/// Strict-quote content is never subject to variable or escape expansion:
/// inside a strict quote every character but the closing quote is a
/// literal character, and no escape ever begins; inside an interpreted
/// quote, backslash and dollar do begin escapes.
pub proof fn lemma_strict_quote_literal(c: char)
    ensures
        c != '\'' ==> token_act(ParseCtxType::Quote(true), c) == Ok::<ActV, ParseError>(
            ActV::Push(FragV::Char(c)),
        ),
        c == '\'' ==> token_act(ParseCtxType::Quote(true), c) == Ok::<ActV, ParseError>(
            ActV::Unnest,
        ),
        token_act(ParseCtxType::Quote(true), c) != Ok::<ActV, ParseError>(ActV::EscapeSequence),
        token_act(ParseCtxType::Quote(false), '\\') == Ok::<ActV, ParseError>(
            ActV::EscapeSequence,
        ),
        token_act(ParseCtxType::Quote(false), '$') == Ok::<ActV, ParseError>(
            ActV::EscapeSequence,
        ),
{
}

/// The braced form `${NAME}` and the bare form `$NAME` (ended by any
/// character that cannot continue a name) complete to the same
/// environment-variable-reference fragment, with the same name.
pub proof fn lemma_var_forms(name: Seq<char>, c: char)
    requires
        name.len() >= 1,
        is_ident_char(name[0]),
        name[0] != '(',
        name[0] != '{',
        !is_ident_char(c),
        c != '}',
    ensures
        escape_act(seq!['$', '{'] + name, '}') == Ok::<(ActV, bool), ParseError>(
            (ActV::Push(FragV::Var(name)), false),
        ),
        escape_act(seq!['$'] + name, c) == Ok::<(ActV, bool), ParseError>(
            (ActV::Push(FragV::Var(name)), true),
        ),
{
    let braced = seq!['$', '{'] + name;
    assert(braced.first() == '$');
    assert(braced[1] == '{');
    assert(braced.len() == name.len() + 2);
    assert(braced.skip(2) =~= name);
    let bare = seq!['$'] + name;
    assert(bare.first() == '$');
    assert(bare[1] == name[0]);
    assert(bare.len() == name.len() + 1);
    assert(bare.skip(1) =~= name);
}

/// A variable reference resolves to the bytes of the value its name is
/// bound to, and fails with `NoSuchEnv` exactly when the name is unbound;
/// the environment and the executor are untouched either way.
pub proof fn lemma_resolve_var<E, X: Executer<E>>(
    frags: Seq<FragV>,
    j: int,
    name: Seq<char>,
    acc: Seq<u8>,
    env: EnvModel,
    x: X,
)
    requires
        0 <= j < frags.len(),
        frags[j] == FragV::Var(name),
    ensures
        lookup(env, encode_utf8(name)) == None::<ValueV> ==> resolve_frags::<E, X>(
            frags,
            j,
            acc,
            env,
            x,
        ) == (
            Err::<Seq<u8>, crate::resolve::ExecuteError<E>>(
                crate::resolve::ExecuteError::NoSuchEnv,
            ),
            env,
            x,
        ),
        forall|v: ValueV|
            lookup(env, encode_utf8(name)) == Some(v) ==> resolve_frags::<E, X>(
                frags,
                j,
                acc,
                env,
                x,
            ) == resolve_frags::<E, X>(frags, j + 1, acc + value_bytes(v), env, x),
{
}

/// A subshell fragment is resolved by resolving the inner tree against
/// the same environment first, then splicing its output value in as text
/// in the outer argument; bindings made inside stay visible outside.
pub proof fn lemma_subshell_splice<E, X: Executer<E>>(
    frags: Seq<FragV>,
    j: int,
    t: Seq<Seq<FragV>>,
    acc: Seq<u8>,
    env: EnvModel,
    x: X,
)
    requires
        0 <= j < frags.len(),
        frags[j] == FragV::Sub(t),
    ensures
        ({
            let (r, env2, x2) = resolve_tree::<E, X>(t, env, x);
            match r {
                Ok(v) => resolve_frags::<E, X>(frags, j, acc, env, x) == resolve_frags::<E, X>(
                    frags,
                    j + 1,
                    acc + value_bytes(v),
                    env2,
                    x2,
                ),
                Err(e) => resolve_frags::<E, X>(frags, j, acc, env, x) == (
                    Err::<Seq<u8>, crate::resolve::ExecuteError<E>>(e),
                    env2,
                    x2,
                ),
            }
        }),
{
}

/// Resolution is a function of the tree, the environment and the
/// executor alone: resolving the same tree twice, when the first pass left
/// the environment and the executor as they were (a pure executor, no
/// bindings made), yields the identical output.
pub proof fn lemma_resolve_idempotent<E, X: Executer<E>>(
    tree: Seq<Seq<FragV>>,
    env: EnvModel,
    x: X,
)
    requires
        resolve_tree::<E, X>(tree, env, x).1 == env,
        resolve_tree::<E, X>(tree, env, x).2 == x,
    ensures
        resolve_tree::<E, X>(
            tree,
            resolve_tree::<E, X>(tree, env, x).1,
            resolve_tree::<E, X>(tree, env, x).2,
        ) == resolve_tree::<E, X>(tree, env, x),
{
}

/// Parsing plain text and resolving every argument yields that text
/// unchanged, split on runs of spaces: the resolved values are the UTF-8
/// texts of the words, and neither environment nor executor is touched.
pub proof fn lemma_plain_round_trip<E, X: Executer<E>>(cs: Seq<char>, env: EnvModel, x: X)
    requires
        forall|i: int| 0 <= i < cs.len() ==> plain_char(#[trigger] cs[i]) || cs[i] == ' ',
    ensures
        ({
            let (w2, c2, j2) = plain_fold(cs, Seq::empty(), Seq::empty(), false);
            let words = w2.push(c2);
            let tree = words_frags(words);
            &&& from_chars_spec(cs) == Ok::<Seq<Seq<FragV>>, ParseError>(tree)
            &&& resolve_args::<E, X>(tree, 0, Seq::empty(), env, x) == (
                Ok::<Seq<ValueV>, crate::resolve::ExecuteError<E>>(
                    words_texts(words),
                ),
                env,
                x,
            )
        }),
{
    lemma_plain_parse(cs);
    let (w2, c2, j2) = plain_fold(cs, Seq::empty(), Seq::empty(), false);
    let words = w2.push(c2);
    let tree = words_frags(words);
    lemma_resolve_plain_args::<E, X>(words, 0, Seq::empty(), env, x);
    assert(words_texts(words).skip(0) =~= words_texts(words));
    assert(Seq::<ValueV>::empty() + words_texts(words)
        =~= words_texts(words));
}

/// Arguments of literal character fragments resolve to their words'
/// UTF-8 texts, in order, touching nothing.
proof fn lemma_resolve_plain_args<E, X: Executer<E>>(
    words: Seq<Seq<char>>,
    i: int,
    acc: Seq<ValueV>,
    env: EnvModel,
    x: X,
)
    requires
        0 <= i <= words.len(),
    ensures
        resolve_args::<E, X>(
            words_frags(words),
            i,
            acc,
            env,
            x,
        ) == (
            Ok::<Seq<ValueV>, crate::resolve::ExecuteError<E>>(
                acc + words_texts(words).skip(i),
            ),
            env,
            x,
        ),
    decreases words.len() - i,
{
    let tree = words_frags(words);
    let texts = words_texts(words);
    if i == words.len() {
        assert(texts.skip(i) =~= Seq::<ValueV>::empty());
        assert(acc + texts.skip(i) =~= acc);
    } else {
        assert(tree[i] == word_frags(words[i]));
        lemma_resolve_word::<E, X>(words[i], 0, Seq::empty(), env, x);
        assert(words[i].skip(0) =~= words[i]);
        assert(Seq::<u8>::empty() + encode_utf8(words[i]) =~= encode_utf8(words[i]));
        lemma_resolve_plain_args::<E, X>(words, i + 1, acc.push(ValueV::Text(encode_utf8(words[i]))), env, x);
        assert(acc.push(ValueV::Text(encode_utf8(words[i]))) + texts.skip(i + 1) =~= acc
            + texts.skip(i)) by {
            assert(texts[i] == word_text(words[i]));
        }
    }
}


/// The frame a strict quote grows into: its content appended to the
/// argument under construction, one literal character fragment each.
pub open spec fn quote_fill(f: FrameV, cs: Seq<char>) -> FrameV {
    FrameV {
        typ: f.typ,
        escape: Seq::empty(),
        arg: f.arg + word_frags(cs),
        args: f.args,
        just_separated: if cs.len() == 0 {
            f.just_separated
        } else {
            false
        },
    }
}

/// Characters inside a strict quote, up to the closing quote, land in the
/// argument under construction as literal character fragments, one each:
/// no escape, no variable reference and no nested context ever starts
/// there.
pub proof fn lemma_strict_quote_feed(st: Seq<FrameV>, cs: Seq<char>)
    requires
        st.len() >= 1,
        st.last().typ == ParseCtxType::Quote(true),
        st.last().escape.len() == 0,
        forall|i: int| 0 <= i < cs.len() ==> cs[i] != '\'',
    ensures
        feed_chars(st, cs) == StepV::Cont(st.update(st.len() - 1, quote_fill(st.last(), cs))),
    decreases cs.len(),
{
    let k = st.len() - 1;
    let f = st.last();
    if cs.len() == 0 {
        assert(f.arg + word_frags(cs) =~= f.arg) by {
            assert(word_frags(cs) =~= Seq::<FragV>::empty());
        }
        assert(quote_fill(f, cs) =~~= f);
        assert(st.update(k, f) =~~= st);
    } else {
        let c = cs.first();
        assert(token_act(ParseCtxType::Quote(true), c) == Ok::<ActV, ParseError>(
            ActV::Push(FragV::Char(c)),
        ));
        let st2 = st.update(k, crate::context::push_frame(f, FragV::Char(c)));
        assert(step(st, c) == StepV::Cont(st2));
        assert(forall|i: int|
            0 <= i < cs.len() - 1 ==> cs.drop_first()[i] == #[trigger] cs[i + 1]);
        lemma_strict_quote_feed(st2, cs.drop_first());
        assert(st2.update(k, quote_fill(st2.last(), cs.drop_first())) =~~= st.update(
            k,
            quote_fill(f, cs),
        )) by {
            assert(quote_fill(st2.last(), cs.drop_first()) =~~= quote_fill(f, cs)) by {
                assert(f.arg.push(FragV::Char(c)) + word_frags(cs.drop_first()) =~= f.arg
                    + word_frags(cs)) by {
                    assert(forall|i: int|
                        0 <= i < cs.len() - 1 ==> word_frags(cs.drop_first())[i] == #[trigger] word_frags(
                            cs,
                        )[i + 1]);
                    assert(word_frags(cs)[0] == FragV::Char(c));
                }
            }
        }
    }
}


/// Binding a key makes lookups of that key see the new value, and leaves
/// every other key bound as it was.
pub proof fn lemma_lookup_set(env: EnvModel, key: Seq<u8>, val: ValueV, other: Seq<u8>)
    ensures
        lookup(set_entry(env, key, val), key) == Some(val),
        other != key ==> lookup(set_entry(env, key, val), other) == lookup(env, other),
    decreases env.len(),
{
    if env.len() == 0 {
        let one = seq![(key, val)];
        assert(set_entry(env, key, val) =~= one);
        assert(one[0] == (key, val));
        assert(one.drop_first() =~= Seq::<(Seq<u8>, ValueV)>::empty());
        if other != key {
            assert(lookup(one, other) == lookup(Seq::<(Seq<u8>, ValueV)>::empty(), other));
            assert(lookup(env, other) == None::<ValueV>);
        }
    } else if env.first().0 == key {
        let updated = seq![(env.first().0, val)] + env.drop_first();
        assert(updated.len() == env.len());
        assert(updated[0] == (env.first().0, val));
        assert(updated.drop_first() =~= env.drop_first());
        assert(lookup(set_entry(env, key, val), key) == Some(val));
        if other != key {
            assert(lookup(updated, other) == lookup(env.drop_first(), other));
            assert(lookup(env, other) == lookup(env.drop_first(), other));
        }
    } else {
        let rest = set_entry(env.drop_first(), key, val);
        let whole = seq![env.first()] + rest;
        assert(whole.len() == rest.len() + 1);
        assert(whole[0] == env.first());
        assert(whole.drop_first() =~= rest);
        lemma_lookup_set(env.drop_first(), key, val, other);
        assert(lookup(whole, key) == lookup(rest, key));
        if other != key {
            if other == env.first().0 {
                assert(lookup(whole, other) == Some(whole[0].1));
                assert(lookup(env, other) == Some(env.first().1));
            } else {
                assert(lookup(whole, other) == lookup(rest, other));
                assert(lookup(env, other) == lookup(env.drop_first(), other));
            }
        }
    }
}

/// Running `let KEY=VALUE` through the built-in executor, with KEY valid
/// UTF-8 text holding no equals sign, answers no value, binds KEY to
/// VALUE in the environment it returns, and leaves every other key bound
/// as before — so a later reference to KEY in the same batch sees VALUE.
pub proof fn lemma_let_binds(
    x: crate::executer::HardcodedExecuter,
    env: EnvModel,
    k: Seq<u8>,
    v: Seq<u8>,
    other: Seq<u8>,
)
    requires
        forall|i: int| 0 <= i < k.len() ==> k[i] != 61u8,
        vstd::utf8::valid_utf8(k),
    ensures
        ({
            let expr = k + seq![61u8] + v;
            let args = seq![ValueV::Text(encode_utf8("let"@)), ValueV::Text(expr)];
            let env2 = x.exec_env(args, env);
            &&& x.exec_res(args, env) == Ok::<ValueV, crate::executer::HardcodedExecuterError>(
                ValueV::Null,
            )
            &&& lookup(env2, k) == Some(ValueV::Text(v))
            &&& (other != k ==> lookup(env2, other) == lookup(env, other))
        }),
{
    crate::executer::lemma_let_distinct();
    vstd::utf8::encode_utf8_valid_utf8("let"@);
    let expr = k + seq![61u8] + v;
    let args = seq![ValueV::Text(encode_utf8("let"@)), ValueV::Text(expr)];
    assert(expr[k.len() as int] == 61u8);
    assert(forall|j: int| 0 <= j < k.len() ==> expr[j] == #[trigger] k[j]);
    crate::executer::lemma_eq_pos(expr, k.len() as int);
    assert(crate::executer::eq_pos(expr) == k.len());
    assert(expr.take(k.len() as int) =~= k);
    assert(expr.skip(k.len() as int + 1) =~= v);
    lemma_lookup_set(env, k, ValueV::Text(v), other);
}

} // verus!
