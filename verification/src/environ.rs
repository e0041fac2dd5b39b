//! Typed values and the variable environment.
//!
//! An environment is an ordered mapping from byte-string keys to typed
//! values, supporting lookup, insertion and full enumeration.  It is a
//! capability handed in by the caller; [`DefaultEnviron`] is the in-memory
//! implementation.

use vstd::prelude::*;
use vstd::utf8::encode_utf8;

verus! {

/// A value held by the environment or produced by a command: text (raw
/// bytes, not necessarily valid UTF-8), an unsigned number, or nothing.
#[derive(Debug, PartialEq, Eq)]
pub enum EnvironValue {
    /// Raw text, as platform bytes.
    Text(Vec<u8>),
    /// An unsigned 128-bit number.
    UNumber(u128),
    /// No value.
    Null,
}

/// The mathematical shape of a value.
#[verifier::ext_equal]
pub enum ValueV {
    Text(Seq<u8>),
    UNumber(u128),
    Null,
}

impl View for EnvironValue {
    type V = ValueV;

    open spec fn view(&self) -> ValueV {
        match self {
            EnvironValue::Text(b) => ValueV::Text(b@),
            EnvironValue::UNumber(n) => ValueV::UNumber(*n),
            EnvironValue::Null => ValueV::Null,
        }
    }
}

/// The decimal digits of a number, as bytes, most significant first.
pub open spec fn dec_bytes(n: nat) -> Seq<u8>
    decreases n,
{
    if n < 10 {
        seq![(48 + n) as u8]
    } else {
        dec_bytes(n / 10).push((48 + n % 10) as u8)
    }
}

/// The bytes a value contributes when it is spliced into text: text
/// verbatim, a number in decimal, nothing for no value.
pub open spec fn value_bytes(v: ValueV) -> Seq<u8> {
    match v {
        ValueV::Text(b) => b,
        ValueV::UNumber(n) => dec_bytes(n as nat),
        ValueV::Null => Seq::empty(),
    }
}

/// The model of an environment: its entries, in order.
pub type EnvModel = Seq<(Seq<u8>, ValueV)>;

/// The value bound to a key: the first entry with that key, if any.
pub open spec fn lookup(env: EnvModel, key: Seq<u8>) -> Option<ValueV>
    decreases env.len(),
{
    if env.len() == 0 {
        None
    } else if env.first().0 == key {
        Some(env.first().1)
    } else {
        lookup(env.drop_first(), key)
    }
}

/// Binding a key: the first entry with that key changes its value in
/// place; a new key is appended at the end.
pub open spec fn set_entry(env: EnvModel, key: Seq<u8>, val: ValueV) -> EnvModel
    decreases env.len(),
{
    if env.len() == 0 {
        seq![(key, val)]
    } else if env.first().0 == key {
        seq![(env.first().0, val)] + env.drop_first()
    } else {
        seq![env.first()] + set_entry(env.drop_first(), key, val)
    }
}

/// A variable environment: an ordered mapping from byte-string keys to
/// typed values.  The environment is owned by the caller and passed by
/// mutable reference through resolution, so bindings made by one command
/// are visible to later commands and to nested subshells.
pub trait Environ: Sized {
    /// The entries, in order.
    spec fn model(&self) -> EnvModel;

    /// Look a key up.
    fn get(&self, key: &Vec<u8>) -> (r: Option<&EnvironValue>)
        ensures
            (match r {
                Some(v) => lookup(self.model(), key@) == Some(v@),
                None => lookup(self.model(), key@) == None::<ValueV>,
            }),
    ;

    /// Bind a key, returning the value it replaced.
    fn set(&mut self, key: Vec<u8>, value: EnvironValue) -> (prev: Option<EnvironValue>)
        ensures
            final(self).model() == set_entry(old(self).model(), key@, value@),
            (match prev {
                Some(p) => lookup(old(self).model(), key@) == Some(p@),
                None => lookup(old(self).model(), key@) == None::<ValueV>,
            }),
    ;

    /// Every entry, in order.
    fn entries(&self) -> (r: Vec<(Vec<u8>, EnvironValue)>)
        ensures
            r@.len() == self.model().len(),
            forall|i: int|
                0 <= i < r@.len() ==> ((#[trigger] r@[i]).0@, r@[i].1@) == self.model()[i],
    ;
}

/// The in-memory environment: a vector of entries, in insertion order.
pub struct DefaultEnviron {
    entries: Vec<(Vec<u8>, EnvironValue)>,
}

impl Default for DefaultEnviron {
    /// An empty environment.
    fn default() -> (s: Self)
        ensures
            s.model() == Seq::<(Seq<u8>, ValueV)>::empty(),
    {
        DefaultEnviron { entries: Vec::new() }
    }
}

/// Copy a byte vector.
pub(crate) fn copy_bytes(v: &Vec<u8>) -> (r: Vec<u8>)
    ensures
        r@ == v@,
{
    let mut r: Vec<u8> = Vec::new();
    let mut i: usize = 0;
    while i < v.len()
        invariant
            i <= v@.len(),
            r@ == v@.take(i as int),
        decreases v@.len() - i,
    {
        r.push(v[i]);
        proof {
            assert(v@.take(i + 1 as int) =~= v@.take(i as int).push(v@[i as int]));
        }
        i = i + 1;
    }
    proof {
        assert(v@.take(v@.len() as int) =~= v@);
    }
    r
}

/// The UTF-8 bytes of a string.
pub(crate) fn string_bytes(s: &String) -> (r: Vec<u8>)
    ensures
        r@ == encode_utf8(s@),
{
    s.as_str().as_bytes_vec()
}

/// Append the decimal digits of a number, as bytes.
pub(crate) fn push_dec(n: u128, out: &mut Vec<u8>)
    ensures
        final(out)@ == old(out)@ + dec_bytes(n as nat),
    decreases n,
{
    if n < 10 {
        out.push(48 + (n as u8));
        proof {
            assert(old(out)@ + dec_bytes(n as nat) =~= out@);
        }
    } else {
        push_dec(n / 10, out);
        out.push(48 + ((n % 10) as u8));
        proof {
            assert(old(out)@ + dec_bytes(n as nat) =~= out@);
        }
    }
}

/// Copy an index range of a byte vector.
pub(crate) fn sub_bytes(v: &Vec<u8>, from: usize, to: usize) -> (r: Vec<u8>)
    requires
        from <= to <= v@.len(),
    ensures
        r@ == v@.subrange(from as int, to as int),
{
    let mut r: Vec<u8> = Vec::new();
    let mut i: usize = from;
    while i < to
        invariant
            from <= i <= to <= v@.len(),
            r@ == v@.subrange(from as int, i as int),
        decreases to - i,
    {
        r.push(v[i]);
        proof {
            assert(v@.subrange(from as int, i + 1 as int) =~= v@.subrange(
                from as int,
                i as int,
            ).push(v@[i as int]));
        }
        i = i + 1;
    }
    r
}

/// Copy a value.
pub(crate) fn copy_value(v: &EnvironValue) -> (r: EnvironValue)
    ensures
        r@ == v@,
{
    match v {
        EnvironValue::Text(b) => EnvironValue::Text(copy_bytes(b)),
        EnvironValue::UNumber(n) => EnvironValue::UNumber(*n),
        EnvironValue::Null => EnvironValue::Null,
    }
}

impl DefaultEnviron {
    /// An empty environment.
    pub fn new() -> (s: Self)
        ensures
            s.model() == Seq::<(Seq<u8>, ValueV)>::empty(),
    {
        let s = DefaultEnviron { entries: Vec::new() };
        proof {
            assert(s.model() =~= Seq::<(Seq<u8>, ValueV)>::empty());
        }
        s
    }

    /// The index of the first entry with the key, if any.
    fn find(&self, key: &Vec<u8>) -> (r: Option<usize>)
        ensures
            (match r {
                Some(i) => i < self.entries@.len() && self.entries@[i as int].0@ == key@
                    && (forall|j: int| 0 <= j < i ==> (#[trigger] self.entries@[j]).0@ != key@),
                None => forall|j: int|
                    0 <= j < self.entries@.len() ==> (#[trigger] self.entries@[j]).0@ != key@,
            }),
    {
        let mut i: usize = 0;
        while i < self.entries.len()
            invariant
                i <= self.entries@.len(),
                forall|j: int| 0 <= j < i ==> (#[trigger] self.entries@[j]).0@ != key@,
            decreases self.entries@.len() - i,
        {
            if bytes_eq(&self.entries[i].0, key) {
                return Some(i);
            }
            i = i + 1;
        }
        None
    }
}

/// The first match of a key among entries from a given index on.
proof fn lemma_lookup_at(env: EnvModel, key: Seq<u8>, i: int)
    requires
        0 <= i <= env.len(),
        forall|j: int| 0 <= j < i ==> (#[trigger] env[j]).0 != key,
    ensures
        lookup(env, key) == lookup(env.skip(i), key),
    decreases i,
{
    if i > 0 {
        assert(env.len() > 0);
        assert(env[0].0 != key);
        lemma_lookup_at(env.drop_first(), key, i - 1);
        assert(forall|j: int| 0 <= j < i - 1 ==> (#[trigger] env.drop_first()[j]).0 != key);
        assert(env.drop_first().skip(i - 1) =~= env.skip(i));
    } else {
        assert(env.skip(0) =~= env);
    }
}

/// Binding a key that sits at a known index.
proof fn lemma_set_entry_at(env: EnvModel, key: Seq<u8>, val: ValueV, i: int)
    requires
        0 <= i < env.len(),
        env[i].0 == key,
        forall|j: int| 0 <= j < i ==> (#[trigger] env[j]).0 != key,
    ensures
        set_entry(env, key, val) == env.update(i, (env[i].0, val)),
    decreases i,
{
    if i == 0 {
        assert(set_entry(env, key, val) =~= env.update(0, (env[0].0, val)));
    } else {
        assert(env[0].0 != key);
        lemma_set_entry_at(env.drop_first(), key, val, i - 1);
        assert(forall|j: int| 0 <= j < i - 1 ==> (#[trigger] env.drop_first()[j]).0 != key);
        assert(env.drop_first()[i - 1] == env[i]);
        assert(seq![env.first()] + env.drop_first().update(i - 1, (env[i].0, val)) =~= env.update(
            i,
            (env[i].0, val),
        ));
    }
}

/// Binding a key that no entry has appends it.
proof fn lemma_set_entry_absent(env: EnvModel, key: Seq<u8>, val: ValueV)
    requires
        forall|j: int| 0 <= j < env.len() ==> (#[trigger] env[j]).0 != key,
    ensures
        set_entry(env, key, val) == env.push((key, val)),
    decreases env.len(),
{
    if env.len() == 0 {
        assert(set_entry(env, key, val) =~= env.push((key, val)));
    } else {
        lemma_set_entry_absent(env.drop_first(), key, val);
        assert(forall|j: int|
            0 <= j < env.len() - 1 ==> (#[trigger] env.drop_first()[j]).0 != key);
        assert(seq![env.first()] + env.drop_first().push((key, val)) =~= env.push((key, val)));
    }
}

/// Whether two byte vectors hold the same bytes.
pub fn bytes_eq(a: &Vec<u8>, b: &Vec<u8>) -> (r: bool)
    ensures
        r == (a@ == b@),
{
    if a.len() != b.len() {
        proof {
            assert(a@ != b@);
        }
        return false;
    }
    let mut i: usize = 0;
    while i < a.len()
        invariant
            i <= a@.len(),
            a@.len() == b@.len(),
            forall|j: int| 0 <= j < i ==> a@[j] == b@[j],
        decreases a@.len() - i,
    {
        if a[i] != b[i] {
            return false;
        }
        i = i + 1;
    }
    proof {
        assert(a@ =~= b@);
    }
    true
}

impl Environ for DefaultEnviron {
    closed spec fn model(&self) -> EnvModel {
        self.entries@.map_values(|p: (Vec<u8>, EnvironValue)| (p.0@, p.1@))
    }

    fn get(&self, key: &Vec<u8>) -> (r: Option<&EnvironValue>)
        ensures
            (match r {
                Some(v) => lookup(self.model(), key@) == Some(v@),
                None => lookup(self.model(), key@) == None::<ValueV>,
            }),
    {
        match self.find(key) {
            Some(i) => {
                proof {
                    lemma_lookup_at(self.model(), key@, i as int);
                    assert(self.model().skip(i as int).first() == self.model()[i as int]);
                }
                Some(&self.entries[i].1)
            },
            None => {
                proof {
                    lemma_lookup_at(self.model(), key@, self.model().len() as int);
                    assert(self.model().skip(self.model().len() as int)
                        =~= Seq::<(Seq<u8>, ValueV)>::empty());
                }
                None
            },
        }
    }

    fn set(&mut self, key: Vec<u8>, value: EnvironValue) -> (prev: Option<EnvironValue>)
        ensures
            final(self).model() == set_entry(old(self).model(), key@, value@),
            (match prev {
                Some(p) => lookup(old(self).model(), key@) == Some(p@),
                None => lookup(old(self).model(), key@) == None::<ValueV>,
            }),
    {
        let ghost env0 = self.model();
        match self.find(&key) {
            Some(i) => {
                proof {
                    lemma_lookup_at(env0, key@, i as int);
                    assert(env0.skip(i as int).first() == env0[i as int]);
                    lemma_set_entry_at(env0, key@, value@, i as int);
                }
                let old_pair = self.entries.remove(i);
                self.entries.insert(i, (old_pair.0, value));
                proof {
                    assert(self.model() =~= set_entry(env0, key@, value@));
                }
                Some(old_pair.1)
            },
            None => {
                proof {
                    lemma_lookup_at(env0, key@, env0.len() as int);
                    assert(env0.skip(env0.len() as int) =~= Seq::<(Seq<u8>, ValueV)>::empty());
                    lemma_set_entry_absent(env0, key@, value@);
                }
                self.entries.push((key, value));
                proof {
                    assert(self.model() =~= set_entry(env0, key@, value@));
                }
                None
            },
        }
    }

    fn entries(&self) -> (r: Vec<(Vec<u8>, EnvironValue)>)
        ensures
            r@.len() == self.model().len(),
            forall|i: int|
                0 <= i < r@.len() ==> ((#[trigger] r@[i]).0@, r@[i].1@) == self.model()[i],
    {
        let mut r: Vec<(Vec<u8>, EnvironValue)> = Vec::new();
        let mut i: usize = 0;
        while i < self.entries.len()
            invariant
                i <= self.entries@.len(),
                r@.len() == i,
                forall|j: int|
                    0 <= j < i ==> ((#[trigger] r@[j]).0@, r@[j].1@) == self.model()[j],
            decreases self.entries@.len() - i,
        {
            let k = copy_bytes(&self.entries[i].0);
            let v = copy_value(&self.entries[i].1);
            r.push((k, v));
            i = i + 1;
        }
        r
    }
}

} // verus!
