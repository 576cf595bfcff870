use vstd::prelude::*;

verus! {

use crate::signature::{Signature, is_basic_code, is_single_type};

/// A tagged union able to hold any decoded wire value, including nested
/// compounds.  A double (`d`) is held as its IEEE-754 bit pattern, so the
/// verified core stays free of floating point.
#[derive(Debug, PartialEq)]
pub enum Value {
    U8(u8),
    Bool(bool),
    I16(i16),
    U16(u16),
    I32(i32),
    U32(u32),
    I64(i64),
    U64(u64),
    /// IEEE-754 double, as its raw bit pattern.
    F64(u64),
    Str(String),
    ObjectPath(String),
    Signature(Signature),
    /// Element signature, then the elements, all of that one type.
    Array(Signature, Vec<Value>),
    /// One or more fields, in declaration order.
    Structure(Vec<Value>),
    /// Exactly one key (a basic type) and one value.
    DictEntry(Box<Value>, Box<Value>),
    /// A value together with its own signature, embedded on the wire.
    Variant(Box<Value>),
}

/// The signature that describes `v`.
pub open spec fn sig_of(v: Value) -> Seq<u8>
    decreases v,
{
    match v {
        Value::U8(_) => seq!['y' as u8],
        Value::Bool(_) => seq!['b' as u8],
        Value::I16(_) => seq!['n' as u8],
        Value::U16(_) => seq!['q' as u8],
        Value::I32(_) => seq!['i' as u8],
        Value::U32(_) => seq!['u' as u8],
        Value::I64(_) => seq!['x' as u8],
        Value::U64(_) => seq!['t' as u8],
        Value::F64(_) => seq!['d' as u8],
        Value::Str(_) => seq!['s' as u8],
        Value::ObjectPath(_) => seq!['o' as u8],
        Value::Signature(_) => seq!['g' as u8],
        Value::Array(esig, _) => seq!['a' as u8] + esig@,
        Value::Structure(vs) => seq!['(' as u8] + sig_of_list(vs@) + seq![')' as u8],
        Value::DictEntry(k, val) => seq!['{' as u8] + sig_of(*k) + sig_of(*val) + seq![
            '}' as u8,
        ],
        Value::Variant(_) => seq!['v' as u8],
    }
}

/// The concatenated signatures of a list of values.
pub open spec fn sig_of_list(vs: Seq<Value>) -> Seq<u8>
    decreases vs,
{
    if vs.len() == 0 {
        Seq::empty()
    } else {
        sig_of(vs[0]) + sig_of_list(vs.drop_first())
    }
}

/// Structural validity: an array's elements all carry the array's element
/// signature, a structure has at least one field, a dictionary entry's key is
/// basic, and a variant's embedded signature fits its one-byte length field.
pub open spec fn wf(v: Value) -> bool
    decreases v,
{
    match v {
        Value::Array(esig, elems) => is_single_type(esig@) && wf_elems(elems@, esig@),
        Value::Structure(vs) => vs@.len() >= 1 && wf_list(vs@),
        Value::DictEntry(k, val) => sig_of(*k).len() == 1 && is_basic_code(sig_of(*k)[0]) && wf(*k)
            && wf(*val),
        Value::Variant(b) => wf(*b) && sig_of(*b).len() <= 255,
        _ => true,
    }
}

/// All values in `vs` are well formed and carry the signature `esig`.
pub open spec fn wf_elems(vs: Seq<Value>, esig: Seq<u8>) -> bool
    decreases vs,
{
    vs.len() == 0 || (wf(vs[0]) && sig_of(vs[0]) == esig && wf_elems(vs.drop_first(), esig))
}

/// All values in `vs` are well formed.
pub open spec fn wf_list(vs: Seq<Value>) -> bool
    decreases vs,
{
    vs.len() == 0 || (wf(vs[0]) && wf_list(vs.drop_first()))
}

pub proof fn lemma_sig_of_list_append(a: Seq<Value>, b: Seq<Value>)
    ensures
        sig_of_list(a + b) == sig_of_list(a) + sig_of_list(b),
    decreases a,
{
    if a.len() == 0 {
        assert(a + b =~= b);
        assert(sig_of_list(a) + sig_of_list(b) =~= sig_of_list(b));
    } else {
        assert((a + b).drop_first() =~= a.drop_first() + b);
        lemma_sig_of_list_append(a.drop_first(), b);
        assert(sig_of(a[0]) + (sig_of_list(a.drop_first()) + sig_of_list(b)) =~= (sig_of(a[0])
            + sig_of_list(a.drop_first())) + sig_of_list(b));
    }
}

pub proof fn lemma_sig_of_list_snoc(vs: Seq<Value>, v: Value)
    ensures
        sig_of_list(vs.push(v)) == sig_of_list(vs) + sig_of(v),
{
    assert(vs.push(v) =~= vs + seq![v]);
    lemma_sig_of_list_append(vs, seq![v]);
    assert(seq![v].drop_first() =~= Seq::<Value>::empty());
    assert(sig_of_list(Seq::<Value>::empty()) == Seq::<u8>::empty());
    assert(seq![v].len() == 1 && seq![v][0] == v);
    assert(sig_of_list(seq![v]) == sig_of(v) + sig_of_list(seq![v].drop_first()));
    assert(sig_of(v) + Seq::<u8>::empty() =~= sig_of(v));
}


pub proof fn lemma_wf_elems_snoc(vs: Seq<Value>, esig: Seq<u8>, v: Value)
    requires
        wf_elems(vs, esig),
        wf(v),
        sig_of(v) == esig,
    ensures
        wf_elems(vs.push(v), esig),
    decreases vs,
{
    if vs.len() == 0 {
        assert(vs.push(v)[0] == v);
        assert(vs.push(v).drop_first() =~= Seq::<Value>::empty());
        assert(wf_elems(Seq::<Value>::empty(), esig));
    } else {
        assert(vs.push(v)[0] == vs[0]);
        assert(vs.push(v).drop_first() =~= vs.drop_first().push(v));
        lemma_wf_elems_snoc(vs.drop_first(), esig, v);
    }
}

pub proof fn lemma_wf_list_index(vs: Seq<Value>, i: int)
    requires
        wf_list(vs),
        0 <= i < vs.len(),
    ensures
        wf(vs[i]),
    decreases vs,
{
    if i > 0 {
        lemma_wf_list_index(vs.drop_first(), i - 1);
    }
}

pub proof fn lemma_wf_list_snoc(vs: Seq<Value>, v: Value)
    requires
        wf_list(vs),
        wf(v),
    ensures
        wf_list(vs.push(v)),
    decreases vs,
{
    if vs.len() == 0 {
        assert(vs.push(v)[0] == v);
        assert(vs.push(v).drop_first() =~= Seq::<Value>::empty());
        assert(wf_list(Seq::<Value>::empty()));
    } else {
        assert(vs.push(v)[0] == vs[0]);
        assert(vs.push(v).drop_first() =~= vs.drop_first().push(v));
        lemma_wf_list_snoc(vs.drop_first(), v);
    }
}

/// A one-code signature.
pub fn single_code_signature(c: u8) -> (r: Signature)
    ensures
        r@ == seq![c],
{
    let mut b: Vec<u8> = Vec::new();
    b.push(c);
    proof {
        assert(b@ =~= seq![c]);
    }
    Signature::from_bytes(b)
}

impl Value {
    /// The signature describing this value, built from its runtime tag.
    pub fn value_signature(&self) -> (s: Signature)
        ensures
            s@ == sig_of(*self),
        decreases *self,
    {
        match self {
            Value::U8(_) => single_code_signature('y' as u8),
            Value::Bool(_) => single_code_signature('b' as u8),
            Value::I16(_) => single_code_signature('n' as u8),
            Value::U16(_) => single_code_signature('q' as u8),
            Value::I32(_) => single_code_signature('i' as u8),
            Value::U32(_) => single_code_signature('u' as u8),
            Value::I64(_) => single_code_signature('x' as u8),
            Value::U64(_) => single_code_signature('t' as u8),
            Value::F64(_) => single_code_signature('d' as u8),
            Value::Str(_) => single_code_signature('s' as u8),
            Value::ObjectPath(_) => single_code_signature('o' as u8),
            Value::Signature(_) => single_code_signature('g' as u8),
            Value::Array(esig, _) => {
                let mut b: Vec<u8> = Vec::new();
                b.push('a' as u8);
                let eb = esig.to_bytes();
                b.extend_from_slice(eb.as_slice());
                proof {
                    assert(b@ =~= seq!['a' as u8] + esig@);
                }
                Signature::from_bytes(b)
            },
            Value::Structure(vs) => {
                let mut b: Vec<u8> = Vec::new();
                b.push('(' as u8);
                let mut i: usize = 0;
                proof {
                    assert(b@ =~= seq!['(' as u8] + sig_of_list(vs@.take(0)));
                    assert(vs@.take(0) =~= Seq::<Value>::empty());
                }
                while i < vs.len()
                    invariant
                        i <= vs@.len(),
                        b@ == seq!['(' as u8] + sig_of_list(vs@.take(i as int)),
                        *self == Value::Structure(*vs),
                    decreases vs@.len() - i,
                {
                    proof {
                        assert(decreases_to!(*self => self->Structure_0@[i as int]));
                        assert(self->Structure_0@[i as int] == vs@[i as int]);
                    }
                    let cs = vs[i].value_signature();
                    let cb = cs.to_bytes();
                    b.extend_from_slice(cb.as_slice());
                    proof {
                        assert(vs@.take(i + 1) =~= vs@.take(i as int).push(vs@[i as int]));
                        lemma_sig_of_list_snoc(vs@.take(i as int), vs@[i as int]);
                        assert(b@ =~= seq!['(' as u8] + sig_of_list(vs@.take(i + 1)));
                    }
                    i += 1;
                }
                b.push(')' as u8);
                proof {
                    assert(vs@.take(vs@.len() as int) =~= vs@);
                    assert(b@ =~= seq!['(' as u8] + sig_of_list(vs@) + seq![')' as u8]);
                }
                Signature::from_bytes(b)
            },
            Value::DictEntry(k, val) => {
                let mut b: Vec<u8> = Vec::new();
                b.push('{' as u8);
                let kb = k.value_signature();
                let kv = kb.to_bytes();
                b.extend_from_slice(kv.as_slice());
                let vb = val.value_signature();
                let vv = vb.to_bytes();
                b.extend_from_slice(vv.as_slice());
                b.push('}' as u8);
                proof {
                    assert(b@ =~= seq!['{' as u8] + sig_of(**k) + sig_of(**val) + seq!['}' as u8]);
                }
                Signature::from_bytes(b)
            },
            Value::Variant(_) => single_code_signature('v' as u8),
        }
    }
}

/// Structural equivalence of two values: equal tags and equal contents,
/// with strings and signatures compared by their character and byte
/// sequences.
pub open spec fn value_eq(a: Value, b: Value) -> bool
    decreases a,
{
    match (a, b) {
        (Value::U8(x), Value::U8(y)) => x == y,
        (Value::Bool(x), Value::Bool(y)) => x == y,
        (Value::I16(x), Value::I16(y)) => x == y,
        (Value::U16(x), Value::U16(y)) => x == y,
        (Value::I32(x), Value::I32(y)) => x == y,
        (Value::U32(x), Value::U32(y)) => x == y,
        (Value::I64(x), Value::I64(y)) => x == y,
        (Value::U64(x), Value::U64(y)) => x == y,
        (Value::F64(x), Value::F64(y)) => x == y,
        (Value::Str(x), Value::Str(y)) => x@ == y@,
        (Value::ObjectPath(x), Value::ObjectPath(y)) => x@ == y@,
        (Value::Signature(x), Value::Signature(y)) => x@ == y@,
        (Value::Array(e1, v1), Value::Array(e2, v2)) => e1@ == e2@ && value_list_eq(v1@, v2@),
        (Value::Structure(v1), Value::Structure(v2)) => value_list_eq(v1@, v2@),
        (Value::DictEntry(k1, x1), Value::DictEntry(k2, x2)) => value_eq(*k1, *k2) && value_eq(
            *x1,
            *x2,
        ),
        (Value::Variant(b1), Value::Variant(b2)) => value_eq(*b1, *b2),
        _ => false,
    }
}

/// Pointwise structural equivalence of two value lists.
pub open spec fn value_list_eq(a: Seq<Value>, b: Seq<Value>) -> bool
    decreases a,
{
    a.len() == b.len() && (a.len() == 0 || (value_eq(a[0], b[0]) && value_list_eq(
        a.drop_first(),
        b.drop_first(),
    )))
}

pub proof fn lemma_value_list_eq_snoc(a: Seq<Value>, b: Seq<Value>, x: Value, y: Value)
    requires
        value_list_eq(a, b),
        value_eq(x, y),
    ensures
        value_list_eq(a.push(x), b.push(y)),
    decreases a,
{
    if a.len() == 0 {
        assert(a.push(x)[0] == x && b.push(y)[0] == y);
        assert(a.push(x).drop_first() =~= Seq::<Value>::empty());
        assert(b.push(y).drop_first() =~= Seq::<Value>::empty());
        assert(value_list_eq(Seq::<Value>::empty(), Seq::<Value>::empty()));
    } else {
        assert(a.push(x)[0] == a[0] && b.push(y)[0] == b[0]);
        assert(a.push(x).drop_first() =~= a.drop_first().push(x));
        assert(b.push(y).drop_first() =~= b.drop_first().push(y));
        lemma_value_list_eq_snoc(a.drop_first(), b.drop_first(), x, y);
    }
}

/// Equivalent values carry the same signature.
pub proof fn lemma_value_eq_sig(a: Value, b: Value)
    requires
        value_eq(a, b),
    ensures
        sig_of(a) == sig_of(b),
    decreases a,
{
    match (a, b) {
        (Value::Array(e1, v1), Value::Array(e2, v2)) => {
            assert(seq!['a' as u8] + e1@ =~= seq!['a' as u8] + e2@);
        },
        (Value::Structure(v1), Value::Structure(v2)) => {
            lemma_value_list_eq_sig(v1@, v2@);
        },
        (Value::DictEntry(k1, x1), Value::DictEntry(k2, x2)) => {
            lemma_value_eq_sig(*k1, *k2);
            lemma_value_eq_sig(*x1, *x2);
        },
        _ => {
        },
    }
}

pub proof fn lemma_value_list_eq_sig(a: Seq<Value>, b: Seq<Value>)
    requires
        value_list_eq(a, b),
    ensures
        sig_of_list(a) == sig_of_list(b),
    decreases a,
{
    if a.len() > 0 {
        lemma_value_eq_sig(a[0], b[0]);
        lemma_value_list_eq_sig(a.drop_first(), b.drop_first());
    }
}

impl Value {
    /// A deep copy of this value, structurally equivalent to the original.
    pub fn deep_clone(&self) -> (r: Value)
        ensures
            value_eq(r, *self),
        decreases *self,
    {
        match self {
            Value::U8(x) => Value::U8(*x),
            Value::Bool(x) => Value::Bool(*x),
            Value::I16(x) => Value::I16(*x),
            Value::U16(x) => Value::U16(*x),
            Value::I32(x) => Value::I32(*x),
            Value::U32(x) => Value::U32(*x),
            Value::I64(x) => Value::I64(*x),
            Value::U64(x) => Value::U64(*x),
            Value::F64(x) => Value::F64(*x),
            Value::Str(s) => Value::Str(s.clone()),
            Value::ObjectPath(s) => Value::ObjectPath(s.clone()),
            Value::Signature(g) => Value::Signature(g.clone()),
            Value::Array(esig, elems) => {
                let mut out: Vec<Value> = Vec::new();
                let mut i: usize = 0;
                proof {
                    assert(elems@.take(0) =~= Seq::<Value>::empty());
                    assert(value_list_eq(out@, elems@.take(0)));
                }
                while i < elems.len()
                    invariant
                        i <= elems@.len(),
                        value_list_eq(out@, elems@.take(i as int)),
                        *self == Value::Array(*esig, *elems),
                    decreases elems@.len() - i,
                {
                    proof {
                        assert(decreases_to!(*self => self->Array_1@[i as int]));
                        assert(self->Array_1@[i as int] == elems@[i as int]);
                    }
                    let ghost pre = out@;
                    let c = elems[i].deep_clone();
                    out.push(c);
                    proof {
                        lemma_value_list_eq_snoc(pre, elems@.take(i as int), c, elems@[i as int]);
                        assert(elems@.take(i as int).push(elems@[i as int]) =~= elems@.take(
                            i as int + 1,
                        ));
                    }
                    i += 1;
                }
                proof {
                    assert(elems@.take(elems@.len() as int) =~= elems@);
                }
                Value::Array(esig.clone(), out)
            },
            Value::Structure(vs) => {
                let mut out: Vec<Value> = Vec::new();
                let mut i: usize = 0;
                proof {
                    assert(vs@.take(0) =~= Seq::<Value>::empty());
                    assert(value_list_eq(out@, vs@.take(0)));
                }
                while i < vs.len()
                    invariant
                        i <= vs@.len(),
                        value_list_eq(out@, vs@.take(i as int)),
                        *self == Value::Structure(*vs),
                    decreases vs@.len() - i,
                {
                    proof {
                        assert(decreases_to!(*self => self->Structure_0@[i as int]));
                        assert(self->Structure_0@[i as int] == vs@[i as int]);
                    }
                    let ghost pre = out@;
                    let c = vs[i].deep_clone();
                    out.push(c);
                    proof {
                        lemma_value_list_eq_snoc(pre, vs@.take(i as int), c, vs@[i as int]);
                        assert(vs@.take(i as int).push(vs@[i as int]) =~= vs@.take(i as int + 1));
                    }
                    i += 1;
                }
                proof {
                    assert(vs@.take(vs@.len() as int) =~= vs@);
                }
                Value::Structure(out)
            },
            Value::DictEntry(k, val) => Value::DictEntry(
                Box::new(k.deep_clone()),
                Box::new(val.deep_clone()),
            ),
            Value::Variant(b) => Value::Variant(Box::new(b.deep_clone())),
        }
    }
}

/// Every value's signature is nonempty, starts with its type code, and
/// never starts with a closing parenthesis.
pub proof fn lemma_sig_head(v: Value)
    ensures
        sig_of(v).len() >= 1,
        sig_of(v)[0] != ')' as u8,
{
    match v {
        Value::Array(esig, _) => {
        },
        _ => {
        },
    }
}

/// The signature of a well-formed value is one single complete type.
pub proof fn lemma_sig_of_single(v: Value)
    requires
        wf(v),
    ensures
        is_single_type(sig_of(v)),
    decreases v, 0int,
{
    let s = sig_of(v);
    match v {
        Value::Array(esig, elems) => {
            assert(s =~= seq!['a' as u8] + esig@);
            assert(s.subrange(1, s.len() as int) =~= esig@);
            crate::signature::lemma_type_end_localize(s, 1, s.len() as int, 1);
        },
        Value::Structure(vs) => {
            assert(s =~= seq!['(' as u8] + sig_of_list(vs@) + seq![')' as u8]);
            lemma_sig_head(vs@[0]);
            assert(sig_of_list(vs@)[0] == sig_of(vs@[0])[0]);
            assert(s[1] != ')' as u8);
            assert(s.subrange(1, s.len() as int) =~= sig_of_list(vs@) + seq![')' as u8]);
            lemma_sig_of_fields(vs@, s, 1);
        },
        Value::DictEntry(k, val) => {
            assert(s =~= seq!['{' as u8] + sig_of(*k) + sig_of(*val) + seq!['}' as u8]);
            assert(sig_of(*k).len() == 1);
            assert(s[1] == sig_of(*k)[0]);
            lemma_sig_of_single(*val);
            let lv = sig_of(*val).len() as int;
            let t = s.subrange(2, s.len() as int);
            assert(t.subrange(0, lv) =~= sig_of(*val));
            crate::signature::lemma_type_end_localize(t, 0, lv, 0);
            crate::signature::lemma_type_end_localize(s, 2, s.len() as int, 2);
            assert(s[2 + lv] == '}' as u8);
        },
        _ => {
        },
    }
}

/// A run of well-formed values' signatures followed by a closing
/// parenthesis scans as a field run.
pub proof fn lemma_sig_of_fields(vs: Seq<Value>, s: Seq<u8>, i: int)
    requires
        wf_list(vs),
        0 <= i <= s.len(),
        s.subrange(i, s.len() as int) == sig_of_list(vs) + seq![')' as u8],
    ensures
        crate::signature::fields_end(s, i) == Some(s.len() as int),
    decreases vs, 1int,
{
    if vs.len() == 0 {
        assert(sig_of_list(vs) =~= Seq::<u8>::empty());
        assert(s.subrange(i, s.len() as int).len() == 1);
        assert(s[i] == ')' as u8);
    } else {
        lemma_sig_of_single(vs[0]);
        lemma_sig_head(vs[0]);
        let s0 = sig_of(vs[0]);
        let l0 = s0.len() as int;
        let t = s.subrange(i, s.len() as int);
        assert(t.subrange(0, l0) =~= s0);
        crate::signature::lemma_type_end_localize(t, 0, l0, 0);
        crate::signature::lemma_type_end_localize(s, i, s.len() as int, i);
        assert(crate::signature::type_end(s, i) == Some(i + l0));
        assert(s[i] == s0[0]);
        assert(s[i] != ')' as u8);
        assert(sig_of_list(vs) == s0 + sig_of_list(vs.drop_first()));
        assert((s0 + sig_of_list(vs.drop_first())) + seq![')' as u8] =~= s0 + (sig_of_list(
            vs.drop_first(),
        ) + seq![')' as u8]));
        assert forall|j: int| 0 <= j < s.len() - (i + l0) implies #[trigger] s.subrange(
            i + l0,
            s.len() as int,
        )[j] == (sig_of_list(vs.drop_first()) + seq![')' as u8])[j] by {
            assert(s.subrange(i + l0, s.len() as int)[j] == s[i + l0 + j]);
            assert(s[i + l0 + j] == t[l0 + j]);
            assert(t[l0 + j] == (s0 + (sig_of_list(vs.drop_first()) + seq![')' as u8]))[l0 + j]);
        }
        assert(s.subrange(i + l0, s.len() as int) =~= sig_of_list(vs.drop_first()) + seq![
            ')' as u8,
        ]);
        lemma_sig_of_fields(vs.drop_first(), s, i + l0);
    }
}

pub proof fn lemma_wf_elems_skip(vs: Seq<Value>, esig: Seq<u8>, i: int)
    requires
        wf_elems(vs, esig),
        0 <= i <= vs.len(),
    ensures
        wf_elems(vs.skip(i), esig),
    decreases i,
{
    if i == 0 {
        assert(vs.skip(0) =~= vs);
    } else {
        assert(vs.skip(i) =~= vs.drop_first().skip(i - 1));
        lemma_wf_elems_skip(vs.drop_first(), esig, i - 1);
    }
}

pub proof fn lemma_wf_list_skip(vs: Seq<Value>, i: int)
    requires
        wf_list(vs),
        0 <= i <= vs.len(),
    ensures
        wf_list(vs.skip(i)),
    decreases i,
{
    if i == 0 {
        assert(vs.skip(0) =~= vs);
    } else {
        assert(vs.skip(i) =~= vs.drop_first().skip(i - 1));
        lemma_wf_list_skip(vs.drop_first(), i - 1);
    }
}

} // verus!
