//! The JSON value union and its canonical byte encoding.
//!
//! A `Value` is the payload an operation carries and the result a view
//! yields: null, boolean, number, string, array or object. Numbers are held
//! as the 64-bit pattern of an IEEE-754 double, so the encoding stays exact
//! and deterministic; integer payloads beyond 2^53 do not round-trip through
//! a double, a limit this library inherits from its wire format.
//!
//! The canonical encoding turns a value into one fixed byte string: every
//! replica hashing the same value must produce identical bytes (see the op
//! id and envelope digest). Object entries are encoded in the order held,
//! so that order is part of the value; `value_keys_sorted` names the one
//! order — keys strictly ascending — that decoders at the boundary are
//! expected to produce.
use vstd::prelude::*;

verus! {

/// An enum representing a JSON value.
#[derive(Debug, PartialEq)]
pub enum Value {
    Null,
    Bool(bool),
    /// The bit pattern of an IEEE-754 double, as by `f64::to_bits`.
    Number(u64),
    String(String),
    Array(Vec<Value>),
    Object(Vec<(String, Value)>),
}

/// The mathematical shape of a [`Value`]: the same tree over sequences.
pub enum ValueV {
    Null,
    Bool(bool),
    Number(u64),
    String(Seq<char>),
    Array(Seq<ValueV>),
    Object(Seq<(Seq<char>, ValueV)>),
}

/// The mathematical value of a [`Value`].
pub open spec fn value_view(v: Value) -> ValueV
    decreases v,
{
    match v {
        Value::Null => ValueV::Null,
        Value::Bool(b) => ValueV::Bool(b),
        Value::Number(n) => ValueV::Number(n),
        Value::String(s) => ValueV::String(s@),
        Value::Array(_) => ValueV::Array(views_of(v->Array_0@)),
        Value::Object(_) => ValueV::Object(entry_views_of(v->Object_0@)),
    }
}

/// The mathematical values of a sequence of values, elementwise.
pub open spec fn views_of(s: Seq<Value>) -> Seq<ValueV>
    decreases s,
{
    if s.len() == 0 {
        Seq::empty()
    } else {
        seq![value_view(s[0])] + views_of(s.drop_first())
    }
}

/// The mathematical values of object entries, elementwise.
pub open spec fn entry_views_of(s: Seq<(String, Value)>) -> Seq<(Seq<char>, ValueV)>
    decreases s,
{
    if s.len() == 0 {
        Seq::empty()
    } else {
        seq![(s[0].0@, value_view(s[0].1))] + entry_views_of(s.drop_first())
    }
}

impl View for Value {
    type V = ValueV;

    open spec fn view(&self) -> ValueV {
        value_view(*self)
    }
}

/// `views_of` maps elementwise.
pub broadcast proof fn lemma_views_of(s: Seq<Value>)
    ensures
        (#[trigger] views_of(s)).len() == s.len(),
        forall|i: int| 0 <= i < s.len() ==> views_of(s)[i] == s[i]@,
    decreases s,
{
    if s.len() > 0 {
        lemma_views_of(s.drop_first());
        assert forall|i: int| 0 <= i < s.len() implies views_of(s)[i] == s[i]@ by {
            if i > 0 {
                assert(views_of(s.drop_first())[i - 1] == s.drop_first()[i - 1]@);
            }
        }
    }
}

/// `entry_views_of` maps elementwise.
pub broadcast proof fn lemma_entry_views_of(s: Seq<(String, Value)>)
    ensures
        (#[trigger] entry_views_of(s)).len() == s.len(),
        forall|i: int| 0 <= i < s.len() ==> entry_views_of(s)[i] == (s[i].0@, s[i].1@),
    decreases s,
{
    if s.len() > 0 {
        lemma_entry_views_of(s.drop_first());
        assert forall|i: int| 0 <= i < s.len() implies entry_views_of(s)[i] == (
        s[i].0@,
        s[i].1@,
        ) by {
            if i > 0 {
                assert(entry_views_of(s.drop_first())[i - 1] == (
                    s.drop_first()[i - 1].0@,
                    s.drop_first()[i - 1].1@,
                ));
            }
        }
    }
}

impl Value {
    /// A deep copy: the copy has the same mathematical value.
    #[verifier::loop_isolation(false)]
    pub fn duplicate(&self) -> (r: Value)
        ensures
            r@ == self@,
        decreases self,
    {
        match self {
            Value::Null => Value::Null,
            Value::Bool(b) => Value::Bool(*b),
            Value::Number(n) => Value::Number(*n),
            Value::String(s) => Value::String(s.clone()),
            Value::Array(a) => {
                let mut out: Vec<Value> = Vec::new();
                let mut i: usize = 0;
                while i < a.len()
                    invariant
                        i <= a@.len(),
                        out@.len() == i,
                        forall|j: int| 0 <= j < i ==> out@[j]@ == a@[j]@,
                    decreases a@.len() - i,
                {
                    proof {
                        assert(decreases_to!(*self => self->Array_0@[i as int]));
                    }
                    let c = a[i].duplicate();
                    out.push(c);
                    i += 1;
                }
                let r = Value::Array(out);
                proof {
                    lemma_views_of(out@);
                    lemma_views_of(a@);
                    assert(views_of(out@) =~= views_of(a@));
                }
                r
            },
            Value::Object(o) => {
                let mut out: Vec<(String, Value)> = Vec::new();
                let mut i: usize = 0;
                while i < o.len()
                    invariant
                        i <= o@.len(),
                        out@.len() == i,
                        forall|j: int|
                            0 <= j < i ==> out@[j].0@ == o@[j].0@ && out@[j].1@ == o@[j].1@,
                    decreases o@.len() - i,
                {
                    proof {
                        assert(decreases_to!(*self => self->Object_0@[i as int].1));
                    }
                    let k = o[i].0.clone();
                    let v = o[i].1.duplicate();
                    out.push((k, v));
                    i += 1;
                }
                let r = Value::Object(out);
                proof {
                    lemma_entry_views_of(out@);
                    lemma_entry_views_of(o@);
                    assert(entry_views_of(out@) =~= entry_views_of(o@));
                }
                r
            },
        }
    }
}

/// The eight bytes of `n`, least significant first.
pub open spec fn u64_le(n: u64) -> Seq<u8> {
    seq![
        (n & 0xff) as u8,
        ((n >> 8) & 0xff) as u8,
        ((n >> 16) & 0xff) as u8,
        ((n >> 24) & 0xff) as u8,
        ((n >> 32) & 0xff) as u8,
        ((n >> 40) & 0xff) as u8,
        ((n >> 48) & 0xff) as u8,
        ((n >> 56) & 0xff) as u8,
    ]
}

/// Canonical bytes of a string: its UTF-8 length, then its UTF-8 bytes.
pub open spec fn str_canon(s: Seq<char>) -> Seq<u8> {
    u64_le(vstd::utf8::encode_utf8(s).len() as u64) + vstd::utf8::encode_utf8(s)
}

/// Whether every object in the value keeps its keys in strictly ascending
/// order (bytewise on their UTF-8 forms). The canonical encoding hashes
/// object entries in the order held, so two replicas deriving one id from
/// logically equal objects must build them in this one order; decoders at
/// the boundary are expected to produce it.
pub open spec fn value_keys_sorted(v: ValueV) -> bool
    decreases v,
{
    match v {
        ValueV::Null => true,
        ValueV::Bool(_) => true,
        ValueV::Number(_) => true,
        ValueV::String(_) => true,
        ValueV::Array(a) => values_keys_sorted(a),
        ValueV::Object(o) => entries_keys_sorted(o) && forall|i: int, j: int|
            0 <= i < j < o.len() ==> crate::lww_crdt::bytes_lt(
                vstd::utf8::encode_utf8(#[trigger] o[i].0),
                vstd::utf8::encode_utf8(#[trigger] o[j].0),
            ),
    }
}

/// Every element of the sequence keeps its object keys sorted.
pub open spec fn values_keys_sorted(s: Seq<ValueV>) -> bool
    decreases s,
{
    if s.len() == 0 {
        true
    } else {
        value_keys_sorted(s[0]) && values_keys_sorted(s.drop_first())
    }
}

/// Every entry value keeps its object keys sorted.
pub open spec fn entries_keys_sorted(s: Seq<(Seq<char>, ValueV)>) -> bool
    decreases s,
{
    if s.len() == 0 {
        true
    } else {
        value_keys_sorted(s[0].1) && entries_keys_sorted(s.drop_first())
    }
}

/// Canonical bytes of a value: a variant tag, then the payload in a fixed
/// form. Arrays and objects are length-prefixed and encode their entries in
/// the order held; see [`value_keys_sorted`] for the key-order convention
/// that makes the encoding canonical across replicas.
pub open spec fn value_canon(v: ValueV) -> Seq<u8>
    decreases v,
{
    match v {
        ValueV::Null => seq![0u8],
        ValueV::Bool(b) => seq![1u8, if b { 1u8 } else { 0u8 }],
        ValueV::Number(n) => seq![2u8] + u64_le(n),
        ValueV::String(s) => seq![3u8] + str_canon(s),
        ValueV::Array(a) => seq![4u8] + u64_le(a.len() as u64) + values_canon(a),
        ValueV::Object(o) => seq![5u8] + u64_le(o.len() as u64) + entries_canon(o),
    }
}

/// Canonical bytes of a sequence of values, in order.
pub open spec fn values_canon(s: Seq<ValueV>) -> Seq<u8>
    decreases s,
{
    if s.len() == 0 {
        Seq::empty()
    } else {
        value_canon(s[0]) + values_canon(s.drop_first())
    }
}

/// Canonical bytes of object entries: each key then its value, in order.
pub open spec fn entries_canon(s: Seq<(Seq<char>, ValueV)>) -> Seq<u8>
    decreases s,
{
    if s.len() == 0 {
        Seq::empty()
    } else {
        str_canon(s[0].0) + value_canon(s[0].1) + entries_canon(s.drop_first())
    }
}

/// Extending an encoded prefix by one more value appends that value's bytes.
proof fn lemma_values_canon_take(s: Seq<ValueV>, i: int)
    requires
        0 <= i < s.len(),
    ensures
        values_canon(s.take(i + 1)) == values_canon(s.take(i)) + value_canon(s[i]),
    decreases i,
{
    if i == 0 {
        assert(s.take(1).drop_first() =~= Seq::empty());
        assert(s.take(0) =~= Seq::<ValueV>::empty());
        assert(values_canon(s.take(1)) =~= value_canon(s[0]) + values_canon(Seq::empty()));
        assert(values_canon(s.take(1)) =~= values_canon(s.take(0)) + value_canon(s[0]));
    } else {
        let t = s.drop_first();
        lemma_values_canon_take(t, i - 1);
        assert(s.take(i + 1).drop_first() =~= t.take(i));
        assert(s.take(i).drop_first() =~= t.take(i - 1));
        assert(s.take(i + 1)[0] == s[0]);
        assert(s.take(i)[0] == s[0]);
        assert(t[i - 1] == s[i]);
        assert(values_canon(s.take(i + 1)) == value_canon(s[0]) + values_canon(t.take(i)));
        assert(values_canon(s.take(i)) == value_canon(s[0]) + values_canon(t.take(i - 1)));
        assert((value_canon(s[0]) + (values_canon(t.take(i - 1)) + value_canon(s[i]))) =~= (
        value_canon(s[0]) + values_canon(t.take(i - 1))) + value_canon(s[i]));
    }
}

/// The same, for object entries.
proof fn lemma_entries_canon_take(s: Seq<(Seq<char>, ValueV)>, i: int)
    requires
        0 <= i < s.len(),
    ensures
        entries_canon(s.take(i + 1)) == entries_canon(s.take(i)) + (str_canon(s[i].0)
            + value_canon(s[i].1)),
    decreases i,
{
    if i == 0 {
        assert(s.take(1).drop_first() =~= Seq::empty());
        assert(s.take(0) =~= Seq::<(Seq<char>, ValueV)>::empty());
        assert(entries_canon(s.take(1)) =~= str_canon(s[0].0) + value_canon(s[0].1)
            + entries_canon(Seq::empty()));
        assert(entries_canon(s.take(1)) =~= entries_canon(s.take(0)) + (str_canon(s[0].0)
            + value_canon(s[0].1)));
    } else {
        let t = s.drop_first();
        lemma_entries_canon_take(t, i - 1);
        assert(s.take(i + 1).drop_first() =~= t.take(i));
        assert(s.take(i).drop_first() =~= t.take(i - 1));
        assert(s.take(i + 1)[0] == s[0]);
        assert(s.take(i)[0] == s[0]);
        assert(t[i - 1] == s[i]);
        let head = str_canon(s[0].0) + value_canon(s[0].1);
        let mid = entries_canon(t.take(i - 1));
        let last = str_canon(s[i].0) + value_canon(s[i].1);
        assert(entries_canon(s.take(i + 1)) == head + (mid + last));
        assert(entries_canon(s.take(i)) == head + mid);
        assert(head + (mid + last) =~= (head + mid) + last);
    }
}

/// Append the eight little-endian bytes of `n`.
pub fn push_u64_le(out: &mut Vec<u8>, n: u64)
    ensures
        final(out)@ == old(out)@ + u64_le(n),
{
    proof {
        assert((n & 0xff) < 256 && ((n >> 8) & 0xff) < 256 && ((n >> 16) & 0xff) < 256 && ((n
            >> 24) & 0xff) < 256 && ((n >> 32) & 0xff) < 256 && ((n >> 40) & 0xff) < 256 && ((n
            >> 48) & 0xff) < 256 && ((n >> 56) & 0xff) < 256) by (bit_vector);
    }
    out.push((n & 0xff) as u8);
    out.push(((n >> 8) & 0xff) as u8);
    out.push(((n >> 16) & 0xff) as u8);
    out.push(((n >> 24) & 0xff) as u8);
    out.push(((n >> 32) & 0xff) as u8);
    out.push(((n >> 40) & 0xff) as u8);
    out.push(((n >> 48) & 0xff) as u8);
    out.push(((n >> 56) & 0xff) as u8);
    proof {
        assert(out@ =~= old(out)@ + u64_le(n));
    }
}

/// Append the canonical bytes of a string.
#[verifier::loop_isolation(false)]
pub fn push_str_canon(out: &mut Vec<u8>, s: &String)
    ensures
        final(out)@ == old(out)@ + str_canon(s@),
{
    let bytes: &[u8] = s.as_str().as_bytes();
    push_u64_le(out, bytes.len() as u64);
    let mut i: usize = 0;
    while i < bytes.len()
        invariant
            i <= bytes@.len(),
            bytes@ == vstd::utf8::encode_utf8(s@),
            out@ == old(out)@ + u64_le(bytes@.len() as u64) + bytes@.take(i as int),
        decreases bytes@.len() - i,
    {
        let b = bytes[i];
        out.push(b);
        proof {
            assert(bytes@.take(i + 1) =~= bytes@.take(i as int).push(b));
            assert(out@ =~= old(out)@ + u64_le(bytes@.len() as u64) + bytes@.take(i + 1));
        }
        i += 1;
    }
    proof {
        assert(bytes@.take(bytes@.len() as int) =~= bytes@);
        assert(out@ =~= old(out)@ + str_canon(s@));
    }
}

/// Append the canonical bytes of a value.
#[verifier::loop_isolation(false)]
pub fn push_value_canon(out: &mut Vec<u8>, v: &Value)
    ensures
        final(out)@ == old(out)@ + value_canon(v@),
    decreases v,
{
    match v {
        Value::Null => {
            out.push(0u8);
            proof {
                assert(out@ =~= old(out)@ + value_canon(v@));
            }
        },
        Value::Bool(b) => {
            out.push(1u8);
            out.push(if *b {
                1u8
            } else {
                0u8
            });
            proof {
                assert(out@ =~= old(out)@ + value_canon(v@));
            }
        },
        Value::Number(n) => {
            out.push(2u8);
            push_u64_le(out, *n);
            proof {
                assert(out@ =~= old(out)@ + value_canon(v@));
            }
        },
        Value::String(s) => {
            out.push(3u8);
            push_str_canon(out, s);
            proof {
                assert(out@ =~= old(out)@ + value_canon(v@));
            }
        },
        Value::Array(a) => {
            out.push(4u8);
            push_u64_le(out, a.len() as u64);
            let ghost elems = v@->Array_0;
            let ghost mid = old(out)@ + seq![4u8] + u64_le(a@.len() as u64);
            proof {
                lemma_views_of(a@);
                assert(elems.take(0) =~= Seq::<ValueV>::empty());
                assert(out@ =~= mid + values_canon(elems.take(0)));
            }
            let mut i: usize = 0;
            while i < a.len()
                invariant
                    i <= a@.len(),
                    elems.len() == a@.len(),
                    forall|j: int| 0 <= j < a@.len() ==> elems[j] == a@[j]@,
                    out@ == mid + values_canon(elems.take(i as int)),
                decreases a@.len() - i,
            {
                proof {
                    assert(decreases_to!(*v => v->Array_0@[i as int]));
                }
                push_value_canon(out, &a[i]);
                proof {
                    lemma_values_canon_take(elems, i as int);
                }
                i += 1;
            }
            proof {
                assert(elems.take(elems.len() as int) =~= elems);
                assert(out@ =~= old(out)@ + value_canon(v@));
            }
        },
        Value::Object(o) => {
            out.push(5u8);
            push_u64_le(out, o.len() as u64);
            let ghost entries = v@->Object_0;
            let ghost mid = old(out)@ + seq![5u8] + u64_le(o@.len() as u64);
            proof {
                lemma_entry_views_of(o@);
                assert(entries.take(0) =~= Seq::<(Seq<char>, ValueV)>::empty());
                assert(out@ =~= mid + entries_canon(entries.take(0)));
            }
            let mut i: usize = 0;
            while i < o.len()
                invariant
                    i <= o@.len(),
                    entries.len() == o@.len(),
                    forall|j: int|
                        0 <= j < o@.len() ==> entries[j].0 == o@[j].0@ && entries[j].1 == o@[j].1@,
                    out@ == mid + entries_canon(entries.take(i as int)),
                decreases o@.len() - i,
            {
                push_str_canon(out, &o[i].0);
                proof {
                    assert(decreases_to!(*v => v->Object_0@[i as int].1));
                }
                push_value_canon(out, &o[i].1);
                proof {
                    lemma_entries_canon_take(entries, i as int);
                    assert(out@ =~= mid + entries_canon(entries.take(i + 1)));
                }
                i += 1;
            }
            proof {
                assert(entries.take(entries.len() as int) =~= entries);
                assert(out@ =~= old(out)@ + value_canon(v@));
            }
        },
    }
}

} // verus!
