//! The message envelope carried by the simulated network: a short kind tag
//! and a structured payload of named fields in a fixed order. Identity for
//! delivery bookkeeping is by kind and payload. The payload's wire size is
//! the length of its canonical JSON rendering (keys kept in field order),
//! which the traffic counters charge per sent copy.

use vstd::prelude::*;
use crate::strutil::{views_of, str_eq, vec_str_eq, spec_dec, clip64, sat_add64};

verus! {

/// Spec-level shape of one payload field value.
pub enum ValueV {
    S(Seq<char>),
    N(u64),
    A(Seq<Seq<char>>),
    Null,
}

/// One payload field value: a string, an unsigned number, an array of
/// strings, or null.
pub enum Value {
    S(String),
    N(u64),
    A(Vec<String>),
    Null,
}

impl View for Value {
    type V = ValueV;

    open spec fn view(&self) -> ValueV {
        match self {
            Value::S(s) => ValueV::S(s@),
            Value::N(n) => ValueV::N(*n),
            Value::A(v) => ValueV::A(views_of(v@)),
            Value::Null => ValueV::Null,
        }
    }
}

/// A structured payload: named fields in a fixed, canonical order.
pub struct Payload {
    pub fields: Vec<(String, Value)>,
}

impl View for Payload {
    type V = Seq<(Seq<char>, ValueV)>;

    open spec fn view(&self) -> Seq<(Seq<char>, ValueV)> {
        self.fields@.map_values(|f: (String, Value)| (f.0@, f.1@))
    }
}

/// Spec-level shape of a message.
pub struct MessageV {
    pub tip: Seq<char>,
    pub fields: Seq<(Seq<char>, ValueV)>,
}

/// A message envelope: a kind tag and a structured payload.
pub struct Message {
    pub tip: String,
    pub payload: Payload,
}

impl View for Message {
    type V = MessageV;

    open spec fn view(&self) -> MessageV {
        MessageV { tip: self.tip@, fields: self.payload@ }
    }
}

/// The views of a vector of messages.
pub open spec fn msg_views(s: Seq<Message>) -> Seq<MessageV> {
    s.map_values(|m: Message| m@)
}

/// Equality of two field values.
pub fn value_eq(a: &Value, b: &Value) -> (r: bool)
    ensures
        r == (a@ == b@),
{
    match (a, b) {
        (Value::S(x), Value::S(y)) => str_eq(x.as_str(), y.as_str()),
        (Value::N(x), Value::N(y)) => *x == *y,
        (Value::A(x), Value::A(y)) => vec_str_eq(x, y),
        (Value::Null, Value::Null) => true,
        _ => false,
    }
}

/// Equality of two payloads: same fields, same names, same order.
pub fn payload_eq(a: &Payload, b: &Payload) -> (r: bool)
    ensures
        r == (a@ == b@),
{
    if a.fields.len() != b.fields.len() {
        proof {
            assert(a@.len() == a.fields@.len());
            assert(b@.len() == b.fields@.len());
        }
        return false;
    }
    let mut i: usize = 0;
    while i < a.fields.len()
        invariant
            i <= a.fields@.len(),
            a.fields@.len() == b.fields@.len(),
            a@.len() == a.fields@.len(),
            b@.len() == b.fields@.len(),
            forall|j: int| 0 <= j < i ==> a@[j] == b@[j],
        decreases a.fields@.len() - i,
    {
        proof {
            assert(a@[i as int] == (a.fields@[i as int].0@, a.fields@[i as int].1@));
            assert(b@[i as int] == (b.fields@[i as int].0@, b.fields@[i as int].1@));
        }
        let name_ok = str_eq(a.fields[i].0.as_str(), b.fields[i].0.as_str());
        if !name_ok {
            return false;
        }
        let val_ok = value_eq(&a.fields[i].1, &b.fields[i].1);
        if !val_ok {
            return false;
        }
        i += 1;
    }
    proof {
        assert(a@ =~= b@);
    }
    true
}

/// Equality of two messages by kind and payload.
pub fn msg_eq(a: &Message, b: &Message) -> (r: bool)
    ensures
        r == (a@ == b@),
{
    if !str_eq(a.tip.as_str(), b.tip.as_str()) {
        return false;
    }
    payload_eq(&a.payload, &b.payload)
}

/// First field with the given name, if any.
pub open spec fn lookup_field(fs: Seq<(Seq<char>, ValueV)>, name: Seq<char>) -> Option<ValueV>
    decreases fs.len(),
{
    if fs.len() == 0 {
        Option::None
    } else if fs[0].0 == name {
        Option::Some(fs[0].1)
    } else {
        lookup_field(fs.drop_first(), name)
    }
}

proof fn lemma_lookup_skip(fs: Seq<(Seq<char>, ValueV)>, name: Seq<char>, i: int)
    requires
        0 <= i <= fs.len(),
        forall|j: int| 0 <= j < i ==> fs[j].0 != name,
    ensures
        lookup_field(fs, name) == lookup_field(fs.skip(i), name),
    decreases i,
{
    if i > 0 {
        assert(fs[0].0 != name);
        lemma_lookup_skip(fs.drop_first(), name, i - 1);
        assert(fs.drop_first().skip(i - 1) =~= fs.skip(i));
    } else {
        assert(fs.skip(0) =~= fs);
    }
}

impl Payload {
    /// An empty payload.
    pub fn empty() -> (r: Payload)
        ensures
            r@ == Seq::<(Seq<char>, ValueV)>::empty(),
    {
        let r = Payload { fields: Vec::new() };
        proof {
            assert(r@ =~= Seq::<(Seq<char>, ValueV)>::empty());
        }
        r
    }

    /// Appends a string field.
    pub fn with_str(self, name: &str, val: &str) -> (r: Payload)
        ensures
            r@ == self@.push((name@, ValueV::S(val@))),
    {
        let mut fields = self.fields;
        fields.push((String::from_str(name), Value::S(String::from_str(val))));
        let r = Payload { fields };
        proof {
            assert(r@ =~= self@.push((name@, ValueV::S(val@))));
        }
        r
    }

    /// Appends a numeric field.
    pub fn with_u64(self, name: &str, val: u64) -> (r: Payload)
        ensures
            r@ == self@.push((name@, ValueV::N(val))),
    {
        let mut fields = self.fields;
        fields.push((String::from_str(name), Value::N(val)));
        let r = Payload { fields };
        proof {
            assert(r@ =~= self@.push((name@, ValueV::N(val))));
        }
        r
    }

    /// Appends a string-array field.
    pub fn with_arr(self, name: &str, val: Vec<String>) -> (r: Payload)
        ensures
            r@ == self@.push((name@, ValueV::A(views_of(val@)))),
    {
        let ghost v = val@;
        let mut fields = self.fields;
        fields.push((String::from_str(name), Value::A(val)));
        let r = Payload { fields };
        proof {
            assert(r@ =~= self@.push((name@, ValueV::A(views_of(v)))));
        }
        r
    }

    /// Appends a null field.
    pub fn with_null(self, name: &str) -> (r: Payload)
        ensures
            r@ == self@.push((name@, ValueV::Null)),
    {
        let mut fields = self.fields;
        fields.push((String::from_str(name), Value::Null));
        let r = Payload { fields };
        proof {
            assert(r@ =~= self@.push((name@, ValueV::Null)));
        }
        r
    }

    /// Looks up the first field with the given name.
    pub fn get(&self, name: &str) -> (r: Option<&Value>)
        ensures
            match r {
                Option::Some(v) => lookup_field(self@, name@) == Option::Some(v@),
                Option::None => lookup_field(self@, name@) is None,
            },
    {
        let mut i: usize = 0;
        while i < self.fields.len()
            invariant
                i <= self.fields@.len(),
                self@.len() == self.fields@.len(),
                forall|j: int| 0 <= j < i ==> self@[j].0 != name@,
            decreases self.fields@.len() - i,
        {
            proof {
                assert(self@[i as int] == (self.fields@[i as int].0@, self.fields@[i as int].1@));
            }
            if str_eq(self.fields[i].0.as_str(), name) {
                proof {
                    lemma_lookup_skip(self@, name@, i as int);
                    assert(self@.skip(i as int)[0] == self@[i as int]);
                    assert(self@.skip(i as int).len() > 0);
                }
                return Option::Some(&self.fields[i].1);
            }
            i += 1;
        }
        proof {
            lemma_lookup_skip(self@, name@, self@.len() as int);
            assert(self@.skip(self@.len() as int).len() == 0);
        }
        Option::None
    }
}

impl Message {
    /// Builds a message from a kind tag and a payload.
    pub fn new(tip: &str, payload: Payload) -> (r: Message)
        ensures
            r@ == (MessageV { tip: tip@, fields: payload@ }),
    {
        Message { tip: String::from_str(tip), payload }
    }
}

/// A copy of a string vector with the same views.
pub fn dup_str_vec(v: &Vec<String>) -> (r: Vec<String>)
    ensures
        views_of(r@) == views_of(v@),
{
    let mut out: Vec<String> = Vec::new();
    let mut i: usize = 0;
    while i < v.len()
        invariant
            i <= v@.len(),
            out@.len() == i,
            forall|j: int| 0 <= j < i ==> out@[j]@ == v@[j]@,
        decreases v@.len() - i,
    {
        out.push(v[i].clone());
        i += 1;
    }
    proof {
        assert(views_of(out@) =~= views_of(v@));
    }
    out
}

/// A copy of a field value with the same view.
pub fn dup_value(v: &Value) -> (r: Value)
    ensures
        r@ == v@,
{
    match v {
        Value::S(s) => Value::S(s.clone()),
        Value::N(n) => Value::N(*n),
        Value::A(a) => Value::A(dup_str_vec(a)),
        Value::Null => Value::Null,
    }
}

/// A copy of a payload with the same view.
pub fn dup_payload(p: &Payload) -> (r: Payload)
    ensures
        r@ == p@,
{
    let mut fields: Vec<(String, Value)> = Vec::new();
    let mut i: usize = 0;
    while i < p.fields.len()
        invariant
            i <= p.fields@.len(),
            p@.len() == p.fields@.len(),
            fields@.len() == i,
            forall|j: int| 0 <= j < i ==> (fields@[j].0@, fields@[j].1@) == p@[j],
        decreases p.fields@.len() - i,
    {
        proof {
            assert(p@[i as int] == (p.fields@[i as int].0@, p.fields@[i as int].1@));
        }
        let name = p.fields[i].0.clone();
        let val = dup_value(&p.fields[i].1);
        fields.push((name, val));
        i += 1;
    }
    let r = Payload { fields };
    proof {
        assert(r@ =~= p@);
    }
    r
}

/// A copy of a message with the same view.
pub fn dup_message(m: &Message) -> (r: Message)
    ensures
        r@ == m@,
{
    Message { tip: m.tip.clone(), payload: dup_payload(&m.payload) }
}

/// Length of the canonical rendering of one character inside a JSON string:
/// quotes and backslashes are escaped with a backslash.
pub open spec fn esc_len(c: char) -> int {
    if c == '"' || c == '\\' {
        2
    } else {
        1
    }
}

/// Length of a character sequence inside a JSON string, with escapes.
pub open spec fn esc_str_len(s: Seq<char>) -> int
    decreases s.len(),
{
    if s.len() == 0 {
        0
    } else {
        esc_str_len(s.drop_last()) + esc_len(s.last())
    }
}

/// Length of a JSON string rendering, quotes included.
pub open spec fn str_enc_len(s: Seq<char>) -> int {
    2 + esc_str_len(s)
}

/// Length of the comma-separated renderings of an array's items.
pub open spec fn arr_enc_len(a: Seq<Seq<char>>) -> int
    decreases a.len(),
{
    if a.len() == 0 {
        0
    } else {
        arr_enc_len(a.drop_last()) + (if a.len() > 1 {
            1int
        } else {
            0int
        }) + str_enc_len(a.last())
    }
}

/// Length of the canonical rendering of one field value.
pub open spec fn value_enc_len(v: ValueV) -> int {
    match v {
        ValueV::S(s) => str_enc_len(s),
        ValueV::N(n) => spec_dec(n as int).len() as int,
        ValueV::A(a) => 2 + arr_enc_len(a),
        ValueV::Null => 4,
    }
}

/// Length of the comma-separated `"name":value` renderings of the fields.
pub open spec fn fields_enc_len(fs: Seq<(Seq<char>, ValueV)>) -> int
    decreases fs.len(),
{
    if fs.len() == 0 {
        0
    } else {
        fields_enc_len(fs.drop_last()) + (if fs.len() > 1 {
            1int
        } else {
            0int
        }) + str_enc_len(fs.last().0) + 1 + value_enc_len(fs.last().1)
    }
}

/// Length of the canonical JSON object rendering of a payload, braces
/// included: the wire size a sent copy of the message is charged.
pub open spec fn wire_len(m: MessageV) -> int {
    2 + fields_enc_len(m.fields)
}

/// Escaped length of a string slice, clipped to `u64`.
fn esc_str_len_x(s: &str) -> (r: u64)
    ensures
        r == clip64(esc_str_len(s@)),
{
    let n = s.unicode_len();
    let mut acc: u64 = 0;
    let mut i: usize = 0;
    while i < n
        invariant
            i <= n,
            n == s@.len(),
            acc == clip64(esc_str_len(s@.take(i as int))),
        decreases n - i,
    {
        let c = s.get_char(i);
        let step: u64 = if c == '"' || c == '\\' {
            2
        } else {
            1
        };
        proof {
            assert(s@.take(i + 1 as int).drop_last() =~= s@.take(i as int));
            assert(s@.take(i + 1 as int).last() == s@[i as int]);
        }
        acc = sat_add64(acc, step);
        i += 1;
    }
    proof {
        assert(s@.take(n as int) =~= s@);
    }
    acc
}

/// Number of decimal digits of `n`, clipped to `u64`.
fn dec_len_x(n: u64) -> (r: u64)
    ensures
        r == clip64(spec_dec(n as int).len() as int),
    decreases n,
{
    if n < 10 {
        1
    } else {
        let rest = dec_len_x(n / 10);
        sat_add64(rest, 1)
    }
}

/// Canonical rendering length of one field value, clipped to `u64`.
fn value_enc_len_x(v: &Value) -> (r: u64)
    ensures
        r == clip64(value_enc_len(v@)),
{
    match v {
        Value::S(s) => sat_add64(2, esc_str_len_x(s.as_str())),
        Value::N(n) => dec_len_x(*n),
        Value::A(a) => {
            let mut acc: u64 = 0;
            let mut i: usize = 0;
            while i < a.len()
                invariant
                    i <= a@.len(),
                    acc == clip64(arr_enc_len(views_of(a@).take(i as int))),
                decreases a@.len() - i,
            {
                let sep: u64 = if i > 0 {
                    1
                } else {
                    0
                };
                let item = sat_add64(2, esc_str_len_x(a[i].as_str()));
                proof {
                    assert(views_of(a@).take(i + 1 as int).drop_last() =~= views_of(a@).take(
                        i as int,
                    ));
                    assert(views_of(a@).take(i + 1 as int).last() == a@[i as int]@);
                }
                acc = sat_add64(acc, sat_add64(sep, item));
                i += 1;
            }
            proof {
                assert(views_of(a@).take(a@.len() as int) =~= views_of(a@));
            }
            sat_add64(2, acc)
        },
        Value::Null => 4,
    }
}

/// The wire size of a message: the length of the canonical JSON rendering
/// of its payload, clipped to `u64`.
pub fn wire_size(m: &Message) -> (r: u64)
    ensures
        r == clip64(wire_len(m@)),
{
    let mut acc: u64 = 0;
    let mut i: usize = 0;
    while i < m.payload.fields.len()
        invariant
            i <= m.payload.fields@.len(),
            m.payload@.len() == m.payload.fields@.len(),
            acc == clip64(fields_enc_len(m.payload@.take(i as int))),
        decreases m.payload.fields@.len() - i,
    {
        proof {
            assert(m.payload@[i as int] == (m.payload.fields@[i as int].0@,
            m.payload.fields@[i as int].1@));
        }
        let sep: u64 = if i > 0 {
            1
        } else {
            0
        };
        let name_len = sat_add64(2, esc_str_len_x(m.payload.fields[i].0.as_str()));
        let val_len = value_enc_len_x(&m.payload.fields[i].1);
        proof {
            assert(m.payload@.take(i + 1 as int).drop_last() =~= m.payload@.take(i as int));
            assert(m.payload@.take(i + 1 as int).last() == m.payload@[i as int]);
        }
        acc = sat_add64(acc, sat_add64(sep, sat_add64(name_len, sat_add64(1, val_len))));
        i += 1;
    }
    proof {
        assert(m.payload@.take(m.payload@.len() as int) =~= m.payload@);
    }
    sat_add64(2, acc)
}

} // verus!
