//! An in-memory key-value server core speaking the RESP wire protocol
//! (both the classic and the typed RESP3 forms): a value model with a
//! total order, a decoder from bytes, an encoder back to bytes, and a
//! command dispatcher over a shared store.
use vstd::prelude::*;

pub mod handlers;
pub mod numbers;
pub mod order;
pub mod parse;
pub mod router;
pub mod sorted;
pub mod store;

use crate::numbers::{
    dec_i64, dec_u, is_float_text, is_nan_text, is_utf8, i64_to_dec, u64_to_dec,
};
use crate::order::lt;

verus! {

broadcast use vstd::std_specs::vec::group_vec_axioms, vstd::seq::group_seq_axioms;

/// Carriage return: terminates every line-framed payload on the wire.
pub const CR: u8 = 13;

/// Line feed: follows each carriage return on the wire.
pub const LF: u8 = 10;

/// Why a decode failed. `Incomplete` says the input ended inside a
/// frame: with more bytes the same decode could still succeed.
#[derive(PartialEq, Eq, Structural, Clone, Copy, Debug)]
pub enum ParseError {
    SimpleStringParseError,
    IntegerParseError,
    BoolParseError,
    DoubleParseError,
    VerbatimStringParseError,
    UnknownDataType(u8),
    Incomplete,
}

/// A protocol double: a numeric payload kept as its decimal text exactly
/// as it appeared on the wire, or the NaN sentinel. The text form is the
/// value: this crate never converts it to machine floating point, which
/// keeps encoding bit-exact and the ordering total.
pub enum MyFloat {
    Real(Vec<u8>),
    NaN,
}

/// A verbatim string: an encoding tag and a payload, joined by a colon
/// on the wire.
pub struct VerbatimString {
    pub enc: Vec<u8>,
    pub data: Vec<u8>,
}

/// The closed union of every RESP3 value kind. Text payloads are byte
/// strings, exactly the bytes of the wire frame's body. `Dict` is the
/// protocol's map kind and holds its entries sorted by key; `Uniq` is
/// the protocol's set kind and holds its elements sorted; both under
/// the total order `lt` (see `order`), with no duplicates: that
/// invariant (`value_wf`) makes encoding deterministic.
pub enum Value {
    String(Vec<u8>),
    Error(Vec<u8>),
    Integer(i64),
    BulkString(Vec<u8>),
    Array(Vec<Value>),
    Null,
    Bool(bool),
    Double(MyFloat),
    BigNumber(Vec<u8>),
    BulkError(Vec<u8>),
    VerbatimString(VerbatimString),
    Dict(Vec<(Value, Value)>),
    Uniq(Vec<Value>),
    Push(Vec<Value>),
}

/// The mathematical shape of a double payload.
#[verifier::ext_equal]
pub enum FloatView {
    RealV(Seq<u8>),
    NaNV,
}

/// The mathematical shape of a value: one case per protocol kind,
/// text as byte sequences, aggregates as sequences. All contracts of
/// this crate speak of values through this view.
#[verifier::ext_equal]
pub enum ValueView {
    StrV(Seq<u8>),
    ErrV(Seq<u8>),
    IntV(i64),
    BulkV(Seq<u8>),
    ArrV(Seq<ValueView>),
    NullV,
    BoolV(bool),
    DblV(FloatView),
    BigV(Seq<u8>),
    BulkErrV(Seq<u8>),
    VerbV(Seq<u8>, Seq<u8>),
    DictV(Seq<(ValueView, ValueView)>),
    UniqV(Seq<ValueView>),
    PushV(Seq<ValueView>),
}

/// The views of a row of values.
pub open spec fn vview_seq(s: Seq<Value>) -> Seq<ValueView>
    decreases s,
{
    if s.len() == 0 {
        Seq::empty()
    } else {
        vview_seq(s.drop_last()).push(vview(s.last()))
    }
}

/// The views of a row of key-value pairs.
pub open spec fn vview_pairs(s: Seq<(Value, Value)>) -> Seq<(ValueView, ValueView)>
    decreases s,
{
    if s.len() == 0 {
        Seq::empty()
    } else {
        vview_pairs(s.drop_last()).push((vview(s.last().0), vview(s.last().1)))
    }
}

/// The view of a value.
pub open spec fn vview(v: Value) -> ValueView
    decreases v,
{
    match v {
        Value::String(s) => ValueView::StrV(s@),
        Value::Error(s) => ValueView::ErrV(s@),
        Value::Integer(i) => ValueView::IntV(i),
        Value::BulkString(s) => ValueView::BulkV(s@),
        Value::Array(a) => ValueView::ArrV(vview_seq(a@)),
        Value::Null => ValueView::NullV,
        Value::Bool(b) => ValueView::BoolV(b),
        Value::Double(f) => ValueView::DblV(
            match f {
                MyFloat::Real(t) => FloatView::RealV(t@),
                MyFloat::NaN => FloatView::NaNV,
            },
        ),
        Value::BigNumber(s) => ValueView::BigV(s@),
        Value::BulkError(s) => ValueView::BulkErrV(s@),
        Value::VerbatimString(vs) => ValueView::VerbV(vs.enc@, vs.data@),
        Value::Dict(m) => ValueView::DictV(vview_pairs(m@)),
        Value::Uniq(s) => ValueView::UniqV(vview_seq(s@)),
        Value::Push(a) => ValueView::PushV(vview_seq(a@)),
    }
}

impl View for Value {
    type V = ValueView;

    open spec fn view(&self) -> ValueView {
        vview(*self)
    }
}

impl View for MyFloat {
    type V = FloatView;

    open spec fn view(&self) -> FloatView {
        match *self {
            MyFloat::Real(t) => FloatView::RealV(t@),
            MyFloat::NaN => FloatView::NaNV,
        }
    }
}

/// A row's views are its elements' views, one for one.
pub proof fn lemma_vview_seq(s: Seq<Value>)
    ensures
        vview_seq(s).len() == s.len(),
        forall|i: int| 0 <= i < s.len() ==> vview_seq(s)[i] == vview(#[trigger] s[i]),
    decreases s,
{
    if s.len() > 0 {
        lemma_vview_seq(s.drop_last());
        assert forall|i: int| 0 <= i < s.len() implies vview_seq(s)[i] == vview(
            #[trigger] s[i],
        ) by {
            if i < s.len() - 1 {
                assert(s.drop_last()[i] == s[i]);
            }
        }
    }
}

/// A pair row's views are its pairs' views, one for one.
pub proof fn lemma_vview_pairs(s: Seq<(Value, Value)>)
    ensures
        vview_pairs(s).len() == s.len(),
        forall|i: int| 0 <= i < s.len() ==> vview_pairs(s)[i] == (
            vview(#[trigger] s[i].0),
            vview(s[i].1),
        ),
    decreases s,
{
    if s.len() > 0 {
        lemma_vview_pairs(s.drop_last());
        assert forall|i: int| 0 <= i < s.len() implies vview_pairs(s)[i] == (
            vview(#[trigger] s[i].0),
            vview(s[i].1),
        ) by {
            if i < s.len() - 1 {
                assert(s.drop_last()[i] == s[i]);
            }
        }
    }
}

/// Text that can sit in a line-framed payload: valid UTF-8 with no
/// carriage return (the line terminator) inside.
pub open spec fn text_ok(s: Seq<u8>) -> bool {
    is_utf8(s) && forall|i: int| 0 <= i < s.len() ==> #[trigger] s[i] != CR
}

/// The double payload is well formed: its text is in the grammar the
/// decoder accepts, is not a NaN spelling (those become the sentinel),
/// and fits a line.
pub open spec fn float_wf(f: FloatView) -> bool {
    match f {
        FloatView::RealV(t) => text_ok(t) && is_float_text(t) && !is_nan_text(t),
        FloatView::NaNV => true,
    }
}

/// Entries are strictly ascending by key under the total order.
pub open spec fn sorted_pairs(s: Seq<(ValueView, ValueView)>) -> bool {
    forall|i: int, j: int| 0 <= i < j < s.len() ==> lt(#[trigger] s[i].0, #[trigger] s[j].0)
}

/// Elements are strictly ascending under the total order.
pub open spec fn sorted_vals(s: Seq<ValueView>) -> bool {
    forall|i: int, j: int| 0 <= i < j < s.len() ==> lt(#[trigger] s[i], #[trigger] s[j])
}

/// Well-formedness of a value: every text payload fits its frame, a
/// double's text is in the accepted grammar, a verbatim string's
/// encoding tag holds no colon (the wire separator), and the map and
/// set kinds are sorted with no duplicates. The decoder only produces
/// well-formed values, and the encoder is only exact on them.
pub open spec fn value_wf(v: ValueView) -> bool
    decreases v,
{
    match v {
        ValueView::StrV(s) => text_ok(s),
        ValueView::ErrV(s) => text_ok(s),
        ValueView::IntV(_) => true,
        ValueView::BulkV(s) => text_ok(s),
        ValueView::ArrV(a) => forall|i: int| 0 <= i < a.len() ==> value_wf(#[trigger] a[i]),
        ValueView::NullV => true,
        ValueView::BoolV(_) => true,
        ValueView::DblV(f) => float_wf(f),
        ValueView::BigV(s) => text_ok(s),
        ValueView::BulkErrV(s) => text_ok(s),
        ValueView::VerbV(e, d) => e.len() > 0 && d.len() > 0 && text_ok(e + seq![58u8] + d)
            && forall|i: int| 0 <= i < e.len() ==> #[trigger] e[i] != 58,
        ValueView::DictV(m) => sorted_pairs(m) && forall|i: int|
            0 <= i < m.len() ==> value_wf(#[trigger] m[i].0) && value_wf(m[i].1),
        ValueView::UniqV(s) => sorted_vals(s) && forall|i: int|
            0 <= i < s.len() ==> value_wf(#[trigger] s[i]),
        ValueView::PushV(a) => forall|i: int| 0 <= i < a.len() ==> value_wf(#[trigger] a[i]),
    }
}

/// The two terminator bytes that end every line on the wire.
pub open spec fn crlf() -> Seq<u8> {
    seq![CR, LF]
}

/// The exact wire bytes of a value, per the protocol's framing table.
/// The NaN sentinel is written as the literal text `0.0`, a deliberate
/// simplification kept for wire compatibility.
pub open spec fn enc(v: ValueView) -> Seq<u8>
    decreases v,
{
    match v {
        ValueView::StrV(s) => seq![43u8] + s + crlf(),
        ValueView::ErrV(s) => seq![45u8] + s + crlf(),
        ValueView::IntV(i) => seq![58u8] + dec_i64(i as int) + crlf(),
        ValueView::BulkV(s) => seq![36u8] + dec_u(s.len()) + crlf() + s + crlf(),
        ValueView::ArrV(a) => seq![42u8] + dec_u(a.len()) + crlf() + enc_seq(a),
        ValueView::NullV => seq![95u8] + crlf(),
        ValueView::BoolV(b) => seq![35u8] + (if b {
            seq![116u8]
        } else {
            seq![102u8]
        }) + crlf(),
        ValueView::DblV(f) => seq![44u8] + (match f {
            FloatView::RealV(t) => t,
            FloatView::NaNV => seq![48u8, 46u8, 48u8],
        }) + crlf(),
        ValueView::BigV(s) => seq![40u8] + s + crlf(),
        ValueView::BulkErrV(s) => seq![33u8] + dec_u(s.len()) + crlf() + s + crlf(),
        ValueView::VerbV(e, d) => seq![61u8] + dec_u((e + seq![58u8] + d).len()) + crlf() + (e
            + seq![58u8] + d) + crlf(),
        ValueView::DictV(m) => seq![37u8] + dec_u(m.len()) + crlf() + enc_pairs(m),
        ValueView::UniqV(s) => seq![126u8] + dec_u(s.len()) + crlf() + enc_seq(s),
        ValueView::PushV(a) => seq![62u8] + dec_u(a.len()) + crlf() + enc_seq(a),
    }
}

/// The concatenated wire bytes of a row of values.
pub open spec fn enc_seq(s: Seq<ValueView>) -> Seq<u8>
    decreases s,
{
    if s.len() == 0 {
        Seq::empty()
    } else {
        enc_seq(s.drop_last()) + enc(s.last())
    }
}

/// The concatenated wire bytes of a row of key-value pairs.
pub open spec fn enc_pairs(s: Seq<(ValueView, ValueView)>) -> Seq<u8>
    decreases s,
{
    if s.len() == 0 {
        Seq::empty()
    } else {
        enc_pairs(s.drop_last()) + enc(s.last().0) + enc(s.last().1)
    }
}

/// A row's bytes split as the first element's bytes, then the rest.
pub proof fn lemma_enc_seq_head(s: Seq<ValueView>)
    requires
        s.len() > 0,
    ensures
        enc_seq(s) == enc(s[0]) + enc_seq(s.subrange(1, s.len() as int)),
    decreases s.len(),
{
    if s.len() == 1 {
        assert(s.drop_last() =~= Seq::<ValueView>::empty());
        assert(s.subrange(1, 1) =~= Seq::<ValueView>::empty());
        assert(enc_seq(s) =~= enc(s[0]) + enc_seq(s.subrange(1, 1)));
    } else {
        let t = s.drop_last();
        lemma_enc_seq_head(t);
        let r = s.subrange(1, s.len() as int);
        assert(r.drop_last() =~= t.subrange(1, t.len() as int));
        assert(r.last() == s.last());
        assert(enc_seq(s) =~= enc(s[0]) + enc_seq(r));
    }
}

/// A pair row's bytes split as the first pair's bytes, then the rest.
pub proof fn lemma_enc_pairs_head(s: Seq<(ValueView, ValueView)>)
    requires
        s.len() > 0,
    ensures
        enc_pairs(s) == enc(s[0].0) + enc(s[0].1) + enc_pairs(s.subrange(1, s.len() as int)),
    decreases s.len(),
{
    if s.len() == 1 {
        assert(s.drop_last() =~= Seq::<(ValueView, ValueView)>::empty());
        assert(s.subrange(1, 1) =~= Seq::<(ValueView, ValueView)>::empty());
        assert(enc_pairs(s) =~= enc(s[0].0) + enc(s[0].1) + enc_pairs(s.subrange(1, 1)));
    } else {
        let t = s.drop_last();
        lemma_enc_pairs_head(t);
        let r = s.subrange(1, s.len() as int);
        assert(r.drop_last() =~= t.subrange(1, t.len() as int));
        assert(r.last() == s.last());
        assert(enc_pairs(s) =~= enc(s[0].0) + enc(s[0].1) + enc_pairs(r));
    }
}

/// Append the bytes of a slice to a byte vector.
pub fn push_bytes(r: &mut Vec<u8>, s: &[u8])
    ensures
        final(r)@ == old(r)@ + s@,
{
    let mut k: usize = 0;
    while k < s.len()
        invariant
            0 <= k <= s@.len(),
            r@ == old(r)@ + s@.take(k as int),
        decreases s@.len() - k,
    {
        r.push(s[k]);
        assert(r@ =~= old(r)@ + s@.take(k + 1));
        k = k + 1;
    }
    assert(old(r)@ + s@.take(s@.len() as int) =~= old(r)@ + s@);
}

fn push_crlf(r: &mut Vec<u8>)
    ensures
        final(r)@ == old(r)@ + crlf(),
{
    r.push(CR);
    r.push(LF);
    assert(r@ =~= old(r)@ + crlf());
}

fn push_len(r: &mut Vec<u8>, n: usize)
    ensures
        final(r)@ == old(r)@ + dec_u(n as nat) + crlf(),
{
    let mut d = u64_to_dec(n as u64);
    r.append(&mut d);
    push_crlf(r);
}

impl Value {
    /// The exact wire encoding of this value: its tag byte, then
    /// length or count prefixes where the format asks for one, then
    /// the line-terminated body, recursively for the aggregate kinds.
    #[verifier::loop_isolation(false)]
    pub fn to_bytes(&self) -> (r: Vec<u8>)
        ensures
            r@ == enc(self@),
        decreases *self,
    {
        let mut r: Vec<u8> = Vec::new();
        match self {
            Value::String(s) => {
                r.push(43);
                push_bytes(&mut r, s.as_slice());
                push_crlf(&mut r);
                assert(r@ =~= enc(self@));
            }
            Value::Error(s) => {
                r.push(45);
                push_bytes(&mut r, s.as_slice());
                push_crlf(&mut r);
                assert(r@ =~= enc(self@));
            }
            Value::Integer(i) => {
                r.push(58);
                let mut d = i64_to_dec(*i);
                r.append(&mut d);
                push_crlf(&mut r);
                assert(r@ =~= enc(self@));
            }
            Value::BulkString(s) => {
                r.push(36);
                push_len(&mut r, s.len());
                push_bytes(&mut r, s.as_slice());
                push_crlf(&mut r);
                assert(r@ =~= enc(self@));
            }
            Value::Array(a) => {
                r.push(42);
                push_len(&mut r, a.len());
                let ghost head = r@;
                proof {
                    lemma_vview_seq(a@);
                }
                let mut i: usize = 0;
                while i < a.len()
                    invariant
                        0 <= i <= a@.len(),
                        r@ == head + enc_seq(vview_seq(a@).take(i as int)),
                    decreases a@.len() - i,
                {
                    let mut e = a[i].to_bytes();
                    r.append(&mut e);
                    proof {
                        let vs = vview_seq(a@);
                        assert(vs.take(i + 1).drop_last() =~= vs.take(i as int));
                        assert(vs.take(i + 1).last() == vview(a@[i as int]));
                    }
                    i = i + 1;
                }
                assert(vview_seq(a@).take(a@.len() as int) =~= vview_seq(a@));
                assert(r@ =~= enc(self@));
            }
            Value::Null => {
                r.push(95);
                push_crlf(&mut r);
                assert(r@ =~= enc(self@));
            }
            Value::Bool(b) => {
                r.push(35);
                if *b {
                    r.push(116);
                } else {
                    r.push(102);
                }
                push_crlf(&mut r);
                assert(r@ =~= enc(self@));
            }
            Value::Double(f) => {
                r.push(44);
                match f {
                    MyFloat::Real(t) => push_bytes(&mut r, t.as_slice()),
                    MyFloat::NaN => {
                        r.push(48);
                        r.push(46);
                        r.push(48);
                    }
                }
                push_crlf(&mut r);
                assert(r@ =~= enc(self@));
            }
            Value::BigNumber(s) => {
                r.push(40);
                push_bytes(&mut r, s.as_slice());
                push_crlf(&mut r);
                assert(r@ =~= enc(self@));
            }
            Value::BulkError(s) => {
                r.push(33);
                push_len(&mut r, s.len());
                push_bytes(&mut r, s.as_slice());
                push_crlf(&mut r);
                assert(r@ =~= enc(self@));
            }
            Value::VerbatimString(vs) => {
                r.push(61);
                let mut body: Vec<u8> = Vec::new();
                push_bytes(&mut body, vs.enc.as_slice());
                body.push(58);
                push_bytes(&mut body, vs.data.as_slice());
                assert(body@ =~= vs.enc@ + seq![58u8] + vs.data@);
                push_len(&mut r, body.len());
                push_bytes(&mut r, body.as_slice());
                push_crlf(&mut r);
                assert(r@ =~= enc(self@));
            }
            Value::Dict(m) => {
                r.push(37);
                push_len(&mut r, m.len());
                let ghost head = r@;
                proof {
                    lemma_vview_pairs(m@);
                }
                let mut i: usize = 0;
                while i < m.len()
                    invariant
                        0 <= i <= m@.len(),
                        r@ == head + enc_pairs(vview_pairs(m@).take(i as int)),
                    decreases m@.len() - i,
                {
                    let mut e = m[i].0.to_bytes();
                    r.append(&mut e);
                    let mut e2 = m[i].1.to_bytes();
                    r.append(&mut e2);
                    proof {
                        let vs = vview_pairs(m@);
                        assert(vs.take(i + 1).drop_last() =~= vs.take(i as int));
                        assert(vs.take(i + 1).last() == (
                            vview(m@[i as int].0),
                            vview(m@[i as int].1),
                        ));
                    }
                    i = i + 1;
                }
                assert(vview_pairs(m@).take(m@.len() as int) =~= vview_pairs(m@));
                assert(r@ =~= enc(self@));
            }
            Value::Uniq(s) => {
                r.push(126);
                push_len(&mut r, s.len());
                let ghost head = r@;
                proof {
                    lemma_vview_seq(s@);
                }
                let mut i: usize = 0;
                while i < s.len()
                    invariant
                        0 <= i <= s@.len(),
                        r@ == head + enc_seq(vview_seq(s@).take(i as int)),
                    decreases s@.len() - i,
                {
                    let mut e = s[i].to_bytes();
                    r.append(&mut e);
                    proof {
                        let vs = vview_seq(s@);
                        assert(vs.take(i + 1).drop_last() =~= vs.take(i as int));
                        assert(vs.take(i + 1).last() == vview(s@[i as int]));
                    }
                    i = i + 1;
                }
                assert(vview_seq(s@).take(s@.len() as int) =~= vview_seq(s@));
                assert(r@ =~= enc(self@));
            }
            Value::Push(a) => {
                r.push(62);
                push_len(&mut r, a.len());
                let ghost head = r@;
                proof {
                    lemma_vview_seq(a@);
                }
                let mut i: usize = 0;
                while i < a.len()
                    invariant
                        0 <= i <= a@.len(),
                        r@ == head + enc_seq(vview_seq(a@).take(i as int)),
                    decreases a@.len() - i,
                {
                    let mut e = a[i].to_bytes();
                    r.append(&mut e);
                    proof {
                        let vs = vview_seq(a@);
                        assert(vs.take(i + 1).drop_last() =~= vs.take(i as int));
                        assert(vs.take(i + 1).last() == vview(a@[i as int]));
                    }
                    i = i + 1;
                }
                assert(vview_seq(a@).take(a@.len() as int) =~= vview_seq(a@));
                assert(r@ =~= enc(self@));
            }
        }
        r
    }

    /// A copy of this value with the same view.
    #[verifier::loop_isolation(false)]
    pub fn deep_clone(&self) -> (r: Value)
        ensures
            r@ == self@,
        decreases *self,
    {
        match self {
            Value::String(s) => Value::String(clone_bytes(s)),
            Value::Error(s) => Value::Error(clone_bytes(s)),
            Value::Integer(i) => Value::Integer(*i),
            Value::BulkString(s) => Value::BulkString(clone_bytes(s)),
            Value::Array(a) => {
                let c = clone_values(a);
                let r = Value::Array(c);
                assert(r@ =~= self@);
                r
            }
            Value::Null => Value::Null,
            Value::Bool(b) => Value::Bool(*b),
            Value::Double(f) => Value::Double(
                match f {
                    MyFloat::Real(t) => MyFloat::Real(clone_bytes(t)),
                    MyFloat::NaN => MyFloat::NaN,
                },
            ),
            Value::BigNumber(s) => Value::BigNumber(clone_bytes(s)),
            Value::BulkError(s) => Value::BulkError(clone_bytes(s)),
            Value::VerbatimString(vs) => Value::VerbatimString(
                VerbatimString { enc: clone_bytes(&vs.enc), data: clone_bytes(&vs.data) },
            ),
            Value::Dict(m) => {
                let mut r: Vec<(Value, Value)> = Vec::new();
                let mut i: usize = 0;
                while i < m.len()
                    invariant
                        0 <= i <= m@.len(),
                        vview_pairs(r@) == vview_pairs(m@.take(i as int)),
                    decreases m@.len() - i,
                {
                    let kc = m[i].0.deep_clone();
                    let vc = m[i].1.deep_clone();
                    let ghost prev = r@;
                    r.push((kc, vc));
                    proof {
                        assert(r@.drop_last() =~= prev);
                        assert(m@.take(i + 1).drop_last() =~= m@.take(i as int));
                        assert(m@.take(i + 1).last() == m@[i as int]);
                        assert(vview_pairs(r@) =~= vview_pairs(m@.take(i + 1)));
                    }
                    i = i + 1;
                }
                assert(m@.take(m@.len() as int) =~= m@);
                let rr = Value::Dict(r);
                assert(rr@ =~= self@);
                rr
            }
            Value::Uniq(s) => {
                let c = clone_values(s);
                let r = Value::Uniq(c);
                assert(r@ =~= self@);
                r
            }
            Value::Push(a) => {
                let c = clone_values(a);
                let r = Value::Push(c);
                assert(r@ =~= self@);
                r
            }
        }
    }
}

/// A copy of a byte vector.
pub fn clone_bytes(s: &Vec<u8>) -> (r: Vec<u8>)
    ensures
        r@ == s@,
{
    let mut r: Vec<u8> = Vec::new();
    push_bytes(&mut r, s.as_slice());
    assert(Seq::<u8>::empty() + s@ =~= s@);
    r
}

/// A copy of a row of values, element views kept.
#[verifier::loop_isolation(false)]
pub fn clone_values(a: &Vec<Value>) -> (r: Vec<Value>)
    ensures
        vview_seq(r@) == vview_seq(a@),
    decreases *a,
{
    let mut r: Vec<Value> = Vec::new();
    let mut i: usize = 0;
    while i < a.len()
        invariant
            0 <= i <= a@.len(),
            vview_seq(r@) == vview_seq(a@.take(i as int)),
        decreases a@.len() - i,
    {
        let c = a[i].deep_clone();
        let ghost prev = r@;
        r.push(c);
        proof {
            assert(r@.drop_last() =~= prev);
            assert(a@.take(i + 1).drop_last() =~= a@.take(i as int));
            assert(a@.take(i + 1).last() == a@[i as int]);
            assert(vview_seq(r@) =~= vview_seq(a@.take(i + 1)));
        }
        i = i + 1;
    }
    assert(a@.take(a@.len() as int) =~= a@);
    r
}

/// The display text of a value, as the store-facing commands see it:
/// text kinds display as their payload, an integer as its digits, the
/// null as `None`, a boolean as `true` or `false`, a double as its
/// numeric text (the NaN sentinel as `0.0`), a verbatim string as its
/// colon-joined parts, and every aggregate kind as the word `ERROR`.
pub open spec fn text_of(v: ValueView) -> Seq<u8> {
    match v {
        ValueView::StrV(s) => s,
        ValueView::ErrV(s) => s,
        ValueView::IntV(i) => dec_i64(i as int),
        ValueView::BulkV(s) => s,
        ValueView::NullV => seq![78u8, 111u8, 110u8, 101u8],
        ValueView::BoolV(b) => if b {
            seq![116u8, 114u8, 117u8, 101u8]
        } else {
            seq![102u8, 97u8, 108u8, 115u8, 101u8]
        },
        ValueView::DblV(f) => match f {
            FloatView::RealV(t) => t,
            FloatView::NaNV => seq![48u8, 46u8, 48u8],
        },
        ValueView::BigV(s) => s,
        ValueView::BulkErrV(s) => s,
        ValueView::VerbV(e, d) => e + seq![58u8] + d,
        _ => seq![69u8, 82u8, 82u8, 79u8, 82u8],
    }
}

impl Value {
    /// The display text of this value (see `text_of`).
    pub fn value_text(&self) -> (r: Vec<u8>)
        ensures
            r@ == text_of(self@),
    {
        let mut r: Vec<u8> = Vec::new();
        match self {
            Value::String(s) => push_bytes(&mut r, s.as_slice()),
            Value::Error(s) => push_bytes(&mut r, s.as_slice()),
            Value::Integer(i) => {
                let mut d = i64_to_dec(*i);
                r.append(&mut d);
            }
            Value::BulkString(s) => push_bytes(&mut r, s.as_slice()),
            Value::Null => {
                r.push(78);
                r.push(111);
                r.push(110);
                r.push(101);
            }
            Value::Bool(b) => {
                if *b {
                    r.push(116);
                    r.push(114);
                    r.push(117);
                    r.push(101);
                } else {
                    r.push(102);
                    r.push(97);
                    r.push(108);
                    r.push(115);
                    r.push(101);
                }
            }
            Value::Double(f) => {
                match f {
                    MyFloat::Real(t) => push_bytes(&mut r, t.as_slice()),
                    MyFloat::NaN => {
                        r.push(48);
                        r.push(46);
                        r.push(48);
                    }
                }
            }
            Value::BigNumber(s) => push_bytes(&mut r, s.as_slice()),
            Value::BulkError(s) => push_bytes(&mut r, s.as_slice()),
            Value::VerbatimString(vs) => {
                push_bytes(&mut r, vs.enc.as_slice());
                r.push(58);
                push_bytes(&mut r, vs.data.as_slice());
            }
            _ => {
                r.push(69);
                r.push(82);
                r.push(82);
                r.push(79);
                r.push(82);
            }
        }
        assert(r@ =~= text_of(self@));
        r
    }
}

} // verus!
