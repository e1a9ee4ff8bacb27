//! The command handlers: each takes plain values, reads or mutates the
//! store, and returns the reply value. The connection plumbing around
//! them lives outside the library.
use vstd::prelude::*;

use crate::numbers::{dec_i64, i64_to_dec, lower, lower_bytes, parse_i64, parse_i64_of};
use crate::parse::lemma_dec_text_ok;
use crate::store::Store;
use crate::{push_bytes, text_of, value_wf, Value, ValueView};

verus! {

broadcast use vstd::std_specs::vec::group_vec_axioms, vstd::seq::group_seq_axioms;

/// The reply to a successful SET.
pub open spec fn ok_text() -> Seq<u8> {
    seq![79u8, 75u8]
}

/// The reply to INCR or DECR on a value that is not a 64-bit integer.
pub open spec fn not_int_text() -> Seq<u8> {
    seq![
        69u8, 82u8, 82u8, 32u8, 118u8, 97u8, 108u8, 117u8, 101u8, 32u8, 105u8, 115u8, 32u8, 110u8,
        111u8, 116u8, 32u8, 97u8, 110u8, 32u8, 105u8, 110u8, 116u8, 101u8, 103u8, 101u8, 114u8,
        32u8, 111u8, 114u8, 32u8, 111u8, 117u8, 116u8, 32u8, 111u8, 102u8, 32u8, 114u8, 97u8,
        110u8, 103u8, 101u8,
    ]
}

/// The error value for INCR or DECR on a non-integer, as a value.
pub fn not_int_error() -> (r: Value)
    ensures
        r@ == ValueView::ErrV(not_int_text()),
        value_wf(r@),
{
    let a: [u8; 43] = [
        69, 82, 82, 32, 118, 97, 108, 117, 101, 32, 105, 115, 32, 110, 111, 116, 32, 97, 110, 32,
        105, 110, 116, 101, 103, 101, 114, 32, 111, 114, 32, 111, 117, 116, 32, 111, 102, 32, 114,
        97, 110, 103, 101,
    ];
    let mut v: Vec<u8> = Vec::new();
    push_bytes(&mut v, &a);
    proof {
        assert(v@ =~= not_int_text());
        assert forall|i: int| 0 <= i < v@.len() implies #[trigger] v@[i] < 128 by {}
        crate::numbers::lemma_ascii_utf8(v@, 0);
    }
    Value::Error(v)
}

/// A fresh vector holding the bytes of the slice.
pub fn to_vec(s: &[u8]) -> (r: Vec<u8>)
    ensures
        r@ == s@,
{
    let mut v: Vec<u8> = Vec::new();
    push_bytes(&mut v, s);
    assert(Seq::<u8>::empty() + s@ =~= s@);
    v
}

/// GET: the stored value under the key, or the explicit null when the
/// key is absent. The store is never changed.
pub fn get(store: &Store, key: &[u8]) -> (reply: Value)
    requires
        store.wf(),
    ensures
        store@.contains_key(key@) ==> reply@ == store@[key@],
        !store@.contains_key(key@) ==> reply@ == ValueView::NullV,
        value_wf(reply@),
{
    match store.get(key) {
        Option::Some(v) => v,
        Option::None => Value::Null,
    }
}

/// SET: store the value under the key, replacing any entry, and reply
/// with the simple string `OK`.
pub fn set(store: &mut Store, key: Vec<u8>, value: Value) -> (reply: Value)
    requires
        old(store).wf(),
        value_wf(value@),
    ensures
        final(store)@ == old(store)@.insert(key@, value@),
        final(store).wf(),
        reply@ == ValueView::StrV(ok_text()),
        value_wf(reply@),
{
    store.insert(key, value);
    let mut v: Vec<u8> = Vec::new();
    v.push(79);
    v.push(75);
    proof {
        assert(v@ =~= ok_text());
        assert forall|i: int| 0 <= i < v@.len() implies #[trigger] v@[i] < 128 by {}
        crate::numbers::lemma_ascii_utf8(v@, 0);
    }
    Value::String(v)
}

/// What INCR or DECR does to the store and replies, as one step: an
/// absent key stores and replies the integer one (or minus one); a
/// present value counts by its display text and is re-encoded as the
/// digits in a bulk string on write; a text that is no 64-bit
/// integer, or a count that would leave the range, changes nothing
/// and is an error.
pub open spec fn counter_step(m: Map<Seq<u8>, ValueView>, k: Seq<u8>, up: bool) -> (
    Map<Seq<u8>, ValueView>,
    ValueView,
) {
    if !m.contains_key(k) {
        let fresh = ValueView::IntV(
            if up {
                1i64
            } else {
                -1i64
            },
        );
        (m.insert(k, fresh), fresh)
    } else {
        match parse_i64_of(text_of(m[k])) {
            Option::Some(i) => {
                if up && i < i64::MAX {
                    (
                        m.insert(k, ValueView::BulkV(dec_i64(i + 1))),
                        ValueView::IntV((i + 1) as i64),
                    )
                } else if !up && i > i64::MIN {
                    (
                        m.insert(k, ValueView::BulkV(dec_i64(i - 1))),
                        ValueView::IntV((i - 1) as i64),
                    )
                } else {
                    (m, ValueView::ErrV(not_int_text()))
                }
            },
            Option::None => (m, ValueView::ErrV(not_int_text())),
        }
    }
}

/// INCR: one step up. A fresh key stores and replies the integer one;
/// a present value is re-encoded as the digits in a bulk string on
/// write, the reply an integer; out-of-range and non-integer values
/// reply with an error and leave the store unchanged.
pub fn incr(store: &mut Store, key: &[u8]) -> (reply: Value)
    requires
        old(store).wf(),
    ensures
        final(store)@ == counter_step(old(store)@, key@, true).0,
        reply@ == counter_step(old(store)@, key@, true).1,
        final(store).wf(),
        value_wf(reply@),
{
    counter(store, key, true)
}

/// DECR: one step down, symmetric to INCR; a fresh key stores and
/// replies minus one.
pub fn decr(store: &mut Store, key: &[u8]) -> (reply: Value)
    requires
        old(store).wf(),
    ensures
        final(store)@ == counter_step(old(store)@, key@, false).0,
        reply@ == counter_step(old(store)@, key@, false).1,
        final(store).wf(),
        value_wf(reply@),
{
    counter(store, key, false)
}

/// The shared read-modify-write of INCR and DECR.
fn counter(store: &mut Store, key: &[u8], up: bool) -> (reply: Value)
    requires
        old(store).wf(),
    ensures
        final(store)@ == counter_step(old(store)@, key@, up).0,
        reply@ == counter_step(old(store)@, key@, up).1,
        final(store).wf(),
        value_wf(reply@),
{
    let prior: Option<i64> = match store.get(key) {
        Option::None => {
            let fresh: i64 = if up {
                1
            } else {
                -1
            };
            store.insert(to_vec(key), Value::Integer(fresh));
            return Value::Integer(fresh);
        },
        Option::Some(v) => {
            let text = v.value_text();
            parse_i64(text.as_slice())
        },
    };
    match prior {
        Option::Some(i) => {
            if up && i < i64::MAX {
                let stored = i64_to_dec(i + 1);
                proof {
                    lemma_dec_text_ok(i + 1);
                }
                store.insert(to_vec(key), Value::BulkString(stored));
                Value::Integer(i + 1)
            } else if !up && i > i64::MIN {
                let stored = i64_to_dec(i - 1);
                proof {
                    lemma_dec_text_ok(i - 1);
                }
                store.insert(to_vec(key), Value::BulkString(stored));
                Value::Integer(i - 1)
            } else {
                not_int_error()
            }
        },
        Option::None => not_int_error(),
    }
}

/// What DEL leaves of the store after removing the named keys, left
/// to right.
pub open spec fn del_map(m: Map<Seq<u8>, ValueView>, ks: Seq<Seq<u8>>) -> Map<Seq<u8>, ValueView>
    decreases ks,
{
    if ks.len() == 0 {
        m
    } else {
        del_map(m, ks.drop_last()).remove(ks.last())
    }
}

/// How many of the named keys DEL actually removes: a key counts only
/// where it is still present when its turn comes.
pub open spec fn del_count(m: Map<Seq<u8>, ValueView>, ks: Seq<Seq<u8>>) -> int
    decreases ks,
{
    if ks.len() == 0 {
        0
    } else {
        del_count(m, ks.drop_last()) + (if del_map(m, ks.drop_last()).contains_key(ks.last()) {
            1int
        } else {
            0int
        })
    }
}

/// The key views of a row of keys.
pub open spec fn key_views(ks: Seq<Vec<u8>>) -> Seq<Seq<u8>> {
    ks.map_values(|k: Vec<u8>| k@)
}

/// DEL: remove each named key that is present and reply with the
/// count of keys actually removed; absent keys are skipped silently.
#[verifier::loop_isolation(false)]
pub fn del(store: &mut Store, keys: &Vec<Vec<u8>>) -> (reply: Value)
    requires
        old(store).wf(),
    ensures
        final(store)@ == del_map(old(store)@, key_views(keys@)),
        reply@ == ValueView::IntV(
            if del_count(old(store)@, key_views(keys@)) <= i64::MAX {
                del_count(old(store)@, key_views(keys@)) as i64
            } else {
                i64::MAX
            },
        ),
        final(store).wf(),
        value_wf(reply@),
{
    let ghost m0 = old(store)@;
    let ghost kv = key_views(keys@);
    let mut count: i64 = 0;
    let mut i: usize = 0;
    proof {
        assert(kv.take(0) =~= Seq::<Seq<u8>>::empty());
    }
    while i < keys.len()
        invariant
            0 <= i <= keys@.len(),
            store.wf(),
            store@ == del_map(m0, kv.take(i as int)),
            0 <= count <= i64::MAX,
            count as int == (if del_count(m0, kv.take(i as int)) <= i64::MAX {
                del_count(m0, kv.take(i as int))
            } else {
                i64::MAX as int
            }),
            del_count(m0, kv.take(i as int)) <= i,
        decreases keys@.len() - i,
    {
        let removed = store.remove(keys[i].as_slice());
        if removed && count < i64::MAX {
            count = count + 1;
        }
        proof {
            assert(kv.take(i + 1).drop_last() =~= kv.take(i as int));
            assert(kv.take(i + 1).last() == kv[i as int]);
            assert(kv[i as int] == keys@[i as int]@);
        }
        i = i + 1;
    }
    proof {
        assert(kv.take(kv.len() as int) =~= kv);
    }
    Value::Integer(count)
}

/// COMMAND DOCS: serve the pre-encoded documentation payload when the
/// argument spells `docs` in any letter case, and stay silent on any
/// other argument.
pub fn handle_command_docs(arg: &[u8], docs: &Vec<u8>) -> (r: Option<Vec<u8>>)
    ensures
        lower(arg@) == seq![100u8, 111u8, 99u8, 115u8] ==> (r matches Some(d) && d@ == docs@),
        lower(arg@) != seq![100u8, 111u8, 99u8, 115u8] ==> r is None,
{
    let lo = lower_bytes(arg);
    let pat: [u8; 4] = [100, 111, 99, 115];
    proof {
        assert(pat@ =~= seq![100u8, 111u8, 99u8, 115u8]);
    }
    if crate::numbers::bytes_eq(lo.as_slice(), &pat) {
        Option::Some(to_vec(docs.as_slice()))
    } else {
        Option::None
    }
}

} // verus!
