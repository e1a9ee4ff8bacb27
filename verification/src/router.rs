//! The dispatcher: a decoded top-level value is read as a command
//! invocation, checked for shape and arity, and routed to its handler;
//! the reply leaves as wire bytes. `dispatch_spec` is the mathematical
//! step the dispatcher takes, and `route` is proved against it.
use vstd::prelude::*;

use crate::handlers::{
    counter_step, decr, del, del_count, del_map, get, handle_command_docs, incr, key_views,
    not_int_text, ok_text,
};
use crate::numbers::{dec_i64, lower, lower_bytes, parse_i64_of};
use crate::store::Store;
use crate::{enc, push_bytes, text_of, value_wf, Value, ValueView};

verus! {

broadcast use vstd::std_specs::vec::group_vec_axioms, vstd::seq::group_seq_axioms;

/// The reply to a value that is no recognizable command.
pub open spec fn unknown_text() -> Seq<u8> {
    seq![
        69u8, 82u8, 82u8, 32u8, 117u8, 110u8, 107u8, 110u8, 111u8, 119u8, 110u8, 32u8, 99u8, 111u8,
        109u8, 109u8, 97u8, 110u8, 100u8,
    ]
}

/// The reply to a command whose argument row does not fit it: the
/// text names the handler that was asked for.
pub open spec fn arity_text(name: Seq<u8>) -> Seq<u8> {
    seq![
        69u8, 114u8, 114u8, 111u8, 114u8, 44u8, 32u8, 119u8, 114u8, 111u8, 110u8, 103u8, 32u8,
        97u8, 109u8, 111u8, 117u8, 110u8, 116u8, 32u8, 111u8, 102u8, 32u8, 97u8, 114u8, 103u8,
        117u8, 109u8, 101u8, 110u8, 116u8, 115u8, 32u8, 102u8, 111u8, 114u8, 32u8, 39u8,
    ] + name + seq![39u8, 32u8, 99u8, 111u8, 109u8, 109u8, 97u8, 110u8, 100u8]
}

/// The display texts of the arguments of a DEL invocation.
pub open spec fn texts_of(a: Seq<ValueView>) -> Seq<Seq<u8>> {
    a.map_values(|v: ValueView| text_of(v))
}

/// One dispatcher step: what the store becomes and which bytes go
/// back, for a decoded top-level value. `None` stands for no reply:
/// an empty invocation, or a COMMAND argument other than `docs`.
pub open spec fn dispatch_spec(
    m: Map<Seq<u8>, ValueView>,
    req: ValueView,
    docs: Seq<u8>,
) -> (Map<Seq<u8>, ValueView>, Option<Seq<u8>>) {
    match req {
        ValueView::ArrV(a) => {
            if a.len() == 0 {
                (m, Option::None)
            } else {
                match a[0] {
                    ValueView::BulkV(c0) => {
                        let c = lower(c0);
                        if c == seq![99u8, 111u8, 109u8, 109u8, 97u8, 110u8, 100u8] {
                            if a.len() == 1 {
                                (m, Option::Some(docs))
                            } else if a.len() == 2 && a[1] is BulkV {
                                if lower(a[1]->BulkV_0) == seq![100u8, 111u8, 99u8, 115u8] {
                                    (m, Option::Some(docs))
                                } else {
                                    (m, Option::None)
                                }
                            } else {
                                (
                                    m,
                                    Option::Some(
                                        enc(
                                            ValueView::ErrV(
                                                arity_text(
                                                    seq![
                                                        104u8, 97u8, 110u8, 100u8, 108u8, 101u8,
                                                        95u8, 99u8, 111u8, 109u8, 109u8, 97u8,
                                                        110u8, 100u8, 95u8, 100u8, 111u8, 99u8,
                                                        115u8,
                                                    ],
                                                ),
                                            ),
                                        ),
                                    ),
                                )
                            }
                        } else if c == seq![103u8, 101u8, 116u8] {
                            if a.len() == 2 && a[1] is BulkV {
                                let k = a[1]->BulkV_0;
                                let v = if m.contains_key(k) {
                                    m[k]
                                } else {
                                    ValueView::NullV
                                };
                                (m, Option::Some(enc(v)))
                            } else {
                                (
                                    m,
                                    Option::Some(
                                        enc(
                                            ValueView::ErrV(
                                                arity_text(seq![103u8, 101u8, 116u8]),
                                            ),
                                        ),
                                    ),
                                )
                            }
                        } else if c == seq![115u8, 101u8, 116u8] {
                            if a.len() == 3 && a[1] is BulkV {
                                (
                                    m.insert(a[1]->BulkV_0, a[2]),
                                    Option::Some(enc(ValueView::StrV(ok_text()))),
                                )
                            } else {
                                (
                                    m,
                                    Option::Some(
                                        enc(
                                            ValueView::ErrV(
                                                arity_text(seq![115u8, 101u8, 116u8]),
                                            ),
                                        ),
                                    ),
                                )
                            }
                        } else if c == seq![105u8, 110u8, 99u8, 114u8] {
                            if a.len() == 2 && a[1] is BulkV {
                                let st = counter_step(m, a[1]->BulkV_0, true);
                                (st.0, Option::Some(enc(st.1)))
                            } else {
                                (
                                    m,
                                    Option::Some(
                                        enc(
                                            ValueView::ErrV(
                                                arity_text(seq![105u8, 110u8, 99u8, 114u8]),
                                            ),
                                        ),
                                    ),
                                )
                            }
                        } else if c == seq![100u8, 101u8, 99u8, 114u8] {
                            if a.len() == 2 && a[1] is BulkV {
                                let st = counter_step(m, a[1]->BulkV_0, false);
                                (st.0, Option::Some(enc(st.1)))
                            } else {
                                (
                                    m,
                                    Option::Some(
                                        enc(
                                            ValueView::ErrV(
                                                arity_text(seq![100u8, 101u8, 99u8, 114u8]),
                                            ),
                                        ),
                                    ),
                                )
                            }
                        } else if c == seq![100u8, 101u8, 108u8] {
                            if a.len() >= 2 {
                                let ks = texts_of(a.subrange(1, a.len() as int));
                                let n = del_count(m, ks);
                                (
                                    del_map(m, ks),
                                    Option::Some(
                                        enc(
                                            ValueView::IntV(
                                                if n <= i64::MAX {
                                                    n as i64
                                                } else {
                                                    i64::MAX
                                                },
                                            ),
                                        ),
                                    ),
                                )
                            } else {
                                (
                                    m,
                                    Option::Some(
                                        enc(
                                            ValueView::ErrV(
                                                arity_text(seq![100u8, 101u8, 108u8]),
                                            ),
                                        ),
                                    ),
                                )
                            }
                        } else {
                            (m, Option::Some(enc(ValueView::ErrV(unknown_text()))))
                        }
                    },
                    _ => (m, Option::Some(enc(ValueView::ErrV(unknown_text())))),
                }
            }
        },
        _ => (m, Option::Some(enc(ValueView::ErrV(unknown_text())))),
    }
}

/// The bytes of an error reply with the given ASCII text.
fn error_reply(text: Vec<u8>) -> (r: Vec<u8>)
    requires
        forall|i: int| 0 <= i < text@.len() ==> #[trigger] text@[i] < 128 && text@[i] != crate::CR,
    ensures
        r@ == enc(ValueView::ErrV(text@)),
{
    proof {
        crate::numbers::lemma_ascii_utf8(text@, 0);
    }
    let v = Value::Error(text);
    v.to_bytes()
}

/// The unknown-command error bytes.
fn unknown_reply() -> (r: Vec<u8>)
    ensures
        r@ == enc(ValueView::ErrV(unknown_text())),
{
    let a: [u8; 19] = [
        69, 82, 82, 32, 117, 110, 107, 110, 111, 119, 110, 32, 99, 111, 109, 109, 97, 110, 100,
    ];
    let mut t: Vec<u8> = Vec::new();
    push_bytes(&mut t, &a);
    proof {
        assert(t@ =~= unknown_text());
    }
    error_reply(t)
}

/// The arity-error bytes for the named handler.
fn arity_reply(name: &[u8]) -> (r: Vec<u8>)
    requires
        forall|i: int| 0 <= i < name@.len() ==> #[trigger] name@[i] < 128 && name@[i] != crate::CR,
    ensures
        r@ == enc(ValueView::ErrV(arity_text(name@))),
{
    let pre: [u8; 38] = [
        69, 114, 114, 111, 114, 44, 32, 119, 114, 111, 110, 103, 32, 97, 109, 111, 117, 110, 116,
        32, 111, 102, 32, 97, 114, 103, 117, 109, 101, 110, 116, 115, 32, 102, 111, 114, 32, 39,
    ];
    let post: [u8; 9] = [39, 32, 99, 111, 109, 109, 97, 110, 100];
    let mut t: Vec<u8> = Vec::new();
    push_bytes(&mut t, &pre);
    push_bytes(&mut t, name);
    push_bytes(&mut t, &post);
    proof {
        assert(t@ =~= arity_text(name@));
    }
    error_reply(t)
}

/// Route one decoded value against the store: check its shape, match
/// the command name without regard to letter case, hold the handler's
/// arity, run it, and return the encoded reply bytes, or nothing where
/// the dispatcher stays silent. The store moves exactly as
/// `dispatch_spec` says.
#[verifier::loop_isolation(false)]
pub fn route(req: Value, store: &mut Store, docs: &Vec<u8>) -> (reply: Option<Vec<u8>>)
    requires
        old(store).wf(),
        value_wf(req@),
    ensures
        final(store).wf(),
        final(store)@ == dispatch_spec(old(store)@, req@, docs@).0,
        match reply {
            Option::Some(b) => dispatch_spec(old(store)@, req@, docs@).1 == Option::Some(b@),
            Option::None => dispatch_spec(old(store)@, req@, docs@).1 is None,
        },
{
    let arr = match req {
        Value::Array(a) => a,
        _ => {
            return Option::Some(unknown_reply());
        },
    };
    if arr.len() == 0 {
        proof {
            crate::lemma_vview_seq(arr@);
            assert(crate::vview_seq(arr@) =~= Seq::<ValueView>::empty());
        }
        return Option::None;
    }
    proof {
        crate::lemma_vview_seq(arr@);
    }
    let cmd = match &arr[0] {
        Value::BulkString(c) => lower_bytes(c.as_slice()),
        _ => {
            return Option::Some(unknown_reply());
        },
    };
    let name_command: [u8; 7] = [99, 111, 109, 109, 97, 110, 100];
    let name_get: [u8; 3] = [103, 101, 116];
    let name_set: [u8; 3] = [115, 101, 116];
    let name_incr: [u8; 4] = [105, 110, 99, 114];
    let name_decr: [u8; 4] = [100, 101, 99, 114];
    let name_del: [u8; 3] = [100, 101, 108];
    proof {
        assert(name_command@ =~= seq![99u8, 111u8, 109u8, 109u8, 97u8, 110u8, 100u8]);
        assert(name_get@ =~= seq![103u8, 101u8, 116u8]);
        assert(name_set@ =~= seq![115u8, 101u8, 116u8]);
        assert(name_incr@ =~= seq![105u8, 110u8, 99u8, 114u8]);
        assert(name_decr@ =~= seq![100u8, 101u8, 99u8, 114u8]);
        assert(name_del@ =~= seq![100u8, 101u8, 108u8]);
    }
    if crate::numbers::bytes_eq(cmd.as_slice(), &name_command) {
        if arr.len() == 1 {
            return Option::Some(crate::handlers::to_vec(docs.as_slice()));
        }
        if arr.len() == 2 {
            if let Value::BulkString(argb) = &arr[1] {
                return handle_command_docs(argb.as_slice(), docs);
            }
        }
        let h: [u8; 19] = [
            104, 97, 110, 100, 108, 101, 95, 99, 111, 109, 109, 97, 110, 100, 95, 100, 111, 99,
            115,
        ];
        return Option::Some(arity_reply(&h));
    }
    if crate::numbers::bytes_eq(cmd.as_slice(), &name_get) {
        if arr.len() == 2 {
            if let Value::BulkString(k) = &arr[1] {
                let v = get(store, k.as_slice());
                return Option::Some(v.to_bytes());
            }
        }
        return Option::Some(arity_reply(&name_get));
    }
    if crate::numbers::bytes_eq(cmd.as_slice(), &name_set) {
        if arr.len() == 3 {
            let is_bulk = match &arr[1] {
                Value::BulkString(_) => true,
                _ => false,
            };
            if is_bulk {
                let mut arr = arr;
                let val = arr.remove(2);
                let keyv = arr.remove(1);
                let key = match keyv {
                    Value::BulkString(k) => k,
                    _ => {
                        proof {
                            assert(false);
                        }
                        Vec::new()
                    },
                };
                let v = crate::handlers::set(store, key, val);
                return Option::Some(v.to_bytes());
            }
        }
        return Option::Some(arity_reply(&name_set));
    }
    if crate::numbers::bytes_eq(cmd.as_slice(), &name_incr) {
        if arr.len() == 2 {
            if let Value::BulkString(k) = &arr[1] {
                let v = incr(store, k.as_slice());
                return Option::Some(v.to_bytes());
            }
        }
        return Option::Some(arity_reply(&name_incr));
    }
    if crate::numbers::bytes_eq(cmd.as_slice(), &name_decr) {
        if arr.len() == 2 {
            if let Value::BulkString(k) = &arr[1] {
                let v = decr(store, k.as_slice());
                return Option::Some(v.to_bytes());
            }
        }
        return Option::Some(arity_reply(&name_decr));
    }
    if crate::numbers::bytes_eq(cmd.as_slice(), &name_del) {
        if arr.len() >= 2 {
            let mut keys: Vec<Vec<u8>> = Vec::new();
            let mut i: usize = 1;
            proof {
                assert(key_views(keys@) =~= texts_of(
                    crate::vview_seq(arr@).subrange(1, 1),
                ));
            }
            while i < arr.len()
                invariant
                    1 <= i <= arr@.len(),
                    key_views(keys@) == texts_of(
                        crate::vview_seq(arr@).subrange(1, i as int),
                    ),
                decreases arr@.len() - i,
            {
                let t = arr[i].value_text();
                let ghost prev = keys@;
                keys.push(t);
                proof {
                    let av = crate::vview_seq(arr@);
                    assert forall|j: int| 0 <= j < keys@.len() implies key_views(
                        keys@,
                    )[j] == texts_of(av.subrange(1, i + 1))[j] by {
                        assert(av.subrange(1, i + 1)[j] == av[1 + j]);
                        if j < keys@.len() - 1 {
                            assert(keys@[j] == prev[j]);
                            assert(key_views(prev)[j] == texts_of(av.subrange(1, i as int))[j]);
                            assert(av.subrange(1, i as int)[j] == av[1 + j]);
                        } else {
                            assert(keys@[j] == t);
                            assert(t@ == text_of(av[i as int]));
                        }
                    }
                    assert(key_views(keys@) =~= texts_of(av.subrange(1, i + 1)));
                }
                i = i + 1;
            }
            proof {
                assert(crate::vview_seq(arr@).subrange(1, arr@.len() as int)
                    =~= crate::vview_seq(arr@).subrange(1, crate::vview_seq(arr@).len() as int));
            }
            let v = del(store, &keys);
            return Option::Some(v.to_bytes());
        }
        return Option::Some(arity_reply(&name_del));
    }
    Option::Some(unknown_reply())
}

// ---------- laws of the dispatcher ----------

/// The invocation `GET k`.
pub open spec fn get_req(k: Seq<u8>) -> ValueView {
    ValueView::ArrV(seq![ValueView::BulkV(seq![103u8, 101u8, 116u8]), ValueView::BulkV(k)])
}

/// The invocation `SET k v`.
pub open spec fn set_req(k: Seq<u8>, v: ValueView) -> ValueView {
    ValueView::ArrV(seq![ValueView::BulkV(seq![115u8, 101u8, 116u8]), ValueView::BulkV(k), v])
}

/// The invocation `INCR k`.
pub open spec fn incr_req(k: Seq<u8>) -> ValueView {
    ValueView::ArrV(seq![ValueView::BulkV(seq![105u8, 110u8, 99u8, 114u8]), ValueView::BulkV(k)])
}

/// The invocation `DECR k`.
pub open spec fn decr_req(k: Seq<u8>) -> ValueView {
    ValueView::ArrV(seq![ValueView::BulkV(seq![100u8, 101u8, 99u8, 114u8]), ValueView::BulkV(k)])
}

/// Lower-casing text that holds no upper-case letters changes nothing.
proof fn lemma_lower_fixed(t: Seq<u8>)
    requires
        forall|i: int| 0 <= i < t.len() ==> !(65 <= #[trigger] t[i] <= 90),
    ensures
        lower(t) == t,
{
    assert(lower(t) =~= t);
}

/// GET never changes the store, and repeating a GET gives the same
/// reply: in particular any row of GETs after one SET keeps returning
/// the value that the SET stored.
pub proof fn lemma_get_pure(m: Map<Seq<u8>, ValueView>, k: Seq<u8>, docs: Seq<u8>)
    ensures
        dispatch_spec(m, get_req(k), docs).0 == m,
        dispatch_spec(dispatch_spec(m, get_req(k), docs).0, get_req(k), docs).1 == dispatch_spec(
            m,
            get_req(k),
            docs,
        ).1,
{
    lemma_lower_fixed(seq![103u8, 101u8, 116u8]);
}

/// After `SET k v`, a GET of `k` replies with exactly the encoding of
/// `v`, and the store change is exactly the one entry.
pub proof fn lemma_set_then_get(
    m: Map<Seq<u8>, ValueView>,
    k: Seq<u8>,
    v: ValueView,
    docs: Seq<u8>,
)
    ensures
        dispatch_spec(m, set_req(k, v), docs).0 == m.insert(k, v),
        dispatch_spec(m, set_req(k, v), docs).1 == Option::Some(enc(ValueView::StrV(ok_text()))),
        dispatch_spec(dispatch_spec(m, set_req(k, v), docs).0, get_req(k), docs).1
            == Option::Some(enc(v)),
{
    lemma_lower_fixed(seq![115u8, 101u8, 116u8]);
    lemma_lower_fixed(seq![103u8, 101u8, 116u8]);
}

/// INCR on an absent key stores the integer one and replies with it;
/// the DECR that follows brings the counter back to zero, replying
/// zero: the two together return the key to the neutral count.
pub proof fn lemma_incr_then_decr(m: Map<Seq<u8>, ValueView>, k: Seq<u8>, docs: Seq<u8>)
    requires
        !m.contains_key(k),
    ensures
        dispatch_spec(m, incr_req(k), docs).0 == m.insert(k, ValueView::IntV(1)),
        dispatch_spec(m, incr_req(k), docs).1 == Option::Some(enc(ValueView::IntV(1))),
        dispatch_spec(dispatch_spec(m, incr_req(k), docs).0, decr_req(k), docs).1
            == Option::Some(enc(ValueView::IntV(0))),
        dispatch_spec(dispatch_spec(m, incr_req(k), docs).0, decr_req(k), docs).0 == m.insert(
            k,
            ValueView::BulkV(dec_i64(0)),
        ),
{
    lemma_lower_fixed(seq![105u8, 110u8, 99u8, 114u8]);
    lemma_lower_fixed(seq![100u8, 101u8, 99u8, 114u8]);
    let m1 = dispatch_spec(m, incr_req(k), docs).0;
    assert(m1 == m.insert(k, ValueView::IntV(1)));
    assert(text_of(m1[k]) == dec_i64(1));
    crate::numbers::lemma_parse_dec_i64(1);
    assert(m1.insert(k, ValueView::BulkV(dec_i64(0))) =~= m.insert(
        k,
        ValueView::BulkV(dec_i64(0)),
    ));
}

/// A SET with no value is an arity error and creates nothing: the
/// store stays exactly as it was.
pub proof fn lemma_set_arity(m: Map<Seq<u8>, ValueView>, k: Seq<u8>, docs: Seq<u8>)
    ensures
        dispatch_spec(
            m,
            ValueView::ArrV(
                seq![ValueView::BulkV(seq![115u8, 101u8, 116u8]), ValueView::BulkV(k)],
            ),
            docs,
        ).0 == m,
        dispatch_spec(
            m,
            ValueView::ArrV(
                seq![ValueView::BulkV(seq![115u8, 101u8, 116u8]), ValueView::BulkV(k)],
            ),
            docs,
        ).1 == Option::Some(enc(ValueView::ErrV(arity_text(seq![115u8, 101u8, 116u8])))),
{
    lemma_lower_fixed(seq![115u8, 101u8, 116u8]);
}

/// INCR on a key whose stored text is no 64-bit integer replies with
/// the error and leaves the store, and so the key's value, unchanged.
pub proof fn lemma_incr_non_integer(
    m: Map<Seq<u8>, ValueView>,
    k: Seq<u8>,
    docs: Seq<u8>,
)
    requires
        m.contains_key(k),
        parse_i64_of(text_of(m[k])) is None,
    ensures
        dispatch_spec(m, incr_req(k), docs).0 == m,
        dispatch_spec(m, incr_req(k), docs).1 == Option::Some(
            enc(ValueView::ErrV(not_int_text())),
        ),
{
    lemma_lower_fixed(seq![105u8, 110u8, 99u8, 114u8]);
}

} // verus!
