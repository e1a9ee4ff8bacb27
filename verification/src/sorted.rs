//! The sorted rows behind the map and set kinds: insertion that keeps
//! entries strictly ascending (overwriting an equal key, collapsing an
//! equal element), and the canonicity law that makes encoding
//! deterministic: two sorted rows with the same members are the same
//! row, whatever order their members arrived in.
use vstd::prelude::*;

use crate::order::{
    lemma_lt_asym, lemma_lt_connex, lemma_lt_trans, lt, value_cmp, Cmp,
};
use crate::{sorted_pairs, sorted_vals, vview_pairs, Value, ValueView};

verus! {

broadcast use vstd::std_specs::vec::group_vec_axioms, vstd::seq::group_seq_axioms;

/// Insertion into a key-sorted row of pairs: entries with smaller keys
/// stay in front, an entry with the same key is replaced, the rest
/// moves right.
pub open spec fn dict_insert(
    s: Seq<(ValueView, ValueView)>,
    k: ValueView,
    v: ValueView,
) -> Seq<(ValueView, ValueView)>
    decreases s.len(),
{
    if s.len() == 0 {
        seq![(k, v)]
    } else if lt(s[0].0, k) {
        seq![s[0]] + dict_insert(s.subrange(1, s.len() as int), k, v)
    } else if s[0].0 == k {
        seq![(k, v)] + s.subrange(1, s.len() as int)
    } else {
        seq![(k, v)] + s
    }
}

/// Insertion into a sorted row of values: smaller elements stay in
/// front, an equal element collapses, the rest moves right.
pub open spec fn uniq_insert(s: Seq<ValueView>, x: ValueView) -> Seq<ValueView>
    decreases s.len(),
{
    if s.len() == 0 {
        seq![x]
    } else if lt(s[0], x) {
        seq![s[0]] + uniq_insert(s.subrange(1, s.len() as int), x)
    } else if s[0] == x {
        s
    } else {
        seq![x] + s
    }
}

/// Inserting a key greater than every present key appends the entry.
pub proof fn lemma_dict_insert_ascending(
    s: Seq<(ValueView, ValueView)>,
    k: ValueView,
    v: ValueView,
)
    requires
        forall|j: int| 0 <= j < s.len() ==> lt(#[trigger] s[j].0, k),
    ensures
        dict_insert(s, k, v) == s + seq![(k, v)],
    decreases s.len(),
{
    if s.len() == 0 {
        assert(dict_insert(s, k, v) =~= s + seq![(k, v)]);
    } else {
        let t = s.subrange(1, s.len() as int);
        lemma_dict_insert_ascending(t, k, v);
        assert(dict_insert(s, k, v) =~= s + seq![(k, v)]);
    }
}

/// Inserting an element greater than every present element appends it.
pub proof fn lemma_uniq_insert_ascending(s: Seq<ValueView>, x: ValueView)
    requires
        forall|j: int| 0 <= j < s.len() ==> lt(#[trigger] s[j], x),
    ensures
        uniq_insert(s, x) == s + seq![x],
    decreases s.len(),
{
    if s.len() == 0 {
        assert(uniq_insert(s, x) =~= s + seq![x]);
    } else {
        lemma_lt_asym(s[0], x);
        let t = s.subrange(1, s.len() as int);
        lemma_uniq_insert_ascending(t, x);
        assert(uniq_insert(s, x) =~= s + seq![x]);
    }
}

/// Insertion keeps the row sorted, and its members are the old
/// members with the new key's entry in place of any equal key.
pub proof fn lemma_dict_insert_sorted(s: Seq<(ValueView, ValueView)>, k: ValueView, v: ValueView)
    requires
        sorted_pairs(s),
    ensures
        sorted_pairs(dict_insert(s, k, v)),
        forall|x: (ValueView, ValueView)|
            #[trigger] dict_insert(s, k, v).contains(x) <==> (x == (k, v) || (s.contains(x) && x.0
                != k)),
    decreases s.len(),
{
    let r = dict_insert(s, k, v);
    if s.len() == 0 {
        assert forall|x: (ValueView, ValueView)| r.contains(x) implies (x == (k, v) || (
        s.contains(x) && x.0 != k)) by {}
        assert(r[0] == (k, v));
        assert(r.contains((k, v)));
    } else {
        let t = s.subrange(1, s.len() as int);
        assert(sorted_pairs(t));
        assert forall|x: (ValueView, ValueView)| t.contains(x) implies s.contains(x) by {
            let j = choose|j: int| 0 <= j < t.len() && t[j] == x;
            assert(s[j + 1] == x);
        }
        if lt(s[0].0, k) {
            lemma_dict_insert_sorted(t, k, v);
            let rt = dict_insert(t, k, v);
            assert(r =~= seq![s[0]] + rt);
            // the head is below the new key and every old tail key
            assert forall|i: int, j: int| 0 <= i < j < r.len() implies lt(
                #[trigger] r[i].0,
                #[trigger] r[j].0,
            ) by {
                if i == 0 {
                    assert(rt.contains(r[j]));
                    if r[j] == (k, v) {
                    } else {
                        assert(t.contains(r[j]));
                        let m = choose|m: int| 0 <= m < t.len() && t[m] == r[j];
                        assert(s[m + 1] == r[j]);
                        assert(lt(s[0].0, s[m + 1].0));
                    }
                } else {
                    assert(rt[i - 1] == r[i] && rt[j - 1] == r[j]);
                }
            }
            assert forall|x: (ValueView, ValueView)| r.contains(x) implies (x == (k, v) || (
            s.contains(x) && x.0 != k)) by {
                let j = choose|j: int| 0 <= j < r.len() && r[j] == x;
                if j == 0 {
                    lemma_lt_asym(s[0].0, k);
                } else {
                    assert(rt[j - 1] == x);
                    assert(rt.contains(x));
                    if x != (k, v) {
                        assert(t.contains(x));
                    }
                }
            }
            assert forall|x: (ValueView, ValueView)| (x == (k, v) || (s.contains(x) && x.0
                != k)) implies r.contains(x) by {
                if x == (k, v) {
                    assert(rt.contains(x));
                    let m = choose|m: int| 0 <= m < rt.len() && rt[m] == x;
                    assert(r[m + 1] == x);
                } else {
                    let j = choose|j: int| 0 <= j < s.len() && s[j] == x;
                    if j == 0 {
                        assert(r[0] == x);
                    } else {
                        assert(t[j - 1] == x);
                        assert(t.contains(x));
                        assert(rt.contains(x));
                        let m = choose|m: int| 0 <= m < rt.len() && rt[m] == x;
                        assert(r[m + 1] == x);
                    }
                }
            }
        } else if s[0].0 == k {
            assert(r =~= seq![(k, v)] + t);
            assert forall|i: int, j: int| 0 <= i < j < r.len() implies lt(
                #[trigger] r[i].0,
                #[trigger] r[j].0,
            ) by {
                if i == 0 {
                    assert(r[j] == s[j]);
                    assert(lt(s[0].0, s[j].0));
                } else {
                    assert(r[i] == s[i] && r[j] == s[j]);
                }
            }
            assert forall|x: (ValueView, ValueView)| r.contains(x) implies (x == (k, v) || (
            s.contains(x) && x.0 != k)) by {
                let j = choose|j: int| 0 <= j < r.len() && r[j] == x;
                if j > 0 {
                    assert(s[j] == x);
                    assert(lt(s[0].0, s[j].0));
                    lemma_lt_asym(s[0].0, s[j].0);
                }
            }
            assert forall|x: (ValueView, ValueView)| (x == (k, v) || (s.contains(x) && x.0
                != k)) implies r.contains(x) by {
                if x == (k, v) {
                    assert(r[0] == x);
                } else {
                    let j = choose|j: int| 0 <= j < s.len() && s[j] == x;
                    assert(j != 0);
                    assert(r[j] == x);
                }
            }
        } else {
            lemma_lt_connex(s[0].0, k);
            assert(lt(k, s[0].0));
            assert(r =~= seq![(k, v)] + s);
            assert forall|i: int, j: int| 0 <= i < j < r.len() implies lt(
                #[trigger] r[i].0,
                #[trigger] r[j].0,
            ) by {
                if i == 0 {
                    assert(r[j] == s[j - 1]);
                    if j > 1 {
                        assert(lt(s[0].0, s[j - 1].0));
                        lemma_lt_trans(k, s[0].0, s[j - 1].0);
                    }
                } else {
                    assert(r[i] == s[i - 1] && r[j] == s[j - 1]);
                }
            }
            assert forall|x: (ValueView, ValueView)| r.contains(x) implies (x == (k, v) || (
            s.contains(x) && x.0 != k)) by {
                let j = choose|j: int| 0 <= j < r.len() && r[j] == x;
                if j > 0 {
                    assert(s[j - 1] == x);
                    if j == 1 {
                        lemma_lt_asym(k, s[0].0);
                    } else {
                        lemma_lt_trans(k, s[0].0, s[j - 1].0);
                        lemma_lt_asym(k, s[j - 1].0);
                    }
                }
            }
            assert forall|x: (ValueView, ValueView)| (x == (k, v) || (s.contains(x) && x.0
                != k)) implies r.contains(x) by {
                if x == (k, v) {
                    assert(r[0] == x);
                } else {
                    let j = choose|j: int| 0 <= j < s.len() && s[j] == x;
                    assert(r[j + 1] == x);
                }
            }
        }
    }
}

/// Insertion keeps the row sorted, and its members are the old
/// members together with the new element.
pub proof fn lemma_uniq_insert_sorted(s: Seq<ValueView>, x: ValueView)
    requires
        sorted_vals(s),
    ensures
        sorted_vals(uniq_insert(s, x)),
        forall|y: ValueView| #[trigger] uniq_insert(s, x).contains(y) <==> (y == x || s.contains(
            y,
        )),
    decreases s.len(),
{
    let r = uniq_insert(s, x);
    if s.len() == 0 {
        assert(r[0] == x);
        assert(r.contains(x));
        assert forall|y: ValueView| r.contains(y) implies (y == x || s.contains(y)) by {}
    } else {
        let t = s.subrange(1, s.len() as int);
        assert(sorted_vals(t));
        assert forall|y: ValueView| t.contains(y) implies s.contains(y) by {
            let j = choose|j: int| 0 <= j < t.len() && t[j] == y;
            assert(s[j + 1] == y);
        }
        if lt(s[0], x) {
            lemma_uniq_insert_sorted(t, x);
            let rt = uniq_insert(t, x);
            assert(r =~= seq![s[0]] + rt);
            assert forall|i: int, j: int| 0 <= i < j < r.len() implies lt(
                #[trigger] r[i],
                #[trigger] r[j],
            ) by {
                if i == 0 {
                    assert(rt.contains(r[j]));
                    if r[j] == x {
                    } else {
                        assert(t.contains(r[j]));
                        let m = choose|m: int| 0 <= m < t.len() && t[m] == r[j];
                        assert(s[m + 1] == r[j]);
                        assert(lt(s[0], s[m + 1]));
                    }
                } else {
                    assert(rt[i - 1] == r[i] && rt[j - 1] == r[j]);
                }
            }
            assert forall|y: ValueView| r.contains(y) implies (y == x || s.contains(y)) by {
                let j = choose|j: int| 0 <= j < r.len() && r[j] == y;
                if j > 0 {
                    assert(rt[j - 1] == y);
                    assert(rt.contains(y));
                    if y != x {
                        assert(t.contains(y));
                    }
                }
            }
            assert forall|y: ValueView| (y == x || s.contains(y)) implies r.contains(y) by {
                if y == x {
                    assert(rt.contains(y));
                    let m = choose|m: int| 0 <= m < rt.len() && rt[m] == y;
                    assert(r[m + 1] == y);
                } else {
                    let j = choose|j: int| 0 <= j < s.len() && s[j] == y;
                    if j == 0 {
                        assert(r[0] == y);
                    } else {
                        assert(t[j - 1] == y);
                        assert(t.contains(y));
                        assert(rt.contains(y));
                        let m = choose|m: int| 0 <= m < rt.len() && rt[m] == y;
                        assert(r[m + 1] == y);
                    }
                }
            }
        } else if s[0] == x {
            assert forall|y: ValueView| r.contains(y) implies (y == x || s.contains(y)) by {}
            assert(s.contains(x) ==> r.contains(x));
            assert(s[0] == x && r[0] == x);
        } else {
            lemma_lt_connex(s[0], x);
            assert(lt(x, s[0]));
            assert(r =~= seq![x] + s);
            assert forall|i: int, j: int| 0 <= i < j < r.len() implies lt(
                #[trigger] r[i],
                #[trigger] r[j],
            ) by {
                if i == 0 {
                    assert(r[j] == s[j - 1]);
                    if j > 1 {
                        assert(lt(s[0], s[j - 1]));
                        lemma_lt_trans(x, s[0], s[j - 1]);
                    }
                } else {
                    assert(r[i] == s[i - 1] && r[j] == s[j - 1]);
                }
            }
            assert forall|y: ValueView| r.contains(y) implies (y == x || s.contains(y)) by {
                let j = choose|j: int| 0 <= j < r.len() && r[j] == y;
                if j > 0 {
                    assert(s[j - 1] == y);
                }
            }
            assert forall|y: ValueView| (y == x || s.contains(y)) implies r.contains(y) by {
                if y == x {
                    assert(r[0] == y);
                } else {
                    let j = choose|j: int| 0 <= j < s.len() && s[j] == y;
                    assert(r[j + 1] == y);
                }
            }
        }
    }
}

/// Two sorted rows with the same members are the same row.
pub proof fn lemma_sorted_vals_canonical(s1: Seq<ValueView>, s2: Seq<ValueView>)
    requires
        sorted_vals(s1),
        sorted_vals(s2),
        forall|y: ValueView| s1.contains(y) <==> s2.contains(y),
    ensures
        s1 == s2,
    decreases s1.len(),
{
    if s1.len() == 0 {
        if s2.len() > 0 {
            assert(s2.contains(s2[0]));
            assert(s1.contains(s2[0]));
        }
        assert(s1 =~= s2);
    } else if s2.len() == 0 {
        assert(s1.contains(s1[0]));
        assert(s2.contains(s1[0]));
    } else {
        // the heads are both the least member, so they are equal
        if s1[0] != s2[0] {
            lemma_lt_connex(s1[0], s2[0]);
            if lt(s1[0], s2[0]) {
                assert(s1.contains(s1[0]));
                assert(s2.contains(s1[0]));
                let j = choose|j: int| 0 <= j < s2.len() && s2[j] == s1[0];
                assert(j > 0);
                assert(lt(s2[0], s2[j]));
                lemma_lt_asym(s1[0], s2[0]);
            } else {
                assert(s2.contains(s2[0]));
                assert(s1.contains(s2[0]));
                let j = choose|j: int| 0 <= j < s1.len() && s1[j] == s2[0];
                assert(j > 0);
                assert(lt(s1[0], s1[j]));
                lemma_lt_asym(s2[0], s1[0]);
            }
        }
        let t1 = s1.subrange(1, s1.len() as int);
        let t2 = s2.subrange(1, s2.len() as int);
        assert(sorted_vals(t1));
        assert(sorted_vals(t2));
        assert forall|y: ValueView| t1.contains(y) <==> t2.contains(y) by {
            lemma_sorted_tail_members(s1, y);
            lemma_sorted_tail_members(s2, y);
        }
        lemma_sorted_vals_canonical(t1, t2);
        assert(s1 =~= seq![s1[0]] + t1);
        assert(s2 =~= seq![s2[0]] + t2);
    }
}

/// In a sorted row, the tail holds exactly the members other than the
/// head.
proof fn lemma_sorted_tail_members(s: Seq<ValueView>, y: ValueView)
    requires
        sorted_vals(s),
        s.len() > 0,
    ensures
        s.subrange(1, s.len() as int).contains(y) <==> (s.contains(y) && y != s[0]),
{
    let t = s.subrange(1, s.len() as int);
    if t.contains(y) {
        let j = choose|j: int| 0 <= j < t.len() && t[j] == y;
        assert(s[j + 1] == y);
        assert(lt(s[0], s[j + 1]));
        lemma_lt_asym(s[0], y);
    }
    if s.contains(y) && y != s[0] {
        let j = choose|j: int| 0 <= j < s.len() && s[j] == y;
        assert(j > 0);
        assert(t[j - 1] == y);
    }
}

/// Two key-sorted pair rows with the same members are the same row.
pub proof fn lemma_sorted_pairs_canonical(
    s1: Seq<(ValueView, ValueView)>,
    s2: Seq<(ValueView, ValueView)>,
)
    requires
        sorted_pairs(s1),
        sorted_pairs(s2),
        forall|y: (ValueView, ValueView)| s1.contains(y) <==> s2.contains(y),
    ensures
        s1 == s2,
    decreases s1.len(),
{
    if s1.len() == 0 {
        if s2.len() > 0 {
            assert(s2.contains(s2[0]));
            assert(s1.contains(s2[0]));
        }
        assert(s1 =~= s2);
    } else if s2.len() == 0 {
        assert(s1.contains(s1[0]));
        assert(s2.contains(s1[0]));
    } else {
        if s1[0] != s2[0] {
            if s1[0].0 == s2[0].0 {
                // equal least keys with different entries: each entry
                // sits in the other row above its head, against sortedness
                assert(s1.contains(s1[0]));
                assert(s2.contains(s1[0]));
                let j = choose|j: int| 0 <= j < s2.len() && s2[j] == s1[0];
                assert(j > 0);
                assert(lt(s2[0].0, s2[j].0));
                lemma_lt_asym(s2[0].0, s1[0].0);
            } else {
                lemma_lt_connex(s1[0].0, s2[0].0);
                if lt(s1[0].0, s2[0].0) {
                    assert(s1.contains(s1[0]));
                    assert(s2.contains(s1[0]));
                    let j = choose|j: int| 0 <= j < s2.len() && s2[j] == s1[0];
                    assert(j > 0);
                    assert(lt(s2[0].0, s2[j].0));
                    lemma_lt_asym(s1[0].0, s2[0].0);
                } else {
                    assert(s2.contains(s2[0]));
                    assert(s1.contains(s2[0]));
                    let j = choose|j: int| 0 <= j < s1.len() && s1[j] == s2[0];
                    assert(j > 0);
                    assert(lt(s1[0].0, s1[j].0));
                    lemma_lt_asym(s2[0].0, s1[0].0);
                }
            }
        }
        let t1 = s1.subrange(1, s1.len() as int);
        let t2 = s2.subrange(1, s2.len() as int);
        assert(sorted_pairs(t1));
        assert(sorted_pairs(t2));
        assert forall|y: (ValueView, ValueView)| t1.contains(y) <==> t2.contains(y) by {
            lemma_sorted_pair_tail_members(s1, y);
            lemma_sorted_pair_tail_members(s2, y);
        }
        lemma_sorted_pairs_canonical(t1, t2);
        assert(s1 =~= seq![s1[0]] + t1);
        assert(s2 =~= seq![s2[0]] + t2);
    }
}

proof fn lemma_sorted_pair_tail_members(s: Seq<(ValueView, ValueView)>, y: (ValueView, ValueView))
    requires
        sorted_pairs(s),
        s.len() > 0,
    ensures
        s.subrange(1, s.len() as int).contains(y) <==> (s.contains(y) && y != s[0]),
{
    let t = s.subrange(1, s.len() as int);
    if t.contains(y) {
        let j = choose|j: int| 0 <= j < t.len() && t[j] == y;
        assert(s[j + 1] == y);
        assert(lt(s[0].0, s[j + 1].0));
        lemma_lt_asym(s[0].0, y.0);
    }
    if s.contains(y) && y != s[0] {
        let j = choose|j: int| 0 <= j < s.len() && s[j] == y;
        assert(j > 0);
        assert(t[j - 1] == y);
    }
}

/// A pair row's view is any row that matches it element by element.
proof fn lemma_vview_pairs_elem(a: Seq<(Value, Value)>, b: Seq<(ValueView, ValueView)>)
    requires
        b.len() == a.len(),
        forall|j: int|
            0 <= j < a.len() ==> #[trigger] b[j] == (
                crate::vview(a[j].0),
                crate::vview(a[j].1),
            ),
    ensures
        vview_pairs(a) == b,
{
    crate::lemma_vview_pairs(a);
    assert(vview_pairs(a) =~= b);
}

/// A value row's view is any row that matches it element by element.
proof fn lemma_vview_seq_elem(a: Seq<Value>, b: Seq<ValueView>)
    requires
        b.len() == a.len(),
        forall|j: int| 0 <= j < a.len() ==> #[trigger] b[j] == crate::vview(a[j]),
    ensures
        crate::vview_seq(a) == b,
{
    crate::lemma_vview_seq(a);
    assert(crate::vview_seq(a) =~= b);
}

/// Insert a pair into a key-sorted row of entries, in place.
#[verifier::loop_isolation(false)]
pub fn dict_insert_vec(m: &mut Vec<(Value, Value)>, key: Value, val: Value)
    ensures
        vview_pairs(final(m)@) == dict_insert(vview_pairs(old(m)@), key@, val@),
{
    let ghost sv = vview_pairs(old(m)@);
    proof {
        crate::lemma_vview_pairs(old(m)@);
    }
    let mut i: usize = 0;
    loop
        invariant
            0 <= i <= m@.len(),
            m@ == old(m)@,
            forall|j: int| 0 <= j < i ==> lt(#[trigger] sv[j].0, key@),
        decreases m@.len() - i,
    {
        if i == m.len() {
            let ghost prev = m@;
            m.push((key, val));
            proof {
                lemma_dict_insert_pos(sv, key@, val@, i as int, false);
                let d = dict_insert(sv, key@, val@);
                assert(m@ =~= prev + seq![(key, val)]);
                assert forall|j: int| 0 <= j < m@.len() implies #[trigger] d[j] == (
                    crate::vview(m@[j].0),
                    crate::vview(m@[j].1),
                ) by {
                    if j < i {
                        assert(m@[j] == prev[j]);
                        assert(d[j] == sv.take(i as int)[j]);
                    }
                }
                lemma_vview_pairs_elem(m@, d);
            }
            return ;
        }
        let c = value_cmp(&m[i].0, &key);
        match c {
            Cmp::Lt => {
                i = i + 1;
            }
            Cmp::Eq => {
                let ghost prev = m@;
                m.remove(i);
                let ghost mid = m@;
                m.insert(i, (key, val));
                proof {
                    lemma_dict_insert_pos(sv, key@, val@, i as int, true);
                    let d = dict_insert(sv, key@, val@);
                    assert(mid =~= prev.take(i as int) + prev.subrange(
                        i + 1,
                        prev.len() as int,
                    ));
                    assert(m@ =~= mid.take(i as int) + seq![(key, val)] + mid.subrange(
                        i as int,
                        mid.len() as int,
                    ));
                    assert forall|j: int| 0 <= j < m@.len() implies #[trigger] d[j] == (
                        crate::vview(m@[j].0),
                        crate::vview(m@[j].1),
                    ) by {
                        if j < i {
                            assert(m@[j] == prev[j]);
                            assert(d[j] == sv.take(i as int)[j]);
                        } else if j > i {
                            assert(m@[j] == prev[j]);
                            assert(d[j] == sv.subrange(i + 1, sv.len() as int)[j - i - 1]);
                        }
                    }
                    lemma_vview_pairs_elem(m@, d);
                }
                return ;
            }
            Cmp::Gt => {
                let ghost prev = m@;
                m.insert(i, (key, val));
                proof {
                    lemma_dict_insert_pos(sv, key@, val@, i as int, false);
                    let d = dict_insert(sv, key@, val@);
                    assert(m@ =~= prev.take(i as int) + seq![(key, val)] + prev.subrange(
                        i as int,
                        prev.len() as int,
                    ));
                    assert forall|j: int| 0 <= j < m@.len() implies #[trigger] d[j] == (
                        crate::vview(m@[j].0),
                        crate::vview(m@[j].1),
                    ) by {
                        if j < i {
                            assert(m@[j] == prev[j]);
                            assert(d[j] == sv.take(i as int)[j]);
                        } else if j > i {
                            assert(m@[j] == prev[j - 1]);
                            assert(d[j] == sv.subrange(i as int, sv.len() as int)[j - i - 1]);
                        }
                    }
                    lemma_vview_pairs_elem(m@, d);
                }
                return ;
            }
        }
    }
}

/// Where the scan stops, the spec insertion splits the row there.
proof fn lemma_dict_insert_pos(
    s: Seq<(ValueView, ValueView)>,
    k: ValueView,
    v: ValueView,
    i: int,
    eq: bool,
)
    requires
        0 <= i <= s.len(),
        forall|j: int| 0 <= j < i ==> lt(#[trigger] s[j].0, k),
        eq ==> i < s.len() && s[i].0 == k,
        !eq ==> i == s.len() || (!lt(s[i].0, k) && s[i].0 != k),
    ensures
        eq ==> dict_insert(s, k, v) == s.take(i) + seq![(k, v)] + s.subrange(
            i + 1,
            s.len() as int,
        ),
        !eq ==> dict_insert(s, k, v) == s.take(i) + seq![(k, v)] + s.subrange(i, s.len() as int),
    decreases i,
{
    if i == 0 {
        if eq {
            lemma_lt_asym(s[0].0, k);
            assert(dict_insert(s, k, v) =~= s.take(0) + seq![(k, v)] + s.subrange(
                1,
                s.len() as int,
            ));
        } else if s.len() == 0 {
            assert(dict_insert(s, k, v) =~= s.take(0) + seq![(k, v)] + s.subrange(
                0,
                s.len() as int,
            ));
        } else {
            assert(dict_insert(s, k, v) =~= s.take(0) + seq![(k, v)] + s.subrange(
                0,
                s.len() as int,
            ));
        }
    } else {
        assert(lt(s[0].0, k));
        let t = s.subrange(1, s.len() as int);
        assert forall|j: int| 0 <= j < i - 1 implies lt(#[trigger] t[j].0, k) by {
            assert(t[j] == s[j + 1]);
        }
        if eq {
            assert(t[i - 1] == s[i]);
        } else if i < s.len() {
            assert(t[i - 1] == s[i]);
        }
        lemma_dict_insert_pos(t, k, v, i - 1, eq);
        if eq {
            assert(dict_insert(s, k, v) =~= s.take(i) + seq![(k, v)] + s.subrange(
                i + 1,
                s.len() as int,
            ));
        } else {
            assert(dict_insert(s, k, v) =~= s.take(i) + seq![(k, v)] + s.subrange(
                i,
                s.len() as int,
            ));
        }
    }
}

/// Insert a value into a sorted row of values, in place.
#[verifier::loop_isolation(false)]
pub fn uniq_insert_vec(m: &mut Vec<Value>, x: Value)
    ensures
        crate::vview_seq(final(m)@) == uniq_insert(crate::vview_seq(old(m)@), x@),
{
    let ghost sv = crate::vview_seq(old(m)@);
    proof {
        crate::lemma_vview_seq(old(m)@);
    }
    let mut i: usize = 0;
    loop
        invariant
            0 <= i <= m@.len(),
            m@ == old(m)@,
            forall|j: int| 0 <= j < i ==> lt(#[trigger] sv[j], x@),
        decreases m@.len() - i,
    {
        if i == m.len() {
            let ghost prev = m@;
            m.push(x);
            proof {
                lemma_uniq_insert_pos(sv, x@, i as int, false);
                let d = uniq_insert(sv, x@);
                assert(m@ =~= prev + seq![x]);
                assert forall|j: int| 0 <= j < m@.len() implies #[trigger] d[j] == crate::vview(
                    m@[j],
                ) by {
                    if j < i {
                        assert(m@[j] == prev[j]);
                        assert(d[j] == sv.take(i as int)[j]);
                    }
                }
                lemma_vview_seq_elem(m@, d);
            }
            return ;
        }
        let c = value_cmp(&m[i], &x);
        match c {
            Cmp::Lt => {
                i = i + 1;
            }
            Cmp::Eq => {
                proof {
                    lemma_uniq_insert_pos(sv, x@, i as int, true);
                }
                return ;
            }
            Cmp::Gt => {
                let ghost prev = m@;
                m.insert(i, x);
                proof {
                    lemma_uniq_insert_pos(sv, x@, i as int, false);
                    let d = uniq_insert(sv, x@);
                    assert(m@ =~= prev.take(i as int) + seq![x] + prev.subrange(
                        i as int,
                        prev.len() as int,
                    ));
                    assert forall|j: int| 0 <= j < m@.len() implies #[trigger] d[j]
                        == crate::vview(m@[j]) by {
                        if j < i {
                            assert(m@[j] == prev[j]);
                            assert(d[j] == sv.take(i as int)[j]);
                        } else if j > i {
                            assert(m@[j] == prev[j - 1]);
                            assert(d[j] == sv.subrange(i as int, sv.len() as int)[j - i - 1]);
                        }
                    }
                    lemma_vview_seq_elem(m@, d);
                }
                return ;
            }
        }
    }
}

/// Where the scan stops, the spec insertion splits the row there.
proof fn lemma_uniq_insert_pos(s: Seq<ValueView>, x: ValueView, i: int, eq: bool)
    requires
        0 <= i <= s.len(),
        forall|j: int| 0 <= j < i ==> lt(#[trigger] s[j], x),
        eq ==> i < s.len() && s[i] == x,
        !eq ==> i == s.len() || (!lt(s[i], x) && s[i] != x),
    ensures
        eq ==> uniq_insert(s, x) == s,
        !eq ==> uniq_insert(s, x) == s.take(i) + seq![x] + s.subrange(i, s.len() as int),
    decreases i,
{
    if i == 0 {
        if eq {
            lemma_lt_asym(s[0], x);
        } else {
            assert(uniq_insert(s, x) =~= s.take(0) + seq![x] + s.subrange(0, s.len() as int));
        }
    } else {
        assert(lt(s[0], x));
        let t = s.subrange(1, s.len() as int);
        assert forall|j: int| 0 <= j < i - 1 implies lt(#[trigger] t[j], x) by {
            assert(t[j] == s[j + 1]);
        }
        if i < s.len() {
            assert(t[i - 1] == s[i]);
        }
        lemma_uniq_insert_pos(t, x, i - 1, eq);
        if eq {
            assert(uniq_insert(s, x) =~= s);
        } else {
            assert(uniq_insert(s, x) =~= s.take(i) + seq![x] + s.subrange(i, s.len() as int));
        }
    }
}

/// The map row that a stream of pairs denotes: each pair inserted in
/// stream order, a later duplicate key overwriting the earlier entry.
pub open spec fn dict_of(ps: Seq<(ValueView, ValueView)>) -> Seq<(ValueView, ValueView)>
    decreases ps,
{
    if ps.len() == 0 {
        Seq::empty()
    } else {
        dict_insert(dict_of(ps.drop_last()), ps.last().0, ps.last().1)
    }
}

/// The set row that a stream of values denotes: each value inserted
/// in stream order, duplicates collapsing.
pub open spec fn uniq_of(vs: Seq<ValueView>) -> Seq<ValueView>
    decreases vs,
{
    if vs.len() == 0 {
        Seq::empty()
    } else {
        uniq_insert(uniq_of(vs.drop_last()), vs.last())
    }
}

/// A stream that is already strictly ascending denotes itself.
pub proof fn lemma_dict_of_sorted(ps: Seq<(ValueView, ValueView)>)
    requires
        sorted_pairs(ps),
    ensures
        dict_of(ps) == ps,
    decreases ps,
{
    if ps.len() > 0 {
        let t = ps.drop_last();
        assert(sorted_pairs(t));
        lemma_dict_of_sorted(t);
        assert forall|j: int| 0 <= j < t.len() implies lt(#[trigger] t[j].0, ps.last().0) by {
            assert(t[j] == ps[j]);
            assert(lt(ps[j].0, ps[ps.len() - 1].0));
        }
        lemma_dict_insert_ascending(t, ps.last().0, ps.last().1);
        assert(t + seq![(ps.last().0, ps.last().1)] =~= ps);
    }
}

/// A stream that is already strictly ascending denotes itself.
pub proof fn lemma_uniq_of_sorted(vs: Seq<ValueView>)
    requires
        sorted_vals(vs),
    ensures
        uniq_of(vs) == vs,
    decreases vs,
{
    if vs.len() > 0 {
        let t = vs.drop_last();
        assert(sorted_vals(t));
        lemma_uniq_of_sorted(t);
        assert forall|j: int| 0 <= j < t.len() implies lt(#[trigger] t[j], vs.last()) by {
            assert(t[j] == vs[j]);
            assert(lt(vs[j], vs[vs.len() - 1]));
        }
        lemma_uniq_insert_ascending(t, vs.last());
        assert(t + seq![vs.last()] =~= vs);
    }
}

/// The denoted map row is sorted, and its members come from the
/// stream, each with the stream's key set.
pub proof fn lemma_dict_of_sorted_wf(ps: Seq<(ValueView, ValueView)>)
    ensures
        sorted_pairs(dict_of(ps)),
        forall|x: (ValueView, ValueView)| #[trigger] dict_of(ps).contains(x) ==> ps.contains(x),
    decreases ps,
{
    if ps.len() > 0 {
        let t = ps.drop_last();
        lemma_dict_of_sorted_wf(t);
        lemma_dict_insert_sorted(dict_of(t), ps.last().0, ps.last().1);
        assert forall|x: (ValueView, ValueView)| #[trigger] dict_of(ps).contains(
            x,
        ) implies ps.contains(x) by {
            if x == (ps.last().0, ps.last().1) {
                assert(ps[ps.len() - 1] == x);
            } else {
                assert(dict_of(t).contains(x));
                assert(t.contains(x));
                let j = choose|j: int| 0 <= j < t.len() && t[j] == x;
                assert(ps[j] == x);
            }
        }
    }
}

/// The denoted set row is sorted, and its members come from the
/// stream.
pub proof fn lemma_uniq_of_sorted_wf(vs: Seq<ValueView>)
    ensures
        sorted_vals(uniq_of(vs)),
        forall|x: ValueView| #[trigger] uniq_of(vs).contains(x) ==> vs.contains(x),
    decreases vs,
{
    if vs.len() > 0 {
        let t = vs.drop_last();
        lemma_uniq_of_sorted_wf(t);
        lemma_uniq_insert_sorted(uniq_of(t), vs.last());
        assert forall|x: ValueView| #[trigger] uniq_of(vs).contains(x) implies vs.contains(x) by {
            if x == vs.last() {
                assert(vs[vs.len() - 1] == x);
            } else {
                assert(uniq_of(t).contains(x));
                assert(t.contains(x));
                let j = choose|j: int| 0 <= j < t.len() && t[j] == x;
                assert(vs[j] == x);
            }
        }
    }
}

} // verus!
