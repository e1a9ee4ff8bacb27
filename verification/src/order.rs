//! The total order over protocol values: variants rank first in
//! declaration order, then payloads compare within a variant
//! (bytewise for text, numerically for integers, element-wise and
//! recursively for the aggregate kinds). A double compares by its
//! text, with the NaN sentinel above every numeric text, so that the
//! order is total and the sorted map and set kinds stay consistent.
use vstd::prelude::*;

use crate::{FloatView, MyFloat, Value, ValueView, VerbatimString};

verus! {

broadcast use vstd::std_specs::vec::group_vec_axioms, vstd::seq::group_seq_axioms;

/// The rank of a variant: its position in the declaration order.
pub open spec fn rank(v: ValueView) -> int {
    match v {
        ValueView::StrV(_) => 0,
        ValueView::ErrV(_) => 1,
        ValueView::IntV(_) => 2,
        ValueView::BulkV(_) => 3,
        ValueView::ArrV(_) => 4,
        ValueView::NullV => 5,
        ValueView::BoolV(_) => 6,
        ValueView::DblV(_) => 7,
        ValueView::BigV(_) => 8,
        ValueView::BulkErrV(_) => 9,
        ValueView::VerbV(_, _) => 10,
        ValueView::DictV(_) => 11,
        ValueView::UniqV(_) => 12,
        ValueView::PushV(_) => 13,
    }
}

/// Strict lexicographic order on byte strings.
pub open spec fn bytes_lt(a: Seq<u8>, b: Seq<u8>) -> bool
    decreases a.len(),
{
    if b.len() == 0 {
        false
    } else if a.len() == 0 {
        true
    } else if a[0] < b[0] {
        true
    } else if a[0] > b[0] {
        false
    } else {
        bytes_lt(a.subrange(1, a.len() as int), b.subrange(1, b.len() as int))
    }
}

/// Strict order on double payloads: numeric texts bytewise, the NaN
/// sentinel above all of them.
pub open spec fn float_lt(a: FloatView, b: FloatView) -> bool {
    match (a, b) {
        (FloatView::RealV(x), FloatView::RealV(y)) => bytes_lt(x, y),
        (FloatView::RealV(_), FloatView::NaNV) => true,
        (FloatView::NaNV, _) => false,
    }
}

/// The strict total order on values.
pub open spec fn lt(a: ValueView, b: ValueView) -> bool
    decreases a, b,
{
    if rank(a) != rank(b) {
        rank(a) < rank(b)
    } else {
        match (a, b) {
            (ValueView::StrV(x), ValueView::StrV(y)) => bytes_lt(x, y),
            (ValueView::ErrV(x), ValueView::ErrV(y)) => bytes_lt(x, y),
            (ValueView::IntV(x), ValueView::IntV(y)) => x < y,
            (ValueView::BulkV(x), ValueView::BulkV(y)) => bytes_lt(x, y),
            (ValueView::ArrV(x), ValueView::ArrV(y)) => seq_lt(x, y),
            (ValueView::NullV, ValueView::NullV) => false,
            (ValueView::BoolV(x), ValueView::BoolV(y)) => !x && y,
            (ValueView::DblV(x), ValueView::DblV(y)) => float_lt(x, y),
            (ValueView::BigV(x), ValueView::BigV(y)) => bytes_lt(x, y),
            (ValueView::BulkErrV(x), ValueView::BulkErrV(y)) => bytes_lt(x, y),
            (ValueView::VerbV(xe, xd), ValueView::VerbV(ye, yd)) => bytes_lt(xe, ye) || (xe == ye
                && bytes_lt(xd, yd)),
            (ValueView::DictV(x), ValueView::DictV(y)) => pairs_lt(x, y),
            (ValueView::UniqV(x), ValueView::UniqV(y)) => seq_lt(x, y),
            (ValueView::PushV(x), ValueView::PushV(y)) => seq_lt(x, y),
            _ => false,
        }
    }
}

/// Strict lexicographic order on rows of values.
pub open spec fn seq_lt(x: Seq<ValueView>, y: Seq<ValueView>) -> bool
    decreases x, y,
{
    if y.len() == 0 {
        false
    } else if x.len() == 0 {
        true
    } else if lt(x[0], y[0]) {
        true
    } else if x[0] == y[0] {
        seq_lt(x.subrange(1, x.len() as int), y.subrange(1, y.len() as int))
    } else {
        false
    }
}

/// Strict lexicographic order on rows of pairs, a pair comparing by
/// key and then by value.
pub open spec fn pairs_lt(x: Seq<(ValueView, ValueView)>, y: Seq<(ValueView, ValueView)>) -> bool
    decreases x, y,
{
    if y.len() == 0 {
        false
    } else if x.len() == 0 {
        true
    } else if lt(x[0].0, y[0].0) {
        true
    } else if x[0].0 == y[0].0 && lt(x[0].1, y[0].1) {
        true
    } else if x[0] == y[0] {
        pairs_lt(x.subrange(1, x.len() as int), y.subrange(1, y.len() as int))
    } else {
        false
    }
}

// ---------- the order is irreflexive, asymmetric, transitive, total ----------

pub proof fn lemma_bytes_lt_asym(a: Seq<u8>, b: Seq<u8>)
    ensures
        !(bytes_lt(a, b) && bytes_lt(b, a)),
        !(bytes_lt(a, b) && a == b),
    decreases a.len(),
{
    if a.len() > 0 && b.len() > 0 && a[0] == b[0] {
        lemma_bytes_lt_asym(a.subrange(1, a.len() as int), b.subrange(1, b.len() as int));
        if a == b {
            assert(a.subrange(1, a.len() as int) =~= b.subrange(1, b.len() as int));
        }
    }
}

pub proof fn lemma_bytes_lt_trans(a: Seq<u8>, b: Seq<u8>, c: Seq<u8>)
    requires
        bytes_lt(a, b),
        bytes_lt(b, c),
    ensures
        bytes_lt(a, c),
    decreases a.len(),
{
    if a.len() > 0 && b.len() > 0 && c.len() > 0 && a[0] == b[0] && b[0] == c[0] {
        lemma_bytes_lt_trans(
            a.subrange(1, a.len() as int),
            b.subrange(1, b.len() as int),
            c.subrange(1, c.len() as int),
        );
    }
}

pub proof fn lemma_bytes_lt_connex(a: Seq<u8>, b: Seq<u8>)
    requires
        a != b,
    ensures
        bytes_lt(a, b) || bytes_lt(b, a),
    decreases a.len(),
{
    if a.len() == 0 && b.len() == 0 {
        assert(a =~= b);
    } else if a.len() > 0 && b.len() > 0 && a[0] == b[0] {
        let at = a.subrange(1, a.len() as int);
        let bt = b.subrange(1, b.len() as int);
        if at == bt {
            assert(a =~= seq![a[0]] + at);
            assert(b =~= seq![b[0]] + bt);
        }
        lemma_bytes_lt_connex(at, bt);
    }
}

/// The order never holds both ways, and never of a value against
/// itself.
pub proof fn lemma_lt_asym(a: ValueView, b: ValueView)
    ensures
        !(lt(a, b) && lt(b, a)),
        !(lt(a, b) && a == b),
    decreases a, b,
{
    if rank(a) == rank(b) {
        match (a, b) {
            (ValueView::StrV(x), ValueView::StrV(y)) => lemma_bytes_lt_asym(x, y),
            (ValueView::ErrV(x), ValueView::ErrV(y)) => lemma_bytes_lt_asym(x, y),
            (ValueView::BulkV(x), ValueView::BulkV(y)) => lemma_bytes_lt_asym(x, y),
            (ValueView::BigV(x), ValueView::BigV(y)) => lemma_bytes_lt_asym(x, y),
            (ValueView::BulkErrV(x), ValueView::BulkErrV(y)) => lemma_bytes_lt_asym(x, y),
            (ValueView::ArrV(x), ValueView::ArrV(y)) => lemma_seq_lt_asym(x, y),
            (ValueView::UniqV(x), ValueView::UniqV(y)) => lemma_seq_lt_asym(x, y),
            (ValueView::PushV(x), ValueView::PushV(y)) => lemma_seq_lt_asym(x, y),
            (ValueView::DictV(x), ValueView::DictV(y)) => lemma_pairs_lt_asym(x, y),
            (ValueView::DblV(x), ValueView::DblV(y)) => {
                match (x, y) {
                    (FloatView::RealV(s), FloatView::RealV(t)) => lemma_bytes_lt_asym(s, t),
                    _ => {}
                }
            }
            (ValueView::VerbV(xe, xd), ValueView::VerbV(ye, yd)) => {
                lemma_bytes_lt_asym(xe, ye);
                lemma_bytes_lt_asym(xd, yd);
            }
            _ => {}
        }
    }
}

pub proof fn lemma_seq_lt_asym(x: Seq<ValueView>, y: Seq<ValueView>)
    ensures
        !(seq_lt(x, y) && seq_lt(y, x)),
        !(seq_lt(x, y) && x == y),
    decreases x, y,
{
    if x.len() > 0 && y.len() > 0 {
        lemma_lt_asym(x[0], y[0]);
        if x[0] == y[0] {
            let xt = x.subrange(1, x.len() as int);
            let yt = y.subrange(1, y.len() as int);
            lemma_seq_lt_asym(xt, yt);
            if x == y {
                assert(xt == yt);
            }
        }
    }
}

pub proof fn lemma_pairs_lt_asym(x: Seq<(ValueView, ValueView)>, y: Seq<(ValueView, ValueView)>)
    ensures
        !(pairs_lt(x, y) && pairs_lt(y, x)),
        !(pairs_lt(x, y) && x == y),
    decreases x, y,
{
    if x.len() > 0 && y.len() > 0 {
        lemma_lt_asym(x[0].0, y[0].0);
        lemma_lt_asym(x[0].1, y[0].1);
        if x[0] == y[0] {
            let xt = x.subrange(1, x.len() as int);
            let yt = y.subrange(1, y.len() as int);
            lemma_pairs_lt_asym(xt, yt);
            if x == y {
                assert(xt == yt);
            }
        }
    }
}

/// The order is transitive.
pub proof fn lemma_lt_trans(a: ValueView, b: ValueView, c: ValueView)
    requires
        lt(a, b),
        lt(b, c),
    ensures
        lt(a, c),
    decreases a, b, c,
{
    if rank(a) == rank(b) && rank(b) == rank(c) {
        match (a, b, c) {
            (ValueView::StrV(x), ValueView::StrV(y), ValueView::StrV(z)) => lemma_bytes_lt_trans(
                x,
                y,
                z,
            ),
            (ValueView::ErrV(x), ValueView::ErrV(y), ValueView::ErrV(z)) => lemma_bytes_lt_trans(
                x,
                y,
                z,
            ),
            (ValueView::BulkV(x), ValueView::BulkV(y), ValueView::BulkV(z)) => {
                lemma_bytes_lt_trans(x, y, z)
            }
            (ValueView::BigV(x), ValueView::BigV(y), ValueView::BigV(z)) => lemma_bytes_lt_trans(
                x,
                y,
                z,
            ),
            (ValueView::BulkErrV(x), ValueView::BulkErrV(y), ValueView::BulkErrV(z)) => {
                lemma_bytes_lt_trans(x, y, z)
            }
            (ValueView::ArrV(x), ValueView::ArrV(y), ValueView::ArrV(z)) => lemma_seq_lt_trans(
                x,
                y,
                z,
            ),
            (ValueView::UniqV(x), ValueView::UniqV(y), ValueView::UniqV(z)) => lemma_seq_lt_trans(
                x,
                y,
                z,
            ),
            (ValueView::PushV(x), ValueView::PushV(y), ValueView::PushV(z)) => lemma_seq_lt_trans(
                x,
                y,
                z,
            ),
            (ValueView::DictV(x), ValueView::DictV(y), ValueView::DictV(z)) => {
                lemma_pairs_lt_trans(x, y, z)
            }
            (ValueView::DblV(x), ValueView::DblV(y), ValueView::DblV(z)) => {
                match (x, y, z) {
                    (FloatView::RealV(s), FloatView::RealV(t), FloatView::RealV(u)) => {
                        lemma_bytes_lt_trans(s, t, u)
                    }
                    _ => {}
                }
            }
            (ValueView::VerbV(xe, xd), ValueView::VerbV(ye, yd), ValueView::VerbV(ze, zd)) => {
                lemma_bytes_lt_asym(xe, ye);
                lemma_bytes_lt_asym(ye, ze);
                if bytes_lt(xe, ye) {
                    if bytes_lt(ye, ze) {
                        lemma_bytes_lt_trans(xe, ye, ze);
                    }
                } else {
                    if !bytes_lt(ye, ze) {
                        lemma_bytes_lt_trans(xd, yd, zd);
                    }
                }
            }
            _ => {}
        }
    }
}

pub proof fn lemma_seq_lt_trans(x: Seq<ValueView>, y: Seq<ValueView>, z: Seq<ValueView>)
    requires
        seq_lt(x, y),
        seq_lt(y, z),
    ensures
        seq_lt(x, z),
    decreases x, y, z,
{
    if x.len() > 0 && y.len() > 0 && z.len() > 0 {
        lemma_lt_asym(x[0], y[0]);
        lemma_lt_asym(y[0], z[0]);
        if lt(x[0], y[0]) && lt(y[0], z[0]) {
            lemma_lt_trans(x[0], y[0], z[0]);
        } else if x[0] == y[0] && y[0] == z[0] {
            lemma_seq_lt_trans(
                x.subrange(1, x.len() as int),
                y.subrange(1, y.len() as int),
                z.subrange(1, z.len() as int),
            );
        }
    }
}

pub proof fn lemma_pairs_lt_trans(
    x: Seq<(ValueView, ValueView)>,
    y: Seq<(ValueView, ValueView)>,
    z: Seq<(ValueView, ValueView)>,
)
    requires
        pairs_lt(x, y),
        pairs_lt(y, z),
    ensures
        pairs_lt(x, z),
    decreases x, y, z,
{
    if x.len() > 0 && y.len() > 0 && z.len() > 0 {
        lemma_lt_asym(x[0].0, y[0].0);
        lemma_lt_asym(y[0].0, z[0].0);
        lemma_lt_asym(x[0].1, y[0].1);
        lemma_lt_asym(y[0].1, z[0].1);
        if lt(x[0].0, y[0].0) && lt(y[0].0, z[0].0) {
            lemma_lt_trans(x[0].0, y[0].0, z[0].0);
        } else if lt(x[0].0, y[0].0) && y[0].0 == z[0].0 {
            assert(lt(x[0].0, z[0].0));
        } else if x[0].0 == y[0].0 && lt(y[0].0, z[0].0) {
            assert(lt(x[0].0, z[0].0));
        } else if x[0].0 == y[0].0 && y[0].0 == z[0].0 {
            if lt(x[0].1, y[0].1) && lt(y[0].1, z[0].1) {
                lemma_lt_trans(x[0].1, y[0].1, z[0].1);
            } else if x[0] == y[0] && y[0] == z[0] {
                lemma_pairs_lt_trans(
                    x.subrange(1, x.len() as int),
                    y.subrange(1, y.len() as int),
                    z.subrange(1, z.len() as int),
                );
            }
        }
    }
}

/// Distinct values always compare one way or the other.
pub proof fn lemma_lt_connex(a: ValueView, b: ValueView)
    requires
        a != b,
    ensures
        lt(a, b) || lt(b, a),
    decreases a, b,
{
    if rank(a) == rank(b) {
        match (a, b) {
            (ValueView::StrV(x), ValueView::StrV(y)) => lemma_bytes_lt_connex(x, y),
            (ValueView::ErrV(x), ValueView::ErrV(y)) => lemma_bytes_lt_connex(x, y),
            (ValueView::BulkV(x), ValueView::BulkV(y)) => lemma_bytes_lt_connex(x, y),
            (ValueView::BigV(x), ValueView::BigV(y)) => lemma_bytes_lt_connex(x, y),
            (ValueView::BulkErrV(x), ValueView::BulkErrV(y)) => lemma_bytes_lt_connex(x, y),
            (ValueView::ArrV(x), ValueView::ArrV(y)) => lemma_seq_lt_connex(x, y),
            (ValueView::UniqV(x), ValueView::UniqV(y)) => lemma_seq_lt_connex(x, y),
            (ValueView::PushV(x), ValueView::PushV(y)) => lemma_seq_lt_connex(x, y),
            (ValueView::DictV(x), ValueView::DictV(y)) => lemma_pairs_lt_connex(x, y),
            (ValueView::DblV(x), ValueView::DblV(y)) => {
                match (x, y) {
                    (FloatView::RealV(s), FloatView::RealV(t)) => {
                        if s == t {
                            assert(x =~= y);
                        }
                        lemma_bytes_lt_connex(s, t);
                    }
                    _ => {}
                }
            }
            (ValueView::VerbV(xe, xd), ValueView::VerbV(ye, yd)) => {
                if xe == ye {
                    if xd == yd {
                        assert(a =~= b);
                    }
                    lemma_bytes_lt_connex(xd, yd);
                } else {
                    lemma_bytes_lt_connex(xe, ye);
                }
            }
            _ => {}
        }
    }
}

pub proof fn lemma_seq_lt_connex(x: Seq<ValueView>, y: Seq<ValueView>)
    requires
        x != y,
    ensures
        seq_lt(x, y) || seq_lt(y, x),
    decreases x, y,
{
    if x.len() == 0 && y.len() == 0 {
        assert(x =~= y);
    } else if x.len() > 0 && y.len() > 0 {
        if x[0] == y[0] {
            let xt = x.subrange(1, x.len() as int);
            let yt = y.subrange(1, y.len() as int);
            if xt == yt {
                assert(x =~= seq![x[0]] + xt);
                assert(y =~= seq![y[0]] + yt);
            }
            lemma_seq_lt_connex(xt, yt);
        } else {
            lemma_lt_connex(x[0], y[0]);
        }
    }
}

pub proof fn lemma_pairs_lt_connex(x: Seq<(ValueView, ValueView)>, y: Seq<(ValueView, ValueView)>)
    requires
        x != y,
    ensures
        pairs_lt(x, y) || pairs_lt(y, x),
    decreases x, y,
{
    if x.len() == 0 && y.len() == 0 {
        assert(x =~= y);
    } else if x.len() > 0 && y.len() > 0 {
        if x[0] == y[0] {
            let xt = x.subrange(1, x.len() as int);
            let yt = y.subrange(1, y.len() as int);
            if xt == yt {
                assert(x =~= seq![x[0]] + xt);
                assert(y =~= seq![y[0]] + yt);
            }
            lemma_pairs_lt_connex(xt, yt);
        } else {
            if x[0].0 == y[0].0 {
                assert(x[0].1 != y[0].1);
                lemma_lt_connex(x[0].1, y[0].1);
            } else {
                lemma_lt_connex(x[0].0, y[0].0);
            }
        }
    }
}

// ---------- the executable comparison ----------

/// The outcome of a three-way comparison.
#[derive(PartialEq, Eq, Structural, Clone, Copy, Debug)]
pub enum Cmp {
    Lt,
    Eq,
    Gt,
}

/// Prefixes equal and a smaller byte at the split point: the whole
/// strings compare accordingly.
proof fn lemma_bytes_lt_at(a: Seq<u8>, b: Seq<u8>, k: int)
    requires
        0 <= k <= a.len(),
        k <= b.len(),
        forall|i: int| 0 <= i < k ==> a[i] == b[i],
        k < a.len() && k < b.len() && a[k] < b[k] || k == a.len() && k < b.len(),
    ensures
        bytes_lt(a, b),
    decreases k,
{
    if k == 0 {
    } else {
        assert(a[0] == b[0]);
        let at = a.subrange(1, a.len() as int);
        let bt = b.subrange(1, b.len() as int);
        assert forall|i: int| 0 <= i < k - 1 implies at[i] == bt[i] by {
            assert(a[i + 1] == b[i + 1]);
        }
        if k < a.len() {
            assert(at[k - 1] == a[k] && bt[k - 1] == b[k]);
        }
        lemma_bytes_lt_at(at, bt, k - 1);
    }
}

/// Three-way comparison of byte strings, agreeing with `bytes_lt`.
#[verifier::loop_isolation(false)]
pub fn bytes_cmp(a: &[u8], b: &[u8]) -> (r: Cmp)
    ensures
        r == Cmp::Lt <==> bytes_lt(a@, b@),
        r == Cmp::Eq <==> a@ == b@,
        r == Cmp::Gt <==> bytes_lt(b@, a@),
{
    proof {
        lemma_bytes_lt_asym(a@, b@);
        lemma_bytes_lt_asym(b@, a@);
        if a@ != b@ {
            lemma_bytes_lt_connex(a@, b@);
        }
    }
    let mut k: usize = 0;
    while k < a.len() && k < b.len()
        invariant
            0 <= k <= a@.len(),
            k <= b@.len(),
            forall|i: int| 0 <= i < k ==> a@[i] == b@[i],
        decreases a@.len() - k,
    {
        if a[k] < b[k] {
            proof {
                lemma_bytes_lt_at(a@, b@, k as int);
            }
            return Cmp::Lt;
        }
        if a[k] > b[k] {
            proof {
                lemma_bytes_lt_at(b@, a@, k as int);
            }
            return Cmp::Gt;
        }
        k = k + 1;
    }
    if k == a.len() && k == b.len() {
        assert(a@ =~= b@);
        return Cmp::Eq;
    }
    if k == a.len() {
        proof {
            lemma_bytes_lt_at(a@, b@, k as int);
        }
        Cmp::Lt
    } else {
        proof {
            lemma_bytes_lt_at(b@, a@, k as int);
        }
        Cmp::Gt
    }
}

/// Prefixes equal and an ordered pair of values at the split point:
/// the whole rows compare accordingly.
proof fn lemma_seq_lt_at(x: Seq<ValueView>, y: Seq<ValueView>, k: int)
    requires
        0 <= k <= x.len(),
        k <= y.len(),
        forall|i: int| 0 <= i < k ==> x[i] == y[i],
        k < x.len() && k < y.len() && lt(x[k], y[k]) || k == x.len() && k < y.len(),
    ensures
        seq_lt(x, y),
    decreases k,
{
    if k == 0 {
        if x.len() > 0 {
            lemma_lt_asym(x[0], y[0]);
        }
    } else {
        assert(x[0] == y[0]);
        lemma_lt_asym(x[0], y[0]);
        let xt = x.subrange(1, x.len() as int);
        let yt = y.subrange(1, y.len() as int);
        assert forall|i: int| 0 <= i < k - 1 implies xt[i] == yt[i] by {
            assert(x[i + 1] == y[i + 1]);
        }
        if k < x.len() {
            assert(xt[k - 1] == x[k] && yt[k - 1] == y[k]);
        }
        lemma_seq_lt_at(xt, yt, k - 1);
    }
}

/// Prefixes equal and ordered pairs at the split point, for pair rows.
proof fn lemma_pairs_lt_at(x: Seq<(ValueView, ValueView)>, y: Seq<(ValueView, ValueView)>, k: int)
    requires
        0 <= k <= x.len(),
        k <= y.len(),
        forall|i: int| 0 <= i < k ==> x[i] == y[i],
        k < x.len() && k < y.len() && (lt(x[k].0, y[k].0) || x[k].0 == y[k].0 && lt(
            x[k].1,
            y[k].1,
        )) || k == x.len() && k < y.len(),
    ensures
        pairs_lt(x, y),
    decreases k,
{
    if k == 0 {
        if x.len() > 0 {
            lemma_lt_asym(x[0].0, y[0].0);
            lemma_lt_asym(x[0].1, y[0].1);
        }
    } else {
        assert(x[0] == y[0]);
        lemma_lt_asym(x[0].0, y[0].0);
        lemma_lt_asym(x[0].1, y[0].1);
        let xt = x.subrange(1, x.len() as int);
        let yt = y.subrange(1, y.len() as int);
        assert forall|i: int| 0 <= i < k - 1 implies xt[i] == yt[i] by {
            assert(x[i + 1] == y[i + 1]);
        }
        if k < x.len() {
            assert(xt[k - 1] == x[k] && yt[k - 1] == y[k]);
        }
        lemma_pairs_lt_at(xt, yt, k - 1);
    }
}

/// Three-way comparison of values, agreeing with the total order `lt`
/// and with equality of views.
pub fn value_cmp(a: &Value, b: &Value) -> (r: Cmp)
    ensures
        r == Cmp::Lt <==> lt(a@, b@),
        r == Cmp::Eq <==> a@ == b@,
        r == Cmp::Gt <==> lt(b@, a@),
    decreases *a, *b,
{
    proof {
        lemma_lt_asym(a@, b@);
        lemma_lt_asym(b@, a@);
        if a@ != b@ {
            lemma_lt_connex(a@, b@);
        }
    }
    let ra = rank_exec(a);
    let rb = rank_exec(b);
    if ra < rb {
        return Cmp::Lt;
    }
    if ra > rb {
        return Cmp::Gt;
    }
    match (a, b) {
        (Value::String(x), Value::String(y)) => bytes_cmp(x.as_slice(), y.as_slice()),
        (Value::Error(x), Value::Error(y)) => bytes_cmp(x.as_slice(), y.as_slice()),
        (Value::Integer(x), Value::Integer(y)) => {
            if *x < *y {
                Cmp::Lt
            } else if *x == *y {
                Cmp::Eq
            } else {
                Cmp::Gt
            }
        }
        (Value::BulkString(x), Value::BulkString(y)) => bytes_cmp(x.as_slice(), y.as_slice()),
        (Value::Array(x), Value::Array(y)) => seq_cmp(x, y),
        (Value::Null, Value::Null) => Cmp::Eq,
        (Value::Bool(x), Value::Bool(y)) => {
            if *x == *y {
                Cmp::Eq
            } else if *y {
                Cmp::Lt
            } else {
                Cmp::Gt
            }
        }
        (Value::Double(x), Value::Double(y)) => {
            match (x, y) {
                (MyFloat::Real(s), MyFloat::Real(t)) => bytes_cmp(s.as_slice(), t.as_slice()),
                (MyFloat::Real(_), MyFloat::NaN) => Cmp::Lt,
                (MyFloat::NaN, MyFloat::Real(_)) => Cmp::Gt,
                (MyFloat::NaN, MyFloat::NaN) => Cmp::Eq,
            }
        }
        (Value::BigNumber(x), Value::BigNumber(y)) => bytes_cmp(x.as_slice(), y.as_slice()),
        (Value::BulkError(x), Value::BulkError(y)) => bytes_cmp(x.as_slice(), y.as_slice()),
        (Value::VerbatimString(x), Value::VerbatimString(y)) => {
            let re = bytes_cmp(x.enc.as_slice(), y.enc.as_slice());
            match re {
                Cmp::Eq => bytes_cmp(x.data.as_slice(), y.data.as_slice()),
                _ => re,
            }
        }
        (Value::Dict(x), Value::Dict(y)) => {
            proof {
                crate::lemma_vview_pairs(x@);
                crate::lemma_vview_pairs(y@);
            }
            pairs_cmp(x, y)
        }
        (Value::Uniq(x), Value::Uniq(y)) => seq_cmp(x, y),
        (Value::Push(x), Value::Push(y)) => seq_cmp(x, y),
        _ => {
            proof {
                assert(false);
            }
            Cmp::Eq
        }
    }
}

/// Three-way comparison of rows of values, by their views.
#[verifier::loop_isolation(false)]
fn seq_cmp(x: &Vec<Value>, y: &Vec<Value>) -> (r: Cmp)
    ensures
        r == Cmp::Lt <==> seq_lt(crate::vview_seq(x@), crate::vview_seq(y@)),
        r == Cmp::Eq <==> crate::vview_seq(x@) == crate::vview_seq(y@),
        r == Cmp::Gt <==> seq_lt(crate::vview_seq(y@), crate::vview_seq(x@)),
    decreases *x, *y,
{
    let ghost xv = crate::vview_seq(x@);
    let ghost yv = crate::vview_seq(y@);
    proof {
        crate::lemma_vview_seq(x@);
        crate::lemma_vview_seq(y@);
        lemma_seq_lt_asym(xv, yv);
        lemma_seq_lt_asym(yv, xv);
        if xv != yv {
            lemma_seq_lt_connex(xv, yv);
        }
    }
    let mut k: usize = 0;
    while k < x.len() && k < y.len()
        invariant
            0 <= k <= x@.len(),
            k <= y@.len(),
            forall|i: int| 0 <= i < k ==> xv[i] == yv[i],
        decreases x@.len() - k,
    {
        let c = value_cmp(&x[k], &y[k]);
        match c {
            Cmp::Lt => {
                proof {
                    lemma_seq_lt_at(xv, yv, k as int);
                }
                return Cmp::Lt;
            }
            Cmp::Gt => {
                proof {
                    lemma_seq_lt_at(yv, xv, k as int);
                }
                return Cmp::Gt;
            }
            Cmp::Eq => {
                k = k + 1;
            }
        }
    }
    if k == x.len() && k == y.len() {
        assert(xv =~= yv);
        return Cmp::Eq;
    }
    if k == x.len() {
        proof {
            lemma_seq_lt_at(xv, yv, k as int);
        }
        Cmp::Lt
    } else {
        proof {
            lemma_seq_lt_at(yv, xv, k as int);
        }
        Cmp::Gt
    }
}

/// Three-way comparison of rows of pairs, by their views.
#[verifier::loop_isolation(false)]
fn pairs_cmp(x: &Vec<(Value, Value)>, y: &Vec<(Value, Value)>) -> (r: Cmp)
    ensures
        r == Cmp::Lt <==> pairs_lt(crate::vview_pairs(x@), crate::vview_pairs(y@)),
        r == Cmp::Eq <==> crate::vview_pairs(x@) == crate::vview_pairs(y@),
        r == Cmp::Gt <==> pairs_lt(crate::vview_pairs(y@), crate::vview_pairs(x@)),
    decreases *x, *y,
{
    let ghost xv = crate::vview_pairs(x@);
    let ghost yv = crate::vview_pairs(y@);
    proof {
        crate::lemma_vview_pairs(x@);
        crate::lemma_vview_pairs(y@);
        lemma_pairs_lt_asym(xv, yv);
        lemma_pairs_lt_asym(yv, xv);
        if xv != yv {
            lemma_pairs_lt_connex(xv, yv);
        }
    }
    let mut k: usize = 0;
    while k < x.len() && k < y.len()
        invariant
            0 <= k <= x@.len(),
            k <= y@.len(),
            forall|i: int| 0 <= i < k ==> xv[i] == yv[i],
        decreases x@.len() - k,
    {
        let ck = value_cmp(&x[k].0, &y[k].0);
        match ck {
            Cmp::Lt => {
                proof {
                    lemma_pairs_lt_at(xv, yv, k as int);
                }
                return Cmp::Lt;
            }
            Cmp::Gt => {
                proof {
                    lemma_pairs_lt_at(yv, xv, k as int);
                }
                return Cmp::Gt;
            }
            Cmp::Eq => {
                let cv = value_cmp(&x[k].1, &y[k].1);
                match cv {
                    Cmp::Lt => {
                        proof {
                            lemma_pairs_lt_at(xv, yv, k as int);
                        }
                        return Cmp::Lt;
                    }
                    Cmp::Gt => {
                        proof {
                            lemma_pairs_lt_at(yv, xv, k as int);
                        }
                        return Cmp::Gt;
                    }
                    Cmp::Eq => {
                        assert(xv[k as int] == yv[k as int]);
                        k = k + 1;
                    }
                }
            }
        }
    }
    if k == x.len() && k == y.len() {
        assert(xv =~= yv);
        return Cmp::Eq;
    }
    if k == x.len() {
        proof {
            lemma_pairs_lt_at(xv, yv, k as int);
        }
        Cmp::Lt
    } else {
        proof {
            lemma_pairs_lt_at(yv, xv, k as int);
        }
        Cmp::Gt
    }
}

/// The declaration rank of a value's variant.
fn rank_exec(v: &Value) -> (r: u8)
    ensures
        r as int == rank(v@),
{
    match v {
        Value::String(_) => 0,
        Value::Error(_) => 1,
        Value::Integer(_) => 2,
        Value::BulkString(_) => 3,
        Value::Array(_) => 4,
        Value::Null => 5,
        Value::Bool(_) => 6,
        Value::Double(_) => 7,
        Value::BigNumber(_) => 8,
        Value::BulkError(_) => 9,
        Value::VerbatimString(_) => 10,
        Value::Dict(_) => 11,
        Value::Uniq(_) => 12,
        Value::Push(_) => 13,
    }
}

/// Whether two values have equal views.
pub fn value_eq(a: &Value, b: &Value) -> (r: bool)
    ensures
        r <==> a@ == b@,
{
    match value_cmp(a, b) {
        Cmp::Eq => true,
        _ => false,
    }
}

} // verus!
