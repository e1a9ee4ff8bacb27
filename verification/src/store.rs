//! The shared store: a mapping from byte-string keys to values, with
//! lookup, overwriting insertion and removal. Its view is the
//! mathematical map of key views to value views.
use vstd::prelude::*;

use crate::{value_wf, Value, ValueView};

verus! {

broadcast use vstd::std_specs::vec::group_vec_axioms, vstd::seq::group_seq_axioms;

/// The mapping that a row of entries denotes: later entries win.
pub open spec fn store_map(s: Seq<(Vec<u8>, Value)>) -> Map<Seq<u8>, ValueView>
    decreases s,
{
    if s.len() == 0 {
        Map::empty()
    } else {
        store_map(s.drop_last()).insert(s.last().0@, s.last().1@)
    }
}

/// No two entries share a key.
pub open spec fn keys_unique(s: Seq<(Vec<u8>, Value)>) -> bool {
    forall|i: int, j: int| 0 <= i < j < s.len() ==> (#[trigger] s[i].0)@ != (#[trigger] s[j].0)@
}

/// With unique keys, the denoted mapping reads off the entries.
pub proof fn lemma_store_map_props(s: Seq<(Vec<u8>, Value)>)
    requires
        keys_unique(s),
    ensures
        forall|k: Seq<u8>| #[trigger] store_map(s).contains_key(k) <==> exists|j: int|
            0 <= j < s.len() && (#[trigger] s[j].0)@ == k,
        forall|j: int|
            0 <= j < s.len() ==> store_map(s).contains_key((#[trigger] s[j].0)@) && store_map(
                s,
            )[s[j].0@] == s[j].1@,
    decreases s,
{
    if s.len() > 0 {
        let t = s.drop_last();
        assert(keys_unique(t));
        lemma_store_map_props(t);
        assert forall|k: Seq<u8>| #[trigger] store_map(s).contains_key(k) implies exists|j: int|
            0 <= j < s.len() && (#[trigger] s[j].0)@ == k by {
            if k == s.last().0@ {
                assert((s[s.len() - 1].0)@ == k);
            } else {
                assert(store_map(t).contains_key(k));
                let j = choose|j: int| 0 <= j < t.len() && (#[trigger] t[j].0)@ == k;
                assert((s[j].0)@ == k);
            }
        }
        assert forall|k: Seq<u8>| (exists|j: int|
            0 <= j < s.len() && (#[trigger] s[j].0)@ == k) implies #[trigger] store_map(
            s,
        ).contains_key(k) by {
            let j = choose|j: int| 0 <= j < s.len() && (#[trigger] s[j].0)@ == k;
            if j < s.len() - 1 {
                assert((t[j].0)@ == k);
                assert(store_map(t).contains_key(k));
            }
        }
        assert forall|j: int| 0 <= j < s.len() implies store_map(s).contains_key(
            (#[trigger] s[j].0)@,
        ) && store_map(s)[s[j].0@] == s[j].1@ by {
            if j < s.len() - 1 {
                assert((t[j].0)@ == s[j].0@);
                assert(store_map(t)[t[j].0@] == t[j].1@);
                assert(s[j].0@ != s.last().0@);
            }
        }
    }
}

/// Removing one entry removes its key from the denoted mapping.
pub proof fn lemma_store_map_remove(s: Seq<(Vec<u8>, Value)>, j: int)
    requires
        keys_unique(s),
        0 <= j < s.len(),
    ensures
        store_map(s.remove(j)) == store_map(s).remove(s[j].0@),
        keys_unique(s.remove(j)),
    decreases s,
{
    let t = s.drop_last();
    let k = s[j].0@;
    assert(keys_unique(t));
    assert forall|a: int, b: int| 0 <= a < b < s.remove(j).len() implies (#[trigger] s.remove(
        j,
    )[a].0)@ != (#[trigger] s.remove(j)[b].0)@ by {
        if b < j {
            assert(s.remove(j)[a] == s[a] && s.remove(j)[b] == s[b]);
        } else if a < j {
            assert(s.remove(j)[a] == s[a] && s.remove(j)[b] == s[b + 1]);
        } else {
            assert(s.remove(j)[a] == s[a + 1] && s.remove(j)[b] == s[b + 1]);
        }
    }
    lemma_store_map_props(s);
    lemma_store_map_props(s.remove(j));
    if j == s.len() - 1 {
        assert(s.remove(j) =~= t);
        lemma_store_map_props(t);
        assert(!store_map(t).contains_key(k)) by {
            if store_map(t).contains_key(k) {
                let m = choose|m: int| 0 <= m < t.len() && (#[trigger] t[m].0)@ == k;
                assert((s[m].0)@ == (s[j].0)@);
            }
        }
        assert(store_map(s.remove(j)) =~= store_map(s).remove(k));
    } else {
        lemma_store_map_remove(t, j);
        assert(s.remove(j).drop_last() =~= t.remove(j));
        assert(s.remove(j).last() == s.last());
        assert(store_map(s.remove(j)) == store_map(t.remove(j)).insert(s.last().0@, s.last().1@));
        assert(store_map(t.remove(j)) == store_map(t).remove(k));
        assert(t[j].0@ == k);
        assert(k != s.last().0@);
        assert(store_map(t).remove(k).insert(s.last().0@, s.last().1@) =~= store_map(s).remove(
            k,
        ));
    }
}

/// The in-memory key-value store.
pub struct Store {
    entries: Vec<(Vec<u8>, Value)>,
}

impl View for Store {
    type V = Map<Seq<u8>, ValueView>;

    closed spec fn view(&self) -> Map<Seq<u8>, ValueView> {
        store_map(self.entries@)
    }
}

impl Store {
    /// Keys are unique and every stored value is well formed.
    pub closed spec fn wf(&self) -> bool {
        keys_unique(self.entries@) && forall|j: int|
            0 <= j < self.entries@.len() ==> value_wf((#[trigger] self.entries@[j].1)@)
    }

    /// An empty store.
    pub fn new() -> (r: Store)
        ensures
            r@ == Map::<Seq<u8>, ValueView>::empty(),
            r.wf(),
    {
        Store { entries: Vec::new() }
    }

    /// The value under the key, if any, as a fresh copy.
    #[verifier::loop_isolation(false)]
    pub fn get(&self, key: &[u8]) -> (r: Option<Value>)
        requires
            self.wf(),
        ensures
            match r {
                Option::Some(v) => self@.contains_key(key@) && v@ == self@[key@] && value_wf(v@),
                Option::None => !self@.contains_key(key@),
            },
    {
        proof {
            lemma_store_map_props(self.entries@);
        }
        let mut j: usize = 0;
        while j < self.entries.len()
            invariant
                0 <= j <= self.entries@.len(),
                forall|m: int| 0 <= m < j ==> (#[trigger] self.entries@[m].0)@ != key@,
            decreases self.entries@.len() - j,
        {
            if crate::numbers::bytes_eq(self.entries[j].0.as_slice(), key) {
                return Option::Some(self.entries[j].1.deep_clone());
            }
            j = j + 1;
        }
        proof {
            if self@.contains_key(key@) {
                let m = choose|m: int|
                    0 <= m < self.entries@.len() && (#[trigger] self.entries@[m].0)@ == key@;
            }
        }
        Option::None
    }

    /// Store the value under the key, replacing any present entry.
    #[verifier::loop_isolation(false)]
    pub fn insert(&mut self, key: Vec<u8>, value: Value)
        requires
            old(self).wf(),
            value_wf(value@),
        ensures
            final(self)@ == old(self)@.insert(key@, value@),
            final(self).wf(),
    {
        self.take_out(key.as_slice());
        let ghost mid = self.entries@;
        self.entries.push((key, value));
        proof {
            assert(self.entries@.drop_last() =~= mid);
            assert forall|a: int, b: int|
                0 <= a < b < self.entries@.len() implies (#[trigger] self.entries@[a].0)@ != (
            #[trigger] self.entries@[b].0)@ by {
                if b < self.entries@.len() - 1 {
                    assert(self.entries@[a] == mid[a] && self.entries@[b] == mid[b]);
                } else {
                    assert(self.entries@[a] == mid[a]);
                    lemma_store_map_props(mid);
                }
            }
            assert forall|j: int| 0 <= j < self.entries@.len() implies value_wf(
                (#[trigger] self.entries@[j].1)@,
            ) by {
                if j < self.entries@.len() - 1 {
                    assert(self.entries@[j] == mid[j]);
                }
            }
            assert(store_map(mid).insert(key@, value@) =~= old(self)@.insert(key@, value@));
        }
    }

    /// Remove the key's entry if present; say whether one was there.
    pub fn remove(&mut self, key: &[u8]) -> (r: bool)
        requires
            old(self).wf(),
        ensures
            r == old(self)@.contains_key(key@),
            final(self)@ == old(self)@.remove(key@),
            final(self).wf(),
    {
        let r = self.take_out(key);
        proof {
            if !old(self)@.contains_key(key@) {
                assert(old(self)@.remove(key@) =~= old(self)@);
            }
        }
        r
    }

    /// Remove the key's entry if present, leaving the mapping without
    /// that key either way.
    #[verifier::loop_isolation(false)]
    fn take_out(&mut self, key: &[u8]) -> (r: bool)
        requires
            old(self).wf(),
        ensures
            r == old(self)@.contains_key(key@),
            !old(self)@.contains_key(key@) ==> final(self)@ == old(self)@ && final(self).entries@
                == old(self).entries@,
            old(self)@.contains_key(key@) ==> final(self)@ == old(self)@.remove(key@),
            final(self).wf(),
            !final(self)@.contains_key(key@),
    {
        proof {
            lemma_store_map_props(self.entries@);
        }
        let mut j: usize = 0;
        while j < self.entries.len()
            invariant
                0 <= j <= self.entries@.len(),
                self.entries@ == old(self).entries@,
                forall|m: int| 0 <= m < j ==> (#[trigger] self.entries@[m].0)@ != key@,
            decreases self.entries@.len() - j,
        {
            if crate::numbers::bytes_eq(self.entries[j].0.as_slice(), key) {
                proof {
                    lemma_store_map_remove(self.entries@, j as int);
                    lemma_store_map_props(self.entries@.remove(j as int));
                    if store_map(self.entries@.remove(j as int)).contains_key(key@) {
                        let m = choose|m: int|
                            0 <= m < self.entries@.remove(j as int).len() && (
                            #[trigger] self.entries@.remove(j as int)[m].0)@ == key@;
                        if m < j {
                            assert(self.entries@.remove(j as int)[m] == self.entries@[m]);
                        } else {
                            assert(self.entries@.remove(j as int)[m] == self.entries@[m + 1]);
                        }
                    }
                }
                self.entries.remove(j);
                proof {
                    assert forall|m: int| 0 <= m < self.entries@.len() implies value_wf(
                        (#[trigger] self.entries@[m].1)@,
                    ) by {
                        if m < j {
                            assert(self.entries@[m] == old(self).entries@[m]);
                        } else {
                            assert(self.entries@[m] == old(self).entries@[m + 1]);
                        }
                    }
                }
                return true;
            }
            j = j + 1;
        }
        proof {
            if self@.contains_key(key@) {
                let m = choose|m: int|
                    0 <= m < self.entries@.len() && (#[trigger] self.entries@[m].0)@ == key@;
            }
        }
        false
    }
}

} // verus!
