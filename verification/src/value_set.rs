//! Sets of values.

use vstd::prelude::*;
use std::collections::BTreeSet;
use vstd::std_specs::cmp::OrdSpec;
use vstd::std_specs::iter::IteratorSpec;
use crate::entity::Value;

verus! {

/// A finite set of values.
#[derive(Debug, PartialEq, Eq)]
pub struct ValueSet {
    ids: BTreeSet<usize>,
}

impl Clone for ValueSet {
    /// A set with the same values.
    fn clone(&self) -> (r: Self)
        ensures
            r@ == self@,
    {
        ValueSet { ids: self.ids.clone() }
    }
}

impl View for ValueSet {
    type V = Set<Value>;

    closed spec fn view(&self) -> Set<Value> {
        self.ids@.map(|i: usize| Value(i))
    }
}

impl ValueSet {
    proof fn lemma_finite(&self)
        ensures
            self.ids@.finite(),
    {
        let items = vstd::std_specs::btree::spec_btree_keys_iter(&self.ids).remaining().unref();
        vstd::std_specs::btree::axiom_spec_btree_keys_iter(&self.ids);
        vstd::seq_lib::seq_to_set_is_finite(items);
    }

    proof fn lemma_view(&self)
        ensures
            forall|v: Value| self@.contains(v) <==> self.ids@.contains(v.0),
    {
        assert forall|v: Value| self.ids@.contains(v.0) implies self@.contains(v) by {
            assert(Value(v.0) == v);
        }
    }

    /// The empty set.
    pub fn new() -> (s: ValueSet)
        ensures
            s@ == Set::<Value>::empty(),
    {
        let s = ValueSet { ids: BTreeSet::new() };
        proof {
            s.lemma_view();
        }
        assert(s@ =~= Set::<Value>::empty());
        s
    }

    /// Adds `v` to the set. Returns whether the set lacked it.
    pub fn insert(&mut self, v: Value) -> (added: bool)
        ensures
            final(self)@ == old(self)@.insert(v),
            added == !old(self)@.contains(v),
    {
        broadcast use vstd::laws_cmp::group_laws_cmp;

        proof {
            self.lemma_view();
        }
        let added = self.ids.insert(v.0);
        proof {
            self.lemma_view();
        }
        assert(self@ =~= old(self)@.insert(v));
        added
    }

    /// Whether `v` is in the set.
    pub fn contains(&self, v: Value) -> (r: bool)
        ensures
            r == self@.contains(v),
    {
        broadcast use vstd::laws_cmp::group_laws_cmp;

        proof {
            self.lemma_view();
        }
        self.ids.contains(&v.0)
    }

    /// The values of the set, each once, in the order of their handles.
    pub fn to_vec(&self) -> (r: Vec<Value>)
        ensures
            forall|v: Value| r@.contains(v) <==> self@.contains(v),
            forall|i: int, j: int| 0 <= i < j < r@.len() ==> r@[i].0 < r@[j].0,
            r@.len() == self@.len(),
    {
        broadcast use vstd::laws_cmp::group_laws_cmp;

        let ghost keys = vstd::std_specs::btree::spec_btree_keys_iter(&self.ids).remaining();
        let mut r: Vec<Value> = Vec::new();
        for id in it: self.ids.iter()
            invariant
                it.seq() == keys,
                r@.len() == it.index(),
                forall|i: int| 0 <= i < r@.len() ==> (#[trigger] r@[i]).0 == *keys[i],
        {
            r.push(Value(*id));
        }
        proof {
            self.lemma_listed(keys, r@);
        }
        r
    }

    /// A sequence that follows the set's own iteration holds the values of
    /// the set, each once, in the order of their handles.
    proof fn lemma_listed(&self, keys: Seq<&usize>, r: Seq<Value>)
        requires
            keys == vstd::std_specs::btree::spec_btree_keys_iter(&self.ids).remaining(),
            r.len() == keys.len(),
            forall|i: int| 0 <= i < r.len() ==> (#[trigger] r[i]).0 == *keys[i],
        ensures
            forall|v: Value| r.contains(v) <==> self@.contains(v),
            forall|i: int, j: int| 0 <= i < j < r.len() ==> r[i].0 < r[j].0,
            r.len() == self@.len(),
    {
        broadcast use vstd::laws_cmp::group_laws_cmp;

        self.lemma_view();
        self.lemma_finite();
        let f = |i: usize| Value(i);
        assert(vstd::relations::injective_on(f, self.ids@));
        vstd::set_lib::lemma_map_size(self.ids@, self@, f);
        vstd::std_specs::btree::axiom_spec_btree_keys_iter(&self.ids);
        vstd::std_specs::btree::axiom_increasing_seq_meaning(keys);
        let ids = keys.unref();
        assert forall|v: Value| r.contains(v) <==> self@.contains(v) by {
            if r.contains(v) {
                let i = choose|i: int| 0 <= i < r.len() && r[i] == v;
                assert(ids[i] == v.0);
                assert(ids.to_set().contains(v.0));
            }
            if self@.contains(v) {
                assert(ids.to_set().contains(v.0));
                assert(ids.contains(v.0));
                let i = choose|i: int| 0 <= i < ids.len() && ids[i] == v.0;
                assert(r[i].0 == *keys[i]);
                assert(r[i] == v);
            }
        }
        assert forall|i: int, j: int| 0 <= i < j < r.len() implies r[i].0 < r[j].0 by {
            assert(vstd::std_specs::btree::increasing_seq(keys));
            assert(OrdSpec::cmp_spec(&keys[i], &keys[j]) is Less);
            assert(r[i].0 == *keys[i]);
            assert(r[j].0 == *keys[j]);
        }
    }

    /// The number of values in the set.
    pub fn len(&self) -> (n: usize)
        ensures
            self@.finite(),
            n == self@.len(),
    {
        broadcast use vstd::laws_cmp::group_laws_cmp;

        proof {
            self.lemma_finite();
            let f = |i: usize| Value(i);
            assert(vstd::relations::injective_on(f, self.ids@));
            vstd::set_lib::lemma_map_size(self.ids@, self@, f);
            self.ids@.lemma_map_finite(f);
        }
        self.ids.len()
    }
}

} // verus!
