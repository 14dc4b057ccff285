use vstd::prelude::*;
use vstd::laws_cmp::obeys_cmp;
use vstd::std_specs::cmp::PartialEqSpec;
use std::collections::BTreeMap;
use crate::ds::linked_list::{without_first, LinkedList};

verus! {

/// An ordered index from keys to the values filed under each key, the
/// newest first.
pub struct BTree<K, V> {
    space: BTreeMap<K, LinkedList<V>>,
}

impl<K, V> View for BTree<K, V> {
    type V = Map<K, Seq<V>>;

    /// For each key that ever got a value, the values filed under it.
    closed spec fn view(&self) -> Map<K, Seq<V>> {
        Map::new(|key: K| self.space@.contains_key(key), |key: K| self.space@[key]@)
    }
}

impl<K: Ord, V: Eq + Copy> BTree<K, V> {
    pub fn new() -> (tree: Self)
        ensures
            tree@ == Map::<K, Seq<V>>::empty(),
    {
        let tree = Self { space: BTreeMap::new() };
        assert(tree@ =~= Map::<K, Seq<V>>::empty());
        tree
    }

    /// The values filed under `key`, or none if the key never got a value.
    pub open spec fn filed(self, key: K) -> Seq<V> {
        if self@.contains_key(key) {
            self@[key]
        } else {
            Seq::empty()
        }
    }

    /// Files `value` under `key`, in front of the values that are there.
    pub fn add(&mut self, key: K, value: V)
        ensures
            obeys_cmp::<K>() ==> final(self)@ == old(self)@.insert(
                key,
                seq![value] + old(self).filed(key),
            ),
    {
        let found = self.space.remove(&key);
        let mut ll = match found {
            Some(ll) => ll,
            None => LinkedList::new(),
        };
        ll.add(value);
        self.space.insert(key, ll);
        proof {
            if obeys_cmp::<K>() {
                assert(self@ =~= old(self)@.insert(key, seq![value] + old(self).filed(key)));
            }
        }
    }

    /// Takes out the first value, from the front, that equals `value` from
    /// those filed under `key`. The key stays, even with no value left.
    pub fn remove(&mut self, key: K, value: V)
        ensures
            obeys_cmp::<K>() && V::obeys_eq_spec() ==> final(self)@ == (if old(
                self,
            )@.contains_key(key) {
                old(self)@.insert(key, without_first(old(self)@[key], value))
            } else {
                old(self)@
            }),
    {
        let found = self.space.remove(&key);
        if let Some(mut ll) = found {
            ll.remove(value);
            self.space.insert(key, ll);
            proof {
                if obeys_cmp::<K>() && V::obeys_eq_spec() {
                    assert(self@ =~= old(self)@.insert(
                        key,
                        without_first(old(self)@[key], value),
                    ));
                }
            }
        } else {
            proof {
                if obeys_cmp::<K>() {
                    assert(self@ =~= old(self)@);
                }
            }
        }
    }

    /// The values filed under `key`, from the front to the back.
    pub fn collect(&self, key: K) -> (values: Vec<V>)
        ensures
            obeys_cmp::<K>() ==> values@ == self.filed(key),
    {
        let o_ll = self.space.get(&key);

        if let Some(ll) = o_ll {
            ll.collect()
        } else {
            Vec::new()
        }
    }
}

} // verus!
