//! The least value of a map from keys to costs.
use std::collections::HashMap;
use vstd::prelude::*;
use vstd::std_specs::hash::*;
use vstd::std_specs::iter::IteratorSpec;

verus! {

broadcast use vstd::std_specs::hash::group_hash_axioms;

/// A map from keys to costs that can name an entry of least finite cost.
pub trait HashMapExt<T> {
    /// What the map holds.
    spec fn entries(&self) -> Map<T, usize>;

    /// An entry of the least cost, if any cost is finite. Which of several entries of the
    /// least cost is named is left open.
    fn min_value(&self) -> (out: Option<(T, usize)>)
        requires
            obeys_key_model::<T>(),
        ensures
            match out {
                Some((key, value)) => {
                    &&& self.entries().contains_key(key)
                    &&& self.entries()[key] == value
                    &&& value < usize::MAX
                    &&& forall|k: T|
                        self.entries().contains_key(k) ==> value <= #[trigger] self.entries()[k]
                },
                None => forall|k: T|
                    self.entries().contains_key(k) ==> #[trigger] self.entries()[k] == usize::MAX,
            },
    ;
}

impl<T: Copy> HashMapExt<T> for HashMap<T, usize> {
    open spec fn entries(&self) -> Map<T, usize> {
        self@
    }

    fn min_value(&self) -> (out: Option<(T, usize)>) {
        let mut best_key: Option<T> = None;
        let mut best_value: usize = usize::MAX;
        for entry in it: self.iter()
            invariant
                obeys_key_model::<T>(),
                it.seq() == spec_hash_map_iter(self).remaining(),
                best_key is None ==> best_value == usize::MAX,
                best_key matches Some(key) ==> self@.contains_key(key) && self@[key] == best_value
                    && best_value < usize::MAX,
                forall|j: int| 0 <= j < it.index() ==> best_value <= *(#[trigger] it.seq()[j]).1,
        {
            let (key, value) = entry;
            proof {
                let all = it.seq();
                let at = it.index();
                assert(self@.contains_key(*all[at].0) && self@[*all[at].0] == *all[at].1);
            }
            if *value < best_value {
                best_key = Some(*key);
                best_value = *value;
            }
        }
        proof {
            let all = spec_hash_map_iter(self).remaining();
            assert forall|k: T| self@.contains_key(k) implies best_value <= #[trigger] self@[k] by {
                assert(all.contains((&k, &self@[k])));
                let j = choose|j: int| 0 <= j < all.len() && all[j] == (&k, &self@[k]);
                assert(best_value <= *all[j].1);
            }
        }
        match best_key {
            Some(key) => Some((key, best_value)),
            None => None,
        }
    }
}

} // verus!
