//! Map equality: the same keys mapped to equal values, whatever the order.

use vstd::prelude::*;
use vstd::std_specs::cmp::{PartialEqSpec, PartialEqSpecImpl};
use crate::map::{index_of, OrderedMap};

verus! {

/// `a` and `b` hold the same keys mapped to equal values: as many entries,
/// and each of `a`'s keys found in `b` with a value equal to its own.
pub open spec fn same_entries<V: PartialEq>(a: Seq<(Seq<char>, V)>, b: Seq<(Seq<char>, V)>) -> bool {
    &&& a.len() == b.len()
    &&& forall|i: int|
        0 <= i < a.len() ==> match #[trigger] index_of(b, a[i].0) {
            Some(j) => a[i].1.eq_spec(&b[j].1),
            None => false,
        }
}

/// Equality is over the entries, not over their order.
impl<V: PartialEq> PartialEq for OrderedMap<V> {
    fn eq(&self, other: &Self) -> (r: bool) {
        let len = self.len();
        if len != other.len() {
            return false;
        }
        let mut i: usize = 0;
        while i < len
            invariant
                len == self@.len(),
                len == other@.len(),
                i <= len,
                V::obeys_eq_spec() ==> forall|j: int|
                    0 <= j < i ==> match #[trigger] index_of(other@, self@[j].0) {
                        Some(k) => self@[j].1.eq_spec(&other@[k].1),
                        None => false,
                    },
            decreases len - i,
        {
            match self.get_index(i) {
                Some(kv) => {
                    let (key, value) = kv;
                    match other.get(key) {
                        Some(theirs) => {
                            if !value.eq(theirs) {
                                return false;
                            }
                        },
                        None => {
                            return false;
                        },
                    }
                },
                None => {
                    return false;
                },
            }
            i = i + 1;
        }
        true
    }
}

impl<V: Eq> Eq for OrderedMap<V> {}

impl<V: PartialEq> PartialEqSpecImpl for OrderedMap<V> {
    open spec fn obeys_eq_spec() -> bool {
        V::obeys_eq_spec()
    }

    open spec fn eq_spec(&self, other: &Self) -> bool {
        same_entries(self@, other@)
    }
}

} // verus!
