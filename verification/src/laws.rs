//! What the map's operations promise of one another.
//!
//! Each law is stated over the entries a map holds, its view, in the terms
//! the operations' own contracts use: [`insert_entry`] for what
//! `OrderedMap::insert` leaves, `Seq::remove` at [`index_of`] for what
//! `OrderedMap::remove` leaves, and so on. Every map's view has
//! [`unique_keys`], which is all a law asks of its inputs besides what it is
//! about.

use vstd::prelude::*;
use vstd::seq_lib::group_to_multiset_ensures;
use vstd::set_lib::{lemma_int_range, lemma_map_size, lemma_subset_equality, set_int_range};
use vstd::relations::injective_on;
use vstd::std_specs::cmp::PartialEqSpec;
use crate::eq::same_entries;
use crate::map::{index_of, insert_entry, kept_in_order, lemma_index_of, lookup, unique_keys};
use crate::table::{lemma_table_sizes_apart, sized_for};

verus! {

/// The entries `OrderedMap::remove` leaves behind it: `key` taken out if it
/// was there, and nothing changed if it was not.
pub open spec fn remove_key<V>(entries: Seq<(Seq<char>, V)>, key: Seq<char>) -> Seq<(Seq<char>, V)> {
    match index_of(entries, key) {
        Some(i) => entries.remove(i),
        None => entries,
    }
}

/// A key that is nowhere in the entries has no place in them.
proof fn lemma_absent<V>(entries: Seq<(Seq<char>, V)>, key: Seq<char>)
    requires
        forall|p: int| 0 <= p < entries.len() ==> entries[p].0 != key,
    ensures
        index_of(entries, key) is None,
{
}

/// Read after write: a key maps to the value last inserted under it, an
/// insert leaves every other key mapping to what it did, and the keys stay
/// distinct.
pub proof fn law_insert_then_lookup<V>(
    entries: Seq<(Seq<char>, V)>,
    key: Seq<char>,
    value: V,
    other: Seq<char>,
)
    requires
        unique_keys(entries),
    ensures
        unique_keys(insert_entry(entries, key, value)),
        lookup(insert_entry(entries, key, value), key) == Some(value),
        other != key ==> lookup(insert_entry(entries, key, value), other) == lookup(entries, other),
{
    let after = insert_entry(entries, key, value);
    match index_of(entries, key) {
        Some(i) => {
            assert(entries[i].0 == key);
            assert forall|a: int, b: int|
                0 <= a < after.len() && 0 <= b < after.len() && a != b implies #[trigger] after[a].0
                != #[trigger] after[b].0 by {
                assert(after[a].0 == entries[a].0);
                assert(after[b].0 == entries[b].0);
            }
            lemma_index_of(after, key, i);
            if other != key {
                match index_of(entries, other) {
                    Some(j) => {
                        assert(entries[j].0 == other);
                        lemma_index_of(after, other, j);
                    },
                    None => {
                        assert forall|p: int| 0 <= p < after.len() implies after[p].0 != other by {
                            if p != i {
                                assert(after[p] == entries[p]);
                            }
                        }
                        lemma_absent(after, other);
                    },
                }
            }
        },
        None => {
            let n = entries.len() as int;
            assert forall|a: int, b: int|
                0 <= a < after.len() && 0 <= b < after.len() && a != b implies #[trigger] after[a].0
                != #[trigger] after[b].0 by {
                if a < n && b < n {
                    assert(after[a] == entries[a]);
                    assert(after[b] == entries[b]);
                } else if a < n {
                    assert(after[a] == entries[a]);
                } else {
                    assert(after[b] == entries[b]);
                }
            }
            lemma_index_of(after, key, n);
            if other != key {
                match index_of(entries, other) {
                    Some(j) => {
                        assert(entries[j].0 == other);
                        assert(after[j] == entries[j]);
                        lemma_index_of(after, other, j);
                    },
                    None => {
                        assert forall|p: int| 0 <= p < after.len() implies after[p].0 != other by {
                            if p < n {
                                assert(after[p] == entries[p]);
                            }
                        }
                        lemma_absent(after, other);
                    },
                }
            }
        },
    }
}

/// Inserting a key that is there keeps the length, the key's place and
/// every other entry; inserting one that is not appends it and moves
/// nothing.
pub proof fn law_insert_keeps_places<V>(entries: Seq<(Seq<char>, V)>, key: Seq<char>, value: V)
    requires
        unique_keys(entries),
    ensures
        index_of(entries, key) matches Some(i) ==> {
            &&& insert_entry(entries, key, value).len() == entries.len()
            &&& index_of(insert_entry(entries, key, value), key) == Some(i)
            &&& forall|j: int|
                0 <= j < entries.len() && j != i ==> #[trigger] insert_entry(entries, key, value)[j]
                    == entries[j]
        },
        index_of(entries, key) is None ==> {
            &&& insert_entry(entries, key, value).len() == entries.len() + 1
            &&& index_of(insert_entry(entries, key, value), key) == Some(entries.len() as int)
            &&& forall|j: int|
                0 <= j < entries.len() ==> #[trigger] insert_entry(entries, key, value)[j]
                    == entries[j]
        },
{
    law_insert_then_lookup(entries, key, value, key);
    let after = insert_entry(entries, key, value);
    match index_of(entries, key) {
        Some(i) => {
            assert(entries[i].0 == key);
            lemma_index_of(after, key, i);
        },
        None => {
            lemma_index_of(after, key, entries.len() as int);
        },
    }
}

/// Removing a key takes it out, leaves every other key mapping to what it
/// did, and keeps the rest in the order they had.
pub proof fn law_remove_then_lookup<V>(entries: Seq<(Seq<char>, V)>, key: Seq<char>, other: Seq<char>)
    requires
        unique_keys(entries),
    ensures
        unique_keys(remove_key(entries, key)),
        lookup(remove_key(entries, key), key) is None,
        other != key ==> lookup(remove_key(entries, key), other) == lookup(entries, other),
        exists|idx: Seq<int>| kept_in_order(entries, remove_key(entries, key), idx),
{
    let after = remove_key(entries, key);
    match index_of(entries, key) {
        Some(i) => {
            assert(entries[i].0 == key);
            let idx = Seq::new((entries.len() - 1) as nat, |j: int| if j < i { j } else { j + 1 });
            assert forall|j: int| 0 <= j < after.len() implies #[trigger] after[j] == entries[idx[j]] by {
            }
            assert(kept_in_order(entries, after, idx));
            assert forall|a: int, b: int|
                0 <= a < after.len() && 0 <= b < after.len() && a != b implies #[trigger] after[a].0
                != #[trigger] after[b].0 by {
                assert(after[a] == entries[idx[a]]);
                assert(after[b] == entries[idx[b]]);
            }
            assert forall|p: int| 0 <= p < after.len() implies after[p].0 != key by {
                assert(after[p] == entries[idx[p]]);
            }
            lemma_absent(after, key);
            if other != key {
                match index_of(entries, other) {
                    Some(j) => {
                        assert(entries[j].0 == other);
                        if j < i {
                            assert(after[j] == entries[j]);
                            lemma_index_of(after, other, j);
                        } else {
                            assert(after[j - 1] == entries[j]);
                            lemma_index_of(after, other, j - 1);
                        }
                    },
                    None => {
                        assert forall|p: int| 0 <= p < after.len() implies after[p].0 != other by {
                            assert(after[p] == entries[idx[p]]);
                        }
                        lemma_absent(after, other);
                    },
                }
            }
        },
        None => {
            let idx = Seq::new(entries.len(), |j: int| j);
            assert(kept_in_order(entries, after, idx));
        },
    }
}

/// Inserting a key that is absent and then removing it gives back the
/// entries as they were.
pub proof fn law_insert_then_remove<V>(entries: Seq<(Seq<char>, V)>, key: Seq<char>, value: V)
    requires
        unique_keys(entries),
        index_of(entries, key) is None,
    ensures
        remove_key(insert_entry(entries, key, value), key) == entries,
{
    law_insert_keeps_places(entries, key, value);
    let after = insert_entry(entries, key, value);
    assert(after.remove(entries.len() as int) =~= entries);
}

/// Entries that are the same entries in another order look every key up
/// alike. This is what `OrderedMap::sort_keys` leaves a map with.
pub proof fn law_reordered_lookup<V>(a: Seq<(Seq<char>, V)>, b: Seq<(Seq<char>, V)>, key: Seq<char>)
    requires
        unique_keys(a),
        unique_keys(b),
        a.to_multiset() == b.to_multiset(),
    ensures
        lookup(a, key) == lookup(b, key),
{
    broadcast use group_to_multiset_ensures;

    match index_of(a, key) {
        Some(i) => {
            assert(a[i].0 == key);
            assert(a.contains(a[i]));
            assert(b.to_multiset().count(a[i]) > 0);
            let j = choose|j: int| 0 <= j < b.len() && b[j] == a[i];
            lemma_index_of(b, key, j);
        },
        None => {
            if let Some(j) = index_of(b, key) {
                assert(b[j].0 == key);
                assert(b.contains(b[j]));
                assert(a.to_multiset().count(b[j]) > 0);
                let i = choose|i: int| 0 <= i < a.len() && a[i] == b[j];
                assert(a[i].0 == key);
            }
        },
    }
}

/// Equality ignores order: two maps holding the same entries, in whatever
/// order, are equal, for values whose equality holds of each value with
/// itself.
pub proof fn law_equal_in_any_order<V: PartialEq>(a: Seq<(Seq<char>, V)>, b: Seq<(Seq<char>, V)>)
    requires
        unique_keys(a),
        unique_keys(b),
        a.to_multiset() == b.to_multiset(),
        forall|v: V| #[trigger] v.eq_spec(&v),
    ensures
        same_entries(a, b),
{
    broadcast use group_to_multiset_ensures;

    a.to_multiset_ensures();
    b.to_multiset_ensures();
    assert forall|i: int| 0 <= i < a.len() implies match #[trigger] index_of(b, a[i].0) {
        Some(j) => a[i].1.eq_spec(&b[j].1),
        None => false,
    } by {
        assert(a.contains(a[i]));
        assert(b.to_multiset().count(a[i]) > 0);
        let j = choose|j: int| 0 <= j < b.len() && b[j] == a[i];
        lemma_index_of(b, a[i].0, j);
        assert(a[i].1.eq_spec(&a[i].1));
    }
}

/// There is one table size for a number of entries: the smallest that
/// holds them under the load limit. So a map that only ever grew by
/// `OrderedMap::insert`, which keeps its table the size for its entries,
/// has exactly `buckets_for(len)` buckets once it has a table at all.
pub proof fn law_one_table_size(a: int, b: int, entries: int)
    requires
        sized_for(a, entries),
        sized_for(b, entries),
    ensures
        a == b,
{
    if a < b {
        lemma_table_sizes_apart(a, b);
        assert(a / 4 * 3 <= (b / 2) / 4 * 3) by (nonlinear_arith)
            requires
                a <= b / 2,
                0 <= a,
        ;
    } else if b < a {
        lemma_table_sizes_apart(b, a);
        assert(b / 4 * 3 <= (a / 2) / 4 * 3) by (nonlinear_arith)
            requires
                b <= a / 2,
                0 <= b,
        ;
    }
}

/// Two maps of as many entries, each of the first one's keys present in the
/// second, have the same keys: each of the second one's keys is present in
/// the first.
proof fn lemma_same_keys<V>(a: Seq<(Seq<char>, V)>, b: Seq<(Seq<char>, V)>)
    requires
        unique_keys(a),
        unique_keys(b),
        a.len() == b.len(),
        forall|i: int| 0 <= i < a.len() ==> #[trigger] index_of(b, a[i].0) is Some,
    ensures
        forall|j: int| 0 <= j < b.len() ==> #[trigger] index_of(a, b[j].0) is Some,
{
    let n = a.len() as int;
    // Where each of `a`'s keys sits in `b`.
    let at = |i: int| match index_of(b, a[i].0) {
        Some(j) => j,
        None => -1,
    };
    let whole = set_int_range(0, n);
    lemma_int_range(0, n);
    assert forall|i: int| 0 <= i < n implies 0 <= #[trigger] at(i) < n && b[at(i)].0 == a[i].0 by {
        assert(index_of(b, a[i].0) is Some);
    }
    assert(injective_on(at, whole)) by {
        assert forall|x: int, y: int|
            whole.contains(x) && whole.contains(y) && #[trigger] at(x) == #[trigger] at(y) implies x
            == y by {
            assert(a[x].0 == b[at(x)].0);
            assert(a[y].0 == b[at(y)].0);
        }
    }
    let image = whole.map(at);
    lemma_map_size(whole, image, at);
    assert(image.subset_of(whole)) by {
        assert forall|j: int| image.contains(j) implies whole.contains(j) by {
            let i = choose|i: int| whole.contains(i) && j == at(i);
        }
    }
    lemma_subset_equality(image, whole);
    assert forall|j: int| 0 <= j < b.len() implies #[trigger] index_of(a, b[j].0) is Some by {
        assert(whole.contains(j));
        assert(image.contains(j));
        let i = choose|i: int| whole.contains(i) && j == at(i);
        assert(a[i].0 == b[j].0);
        lemma_index_of(a, b[j].0, i);
    }
}

/// Equality is symmetric: two maps are equal whichever of them is asked,
/// for values whose equality is.
pub proof fn law_equality_is_symmetric<V: PartialEq>(a: Seq<(Seq<char>, V)>, b: Seq<(Seq<char>, V)>)
    requires
        unique_keys(a),
        unique_keys(b),
        same_entries(a, b),
        forall|x: V, y: V| #[trigger] x.eq_spec(&y) ==> y.eq_spec(&x),
    ensures
        same_entries(b, a),
{
    assert forall|i: int| 0 <= i < a.len() implies #[trigger] index_of(b, a[i].0) is Some by {
        assert(match index_of(b, a[i].0) {
            Some(j) => a[i].1.eq_spec(&b[j].1),
            None => false,
        });
    }
    lemma_same_keys(a, b);
    assert forall|j: int| 0 <= j < b.len() implies match #[trigger] index_of(a, b[j].0) {
        Some(i) => b[j].1.eq_spec(&a[i].1),
        None => false,
    } by {
        assert(index_of(a, b[j].0) is Some);
        let i = index_of(a, b[j].0)->0;
        lemma_index_of(a, b[j].0, i);
        assert(a[i].0 == b[j].0);
        assert(match index_of(b, a[i].0) {
            Some(k) => a[i].1.eq_spec(&b[k].1),
            None => false,
        });
        lemma_index_of(b, a[i].0, j);
    }
}

/// What looking `key` up gives in `a` and in `b` agrees: absent from both, or
/// present in both with equal values. This is `a.get(key) == b.get(key)`.
pub open spec fn same_lookup<V: PartialEq>(
    a: Seq<(Seq<char>, V)>,
    b: Seq<(Seq<char>, V)>,
    key: Seq<char>,
) -> bool {
    match (index_of(a, key), index_of(b, key)) {
        (Some(i), Some(j)) => a[i].1.eq_spec(&b[j].1),
        (None, None) => true,
        _ => false,
    }
}

/// Two maps are equal exactly when they are as long and every key looks up
/// alike in both: absent from both, or present in both with equal values.
pub proof fn law_equal_iff_same_lookups<V: PartialEq>(a: Seq<(Seq<char>, V)>, b: Seq<(Seq<char>, V)>)
    requires
        unique_keys(a),
        unique_keys(b),
    ensures
        same_entries(a, b) <==> (a.len() == b.len() && forall|key: Seq<char>|
            #[trigger] same_lookup(a, b, key)),
{
    if same_entries(a, b) {
        assert forall|i: int| 0 <= i < a.len() implies #[trigger] index_of(b, a[i].0) is Some by {
            assert(match index_of(b, a[i].0) {
                Some(j) => a[i].1.eq_spec(&b[j].1),
                None => false,
            });
        }
        lemma_same_keys(a, b);
        assert forall|key: Seq<char>| #[trigger] same_lookup(a, b, key) by {
            match index_of(a, key) {
                Some(i) => {
                    lemma_index_of(a, key, i);
                    assert(match index_of(b, a[i].0) {
                        Some(j) => a[i].1.eq_spec(&b[j].1),
                        None => false,
                    });
                },
                None => {
                    if let Some(j) = index_of(b, key) {
                        lemma_index_of(b, key, j);
                        assert(index_of(a, b[j].0) is Some);
                    }
                },
            }
        }
    }
    if a.len() == b.len() && forall|key: Seq<char>| #[trigger] same_lookup(a, b, key) {
        assert forall|i: int| 0 <= i < a.len() implies match #[trigger] index_of(b, a[i].0) {
            Some(j) => a[i].1.eq_spec(&b[j].1),
            None => false,
        } by {
            lemma_index_of(a, a[i].0, i);
            assert(same_lookup(a, b, a[i].0));
        }
    }
}

} // verus!
