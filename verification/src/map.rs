//! An insertion-ordered map with `String` keys.
//!
//! Entries live in insertion order in two vectors side by side, the keys in
//! one and each key's value at the same place in the other, and those
//! vectors are the map: iteration and indexing by position come off them
//! directly.
//! Re-inserting an existing key replaces its value where it already sits.
//! Removing shifts the entries above it down, which keeps the order.
//!
//! Up to [`LINEAR_MAX`] entries a lookup scans the vector. Past that a
//! robin hood bucket table indexes every entry; see the `table` module.
//!
//! Two maps are equal when they hold the same keys mapped to equal values,
//! whatever order they were built in.

use vstd::prelude::*;
use crate::hash::{hash_key, spec_hash_key, str_equal};
use crate::entry::{Entry, OccupiedEntry, VacantEntry};
use crate::iter::IntoIter;
use crate::sort::{all_before, goes_before, key_lt, lemma_key_order, lemma_map_multiset, merge_sort, runs};
use vstd::seq_lib::{group_to_multiset_ensures, to_multiset_build};
use vstd::multiset::group_multiset_axioms;
use crate::table::{
    count, holds, indexable, is_table_size, table_after_push, table_fits, key_hashes, load_limit, shift_map, table_ok, Bucket, HashTable, LINEAR_MAX,
    MAX_INDEXED,
};

verus! {

/// A table size is a multiple of sixteen, and so of four.
pub proof fn lemma_table_size(b: int)
    ensures
        is_table_size(b) ==> b >= 16 && b % 16 == 0,
        is_table_size(b) ==> is_table_size(2 * b),
    decreases b,
{
    if b > 16 {
        lemma_table_size(b / 2);
    }
    assert((2 * b) / 2 == b);
}

/// The position of `key` among `entries`, if it is there.
pub open spec fn index_of<V>(entries: Seq<(Seq<char>, V)>, key: Seq<char>) -> Option<int> {
    if exists|i: int| 0 <= i < entries.len() && entries[i].0 == key {
        Some(choose|i: int| 0 <= i < entries.len() && entries[i].0 == key)
    } else {
        None
    }
}

/// No key appears twice.
pub open spec fn unique_keys<V>(entries: Seq<(Seq<char>, V)>) -> bool {
    forall|i: int, j: int|
        0 <= i < entries.len() && 0 <= j < entries.len() && i != j ==> #[trigger] entries[i].0
            != #[trigger] entries[j].0
}

/// The value `key` maps to, if any.
pub open spec fn lookup<V>(entries: Seq<(Seq<char>, V)>, key: Seq<char>) -> Option<V> {
    match index_of(entries, key) {
        Some(i) => Some(entries[i].1),
        None => None,
    }
}

/// The entries after inserting `key` with `value`: a present key keeps its
/// place and takes the new value, an absent one goes on the end.
pub open spec fn insert_entry<V>(entries: Seq<(Seq<char>, V)>, key: Seq<char>, value: V) -> Seq<
    (Seq<char>, V),
> {
    match index_of(entries, key) {
        Some(i) => entries.update(i, (key, value)),
        None => entries.push((key, value)),
    }
}

/// The entries after inserting each of `items` in turn, first to last.
pub open spec fn insert_all<V>(entries: Seq<(Seq<char>, V)>, items: Seq<(Seq<char>, V)>) -> Seq<
    (Seq<char>, V),
>
    decreases items.len(),
{
    if items.len() == 0 {
        entries
    } else {
        let before = insert_all(entries, items.drop_last());
        insert_entry(before, items.last().0, items.last().1)
    }
}

/// Where `key` is, when it is at `i`: the one place it can be.
pub proof fn lemma_index_of<V>(entries: Seq<(Seq<char>, V)>, key: Seq<char>, i: int)
    requires
        unique_keys(entries),
        0 <= i < entries.len(),
        entries[i].0 == key,
    ensures
        index_of(entries, key) == Some(i),
{
    let j = choose|j: int| 0 <= j < entries.len() && entries[j].0 == key;
    assert(entries[i].0 == entries[j].0);
}

/// `after` keeps some of the entries of `before`, in the order they had
/// there: `idx` says where each one came from.
pub open spec fn kept_in_order<V>(
    before: Seq<(Seq<char>, V)>,
    after: Seq<(Seq<char>, V)>,
    idx: Seq<int>,
) -> bool {
    &&& idx.len() == after.len()
    &&& forall|j: int| 0 <= j < idx.len() ==> 0 <= #[trigger] idx[j] < before.len()
    &&& forall|j: int, k: int| 0 <= j < k < idx.len() ==> #[trigger] idx[j] < #[trigger] idx[k]
    &&& forall|j: int| 0 <= j < idx.len() ==> #[trigger] after[j].0 == before[idx[j]].0
}

/// `now` is what keeping some entries of `before` leaves, given that the
/// `t`th was to be kept when `keep[t]` and was left with the value
/// `after[t]`: the entries kept, in their order, with those values. `idx`
/// says where in `before` each one came from.
pub open spec fn retained<V>(
    before: Seq<(Seq<char>, V)>,
    now: Seq<(Seq<char>, V)>,
    idx: Seq<int>,
    keep: Seq<bool>,
    after: Seq<V>,
) -> bool {
    &&& kept_in_order(before, now, idx)
    &&& keep.len() == before.len()
    &&& after.len() == before.len()
    &&& forall|j: int| 0 <= j < idx.len() ==> keep[#[trigger] idx[j]] && now[j].1 == after[idx[j]]
    &&& forall|t: int|
        0 <= t < before.len() && #[trigger] keep[t] ==> exists|j: int| 0 <= j < idx.len() && idx[j] == t
}

/// A position of a sequence of entries: the trigger under which what a
/// callback did at each position is stated.
pub open spec fn position(t: int) -> bool {
    true
}

/// Ask `f` about each entry of `values` from position `i` on, front to back,
/// lending it the entry's value in place. Returns `f`, `answers` with its
/// answers appended, and the values as `f` left them.
fn ask_each<V, F: FnMut(&str, &mut V) -> bool>(
    f: F,
    keys: &Vec<String>,
    values: Vec<V>,
    i: usize,
    answers: Vec<bool>,
) -> (r: (F, Vec<bool>, Vec<V>))
    requires
        values@.len() == keys@.len(),
        i <= keys@.len(),
        answers@.len() == i,
        forall|k: &str, v: &mut V| call_requires(f, (k, v)),
    ensures
        r.0 == f,
        r.1@.len() == keys@.len(),
        r.2@.len() == keys@.len(),
        forall|t: int| 0 <= t < i ==> #[trigger] r.1@[t] == answers@[t] && r.2@[t] == values@[t],
        forall|t: int|
            #![trigger position(t)]
            position(t) && i <= t < keys@.len() ==> exists|k: &str, m: &mut V|
                k@ == keys@[t]@ && call_ensures(f, (k, m), r.1@[t]) && mut_ref_current(m) == values@[t]
                    && mut_ref_future(m) == r.2@[t],
    decreases keys@.len() - i,
{
    if i >= keys.len() {
        return (f, answers, values);
    }
    let ghost v0 = values@;
    let ghost f0 = f;
    let ghost a0 = answers@;
    let mut f = f;
    let mut values = values;
    let kept = f(keys[i].as_str(), &mut values[i]);
    let ghost v1 = values@;
    // What `f` did here: the entry's value before and after the call.
    assert(exists|k: &str, m: &mut V|
        #![trigger call_ensures(f, (k, m), kept)]
        k@ == keys@[i as int]@ && call_ensures(f, (k, m), kept) && mut_ref_current(m) == v0[i as int]
            && mut_ref_future(m) == v1[i as int]);
    proof {
        assert(f == f0);
        assert(v1 == v0.update(i as int, v1[i as int]));
    }
    let mut answers = answers;
    answers.push(kept);
    let ghost pushed = answers@;
    let ghost lent = values;
    let rest = ask_each(f, keys, values, i + 1, answers);
    proof {
        assert(rest.1@[i as int] == pushed[i as int]);
        assert(rest.2@[i as int] == lent@[i as int]);
    }
    assert forall|t: int|
        #![trigger position(t)]
        position(t) && i <= t < keys@.len() implies exists|k: &str, m: &mut V|
            #![trigger call_ensures(f0, (k, m), rest.1@[t])]
            k@ == keys@[t]@ && call_ensures(f0, (k, m), rest.1@[t]) && mut_ref_current(m) == v0[t]
                && mut_ref_future(m) == rest.2@[t] by {
        if t > i {
            assert(exists|k: &str, m: &mut V|
                #![trigger call_ensures(f, (k, m), rest.1@[t])]
                k@ == keys@[t]@ && call_ensures(f, (k, m), rest.1@[t]) && mut_ref_current(m) == lent@[t]
                    && mut_ref_future(m) == rest.2@[t]);
            assert(lent@[t] == v0[t]);
        } else {
            assert(rest.1@[t] == kept);
            assert(rest.2@[t] == v1[t]);
        }
    }
    assert forall|t: int| 0 <= t < i implies #[trigger] rest.1@[t] == a0[t] && rest.2@[t] == v0[t] by {
        assert(rest.1@[t] == pushed[t]);
        assert(rest.2@[t] == v1[t]);
    }
    rest
}

/// A strictly increasing run of positions below `n` that is `n` long is
/// every position, in order.
proof fn lemma_increasing_is_identity(idx: Seq<int>, n: int)
    requires
        idx.len() == n,
        forall|j: int| 0 <= j < n ==> 0 <= #[trigger] idx[j] < n,
        forall|j: int, k: int| 0 <= j < k < n ==> #[trigger] idx[j] < #[trigger] idx[k],
    ensures
        forall|j: int| 0 <= j < n ==> #[trigger] idx[j] == j,
    decreases n,
{
    if n > 0 {
        let front = idx.drop_last();
        assert forall|j: int| 0 <= j < n - 1 implies 0 <= #[trigger] front[j] < n - 1 by {
            assert(idx[j] < idx[n - 1]);
        }
        lemma_increasing_is_identity(front, n - 1);
        assert forall|j: int| 0 <= j < n implies #[trigger] idx[j] == j by {
            if j < n - 1 {
                assert(front[j] == idx[j]);
            } else {
                if n >= 2 {
                    assert(front[n - 2] == n - 2);
                    assert(idx[n - 2] < idx[n - 1]);
                }
            }
        }
    }
}

/// Keeping entries in order keeps their keys distinct.
proof fn lemma_kept_unique<V>(before: Seq<(Seq<char>, V)>, after: Seq<(Seq<char>, V)>, idx: Seq<int>)
    requires
        unique_keys(before),
        kept_in_order(before, after, idx),
    ensures
        unique_keys(after),
{
    assert forall|i: int, j: int|
        0 <= i < after.len() && 0 <= j < after.len() && i != j implies #[trigger] after[i].0
        != #[trigger] after[j].0 by {
        if i < j {
            assert(idx[i] < idx[j]);
        } else {
            assert(idx[j] < idx[i]);
        }
        assert(before[idx[i]].0 != before[idx[j]].0);
    }
}

/// The keys and values side by side, as the pairs they make.
spec fn pair_up<V>(keys: Seq<String>, values: Seq<V>) -> Seq<(String, V)> {
    Seq::new(keys.len(), |i: int| (keys[i], values[i]))
}

/// A stored pair as an entry: the key as its text, and the value.
spec fn pair_view<V>(p: (String, V)) -> (Seq<char>, V) {
    (p.0@, p.1)
}

/// What a lookup found, and what an insert needs to know when it did not.
enum Lookup {
    /// The key is at this position.
    Occupied(usize),
    /// The key is absent, with the hash the probe computed on its way to
    /// finding that out, or `None` when the map answered by scanning.
    Vacant(Option<u32>),
}

/// The number of elements a vector can hold before it reallocates: std's
/// `Vec::capacity`, which its documentation says is at least the length.
#[verifier::external_body]
fn vec_capacity<T>(v: &Vec<T>) -> (r: usize)
    ensures
        r >= v@.len(),
{
    v.capacity()
}

/// Whether a map of `len` entries gets a table.
fn wants_table(len: usize) -> (r: bool)
    ensures
        r == indexable(len as int),
{
    LINEAR_MAX < len && len <= MAX_INDEXED && len <= (usize::MAX / 8) / 4 * 3
}

/// The keys and values in insertion order, side by side, with the table over
/// the keys: the map, without the guarantee that it is sound, which the
/// methods here take and keep.
#[derive(Debug)]
struct Store<V> {
    /// The keys, in insertion order.
    keys: Vec<String>,
    /// The value of each key, at the key's position.
    values: Vec<V>,
    /// Lookup acceleration over all of `keys`, or empty for a map small
    /// enough to scan.
    table: HashTable,
    /// The room that was asked for, through `with_capacity` or `reserve`,
    /// since the vectors were last replaced: both vectors hold at least this
    /// much, which is what `capacity` promises.
    room: usize,
}

impl<V> View for Store<V> {
    type V = Seq<(Seq<char>, V)>;

    /// The entries in order, each key as its text.
    closed spec fn view(&self) -> Seq<(Seq<char>, V)> {
        Seq::new(self.keys@.len(), |i: int| (self.keys@[i]@, self.values@[i]))
    }
}

impl<V> Store<V> {
    /// The store is sound: a value for every key, no key twice, and a table
    /// over every key exactly when the map is large enough to want one.
    closed spec fn wf(&self) -> bool {
        let n = self.table.buckets@.len() as int;
        let len = self.keys@.len() as int;
        &&& self.values@.len() == len
        &&& unique_keys(self@)
        &&& (n > 0) == indexable(len)
        &&& n > 0 ==> {
            &&& table_ok(self.table.buckets@)
            &&& holds(self.table.buckets@, key_hashes(self.keys@))
            &&& count(self.table.buckets@) == len
            &&& len <= n / 4 * 3
            &&& is_table_size(n)
            &&& n <= usize::MAX / 2
        }
    }

    /// Any store with these keys, this table and a value for every key is
    /// sound, whatever the values are.
    proof fn lemma_values_free(a: &Self)
        requires
            a.wf(),
        ensures
            forall|b: Self|
                b.keys@ == a.keys@ && b.table == a.table && b.values@.len() == a.values@.len()
                    ==> #[trigger] b.wf(),
    {
        assert forall|b: Self|
            b.keys@ == a.keys@ && b.table == a.table && b.values@.len() == a.values@.len()
                implies #[trigger] b.wf() by {
            assert forall|i: int, j: int|
                0 <= i < b@.len() && 0 <= j < b@.len() && i != j implies #[trigger] b@[i].0
                != #[trigger] b@[j].0 by {
                assert(b@[i].0 == a@[i].0);
                assert(b@[j].0 == a@[j].0);
            }
        }
    }

    /// Setting the value at `pos` and nothing else changes the view there.
    proof fn lemma_value_set(a: &Self, pos: int)
        requires
            0 <= pos < a.keys@.len(),
            a.values@.len() == a.keys@.len(),
        ensures
            forall|b: Self|
                b.keys@ == a.keys@ && #[trigger] b.values@ == a.values@.update(pos, b.values@[pos])
                    ==> b@ == a@.update(pos, (a@[pos].0, b.values@[pos])),
    {
        assert forall|b: Self|
            b.keys@ == a.keys@ && #[trigger] b.values@ == a.values@.update(pos, b.values@[pos])
                implies b@ == a@.update(pos, (a@[pos].0, b.values@[pos])) by {
            assert(b@ =~= a@.update(pos, (a@[pos].0, b.values@[pos])));
        }
    }

    /// An empty store. Allocates nothing.
    fn new() -> (map: Self)
        ensures
            map.wf(),
            map@ == Seq::<(Seq<char>, V)>::empty(),
            map.table.buckets@.len() == 0,
            map.room == 0,
    {
        let map = Store { keys: Vec::new(), values: Vec::new(), table: HashTable::new(), room: 0 };
        assert(map@ =~= Seq::<(Seq<char>, V)>::empty());
        map
    }

    /// An empty store with room for `capacity` entries.
    fn with_capacity(capacity: usize) -> (map: Self)
        ensures
            map.wf(),
            map@ == Seq::<(Seq<char>, V)>::empty(),
            map.table.buckets@.len() == 0,
            map.room == capacity,
    {
        let map = Store {
            keys: Vec::with_capacity(capacity),
            values: Vec::with_capacity(capacity),
            table: HashTable::new(),
            room: capacity,
        };
        assert(map@ =~= Seq::<(Seq<char>, V)>::empty());
        map
    }

    /// How many entries the store can hold before it reallocates: the
    /// smaller of the two vectors' capacities, which is never below the
    /// room that was asked for.
    fn capacity(&self) -> (r: usize)
        requires
            self.wf(),
        ensures
            r >= self@.len(),
            r >= self.room,
    {
        let keys = vec_capacity(&self.keys);
        let values = vec_capacity(&self.values);
        let held = if keys < values {
            keys
        } else {
            values
        };
        if held < self.room {
            self.room
        } else {
            held
        }
    }

    /// Reserve room for `additional` more entries.
    fn reserve(&mut self, additional: usize)
        requires
            old(self).wf(),
        ensures
            final(self).wf(),
            final(self)@ == old(self)@,
            final(self).table == old(self).table,
            final(self).room >= old(self).room,
            old(self)@.len() + additional <= usize::MAX ==> final(self).room >= old(self)@.len()
                + additional,
    {
        self.keys.reserve(additional);
        self.values.reserve(additional);
        let wanted = self.keys.len().saturating_add(additional);
        if self.room < wanted {
            self.room = wanted;
        }
        assert(self@ =~= old(self)@);
    }

    /// The number of entries.
    fn len(&self) -> (r: usize)
        ensures
            r == self@.len(),
    {
        self.keys.len()
    }

    /// Drop every entry, keeping the allocated capacity.
    fn clear(&mut self)
        ensures
            final(self).wf(),
            final(self)@ == Seq::<(Seq<char>, V)>::empty(),
            final(self).table.buckets@.len() == 0,
            final(self).room == old(self).room,
    {
        self.keys.clear();
        self.values.clear();
        self.table.clear();
        assert(self@ =~= Seq::<(Seq<char>, V)>::empty());
    }

    /// Position of `key`, by whichever route this store's size calls for,
    /// and the key's hash when the route computed one.
    fn locate(&self, key: &str) -> (r: Lookup)
        requires
            self.wf(),
        ensures
            match r {
                Lookup::Occupied(p) => p < self@.len() && self@[p as int].0 == key@,
                Lookup::Vacant(h) => {
                    &&& forall|p: int| 0 <= p < self@.len() ==> self@[p].0 != key@
                    &&& (h is None <==> self.table.buckets@.len() == 0)
                    &&& h matches Some(x) ==> x == spec_hash_key(key@)
                },
            },
    {
        if self.table.is_empty() {
            let len = self.keys.len();
            let mut i: usize = 0;
            while i < len
                invariant
                    len == self.keys@.len(),
                    len == self@.len(),
                    i <= len,
                    forall|p: int| 0 <= p < i ==> self@[p].0 != key@,
                decreases len - i,
            {
                if str_equal(self.keys[i].as_str(), key) {
                    return Lookup::Occupied(i);
                }
                i = i + 1;
            }
            return Lookup::Vacant(None);
        }
        let hash = hash_key(key);
        match self.table.find(&self.keys, key, hash) {
            Some(pos) => Lookup::Occupied(pos),
            None => Lookup::Vacant(Some(hash)),
        }
    }

    /// Position of `key`, for the callers that have nothing to insert.
    fn find(&self, key: &str) -> (r: Option<usize>)
        requires
            self.wf(),
        ensures
            match r {
                Some(p) => index_of(self@, key@) == Some(p as int) && p < self@.len(),
                None => index_of(self@, key@) is None,
            },
    {
        match self.locate(key) {
            Lookup::Occupied(pos) => {
                proof {
                    lemma_index_of(self@, key@, pos as int);
                }
                Some(pos)
            },
            Lookup::Vacant(_) => None,
        }
    }

    /// The key and value at position `index`, in insertion order.
    fn get_index(&self, index: usize) -> (r: Option<(&str, &V)>)
        requires
            self.wf(),
        ensures
            index < self@.len() ==> (r matches Some(kv) && kv.0@ == self@[index as int].0 && *kv.1
                == self@[index as int].1),
            index >= self@.len() ==> r is None,
    {
        if index < self.keys.len() {
            Some((self.keys[index].as_str(), &self.values[index]))
        } else {
            None
        }
    }

    /// Rebuild or discard the table after the keys have been reordered or
    /// thinned wholesale.
    fn reindex(&mut self)
        requires
            unique_keys(old(self)@),
            old(self).values@.len() == old(self).keys@.len(),
        ensures
            final(self).wf(),
            final(self).keys == old(self).keys,
            final(self).values == old(self).values,
            final(self).room == old(self).room,
            table_fits(final(self).table.buckets@.len() as int, final(self).keys@.len() as int),
    {
        if wants_table(self.keys.len()) {
            self.table.rebuild(&self.keys);
            proof {
                lemma_table_size(self.table.buckets@.len() as int);
            }
        } else {
            self.table.clear();
        }
    }

    /// Append an entry whose key is known to be absent, and give it a bucket.
    /// `hash` is what the probe that established the key's absence computed,
    /// so the key is hashed at most once. Returns the new entry's position.
    fn push_new(&mut self, key: String, value: V, hash: Option<u32>) -> (pos: usize)
        requires
            old(self).wf(),
            forall|p: int| 0 <= p < old(self)@.len() ==> old(self)@[p].0 != key@,
            hash matches Some(h) ==> h == spec_hash_key(key@),
        ensures
            final(self).wf(),
            final(self)@ == old(self)@.push((key@, value)),
            pos == old(self)@.len(),
            final(self).room == old(self).room,
            table_after_push(
                old(self).table.buckets@.len() as int,
                final(self).table.buckets@.len() as int,
                final(self)@.len() as int,
            ),
            table_fits(old(self).table.buckets@.len() as int, old(self)@.len() as int) ==> table_fits(
                final(self).table.buckets@.len() as int,
                final(self)@.len() as int,
            ),
    {
        let ghost before = key_hashes(self.keys@);
        let ghost key_view = key@;
        let pos = self.keys.len();
        self.keys.push(key);
        self.values.push(value);
        let len = self.keys.len();
        proof {
            assert(self@ =~= old(self)@.push((key_view, value)));
            assert(key_hashes(self.keys@) =~= before.insert(pos as int, spec_hash_key(key_view)));
            assert forall|i: int, j: int|
                0 <= i < self@.len() && 0 <= j < self@.len() && i != j implies #[trigger] self@[i].0
                != #[trigger] self@[j].0 by {
                if i < pos && j < pos {
                    assert(self@[i] == old(self)@[i]);
                    assert(self@[j] == old(self)@[j]);
                }
            }
        }
        if len <= LINEAR_MAX {
        } else if !wants_table(len) {
            self.table.clear();
        } else if self.table.is_empty() {
            self.reindex();
        } else {
            proof {
                lemma_table_size(self.table.buckets@.len() as int);
            }
            let ghost n = self.table.buckets@.len() as int;
            if len > load_limit(self.table.buckets.len()) {
                self.table.grow(Ghost(before));
                proof {
                    lemma_table_size(self.table.buckets@.len() as int / 2);
                    assert((self.table.buckets@.len() as int) / 2 * 2 == self.table.buckets@.len());
                    assert(n % 4 == 0);
                    assert((2 * n) / 4 * 3 == 2 * (n / 4 * 3));
                    assert((2 * n) / 2 == n);
                }
            }
            let hash = match hash {
                Some(h) => h,
                None => hash_key(self.keys[pos].as_str()),
            };
            proof {
                assert(!before.contains_key(pos as int));
            }
            self.table.place(Bucket { index: pos as u32, hash }, Ghost(before));
        }
        pos
    }

    /// Insert a key and value, returning the previous value if the key was
    /// already present. A present key keeps the position it already had.
    fn insert(&mut self, key: String, value: V) -> (r: Option<V>)
        requires
            old(self).wf(),
        ensures
            final(self).wf(),
            match index_of(old(self)@, key@) {
                Some(i) => r == Some(old(self)@[i].1) && final(self)@ == old(self)@.update(
                    i,
                    (key@, value),
                ),
                None => r is None && final(self)@ == old(self)@.push((key@, value)),
            },
            final(self).room == old(self).room,
            index_of(old(self)@, key@) is Some ==> final(self).table.buckets@.len()
                == old(self).table.buckets@.len(),
            index_of(old(self)@, key@) is None ==> table_after_push(
                old(self).table.buckets@.len() as int,
                final(self).table.buckets@.len() as int,
                final(self)@.len() as int,
            ),
            table_fits(old(self).table.buckets@.len() as int, old(self)@.len() as int) ==> table_fits(
                final(self).table.buckets@.len() as int,
                final(self)@.len() as int,
            ),
    {
        match self.locate(key.as_str()) {
            Lookup::Occupied(pos) => {
                proof {
                    lemma_index_of(self@, key@, pos as int);
                    Self::lemma_values_free(self);
                    Self::lemma_value_set(self, pos as int);
                }
                let mut previous = value;
                std::mem::swap(&mut self.values[pos], &mut previous);
                Some(previous)
            },
            Lookup::Vacant(hash) => {
                self.push_new(key, value, hash);
                None
            },
        }
    }

    /// Remove the entry at `pos`, shifting the rest down and repairing the
    /// table: the removed key's bucket is emptied by backward shift, and every
    /// bucket holding a position above the hole is decremented. A removal
    /// that takes the map back down to [`LINEAR_MAX`] drops the table.
    fn remove_at(&mut self, pos: usize) -> (r: (String, V))
        requires
            old(self).wf(),
            pos < old(self)@.len(),
        ensures
            final(self).wf(),
            final(self)@ == old(self)@.remove(pos as int),
            final(self).room == old(self).room,
            r.0@ == old(self)@[pos as int].0,
            r.1 == old(self)@[pos as int].1,
    {
        let ghost before = key_hashes(self.keys@);
        proof {
            assert forall|i: int, j: int|
                0 <= i < old(self)@.remove(pos as int).len() && 0 <= j < old(self)@.remove(
                    pos as int,
                ).len() && i != j implies #[trigger] old(self)@.remove(pos as int)[i].0
                != #[trigger] old(self)@.remove(pos as int)[j].0 by {
                let a = if i < pos { i } else { i + 1 };
                let b = if j < pos { j } else { j + 1 };
                assert(old(self)@[a].0 != old(self)@[b].0);
            }
        }
        if self.table.is_empty() || self.keys.len() - 1 <= LINEAR_MAX {
            let key = self.keys.remove(pos);
            let value = self.values.remove(pos);
            proof {
                assert(self@ =~= old(self)@.remove(pos as int));
            }
            self.reindex();
            return (key, value);
        }
        let bucket = self.table.bucket_of(&self.keys, pos);
        self.table.erase(bucket, Ghost(before));
        let key = self.keys.remove(pos);
        let value = self.values.remove(pos);
        proof {
            assert(before.remove(pos as int).contains_key(pos as int) == false);
        }
        self.table.shift_down_above(pos, Ghost(before.remove(pos as int)));
        proof {
            assert(self@ =~= old(self)@.remove(pos as int));
            assert(shift_map(before.remove(pos as int), pos as int) =~= key_hashes(self.keys@));
        }
        (key, value)
    }

    /// Keep only the entries `f` returns `true` for, in order. `f` is called
    /// once on each entry, front to back, and may change its value; a kept
    /// entry keeps the value `f` left it.
    fn retain<F: FnMut(&str, &mut V) -> bool>(&mut self, f: F)
        requires
            old(self).wf(),
            forall|k: &str, v: &mut V| call_requires(f, (k, v)),
        ensures
            final(self).wf(),
            exists|idx: Seq<int>, keep: Seq<bool>, after: Seq<V>|
                #![trigger retained(old(self)@, final(self)@, idx, keep, after)]
                {
                    &&& retained(old(self)@, final(self)@, idx, keep, after)
                    &&& forall|t: int|
                        #![trigger position(t)]
                        position(t) && 0 <= t < old(self)@.len() ==> exists|k: &str, m: &mut V|
                            k@ == old(self)@[t].0 && call_ensures(f, (k, m), keep[t]) && mut_ref_current(m)
                                == old(self)@[t].1 && mut_ref_future(m) == after[t]
                },
    {
        let ghost before = self@;
        let mut values: Vec<V> = Vec::new();
        std::mem::swap(&mut self.values, &mut values);
        let ghost keys0 = self.keys@;
        let ghost values0 = values@;
        let (_, answers, asked) = ask_each(f, &self.keys, values, 0, Vec::new());
        proof {
            assert(before =~= Seq::new(keys0.len(), |i: int| (keys0[i]@, values0[i])));
        }
        self.values = asked;
        proof {
            Self::lemma_values_free(&old(self));
        }
        let ghost asked_view = self@;
        let ghost asked_values = self.values@;
        self.keep_where(&answers);
        proof {
            let idx = choose|idx: Seq<int>| retained(asked_view, self@, idx, answers@, asked_values);
            assert forall|j: int| 0 <= j < idx.len() implies #[trigger] self@[j].0 == before[idx[j]].0 by {
                assert(self@[j].0 == asked_view[idx[j]].0);
            }
            assert(retained(before, self@, idx, answers@, asked_values));
            assert forall|t: int|
                #![trigger position(t)]
                position(t) && 0 <= t < before.len() implies exists|k: &str, m: &mut V|
                    k@ == before[t].0 && call_ensures(f, (k, m), answers@[t]) && mut_ref_current(m)
                        == before[t].1 && mut_ref_future(m) == asked_values[t] by {
                assert(position(t));
                assert(before[t] == (keys0[t]@, values0[t]));
            }
        }
    }

    /// Keep the entries at the positions `keep` says, in order, each with its
    /// value.
    #[verifier::rlimit(40)]
    #[verifier::spinoff_prover]
    fn keep_where(&mut self, keep_all: &Vec<bool>)
        requires
            old(self).wf(),
            keep_all@.len() == old(self)@.len(),
        ensures
            final(self).wf(),
            exists|idx: Seq<int>| retained(old(self)@, final(self)@, idx, keep_all@, old(self).values@),
    {
        let ghost old_view = self@;
        let ghost old_keys = self.keys@;
        let ghost old_values = self.values@;
        let ghost old_table = self.table;
        let before = self.keys.len();
        let mut rest_keys: Vec<String> = Vec::new();
        let mut rest_values: Vec<V> = Vec::new();
        std::mem::swap(&mut self.keys, &mut rest_keys);
        std::mem::swap(&mut self.values, &mut rest_values);
        // The vectors that the kept entries go into are new.
        self.room = 0;
        let mut keys: Vec<String> = Vec::new();
        let mut values: Vec<V> = Vec::new();
        while rest_keys.len() > 0
            invariant
                rest_keys@.len() == rest_values@.len(),
                keys@.len() == values@.len(),
                rest_keys@ + keys@.reverse() == old_keys,
                rest_values@ + values@.reverse() == old_values,
            decreases rest_keys@.len(),
        {
            let ghost r0 = rest_keys@;
            let ghost s0 = keys@;
            let ghost rv0 = rest_values@;
            let ghost sv0 = values@;
            match (rest_keys.pop(), rest_values.pop()) {
                (Some(k), Some(v)) => {
                    keys.push(k);
                    values.push(v);
                    proof {
                        assert(rest_keys@ + keys@.reverse() =~= r0 + s0.reverse());
                        assert(rest_values@ + values@.reverse() =~= rv0 + sv0.reverse());
                    }
                },
                _ => {},
            }
        }
        assert(keys@.reverse() =~= old_keys);
        assert(values@.reverse() =~= old_values);
        let ghost mut idx: Seq<int> = Seq::empty();
        let ghost mut keep: Seq<bool> = Seq::empty();
        let ghost mut after: Seq<V> = Seq::empty();
        while keys.len() > 0
            invariant
                before == old_keys.len(),
                keep_all@.len() == old_keys.len(),
                old_keys.len() == old_view.len(),
                old_values.len() == old_view.len(),
                forall|i: int|
                    0 <= i < old_keys.len() ==> #[trigger] old_view[i] == (old_keys[i]@, old_values[i]),
                keys@.len() == values@.len(),
                keys@.reverse() == old_keys.skip(old_keys.len() - keys@.len()),
                values@.reverse() == old_values.skip(old_values.len() - values@.len()),
                keys@.len() <= old_keys.len(),
                self.keys@.len() == self.values@.len(),
                self.table == old_table,
                kept_in_order(old_view, self@, idx),
                forall|j: int| 0 <= j < idx.len() ==> #[trigger] idx[j] < old_keys.len() - keys@.len(),
                keep.len() == old_keys.len() - keys@.len(),
                after.len() == keep.len(),
                keep == keep_all@.take(keep.len() as int),
                after == old_values.take(after.len() as int),
                forall|j: int| 0 <= j < idx.len() ==> keep[#[trigger] idx[j]] && self@[j].1 == after[idx[j]],
                forall|t: int|
                    0 <= t < keep.len() && #[trigger] keep[t] ==> exists|j: int|
                        0 <= j < idx.len() && idx[j] == t,
            decreases keys@.len(),
        {
            let ghost s0 = keys@;
            let ghost sv0 = values@;
            let ghost e0 = self@;
            let ghost done = old_keys.len() - s0.len();
            let key = keys.pop().unwrap();
            let value = values.pop().unwrap();
            proof {
                assert(s0.reverse()[0] == s0.last());
                assert(sv0.reverse()[0] == sv0.last());
                assert(old_keys.skip(done)[0] == old_keys[done]);
                assert(old_values.skip(done)[0] == old_values[done]);
                assert(keys@.reverse() =~= s0.reverse().drop_first());
                assert(values@.reverse() =~= sv0.reverse().drop_first());
                assert(old_keys.skip(done).drop_first() =~= old_keys.skip(done + 1));
                assert(old_values.skip(done).drop_first() =~= old_values.skip(done + 1));
            }
            let ghost key_view = key@;
            let ghost value_before = value;
            proof {
                assert(old_view[done] == (old_keys[done]@, old_values[done]));
                assert(key_view == old_view[done].0);
                assert(value_before == old_view[done].1);
            }
            let kept = keep_all[before - keys.len() - 1];
            proof {
                assert(before - keys@.len() - 1 == done);
                assert(keep_all@.take(done + 1) =~= keep.push(kept));
                assert(old_values.take(done + 1) =~= after.push(value));
                keep = keep.push(kept);
                after = after.push(value);
            }
            if kept {
                self.keys.push(key);
                self.values.push(value);
                proof {
                    let idx2 = idx.push(done);
                    assert forall|j: int| 0 <= j < idx2.len() implies #[trigger] self@[j].0
                        == old_view[idx2[j]].0 by {
                        if j < idx.len() {
                            assert(self@[j].0 == e0[j].0);
                            assert(idx2[j] == idx[j]);
                        } else {
                            assert(self@[j].0 == key_view);
                            assert(idx2[j] == done);
                        }
                    }
                    assert forall|j: int| 0 <= j < idx2.len() implies keep[#[trigger] idx2[j]]
                        && self@[j].1 == after[idx2[j]] by {
                        if j < idx.len() {
                            assert(self@[j] == e0[j]);
                            assert(idx2[j] == idx[j]);
                        } else {
                            assert(idx2[j] == done);
                        }
                    }
                    assert forall|t: int|
                        0 <= t < keep.len() && #[trigger] keep[t] implies exists|j: int|
                            0 <= j < idx2.len() && idx2[j] == t by {
                        if t < done {
                            let j = choose|j: int| 0 <= j < idx.len() && idx[j] == t;
                            assert(idx2[j] == t);
                        } else {
                            assert(idx2[idx.len() as int] == t);
                        }
                    }
                    idx = idx2;
                }
            } else {
                proof {
                    assert forall|t: int|
                        0 <= t < keep.len() && #[trigger] keep[t] implies exists|j: int|
                            0 <= j < idx.len() && idx[j] == t by {
                        if t < done {
                            assert(keep[t] == keep.drop_last()[t]);
                        }
                    }
                }
            }
        }
        proof {
            lemma_kept_unique(old_view, self@, idx);
            assert(keep =~= keep_all@);
            assert(after =~= old_values);
        }
        if self.keys.len() != before {
            self.reindex();
        } else {
            proof {
                lemma_increasing_is_identity(idx, before as int);
                assert forall|i: int| 0 <= i < before implies #[trigger] self.keys@[i]@
                    == old_keys[i]@ by {
                    assert(self@[i].0 == old_view[idx[i]].0);
                }
                assert(key_hashes(self.keys@) =~= key_hashes(old_keys));
                assert forall|i: int, j: int|
                    0 <= i < self@.len() && 0 <= j < self@.len() && i != j implies #[trigger] self@[i].0
                    != #[trigger] self@[j].0 by {
                    assert(self@[i].0 == old_view[i].0);
                    assert(self@[j].0 == old_view[j].0);
                }
            }
        }
        proof {
            assert(retained(old_view, self@, idx, keep, after));
        }
    }

    /// Reorder the entries by key, ascending. The entries themselves are
    /// the ones the store held; only their order changes.
    fn sort_keys(&mut self)
        requires
            old(self).wf(),
        ensures
            final(self).wf(),
            final(self)@.to_multiset() == old(self)@.to_multiset(),
            forall|i: int, j: int|
                0 <= i < j < final(self)@.len() ==> key_lt(
                    #[trigger] final(self)@[i].0,
                    #[trigger] final(self)@[j].0,
                ),
    {
        broadcast use group_to_multiset_ensures, group_multiset_axioms;

        let ghost old_view = self@;
        let ghost old_pairs = pair_up(self.keys@, self.values@);
        let ghost n = self.keys@.len() as int;
        let mut zipped: Vec<(String, V)> = Vec::new();
        while self.keys.len() > 0
            invariant
                self.values@.len() == self.keys@.len(),
                self.keys@.len() + zipped@.len() == n,
                old_pairs.len() == n,
                pair_up(self.keys@, self.values@) == old_pairs.take(self.keys@.len() as int),
                forall|k: int| 0 <= k < zipped@.len() ==> #[trigger] zipped@[k] == old_pairs[n - 1 - k],
            decreases self.keys@.len(),
        {
            let ghost m = self.keys@.len() as int;
            let ghost z0 = zipped@;
            match (self.keys.pop(), self.values.pop()) {
                (Some(k), Some(v)) => {
                    proof {
                        assert(old_pairs.take(m)[m - 1] == (k, v));
                        assert(pair_up(self.keys@, self.values@) =~= old_pairs.take(m - 1));
                    }
                    zipped.push((k, v));
                    proof {
                        assert forall|k: int| 0 <= k < zipped@.len() implies #[trigger] zipped@[k]
                            == old_pairs[n - 1 - k] by {
                            if k < z0.len() {
                                assert(zipped@[k] == z0[k]);
                            }
                        }
                    }
                },
                _ => {},
            }
        }
        proof {
            assert(zipped@ =~= old_pairs.reverse());
            old_pairs.lemma_reverse_to_multiset();
            assert forall|i: int, j: int|
                0 <= i < zipped@.len() && 0 <= j < zipped@.len() && i != j implies #[trigger] zipped@[i].0@
                != #[trigger] zipped@[j].0@ by {
                assert(zipped@[i].0@ == old_view[n - 1 - i].0);
                assert(zipped@[j].0@ == old_view[n - 1 - j].0);
            }
        }
        let mut sorted = merge_sort(zipped, false);
        proof {
            assert(pair_up(self.keys@, self.values@) =~= Seq::<(String, V)>::empty());
            assert(pair_up(self.keys@, self.values@).to_multiset().add(sorted@.to_multiset())
                =~= old_pairs.to_multiset());
        }
        while sorted.len() > 0
            invariant
                self.values@.len() == self.keys@.len(),
                runs(sorted@, false),
                runs(pair_up(self.keys@, self.values@), true),
                all_before(pair_up(self.keys@, self.values@), sorted@, true),
                pair_up(self.keys@, self.values@).to_multiset().add(sorted@.to_multiset())
                    == old_pairs.to_multiset(),
            decreases sorted@.len(),
        {
            let ghost s0 = sorted@;
            let ghost p0 = pair_up(self.keys@, self.values@);
            match sorted.pop() {
                Some(item) => {
                    let (k, v) = item;
                    self.keys.push(k);
                    self.values.push(v);
                    proof {
                        let p1 = pair_up(self.keys@, self.values@);
                        assert(p1 =~= p0.push(item));
                        assert(s0 =~= sorted@.push(item));
                        assert forall|i: int, j: int| 0 <= i < j < p1.len() implies goes_before(
                            #[trigger] p1[i].0@,
                            #[trigger] p1[j].0@,
                            true,
                        ) by {
                            if j == p1.len() - 1 {
                                assert(p1[i] == p0[i]);
                                assert(s0[s0.len() - 1] == item);
                            } else {
                                assert(p1[i] == p0[i]);
                                assert(p1[j] == p0[j]);
                            }
                        }
                        assert forall|i: int, j: int|
                            0 <= i < p1.len() && 0 <= j < sorted@.len() implies goes_before(
                            #[trigger] p1[i].0@,
                            #[trigger] sorted@[j].0@,
                            true,
                        ) by {
                            assert(sorted@[j] == s0[j]);
                            if i < p0.len() {
                                assert(p1[i] == p0[i]);
                            } else {
                                assert(goes_before(s0[j].0@, s0[s0.len() - 1].0@, false));
                            }
                        }
                        to_multiset_build(p0, item);
                        to_multiset_build(sorted@, item);
                        assert(p1.to_multiset().add(sorted@.to_multiset()) =~= old_pairs.to_multiset());
                    }
                },
                None => {},
            }
        }
        proof {
            let f = |p: (String, V)| pair_view(p);
            let pairs = pair_up(self.keys@, self.values@);
            assert(sorted@.to_multiset() =~= vstd::multiset::Multiset::empty());
            assert(pairs.to_multiset() =~= old_pairs.to_multiset());
            lemma_map_multiset(pairs, old_pairs, f);
            assert(self@ =~= pairs.map_values(f));
            assert(old_view =~= old_pairs.map_values(f));
            assert forall|i: int, j: int|
                0 <= i < self@.len() && 0 <= j < self@.len() && i != j implies #[trigger] self@[i].0
                != #[trigger] self@[j].0 by {
                lemma_key_order(self@[i].0, self@[j].0, self@[j].0);
                if i < j {
                    assert(goes_before(pairs[i].0@, pairs[j].0@, true));
                } else {
                    assert(goes_before(pairs[j].0@, pairs[i].0@, true));
                }
            }
            assert forall|i: int, j: int|
                0 <= i < j < self@.len() implies key_lt(#[trigger] self@[i].0, #[trigger] self@[j].0) by {
                assert(goes_before(pairs[i].0@, pairs[j].0@, true));
            }
        }
        self.reindex();
    }

    /// Insert each of `entries` in turn, first to last, as `insert` would.
    fn extend(&mut self, entries: Vec<(String, V)>)
        requires
            old(self).wf(),
        ensures
            final(self).wf(),
            final(self)@ == insert_all(old(self)@, entries@.map_values(|e: (String, V)| (e.0@, e.1))),
    {
        let ghost items = entries@.map_values(|e: (String, V)| (e.0@, e.1));
        let mut rest = entries;
        let mut stack: Vec<(String, V)> = Vec::new();
        while rest.len() > 0
            invariant
                (rest@ + stack@.reverse()).map_values(|e: (String, V)| (e.0@, e.1)) == items,
            decreases rest@.len(),
        {
            let ghost r0 = rest@;
            let ghost s0 = stack@;
            match rest.pop() {
                Some(entry) => {
                    stack.push(entry);
                    proof {
                        assert(rest@ + stack@.reverse() =~= r0 + s0.reverse());
                    }
                },
                None => {},
            }
        }
        assert(rest@ + stack@.reverse() =~= stack@.reverse());
        let ghost start = self@;
        loop
            invariant
                self.wf(),
                stack@.len() <= items.len(),
                stack@.reverse().map_values(|e: (String, V)| (e.0@, e.1)) == items.skip(
                    items.len() - stack@.len(),
                ),
                self@ == insert_all(start, items.take(items.len() - stack@.len())),
            ensures
                self.wf(),
                self@ == insert_all(start, items),
            decreases stack@.len(),
        {
            let ghost s0 = stack@;
            let ghost done = items.len() - s0.len();
            match stack.pop() {
                Some(entry) => {
                    proof {
                        let f = |e: (String, V)| (e.0@, e.1);
                        assert(s0.reverse()[0] == s0.last());
                        assert(s0.reverse().map_values(f)[0] == items.skip(done)[0]);
                        assert(items.skip(done)[0] == items[done]);
                        assert(stack@.reverse() =~= s0.reverse().drop_first());
                        assert(stack@.reverse().map_values(f) =~= s0.reverse().map_values(f).drop_first());
                        assert(items.skip(done).drop_first() =~= items.skip(done + 1));
                        assert(items.take(done + 1).drop_last() =~= items.take(done));
                        assert(items.take(done + 1).last() == items[done]);
                    }
                    let (key, value) = entry;
                    self.insert(key, value);
                },
                None => {
                    assert(items.take(items.len() as int) =~= items);
                    break;
                },
            }
        }
    }
}

/// A map from `String` to `V` that remembers the order its keys arrived in.
///
/// Re-inserting a key replaces its value where it already sits; removing
/// one shifts the entries above it down. Lookups scan a small map and probe
/// a robin hood table over a large one.
#[derive(Debug)]
pub struct OrderedMap<V> {
    store: Store<V>,
}

impl<V> View for OrderedMap<V> {
    type V = Seq<(Seq<char>, V)>;

    /// The entries in order, each key as its text.
    closed spec fn view(&self) -> Seq<(Seq<char>, V)> {
        self.store@
    }
}

impl<V> OrderedMap<V> {
    /// The map is sound: no key twice, and a table over every entry exactly
    /// when the map is large enough to want one.
    #[verifier::type_invariant]
    closed spec fn sound(self) -> bool {
        self.store.wf()
    }

    /// How many buckets the table has, or zero where the map scans.
    pub closed spec fn spec_bucket_count(&self) -> nat {
        self.store.table.buckets@.len()
    }

    /// The room asked for through [`OrderedMap::with_capacity`] and
    /// [`OrderedMap::reserve`], which [`OrderedMap::capacity`] never reports
    /// less than.
    pub closed spec fn reserved(&self) -> nat {
        self.store.room as nat
    }

    /// Take the store out of the map, leaving an empty one behind.
    fn take_store(&mut self) -> (r: Store<V>)
        ensures
            r.wf(),
            r@ == old(self)@,
            r.table.buckets@.len() == old(self).spec_bucket_count(),
            r.room == old(self).reserved(),
            final(self)@ == Seq::<(Seq<char>, V)>::empty(),
    {
        proof {
            use_type_invariant(&*self);
        }
        let mut store = Store::new();
        std::mem::swap(&mut self.store, &mut store);
        store
    }

    /// Put a sound store back into the map.
    fn put_store(&mut self, store: Store<V>)
        requires
            store.wf(),
        ensures
            final(self)@ == store@,
            final(self).spec_bucket_count() == store.table.buckets@.len(),
            final(self).reserved() == store.room,
    {
        let mut store = store;
        std::mem::swap(&mut self.store, &mut store);
    }

    /// An empty map. Allocates nothing.
    pub fn new() -> (map: Self)
        ensures
            map@ == Seq::<(Seq<char>, V)>::empty(),
            map.spec_bucket_count() == 0,
            map.reserved() == 0,
    {
        OrderedMap { store: Store::new() }
    }

    /// An empty map with room for `capacity` entries. The table is not
    /// allocated here, however large the capacity.
    pub fn with_capacity(capacity: usize) -> (map: Self)
        ensures
            map@ == Seq::<(Seq<char>, V)>::empty(),
            map.spec_bucket_count() == 0,
            map.reserved() == capacity,
    {
        OrderedMap { store: Store::with_capacity(capacity) }
    }

    /// How many entries the map can hold before it reallocates.
    pub fn capacity(&self) -> (r: usize)
        ensures
            r >= self@.len(),
            r >= self.reserved(),
    {
        proof {
            use_type_invariant(self);
        }
        self.store.capacity()
    }

    /// Reserve room for `additional` more entries: the capacity is then at
    /// least the length and `additional` together.
    pub fn reserve(&mut self, additional: usize)
        ensures
            final(self)@ == old(self)@,
            final(self).spec_bucket_count() == old(self).spec_bucket_count(),
            final(self).reserved() >= old(self).reserved(),
            old(self)@.len() + additional <= usize::MAX ==> final(self).reserved() >= old(self)@.len()
                + additional,
    {
        let mut store = self.take_store();
        store.reserve(additional);
        self.put_store(store);
    }

    /// The number of entries.
    pub fn len(&self) -> (r: usize)
        ensures
            r == self@.len(),
            unique_keys(self@),
    {
        proof {
            use_type_invariant(self);
        }
        self.store.len()
    }

    /// Whether the map holds nothing.
    pub fn is_empty(&self) -> (r: bool)
        ensures
            r == (self@.len() == 0),
    {
        self.store.len() == 0
    }

    /// Drop every entry, keeping the allocated capacity.
    pub fn clear(&mut self)
        ensures
            final(self)@ == Seq::<(Seq<char>, V)>::empty(),
            final(self).spec_bucket_count() == 0,
            final(self).reserved() == old(self).reserved(),
    {
        let mut store = self.take_store();
        store.clear();
        self.put_store(store);
    }

    /// How many buckets the table has, or zero for a map that scans.
    pub fn bucket_count(&self) -> (r: usize)
        ensures
            r == self.spec_bucket_count(),
            (r > 0) == indexable(self@.len() as int),
            r > 0 ==> is_table_size(r as int) && self@.len() <= r / 4 * 3,
    {
        proof {
            use_type_invariant(self);
        }
        self.store.table.buckets.len()
    }

    /// What the bucket at `at` holds: the position of an entry and that
    /// entry's key hash, or nothing for an empty bucket or one past the table.
    pub closed spec fn spec_bucket_at(&self, at: int) -> Option<(u32, u32)> {
        if 0 <= at < self.store.table.buckets@.len() && self.store.table.buckets@[at].occ() {
            Some((self.store.table.buckets@[at].index, self.store.table.buckets@[at].hash))
        } else {
            None
        }
    }

    /// What the bucket at `at` holds, as [`spec_bucket_at`](Self::spec_bucket_at)
    /// says: an occupied bucket names an entry of the map, with that entry's
    /// key hash.
    pub fn bucket_at(&self, at: usize) -> (r: Option<(u32, u32)>)
        ensures
            r == self.spec_bucket_at(at as int),
            r matches Some(b) ==> at < self.spec_bucket_count() && b.0 < self@.len() && b.1
                == spec_hash_key(self@[b.0 as int].0),
    {
        proof {
            use_type_invariant(self);
        }
        if at < self.store.table.buckets.len() {
            let b = self.store.table.buckets[at];
            if !b.is_empty() {
                proof {
                    assert(key_hashes(self.store.keys@).contains_key(b.index as int));
                }
                return Some((b.index, b.hash));
            }
        }
        None
    }

    /// The bucket that holds `key`'s entry, when the map has a table and the
    /// key is present.
    pub fn bucket_of_key(&self, key: &str) -> (r: Option<usize>)
        ensures
            match r {
                Some(at) => index_of(self@, key@) matches Some(p) && self.spec_bucket_at(at as int)
                    == Some((p as u32, spec_hash_key(key@))),
                None => index_of(self@, key@) is None || self.spec_bucket_count() == 0,
            },
    {
        proof {
            use_type_invariant(self);
        }
        if self.store.table.buckets.len() == 0 {
            return None;
        }
        match self.store.find(key) {
            Some(pos) => {
                let at = self.store.table.bucket_of(&self.store.keys, pos);
                proof {
                    assert(key_hashes(self.store.keys@).contains_key(pos as int));
                }
                Some(at)
            },
            None => None,
        }
    }

    /// A reference to the value `key` maps to.
    pub fn get(&self, key: &str) -> (r: Option<&V>)
        ensures
            match index_of(self@, key@) {
                Some(i) => r == Some(&self@[i].1),
                None => r is None,
            },
            unique_keys(self@),
    {
        proof {
            use_type_invariant(self);
        }
        match self.store.find(key) {
            Some(pos) => Some(&self.store.values[pos]),
            None => None,
        }
    }

    /// A mutable reference to the value `key` maps to. The key itself is
    /// never handed out mutably.
    pub fn get_mut(&mut self, key: &str) -> (r: Option<&mut V>)
        ensures
            match index_of(old(self)@, key@) {
                Some(i) => r matches Some(v) && *v == old(self)@[i].1 && final(self)@ == old(
                    self,
                )@.update(i, (key@, *final(v))),
                None => r is None && final(self)@ == old(self)@,
            },
    {
        proof {
            use_type_invariant(&*self);
        }
        match self.store.find(key) {
            Some(pos) => Some(self.value_mut_at(pos)),
            None => None,
        }
    }

    /// The value at position `pos`, mutably; only the value changes.
    pub(crate) fn value_mut_at(&mut self, pos: usize) -> (r: &mut V)
        requires
            pos < old(self)@.len(),
        ensures
            *r == old(self)@[pos as int].1,
            final(self)@ == old(self)@.update(pos as int, (old(self)@[pos as int].0, *final(r))),
            final(self).spec_bucket_count() == old(self).spec_bucket_count(),
    {
        proof {
            use_type_invariant(&*self);
            Store::<V>::lemma_values_free(&old(self).store);
            Store::<V>::lemma_value_set(&old(self).store, pos as int);
        }
        &mut self.store.values[pos]
    }

    /// The stored key and its value.
    pub fn get_key_value(&self, key: &str) -> (r: Option<(&str, &V)>)
        ensures
            match index_of(self@, key@) {
                Some(i) => r matches Some(kv) && kv.0@ == self@[i].0 && kv.1 == &self@[i].1,
                None => r is None,
            },
    {
        proof {
            use_type_invariant(self);
        }
        match self.store.find(key) {
            Some(pos) => Some((self.store.keys[pos].as_str(), &self.store.values[pos])),
            None => None,
        }
    }

    /// Whether `key` is present.
    pub fn contains_key(&self, key: &str) -> (r: bool)
        ensures
            r == index_of(self@, key@) is Some,
            unique_keys(self@),
    {
        proof {
            use_type_invariant(self);
        }
        self.store.find(key).is_some()
    }

    /// Insert a key and value, returning the previous value if the key was
    /// already present. A present key keeps the position it already had.
    pub fn insert(&mut self, key: String, value: V) -> (r: Option<V>)
        ensures
            match index_of(old(self)@, key@) {
                Some(i) => r == Some(old(self)@[i].1) && final(self)@ == old(self)@.update(
                    i,
                    (key@, value),
                ),
                None => r is None && final(self)@ == old(self)@.push((key@, value)),
            },
            unique_keys(old(self)@),
            unique_keys(final(self)@),
            final(self).reserved() == old(self).reserved(),
            index_of(old(self)@, key@) is Some ==> final(self).spec_bucket_count()
                == old(self).spec_bucket_count(),
            index_of(old(self)@, key@) is None ==> table_after_push(
                old(self).spec_bucket_count() as int,
                final(self).spec_bucket_count() as int,
                final(self)@.len() as int,
            ),
            table_fits(old(self).spec_bucket_count() as int, old(self)@.len() as int) ==> table_fits(
                final(self).spec_bucket_count() as int,
                final(self)@.len() as int,
            ),
    {
        proof {
            use_type_invariant(&*self);
        }
        let mut store = self.take_store();
        let r = store.insert(key, value);
        self.put_store(store);
        r
    }

    /// Append an entry whose key is absent; `hash` is the key's hash if the
    /// lookup that found it absent computed one. Returns its position.
    pub(crate) fn push_absent(&mut self, key: String, value: V, hash: Option<u32>) -> (pos: usize)
        requires
            index_of(old(self)@, key@) is None,
            hash matches Some(h) ==> h == spec_hash_key(key@),
        ensures
            final(self)@ == old(self)@.push((key@, value)),
            pos == old(self)@.len(),
            final(self).reserved() == old(self).reserved(),
            table_after_push(
                old(self).spec_bucket_count() as int,
                final(self).spec_bucket_count() as int,
                final(self)@.len() as int,
            ),
    {
        let mut store = self.take_store();
        proof {
            assert forall|p: int| 0 <= p < store@.len() implies store@[p].0 != key@ by {
                if store@[p].0 == key@ {
                    assert(exists|i: int| 0 <= i < store@.len() && store@[i].0 == key@);
                }
            }
        }
        let pos = store.push_new(key, value, hash);
        self.put_store(store);
        pos
    }

    /// Remove the entry at `pos`, shifting the rest down.
    pub(crate) fn remove_at(&mut self, pos: usize) -> (r: (String, V))
        requires
            pos < old(self)@.len(),
        ensures
            final(self)@ == old(self)@.remove(pos as int),
            final(self).reserved() == old(self).reserved(),
            r.0@ == old(self)@[pos as int].0,
            r.1 == old(self)@[pos as int].1,
    {
        let mut store = self.take_store();
        let r = store.remove_at(pos);
        self.put_store(store);
        r
    }

    /// Remove `key`, returning the stored key along with its value. Entries
    /// after it shift down to close the gap.
    pub fn remove_entry(&mut self, key: &str) -> (r: Option<(String, V)>)
        ensures
            match index_of(old(self)@, key@) {
                Some(i) => r matches Some(kv) && kv.0@ == key@ && kv.1 == old(self)@[i].1
                    && final(self)@ == old(self)@.remove(i),
                None => r is None && final(self)@ == old(self)@,
            },
            unique_keys(old(self)@),
            unique_keys(final(self)@),
            final(self).reserved() == old(self).reserved(),
    {
        proof {
            use_type_invariant(&*self);
        }
        match self.store.find(key) {
            Some(pos) => Some(self.remove_at(pos)),
            None => None,
        }
    }

    /// Remove `key`, returning its value.
    pub fn remove(&mut self, key: &str) -> (r: Option<V>)
        ensures
            match index_of(old(self)@, key@) {
                Some(i) => r == Some(old(self)@[i].1) && final(self)@ == old(self)@.remove(i),
                None => r is None && final(self)@ == old(self)@,
            },
            unique_keys(old(self)@),
            unique_keys(final(self)@),
            final(self).reserved() == old(self).reserved(),
    {
        match self.remove_entry(key) {
            Some(kv) => Some(kv.1),
            None => None,
        }
    }

    /// The value `key` maps to. The key must be present.
    pub fn index(&self, key: &str) -> (r: &V)
        requires
            index_of(self@, key@) is Some,
        ensures
            *r == self@[index_of(self@, key@)->0].1,
    {
        proof {
            use_type_invariant(self);
        }
        match self.store.find(key) {
            Some(pos) => &self.store.values[pos],
            None => {
                proof {
                    assert(false);
                }
                vstd::pervasive::unreached()
            },
        }
    }

    /// The key and value at position `index`, in insertion order.
    pub fn get_index(&self, index: usize) -> (r: Option<(&str, &V)>)
        ensures
            index < self@.len() ==> (r matches Some(kv) && kv.0@ == self@[index as int].0 && *kv.1
                == self@[index as int].1),
            index >= self@.len() ==> r is None,
    {
        proof {
            use_type_invariant(self);
        }
        self.store.get_index(index)
    }

    /// The key and mutable value at position `index`, in insertion order.
    pub fn get_index_mut(&mut self, index: usize) -> (r: Option<(&str, &mut V)>)
        ensures
            index < old(self)@.len() ==> (r matches Some(kv) && kv.0@ == old(self)@[index as int].0
                && *kv.1 == old(self)@[index as int].1 && final(self)@ == old(self)@.update(
                index as int,
                (old(self)@[index as int].0, *final(kv.1)),
            )),
            index >= old(self)@.len() ==> r is None && final(self)@ == old(self)@,
    {
        proof {
            use_type_invariant(&*self);
            if index < old(self)@.len() {
                Store::<V>::lemma_values_free(&old(self).store);
                Store::<V>::lemma_value_set(&old(self).store, index as int);
            }
        }
        if index < self.store.keys.len() {
            Some((self.store.keys[index].as_str(), &mut self.store.values[index]))
        } else {
            None
        }
    }

    /// The first entry, or `None` if the map is empty.
    pub fn first(&self) -> (r: Option<(&str, &V)>)
        ensures
            self@.len() > 0 ==> (r matches Some(kv) && kv.0@ == self@[0].0 && *kv.1 == self@[0].1),
            self@.len() == 0 ==> r is None,
    {
        self.get_index(0)
    }

    /// The last entry, or `None` if the map is empty.
    pub fn last(&self) -> (r: Option<(&str, &V)>)
        ensures
            self@.len() > 0 ==> (r matches Some(kv) && kv.0@ == self@.last().0 && *kv.1
                == self@.last().1),
            self@.len() == 0 ==> r is None,
    {
        let len = self.len();
        if len == 0 {
            None
        } else {
            self.get_index(len - 1)
        }
    }

    /// Keep only the entries `f` returns `true` for, in order. `f` is called
    /// once for each entry, first to last, and may change the value.
    pub fn retain<F: FnMut(&str, &mut V) -> bool>(&mut self, f: F)
        requires
            forall|k: &str, v: &mut V| call_requires(f, (k, v)),
        ensures
            exists|idx: Seq<int>, keep: Seq<bool>, after: Seq<V>|
                #![trigger retained(old(self)@, final(self)@, idx, keep, after)]
                {
                    &&& retained(old(self)@, final(self)@, idx, keep, after)
                    &&& forall|t: int|
                        #![trigger position(t)]
                        position(t) && 0 <= t < old(self)@.len() ==> exists|k: &str, m: &mut V|
                            k@ == old(self)@[t].0 && call_ensures(f, (k, m), keep[t]) && mut_ref_current(m)
                                == old(self)@[t].1 && mut_ref_future(m) == after[t]
                },
    {
        let mut store = self.take_store();
        store.retain(f);
        self.put_store(store);
    }

    /// Insert each of `entries` in turn, first to last, as [`insert`] would.
    ///
    /// [`insert`]: OrderedMap::insert
    pub fn extend(&mut self, entries: Vec<(String, V)>)
        ensures
            final(self)@ == insert_all(old(self)@, entries@.map_values(|e: (String, V)| (e.0@, e.1))),
    {
        let mut store = self.take_store();
        store.extend(entries);
        self.put_store(store);
    }

    /// Reorder the entries by key, in the order `String` compares keys in:
    /// lexicographically over their UTF-8 bytes. The map holds the same
    /// entries afterwards; the order they were inserted in is gone.
    pub fn sort_keys(&mut self)
        ensures
            final(self)@.to_multiset() == old(self)@.to_multiset(),
            forall|i: int, j: int|
                0 <= i < j < final(self)@.len() ==> key_lt(
                    #[trigger] final(self)@[i].0,
                    #[trigger] final(self)@[j].0,
                ),
    {
        let mut store = self.take_store();
        store.sort_keys();
        self.put_store(store);
    }

    /// A map of `entries`, inserted in turn, first to last.
    pub fn from_entries(entries: Vec<(String, V)>) -> (map: Self)
        ensures
            map@ == insert_all(Seq::empty(), entries@.map_values(|e: (String, V)| (e.0@, e.1))),
    {
        let mut store = Store::with_capacity(entries.len());
        store.extend(entries);
        OrderedMap { store }
    }

    /// The entries, taken out of the map, in insertion order.
    pub fn into_iter(self) -> (r: IntoIter<V>)
        ensures
            r.valid(),
            r.remaining() == self@,
    {
        proof {
            use_type_invariant(&self);
        }
        let OrderedMap { store } = self;
        let Store { keys, values, table: _, room: _ } = store;
        IntoIter::from_entries(keys, values)
    }

    /// The entry for `key`, occupied or vacant. Takes an owned key because a
    /// vacant entry will store it.
    pub fn entry(&mut self, key: String) -> (e: Entry<'_, V>)
        ensures
            match index_of(old(self)@, key@) {
                Some(i) => e is Occupied && e->Occupied_0.pos == i && *e->Occupied_0.map == *old(self)
                    && *final(e->Occupied_0.map) == *final(self),
                None => e is Vacant && e->Vacant_0.key == key && *e->Vacant_0.map == *old(self)
                    && *final(e->Vacant_0.map) == *final(self) && index_of(old(self)@, key@) is None
                    && (e->Vacant_0.hash matches Some(h) ==> h == spec_hash_key(key@)),
            },
    {
        proof {
            use_type_invariant(&*self);
        }
        match self.store.locate(key.as_str()) {
            Lookup::Occupied(pos) => {
                proof {
                    lemma_index_of(self@, key@, pos as int);
                }
                Entry::Occupied(OccupiedEntry { map: self, pos })
            },
            Lookup::Vacant(hash) => Entry::Vacant(VacantEntry { map: self, key, hash }),
        }
    }
}

impl<V> Default for OrderedMap<V> {
    /// An empty map.
    fn default() -> (map: Self)
        ensures
            map@ == Seq::<(Seq<char>, V)>::empty(),
    {
        OrderedMap::new()
    }
}

impl<V: Clone> Clone for OrderedMap<V> {
    /// The same keys in the same order, each value cloned, and the same
    /// table: the clone holds the same entries at the same positions, so the
    /// table describes it exactly as it describes the map it copies.
    fn clone(&self) -> (r: Self)
        ensures
            r@.len() == self@.len(),
            forall|i: int| 0 <= i < self@.len() ==> #[trigger] r@[i].0 == self@[i].0,
            forall|i: int| 0 <= i < self@.len() ==> cloned::<V>(self@[i].1, #[trigger] r@[i].1),
            r.spec_bucket_count() == self.spec_bucket_count(),
    {
        proof {
            use_type_invariant(self);
        }
        let len = self.store.keys.len();
        let mut keys: Vec<String> = Vec::with_capacity(len);
        let mut values: Vec<V> = Vec::with_capacity(len);
        let mut i: usize = 0;
        while i < len
            invariant
                len == self.store.keys@.len(),
                len == self.store.values@.len(),
                i <= len,
                keys@.len() == i,
                values@.len() == i,
                forall|j: int| 0 <= j < i ==> #[trigger] keys@[j] == self.store.keys@[j],
                forall|j: int| 0 <= j < i ==> cloned::<V>(self.store.values@[j], #[trigger] values@[j]),
            decreases len - i,
        {
            keys.push(self.store.keys[i].clone());
            values.push(self.store.values[i].clone());
            i = i + 1;
        }
        let n = self.store.table.buckets.len();
        let mut buckets: Vec<Bucket> = Vec::with_capacity(n);
        let mut j: usize = 0;
        while j < n
            invariant
                n == self.store.table.buckets@.len(),
                j <= n,
                buckets@.len() == j,
                forall|k: int| 0 <= k < j ==> #[trigger] buckets@[k] == self.store.table.buckets@[k],
            decreases n - j,
        {
            buckets.push(self.store.table.buckets[j]);
            j = j + 1;
        }
        let store = Store { keys, values, table: HashTable { buckets }, room: 0 };
        proof {
            assert(store.keys@ =~= self.store.keys@);
            assert(store.table.buckets@ =~= self.store.table.buckets@);
            assert forall|a: int, b: int|
                0 <= a < store@.len() && 0 <= b < store@.len() && a != b implies #[trigger] store@[a].0
                != #[trigger] store@[b].0 by {
                assert(store@[a].0 == self.store@[a].0);
                assert(store@[b].0 == self.store@[b].0);
            }
            assert(key_hashes(store.keys@) =~= key_hashes(self.store.keys@));
        }
        OrderedMap { store }
    }
}

} // verus!
