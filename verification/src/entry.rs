//! A place in a map, whether or not something is there yet.

use vstd::prelude::*;
use crate::hash::spec_hash_key;
use crate::map::{index_of, OrderedMap};
use crate::table::table_after_push;

verus! {

/// Overwriting the last element of a pushed sequence is pushing the new one.
proof fn lemma_push_update<T>(s: Seq<T>, a: T)
    ensures
        forall|b: T| #[trigger] s.push(a).update(s.len() as int, b) == s.push(b),
{
    assert forall|b: T| #[trigger] s.push(a).update(s.len() as int, b) == s.push(b) by {
        assert(s.push(a).update(s.len() as int, b) =~= s.push(b));
    }
}

/// A vacant entry can take `key`: the key is absent, and `hash` is the
/// key's hash if it is anything.
pub open spec fn vacant_ok<V>(map: OrderedMap<V>, key: Seq<char>, hash: Option<u32>) -> bool {
    &&& index_of(map@, key) is None
    &&& hash matches Some(h) ==> h == spec_hash_key(key)
}

/// An occupied entry points at an entry of the map.
pub open spec fn occupied_ok<V>(map: OrderedMap<V>, pos: int) -> bool {
    0 <= pos < map@.len()
}

/// A place in the map, whether or not something is there yet. Returned by
/// [`OrderedMap::entry`].
pub enum Entry<'a, V> {
    /// The key is present.
    Occupied(OccupiedEntry<'a, V>),
    /// The key is absent, and the entry owns the key that would go there.
    Vacant(VacantEntry<'a, V>),
}

/// A key that is already in the map. See [`Entry`].
///
/// The fields are the map the entry borrows and the position of its key;
/// the methods ask that the position is one of the map's.
pub struct OccupiedEntry<'a, V> {
    pub map: &'a mut OrderedMap<V>,
    pub pos: usize,
}

/// A key that is not in the map yet. See [`Entry`].
///
/// `hash` is the hash the probe computed when it found the key absent, or
/// `None` if it scanned instead; the methods ask that it is the key's hash.
pub struct VacantEntry<'a, V> {
    pub map: &'a mut OrderedMap<V>,
    pub key: String,
    pub hash: Option<u32>,
}

impl<'a, V> OccupiedEntry<'a, V> {
    /// The key.
    pub fn key(&self) -> (r: &str)
        requires
            occupied_ok(*self.map, self.pos as int),
        ensures
            r@ == old(self.map)@[self.pos as int].0,
    {
        match self.map.get_index(self.pos) {
            Some(kv) => kv.0,
            None => {
                proof {
                    assert(false);
                }
                vstd::pervasive::unreached()
            },
        }
    }

    /// The value.
    pub fn get(&self) -> (r: &V)
        requires
            occupied_ok(*self.map, self.pos as int),
        ensures
            *r == old(self.map)@[self.pos as int].1,
    {
        match self.map.get_index(self.pos) {
            Some(kv) => kv.1,
            None => {
                proof {
                    assert(false);
                }
                vstd::pervasive::unreached()
            },
        }
    }

    /// The value, mutably.
    pub fn get_mut(&mut self) -> (r: &mut V)
        requires
            occupied_ok(*old(self).map, old(self).pos as int),
        ensures
            *r == (*old(self).map)@[old(self).pos as int].1,
            final(self).pos == old(self).pos,
            (*final(self).map)@ == (*old(self).map)@.update(
                old(self).pos as int,
                ((*old(self).map)@[old(self).pos as int].0, *final(r)),
            ),
            *final(final(self).map) == *final(old(self).map),
    {
        self.map.value_mut_at(self.pos)
    }

    /// The value, mutably, for as long as the map is borrowed.
    pub fn into_mut(self) -> (r: &'a mut V)
        requires
            occupied_ok(*old(self.map), self.pos as int),
        ensures
            *r == old(self.map)@[self.pos as int].1,
            final(self.map)@ == old(self.map)@.update(
                self.pos as int,
                (old(self.map)@[self.pos as int].0, *final(r)),
            ),
    {
        self.map.value_mut_at(self.pos)
    }

    /// Replace the value, returning the old one. The entry keeps its position.
    pub fn insert(&mut self, value: V) -> (r: V)
        requires
            occupied_ok(*old(self).map, old(self).pos as int),
        ensures
            r == (*old(self).map)@[old(self).pos as int].1,
            final(self).pos == old(self).pos,
            (*final(self).map)@ == (*old(self).map)@.update(
                old(self).pos as int,
                ((*old(self).map)@[old(self).pos as int].0, value),
            ),
            *final(final(self).map) == *final(old(self).map),
    {
        let mut previous = value;
        let slot = self.map.value_mut_at(self.pos);
        std::mem::swap(slot, &mut previous);
        previous
    }

    /// Remove the entry, returning its value. Order is preserved, as in
    /// [`OrderedMap::remove`].
    pub fn remove(self) -> (r: V)
        requires
            occupied_ok(*old(self.map), self.pos as int),
        ensures
            r == old(self.map)@[self.pos as int].1,
            final(self.map)@ == old(self.map)@.remove(self.pos as int),
    {
        self.remove_entry().1
    }

    /// Remove the entry, returning its key and value.
    pub fn remove_entry(self) -> (r: (String, V))
        requires
            occupied_ok(*old(self.map), self.pos as int),
        ensures
            r.0@ == old(self.map)@[self.pos as int].0,
            r.1 == old(self.map)@[self.pos as int].1,
            final(self.map)@ == old(self.map)@.remove(self.pos as int),
    {
        self.map.remove_at(self.pos)
    }
}

impl<'a, V> VacantEntry<'a, V> {
    /// The key that would be inserted.
    pub fn key(&self) -> (r: &str)
        ensures
            r@ == self.key@,
    {
        self.key.as_str()
    }

    /// Take the key back out without inserting anything.
    pub fn into_key(self) -> (r: String)
        ensures
            r == self.key,
            *final(self.map) == *old(self.map),
    {
        self.key
    }

    /// Insert `value` under this entry's key, at the end of the map.
    pub fn insert(self, value: V) -> (r: &'a mut V)
        requires
            vacant_ok(*old(self.map), self.key@, self.hash),
        ensures
            *r == value,
            final(self.map)@ == old(self.map)@.push((self.key@, *final(r))),
            table_after_push(
                old(self.map).spec_bucket_count() as int,
                final(self.map).spec_bucket_count() as int,
                final(self.map)@.len() as int,
            ),
    {
        let ghost key_view = self.key@;
        let pos = self.map.push_absent(self.key, value, self.hash);
        proof {
            lemma_push_update(old(self.map)@, (key_view, value));
        }
        self.map.value_mut_at(pos)
    }
}

impl<'a, V> Entry<'a, V> {
    /// The entry is one its methods can act on.
    pub open spec fn entry_ok(self) -> bool {
        match self {
            Entry::Occupied(e) => occupied_ok(*e.map, e.pos as int),
            Entry::Vacant(e) => vacant_ok(*e.map, e.key@, e.hash),
        }
    }

    /// The key this entry is for.
    pub fn key(&self) -> (r: &str)
        requires
            self.entry_ok(),
        ensures
            self is Occupied ==> r@ == old(self->Occupied_0.map)@[self->Occupied_0.pos as int].0,
            self is Vacant ==> r@ == self->Vacant_0.key@,
    {
        match self {
            Entry::Occupied(e) => e.key(),
            Entry::Vacant(e) => e.key(),
        }
    }

    /// The value, inserting `default` first if the key was absent.
    pub fn or_insert(self, default: V) -> (r: &'a mut V)
        requires
            self.entry_ok(),
        ensures
            self is Occupied ==> {
                &&& *r == old(self->Occupied_0.map)@[self->Occupied_0.pos as int].1
                &&& final(self->Occupied_0.map)@ == old(self->Occupied_0.map)@.update(
                    self->Occupied_0.pos as int,
                    (old(self->Occupied_0.map)@[self->Occupied_0.pos as int].0, *final(r)),
                )
            },
            self is Vacant ==> {
                &&& *r == default
                &&& final(self->Vacant_0.map)@ == old(self->Vacant_0.map)@.push(
                    (self->Vacant_0.key@, *final(r)),
                )
            },
    {
        match self {
            Entry::Occupied(e) => e.into_mut(),
            Entry::Vacant(e) => e.insert(default),
        }
    }

    /// The value, inserting what `default` returns if the key was absent.
    /// `default` is not called for a key that is already there.
    pub fn or_insert_with<F: FnOnce() -> V>(self, default: F) -> (r: &'a mut V)
        requires
            self.entry_ok(),
            call_requires(default, ()),
        ensures
            self is Occupied ==> {
                &&& *r == old(self->Occupied_0.map)@[self->Occupied_0.pos as int].1
                &&& final(self->Occupied_0.map)@ == old(self->Occupied_0.map)@.update(
                    self->Occupied_0.pos as int,
                    (old(self->Occupied_0.map)@[self->Occupied_0.pos as int].0, *final(r)),
                )
            },
            self is Vacant ==> {
                &&& call_ensures(default, (), *r)
                &&& final(self->Vacant_0.map)@ == old(self->Vacant_0.map)@.push(
                    (self->Vacant_0.key@, *final(r)),
                )
            },
    {
        match self {
            Entry::Occupied(e) => e.into_mut(),
            Entry::Vacant(e) => e.insert(default()),
        }
    }

    /// Run `f` on the value if the key is present, then hand the entry back.
    /// The entry keeps its key, its position and the map it borrows; the
    /// value is what `f` left it as, and every other entry is untouched.
    pub fn and_modify<F: FnOnce(&mut V)>(self, f: F) -> (r: Self)
        requires
            self.entry_ok(),
            forall|v: &mut V| call_requires(f, (v,)),
        ensures
            r.entry_ok(),
            self is Occupied ==> {
                &&& r is Occupied
                &&& r->Occupied_0.pos == self->Occupied_0.pos
                &&& (*r->Occupied_0.map)@.len() == old(self->Occupied_0.map)@.len()
                &&& forall|i: int|
                    0 <= i < old(self->Occupied_0.map)@.len() ==> (#[trigger] (
                    *r->Occupied_0.map)@[i]).0 == old(self->Occupied_0.map)@[i].0
                &&& forall|i: int|
                    0 <= i < old(self->Occupied_0.map)@.len() && i != self->Occupied_0.pos ==> (
                    #[trigger] (*r->Occupied_0.map)@[i]) == old(self->Occupied_0.map)@[i]
                &&& *final(r->Occupied_0.map) == *final(self->Occupied_0.map)
                &&& exists|m: &mut V|
                    #![trigger call_ensures(f, (m,), ())]
                    call_ensures(f, (m,), ()) && mut_ref_current(m) == old(
                        self->Occupied_0.map,
                    )@[self->Occupied_0.pos as int].1 && mut_ref_future(m) == (
                    *r->Occupied_0.map)@[self->Occupied_0.pos as int].1
            },
            self is Vacant ==> {
                &&& r is Vacant
                &&& r->Vacant_0.key == self->Vacant_0.key
                &&& r->Vacant_0.hash == self->Vacant_0.hash
                &&& *r->Vacant_0.map == *old(self->Vacant_0.map)
                &&& *final(r->Vacant_0.map) == *final(self->Vacant_0.map)
            },
    {
        match self {
            Entry::Occupied(mut e) => {
                f(e.get_mut());
                Entry::Occupied(e)
            },
            Entry::Vacant(e) => Entry::Vacant(e),
        }
    }
}

impl<'a, V: Default> Entry<'a, V> {
    /// The value, inserting `V::default()` if the key was absent.
    pub fn or_default(self) -> (r: &'a mut V)
        requires
            self.entry_ok(),
        ensures
            self is Occupied ==> {
                &&& *r == old(self->Occupied_0.map)@[self->Occupied_0.pos as int].1
                &&& final(self->Occupied_0.map)@ == old(self->Occupied_0.map)@.update(
                    self->Occupied_0.pos as int,
                    (old(self->Occupied_0.map)@[self->Occupied_0.pos as int].0, *final(r)),
                )
            },
            self is Vacant ==> {
                &&& call_ensures(V::default, (), *r)
                &&& final(self->Vacant_0.map)@ == old(self->Vacant_0.map)@.push(
                    (self->Vacant_0.key@, *final(r)),
                )
            },
    {
        self.or_insert_with(V::default)
    }
}

} // verus!
