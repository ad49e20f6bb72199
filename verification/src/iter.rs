//! Walking a map's entries in insertion order.
//!
//! Each walker is a pair of positions into the map, the front and the back,
//! closing in on each other; [`Iter`] and its relatives hand out references
//! that live as long as the map is borrowed. The mutable walkers, [`IterMut`]
//! and [`ValuesMut`], lend each value until the next call.

use vstd::prelude::*;
use std::collections::VecDeque;
use crate::map::OrderedMap;

verus! {

/// The entries of a map, in insertion order. See [`OrderedMap::iter`].
pub struct Iter<'a, V> {
    map: &'a OrderedMap<V>,
    front: usize,
    back: usize,
}

impl<'a, V> Iter<'a, V> {
    /// The walker's positions are in range.
    pub closed spec fn valid(&self) -> bool {
        self.front <= self.back <= self.map@.len()
    }

    /// What is left to hand out, front to back.
    pub closed spec fn remaining(&self) -> Seq<(Seq<char>, V)> {
        self.map@.subrange(self.front as int, self.back as int)
    }

    /// A walk over all of `map`.
    pub fn new(map: &'a OrderedMap<V>) -> (r: Self)
        ensures
            r.valid(),
            r.remaining() == map@,
    {
        let r = Iter { map, front: 0, back: map.len() };
        assert(r.remaining() =~= map@);
        r
    }

    /// The next entry from the front.
    pub fn next(&mut self) -> (r: Option<(&'a str, &'a V)>)
        requires
            old(self).valid(),
        ensures
            final(self).valid(),
            old(self).remaining().len() > 0 ==> (r matches Some(kv) && kv.0@ == old(self).remaining()[0].0 && *kv.1 == old(self).remaining()[0].1 && final(self).remaining()
                == old(self).remaining().drop_first()),
            old(self).remaining().len() == 0 ==> r is None && final(self).remaining() == old(self).remaining(),
    {
        if self.front < self.back {
            let item = self.map.get_index(self.front);
            self.front = self.front + 1;
            assert(self.remaining() =~= old(self).remaining().drop_first());
            item
        } else {
            None
        }
    }

    /// The next entry from the back.
    pub fn next_back(&mut self) -> (r: Option<(&'a str, &'a V)>)
        requires
            old(self).valid(),
        ensures
            final(self).valid(),
            old(self).remaining().len() > 0 ==> (r matches Some(kv) && kv.0@ == old(self).remaining().last().0 && *kv.1 == old(self).remaining().last().1
                && final(self).remaining() == old(self).remaining().drop_last()),
            old(self).remaining().len() == 0 ==> r is None && final(self).remaining() == old(self).remaining(),
    {
        if self.front < self.back {
            self.back = self.back - 1;
            assert(self.remaining() =~= old(self).remaining().drop_last());
            self.map.get_index(self.back)
        } else {
            None
        }
    }

    /// How many entries are left.
    pub fn len(&self) -> (r: usize)
        requires
            self.valid(),
        ensures
            r == self.remaining().len(),
    {
        self.back - self.front
    }
}

/// The keys of a map, in insertion order. See [`OrderedMap::keys`].
pub struct Keys<'a, V> {
    inner: Iter<'a, V>,
}

impl<'a, V> Keys<'a, V> {
    /// The walker's positions are in range.
    pub closed spec fn valid(&self) -> bool {
        self.inner.valid()
    }

    /// The keys left to hand out, front to back.
    pub closed spec fn remaining(&self) -> Seq<Seq<char>> {
        self.inner.remaining().map_values(|e: (Seq<char>, V)| e.0)
    }

    /// A walk over the keys of `map`.
    pub fn new(map: &'a OrderedMap<V>) -> (r: Self)
        ensures
            r.valid(),
            r.remaining() == map@.map_values(|e: (Seq<char>, V)| e.0),
    {
        Keys { inner: Iter::new(map) }
    }

    /// The next key from the front.
    pub fn next(&mut self) -> (r: Option<&'a str>)
        requires
            old(self).valid(),
        ensures
            final(self).valid(),
            old(self).remaining().len() > 0 ==> (r matches Some(k) && k@ == old(self).remaining()[0]
                && final(self).remaining() == old(self).remaining().drop_first()),
            old(self).remaining().len() == 0 ==> r is None && final(self).remaining() == old(self).remaining(),
    {
        let r = self.inner.next();
        assert(self.remaining() =~= old(self).remaining().drop_first() || old(self).remaining().len() == 0);
        match r {
            Some(kv) => Some(kv.0),
            None => None,
        }
    }

    /// The next key from the back.
    pub fn next_back(&mut self) -> (r: Option<&'a str>)
        requires
            old(self).valid(),
        ensures
            final(self).valid(),
            old(self).remaining().len() > 0 ==> (r matches Some(k) && k@ == old(self).remaining().last() && final(self).remaining() == old(self).remaining().drop_last()),
            old(self).remaining().len() == 0 ==> r is None && final(self).remaining() == old(self).remaining(),
    {
        let r = self.inner.next_back();
        assert(self.remaining() =~= old(self).remaining().drop_last() || old(self).remaining().len() == 0);
        match r {
            Some(kv) => Some(kv.0),
            None => None,
        }
    }

    /// How many keys are left.
    pub fn len(&self) -> (r: usize)
        requires
            self.valid(),
        ensures
            r == self.remaining().len(),
    {
        self.inner.len()
    }
}

/// The values of a map, in insertion order. See [`OrderedMap::values`].
pub struct Values<'a, V> {
    inner: Iter<'a, V>,
}

impl<'a, V> Values<'a, V> {
    /// The walker's positions are in range.
    pub closed spec fn valid(&self) -> bool {
        self.inner.valid()
    }

    /// The values left to hand out, front to back.
    pub closed spec fn remaining(&self) -> Seq<V> {
        self.inner.remaining().map_values(|e: (Seq<char>, V)| e.1)
    }

    /// A walk over the values of `map`.
    pub fn new(map: &'a OrderedMap<V>) -> (r: Self)
        ensures
            r.valid(),
            r.remaining() == map@.map_values(|e: (Seq<char>, V)| e.1),
    {
        Values { inner: Iter::new(map) }
    }

    /// The next value from the front.
    pub fn next(&mut self) -> (r: Option<&'a V>)
        requires
            old(self).valid(),
        ensures
            final(self).valid(),
            old(self).remaining().len() > 0 ==> (r matches Some(v) && *v == old(self).remaining()[0]
                && final(self).remaining() == old(self).remaining().drop_first()),
            old(self).remaining().len() == 0 ==> r is None && final(self).remaining() == old(self).remaining(),
    {
        let r = self.inner.next();
        assert(self.remaining() =~= old(self).remaining().drop_first() || old(self).remaining().len() == 0);
        match r {
            Some(kv) => Some(kv.1),
            None => None,
        }
    }

    /// The next value from the back.
    pub fn next_back(&mut self) -> (r: Option<&'a V>)
        requires
            old(self).valid(),
        ensures
            final(self).valid(),
            old(self).remaining().len() > 0 ==> (r matches Some(v) && *v == old(self).remaining().last() && final(self).remaining() == old(self).remaining().drop_last()),
            old(self).remaining().len() == 0 ==> r is None && final(self).remaining() == old(self).remaining(),
    {
        let r = self.inner.next_back();
        assert(self.remaining() =~= old(self).remaining().drop_last() || old(self).remaining().len() == 0);
        match r {
            Some(kv) => Some(kv.1),
            None => None,
        }
    }

    /// How many values are left.
    pub fn len(&self) -> (r: usize)
        requires
            self.valid(),
        ensures
            r == self.remaining().len(),
    {
        self.inner.len()
    }
}

impl<'a, V> Clone for Iter<'a, V> {
    /// A second walker over the same map, from where this one stands.
    fn clone(&self) -> (r: Self)
        ensures
            r.valid() == self.valid(),
            r.remaining() == self.remaining(),
    {
        Iter { map: self.map, front: self.front, back: self.back }
    }
}

impl<'a, V> Clone for Keys<'a, V> {
    /// A second walker over the same keys, from where this one stands.
    fn clone(&self) -> (r: Self)
        ensures
            r.valid() == self.valid(),
            r.remaining() == self.remaining(),
    {
        Keys { inner: self.inner.clone() }
    }
}

impl<'a, V> Clone for Values<'a, V> {
    /// A second walker over the same values, from where this one stands.
    fn clone(&self) -> (r: Self)
        ensures
            r.valid() == self.valid(),
            r.remaining() == self.remaining(),
    {
        Values { inner: self.inner.clone() }
    }
}

/// The entries of a map with their values lent mutably, front to back. See
/// [`OrderedMap::iter_mut`].
///
/// Each call lends one value until the next call. The fields are the map
/// being walked and the walker's two positions; the methods ask that the
/// positions are in range.
pub struct IterMut<'a, V> {
    pub map: &'a mut OrderedMap<V>,
    pub front: usize,
    pub back: usize,
}

impl<'a, V> IterMut<'a, V> {
    /// The positions are in range.
    pub open spec fn valid_for(map: OrderedMap<V>, front: int, back: int) -> bool {
        &&& 0 <= front <= back <= map@.len()
    }

    /// The next entry from the front, its value lent until the next call.
    pub fn next(&mut self) -> (r: Option<(&str, &mut V)>)
        requires
            Self::valid_for(*old(self).map, old(self).front as int, old(self).back as int),
        ensures
            Self::valid_for(*final(self).map, final(self).front as int, final(self).back as int),
            final(self).back == old(self).back,
            *final(final(self).map) == *final(old(self).map),
            old(self).front < old(self).back ==> (r matches Some(kv) && kv.0@ == (*old(self).map)@[old(self).front as int].0 && *kv.1 == (*old(self).map)@[old(self).front as int].1 && final(self).front == old(self).front + 1 && (*final(self).map)@ == (*old(self).map)@.update(
                old(self).front as int,
                ((*old(self).map)@[old(self).front as int].0, *final(kv.1)),
            )),
            old(self).front >= old(self).back ==> (r is None && final(self).front == old(self).front && *final(self).map == *old(self).map),
    {
        if self.front < self.back {
            let i = self.front;
            self.front = i + 1;
            self.map.get_index_mut(i)
        } else {
            None
        }
    }

    /// The next entry from the back, its value lent until the next call.
    pub fn next_back(&mut self) -> (r: Option<(&str, &mut V)>)
        requires
            Self::valid_for(*old(self).map, old(self).front as int, old(self).back as int),
        ensures
            Self::valid_for(*final(self).map, final(self).front as int, final(self).back as int),
            final(self).front == old(self).front,
            *final(final(self).map) == *final(old(self).map),
            old(self).front < old(self).back ==> (r matches Some(kv) && kv.0@ == (*old(self).map)@[old(self).back - 1].0 && *kv.1 == (*old(self).map)@[old(self).back - 1].1
                && final(self).back == old(self).back - 1 && (*final(self).map)@ == (*old(self).map)@.update(
                old(self).back - 1,
                ((*old(self).map)@[old(self).back - 1].0, *final(kv.1)),
            )),
            old(self).front >= old(self).back ==> (r is None && final(self).back == old(self).back && *final(self).map == *old(self).map),
    {
        if self.front < self.back {
            self.back = self.back - 1;
            self.map.get_index_mut(self.back)
        } else {
            None
        }
    }

    /// How many entries are left.
    pub fn len(&self) -> (r: usize)
        requires
            self.front <= self.back,
        ensures
            r == self.back - self.front,
    {
        self.back - self.front
    }
}

/// The values of a map, lent mutably, front to back. See
/// [`OrderedMap::values_mut`].
pub struct ValuesMut<'a, V> {
    pub inner: IterMut<'a, V>,
}

impl<'a, V> ValuesMut<'a, V> {
    /// The next value from the front, lent until the next call.
    pub fn next(&mut self) -> (r: Option<&mut V>)
        requires
            IterMut::valid_for(
                *old(self).inner.map,
                old(self).inner.front as int,
                old(self).inner.back as int,
            ),
        ensures
            IterMut::valid_for(
                *final(self).inner.map,
                final(self).inner.front as int,
                final(self).inner.back as int,
            ),
            final(self).inner.back == old(self).inner.back,
            *final(final(self).inner.map) == *final(old(self).inner.map),
            old(self).inner.front < old(self).inner.back ==> (r matches Some(v) && *v == (*old(self).inner.map)@[old(self).inner.front as int].1 && final(self).inner.front == old(self).inner.front + 1 && (*final(self).inner.map)@ == (*old(self).inner.map)@.update(
                old(self).inner.front as int,
                ((*old(self).inner.map)@[old(self).inner.front as int].0, *final(v)),
            )),
            old(self).inner.front >= old(self).inner.back ==> (r is None && final(self).inner.front == old(self).inner.front && *final(self).inner.map == *old(self).inner.map),
    {
        match self.inner.next() {
            Some(kv) => Some(kv.1),
            None => None,
        }
    }

    /// How many values are left.
    pub fn len(&self) -> (r: usize)
        requires
            self.inner.front <= self.inner.back,
        ensures
            r == self.inner.back - self.inner.front,
    {
        self.inner.len()
    }
}

/// A deque holding the vector's elements in the same order, without copying
/// them: std's `From<Vec<T>> for VecDeque<T>`, which its documentation says
/// runs in constant time and keeps the order.
#[verifier::external_body]
fn deque_from_vec<T>(v: Vec<T>) -> (r: VecDeque<T>)
    ensures
        r@ == v@,
{
    VecDeque::from(v)
}

/// The entries of a map, taken out of it, in insertion order. See
/// [`OrderedMap::into_iter`].
pub struct IntoIter<V> {
    keys: VecDeque<String>,
    values: VecDeque<V>,
}

impl<V> IntoIter<V> {
    /// A value for every key.
    pub closed spec fn valid(&self) -> bool {
        self.keys@.len() == self.values@.len()
    }

    /// What is left to hand out, front to back, each key as its text.
    pub closed spec fn remaining(&self) -> Seq<(Seq<char>, V)> {
        Seq::new(self.keys@.len(), |i: int| (self.keys@[i]@, self.values@[i]))
    }

    /// A walk that takes `keys` and their `values` apart front to back.
    pub(crate) fn from_entries(keys: Vec<String>, values: Vec<V>) -> (r: Self)
        requires
            keys@.len() == values@.len(),
        ensures
            r.valid(),
            r.remaining() == Seq::new(keys@.len(), |i: int| (keys@[i]@, values@[i])),
    {
        IntoIter { keys: deque_from_vec(keys), values: deque_from_vec(values) }
    }

    /// The next entry from the front.
    pub fn next(&mut self) -> (r: Option<(String, V)>)
        requires
            old(self).valid(),
        ensures
            final(self).valid(),
            old(self).remaining().len() > 0 ==> (r matches Some(kv) && kv.0@ == old(
                self).remaining()[0].0 && kv.1 == old(self).remaining()[0].1 && final(self).remaining()
                == old(self).remaining().drop_first()),
            old(self).remaining().len() == 0 ==> r is None && final(self).remaining() == old(self).remaining(),
    {
        let key = self.keys.pop_front();
        let value = self.values.pop_front();
        assert(self.remaining() =~= old(self).remaining().drop_first() || old(self).remaining().len() == 0);
        match (key, value) {
            (Some(k), Some(v)) => Some((k, v)),
            _ => None,
        }
    }

    /// The next entry from the back.
    pub fn next_back(&mut self) -> (r: Option<(String, V)>)
        requires
            old(self).valid(),
        ensures
            final(self).valid(),
            old(self).remaining().len() > 0 ==> (r matches Some(kv) && kv.0@ == old(
                self).remaining().last().0 && kv.1 == old(self).remaining().last().1
                && final(self).remaining() == old(self).remaining().drop_last()),
            old(self).remaining().len() == 0 ==> r is None && final(self).remaining() == old(self).remaining(),
    {
        let key = self.keys.pop_back();
        let value = self.values.pop_back();
        assert(self.remaining() =~= old(self).remaining().drop_last() || old(self).remaining().len() == 0);
        match (key, value) {
            (Some(k), Some(v)) => Some((k, v)),
            _ => None,
        }
    }

    /// How many entries are left.
    pub fn len(&self) -> (r: usize)
        ensures
            r == self.remaining().len(),
    {
        self.keys.len()
    }
}

impl<V> OrderedMap<V> {
    /// The entries, in insertion order.
    pub fn iter(&self) -> (r: Iter<'_, V>)
        ensures
            r.valid(),
            r.remaining() == self@,
    {
        Iter::new(self)
    }

    /// The keys, in insertion order.
    pub fn keys(&self) -> (r: Keys<'_, V>)
        ensures
            r.valid(),
            r.remaining() == self@.map_values(|e: (Seq<char>, V)| e.0),
    {
        Keys::new(self)
    }

    /// The values, in insertion order.
    pub fn values(&self) -> (r: Values<'_, V>)
        ensures
            r.valid(),
            r.remaining() == self@.map_values(|e: (Seq<char>, V)| e.1),
    {
        Values::new(self)
    }

    /// The entries with mutable values, in insertion order.
    pub fn iter_mut(&mut self) -> (r: IterMut<'_, V>)
        ensures
            IterMut::valid_for(*r.map, r.front as int, r.back as int),
            r.front == 0,
            r.back == old(self)@.len(),
            *r.map == *old(self),
            *final(r.map) == *final(self),
    {
        let back = self.len();
        IterMut { map: self, front: 0, back }
    }

    /// The values, mutably, in insertion order.
    pub fn values_mut(&mut self) -> (r: ValuesMut<'_, V>)
        ensures
            IterMut::valid_for(*r.inner.map, r.inner.front as int, r.inner.back as int),
            r.inner.front == 0,
            r.inner.back == old(self)@.len(),
            *r.inner.map == *old(self),
            *final(r.inner.map) == *final(self),
    {
        ValuesMut { inner: self.iter_mut() }
    }
}

} // verus!
