//! The open-addressed bucket table behind a large `OrderedMap`.
//!
//! A power-of-two array of buckets, each holding the position of an entry and
//! 32 bits of that entry's key hash, addressed by the hash and resolved by
//! robin hood probing. The stored hash is a filter and never an answer: a
//! bucket whose hash matches is confirmed against the stored key before its
//! position is returned.
//!
//! The robin hood invariant is kept in its local form, [`robin_hood`]: a
//! bucket that sits away from its ideal bucket has a neighbour behind it that
//! sits at least one place less far from its own. [`lemma_chain`] turns that
//! into the form a probe uses, that every bucket a probe walks past on the way
//! to a key is occupied by something at least as far from home as the probe.

use vstd::prelude::*;
use crate::hash::{hash_key, spec_hash_key, str_equal};

verus! {

/// Entry count at or below which no table is built and lookups scan.
pub const LINEAR_MAX: usize = 8;

/// The smallest bucket table, which is the one a map gets the moment it
/// outgrows [`LINEAR_MAX`].
pub const MIN_BUCKETS: usize = 16;

/// Widest map the table can address, since a bucket stores its entry's
/// position as a `u32` and [`EMPTY`] is the one value no position takes.
pub const MAX_INDEXED: usize = 0xFFFF_FFFF;

/// Marks a bucket that holds nothing.
pub const EMPTY: u32 = 0xFFFF_FFFF;

/// One bucket: which entry lives here, and enough of its hash to reject it
/// without reading the entry.
#[derive(Clone, Copy, Debug)]
pub struct Bucket {
    /// Position of the entry in the map's vector, or [`EMPTY`].
    pub index: u32,
    /// Hash of that entry's key. Meaningless when the bucket is empty.
    pub hash: u32,
}

impl Bucket {
    /// Whether the bucket holds an entry.
    pub open spec fn occ(self) -> bool {
        self.index != EMPTY
    }

    /// Whether the bucket holds nothing.
    pub fn is_empty(&self) -> (r: bool)
        ensures
            r == !self.occ(),
    {
        self.index == EMPTY
    }
}

/// A bucket holding nothing. The hash is zero only because it has to be
/// something.
pub open spec fn empty_bucket() -> Bucket {
    Bucket { index: EMPTY, hash: 0 }
}

/// A bucket holding nothing.
pub fn vacant() -> (b: Bucket)
    ensures
        b == empty_bucket(),
{
    Bucket { index: EMPTY, hash: 0 }
}

// ---------------------------------------------------------------------------
// Positions in a table of `n` buckets
// ---------------------------------------------------------------------------

/// The bucket a hash asks for, before any probing.
pub open spec fn ideal(hash: u32, n: int) -> int {
    hash as int % n
}

/// How far `at` sits from `from`, walking forward and wrapping at the end.
pub open spec fn dist(at: int, from: int, n: int) -> int {
    if at >= from {
        at - from
    } else {
        at + n - from
    }
}

/// The bucket after `at`, wrapping at the end of the table.
pub open spec fn step(at: int, n: int) -> int {
    if at + 1 >= n {
        0
    } else {
        at + 1
    }
}

/// The bucket before `at`, wrapping at the start of the table.
pub open spec fn back(at: int, n: int) -> int {
    if at == 0 {
        n - 1
    } else {
        at - 1
    }
}

/// The bucket `t` places after `from`.
pub open spec fn probe_at(from: int, t: int, n: int) -> int {
    if from + t < n {
        from + t
    } else {
        from + t - n
    }
}

/// The buckets `s` become when `carried` is placed by robin hood, starting at
/// `at` having `travelled` that far from its own bucket: an empty bucket takes
/// it; an occupant closer to home than `travelled` gives its bucket up and is
/// carried on in its place; any other occupant is passed. `fuel` bounds the
/// walk, which a table with an empty bucket finishes within its size.
pub open spec fn placed(s: Seq<Bucket>, carried: Bucket, at: int, travelled: int, fuel: nat) -> Seq<
    Bucket,
>
    decreases fuel,
{
    if fuel == 0 {
        s
    } else if !s[at].occ() {
        s.update(at, carried)
    } else if bdist(s, at) < travelled {
        placed(s.update(at, carried), s[at], step(at, s.len() as int), bdist(s, at) + 1, (fuel - 1) as nat)
    } else {
        placed(s, carried, step(at, s.len() as int), travelled + 1, (fuel - 1) as nat)
    }
}

/// How far the bucket at `i` sits from the one its hash asked for.
pub open spec fn bdist(s: Seq<Bucket>, i: int) -> int {
    dist(i, ideal(s[i].hash, s.len() as int), s.len() as int)
}

/// The robin hood condition between the bucket at `i` and the one after it:
/// an entry that was pushed along has something behind it at least as
/// displaced as it was one place earlier.
pub open spec fn pair_ok(s: Seq<Bucket>, i: int) -> bool {
    let j = step(i, s.len() as int);
    (s[j].occ() && bdist(s, j) > 0) ==> (s[i].occ() && bdist(s, i) >= bdist(s, j) - 1)
}

/// The robin hood ordering, in its local form.
pub open spec fn robin_hood(s: Seq<Bucket>) -> bool {
    forall|i: int| 0 <= i < s.len() ==> #[trigger] pair_ok(s, i)
}

/// The number of occupied buckets.
pub open spec fn count(s: Seq<Bucket>) -> nat
    decreases s.len(),
{
    if s.len() == 0 {
        0
    } else {
        count(s.drop_last()) + if s.last().occ() {
            1nat
        } else {
            0nat
        }
    }
}

/// The table describes exactly the positions of `m`, each with its hash, and
/// each in one bucket.
pub open spec fn holds(s: Seq<Bucket>, m: Map<int, u32>) -> bool {
    &&& forall|i: int|
        0 <= i < s.len() && #[trigger] s[i].occ() ==> m.contains_key(s[i].index as int) && m[s[i].index as int] == s[i].hash
    &&& forall|p: int|
        #[trigger] m.contains_key(p) ==> exists|i: int| 0 <= i < s.len() && s[i].occ() && s[i].index == p
    &&& forall|i: int, j: int|
        0 <= i < s.len() && 0 <= j < s.len() && s[i].occ() && s[j].occ() && #[trigger] s[i].index
            == #[trigger] s[j].index ==> i == j
}

/// A table a probe can walk: it has buckets, keeps the robin hood ordering,
/// and has at least one of them empty, which is what ends every probe.
pub open spec fn table_ok(s: Seq<Bucket>) -> bool {
    &&& s.len() > 2
    &&& robin_hood(s)
    &&& count(s) < s.len()
}

/// A table size: the smallest table, doubled some number of times.
pub open spec fn is_table_size(b: int) -> bool
    decreases b,
{
    if b <= 16 {
        b == 16
    } else {
        b % 2 == 0 && is_table_size(b / 2)
    }
}

/// `b` is the table [`buckets_for`] sizes for `entries` entries.
pub open spec fn sized_for(b: int, entries: int) -> bool {
    &&& is_table_size(b)
    &&& entries <= b / 4 * 3
    &&& (b == MIN_BUCKETS || entries > (b / 2) / 4 * 3)
    &&& MIN_BUCKETS <= b <= usize::MAX / 2
}

/// A table of `count` buckets is right for `len` entries: there is none, or
/// it is the size [`buckets_for`] gives.
pub open spec fn table_fits(count: int, len: int) -> bool {
    count == 0 || sized_for(count, len)
}

/// What one more entry does to a table of `before` buckets, the map now
/// holding `len` entries: a map too small or too large for a table has none;
/// a map that has just become large enough gets the size [`buckets_for`]
/// gives; a table that was there stays as it is, or doubles once the entries
/// pass three quarters of its buckets.
pub open spec fn table_after_push(before: int, after: int, len: int) -> bool {
    if !indexable(len) {
        after == 0
    } else if before == 0 {
        sized_for(after, len)
    } else {
        after == (if len > before / 4 * 3 {
            2 * before
        } else {
            before
        })
    }
}

/// Of two table sizes, the smaller is at most half the larger.
pub proof fn lemma_table_sizes_apart(a: int, b: int)
    requires
        is_table_size(a),
        is_table_size(b),
        a < b,
    ensures
        a <= b / 2,
        is_table_size(b / 2),
    decreases b,
{
    assert(b > 16);
    assert(b % 2 == 0 && is_table_size(b / 2));
    if a > 16 {
        assert(a % 2 == 0 && is_table_size(a / 2));
        lemma_table_sizes_apart(a / 2, b / 2);
        assert((b / 2) % 2 == 0);
        assert(a == 2 * (a / 2));
        assert(b / 2 == 2 * ((b / 2) / 2));
    }
}

/// The largest map that gets a table: one whose positions fit a bucket, and
/// whose table fits the address space with room to double.
pub open spec fn indexable(len: int) -> bool {
    &&& LINEAR_MAX < len
    &&& len <= MAX_INDEXED
    &&& len <= (usize::MAX / 8) / 4 * 3
}

/// Each bucket's position with those above `pos` moved down one, the way
/// the entries above a removed one move down.
pub open spec fn shifted(b: Bucket, pos: int) -> Bucket {
    if b.occ() && b.index > pos {
        Bucket { index: (b.index - 1) as u32, hash: b.hash }
    } else {
        b
    }
}

/// What a table describes once the entry at `pos` is gone and the entries
/// above it have moved down one.
pub open spec fn shift_map(m: Map<int, u32>, pos: int) -> Map<int, u32> {
    Map::new(
        |p: int|
            if p < pos {
                m.contains_key(p)
            } else {
                m.contains_key(p + 1)
            },
        |p: int|
            if p < pos {
                m[p]
            } else {
                m[p + 1]
            },
    )
}

/// The part of `m` whose buckets sit below `i` in `s`.
pub open spec fn prefix_map(s: Seq<Bucket>, m: Map<int, u32>, i: int) -> Map<int, u32> {
    Map::new(|p: int| exists|j: int| 0 <= j < i && s[j].occ() && s[j].index == p, |p: int| m[p])
}

/// The positions of `keys` with their hashes: what a table over these keys
/// describes.
pub open spec fn key_hashes(keys: Seq<String>) -> Map<int, u32> {
    Map::new(|p: int| 0 <= p < keys.len(), |p: int| spec_hash_key(keys[p]@))
}

// ---------------------------------------------------------------------------
// Lemmas
// ---------------------------------------------------------------------------

/// Every bucket a probe for the entry at `i` walks past on its way there is
/// occupied, by something at least as far from home as the probe is then.
pub proof fn lemma_chain(s: Seq<Bucket>, i: int, t: int)
    requires
        s.len() > 2,
        robin_hood(s),
        0 <= i < s.len(),
        s[i].occ(),
        0 <= t < bdist(s, i),
    ensures
        0 <= probe_at(ideal(s[i].hash, s.len() as int), t, s.len() as int) < s.len(),
        s[probe_at(ideal(s[i].hash, s.len() as int), t, s.len() as int)].occ(),
        bdist(s, probe_at(ideal(s[i].hash, s.len() as int), t, s.len() as int)) >= t,
    decreases bdist(s, i) - t,
{
    let n = s.len() as int;
    let h = ideal(s[i].hash, n);
    let p = probe_at(h, t, n);
    if t == bdist(s, i) - 1 {
        assert(step(p, n) == i);
        assert(pair_ok(s, p));
    } else {
        lemma_chain(s, i, t + 1);
        let p1 = probe_at(h, t + 1, n);
        assert(step(p, n) == p1);
        assert(pair_ok(s, p));
    }
}

/// Changing one bucket changes the count by what left and what arrived.
pub proof fn lemma_count_update(s: Seq<Bucket>, i: int, v: Bucket)
    requires
        0 <= i < s.len(),
    ensures
        count(s.update(i, v)) + (if s[i].occ() { 1int } else { 0int }) == count(s) + (if v.occ() {
            1int
        } else {
            0int
        }),
    decreases s.len(),
{
    let u = s.update(i, v);
    if i == s.len() - 1 {
        assert(u.drop_last() =~= s.drop_last());
    } else {
        assert(u.drop_last() =~= s.drop_last().update(i, v));
        lemma_count_update(s.drop_last(), i, v);
    }
}

/// No more occupied buckets than buckets.
pub proof fn lemma_count_bound(s: Seq<Bucket>)
    ensures
        count(s) <= s.len(),
    decreases s.len(),
{
    if s.len() > 0 {
        lemma_count_bound(s.drop_last());
    }
}

/// Two tables occupied in the same places have the same count.
pub proof fn lemma_count_same_occupancy(s: Seq<Bucket>, t: Seq<Bucket>)
    requires
        s.len() == t.len(),
        forall|i: int| 0 <= i < s.len() ==> s[i].occ() == t[i].occ(),
    ensures
        count(s) == count(t),
    decreases s.len(),
{
    if s.len() > 0 {
        lemma_count_same_occupancy(s.drop_last(), t.drop_last());
    }
}

/// A table with fewer entries than buckets has an empty bucket.
pub proof fn lemma_empty_exists(s: Seq<Bucket>) -> (e: int)
    requires
        count(s) < s.len(),
    ensures
        0 <= e < s.len(),
        !s[e].occ(),
    decreases s.len(),
{
    if !s.last().occ() {
        s.len() - 1
    } else {
        let e = lemma_empty_exists(s.drop_last());
        e
    }
}

/// A table with nothing in it counts nothing.
pub proof fn lemma_count_zero(s: Seq<Bucket>)
    requires
        forall|i: int| 0 <= i < s.len() ==> !#[trigger] s[i].occ(),
    ensures
        count(s) == 0,
    decreases s.len(),
{
    if s.len() > 0 {
        lemma_count_zero(s.drop_last());
    }
}

/// Putting `c` in the bucket at `at` replaces whatever was there.
pub proof fn lemma_holds_put(s: Seq<Bucket>, m: Map<int, u32>, at: int, c: Bucket)
    requires
        holds(s, m),
        0 <= at < s.len(),
        c.occ(),
        !m.contains_key(c.index as int),
    ensures
        holds(
            s.update(at, c),
            (if s[at].occ() {
                m.remove(s[at].index as int)
            } else {
                m
            }).insert(c.index as int, c.hash),
        ),
{
    let u = s.update(at, c);
    let m2 = (if s[at].occ() {
        m.remove(s[at].index as int)
    } else {
        m
    }).insert(c.index as int, c.hash);
    assert forall|p: int| #[trigger] m2.contains_key(p) implies exists|i: int|
        0 <= i < u.len() && u[i].occ() && u[i].index == p by {
        if p == c.index as int {
            assert(u[at].index == p);
        } else {
            let i = choose|i: int| 0 <= i < s.len() && s[i].occ() && s[i].index == p;
            assert(i != at);
            assert(u[i] == s[i]);
        }
    }
    assert forall|i: int, j: int|
        0 <= i < u.len() && 0 <= j < u.len() && u[i].occ() && u[j].occ() && #[trigger] u[i].index
            == #[trigger] u[j].index implies i == j by {
        if i != at && j != at {
            assert(u[i] == s[i] && u[j] == s[j]);
        } else if i == at && j != at {
            assert(m.contains_key(s[j].index as int));
        } else if i != at && j == at {
            assert(m.contains_key(s[i].index as int));
        }
    }
}

/// Emptying the bucket at `at` takes its position out of what the table
/// describes.
pub proof fn lemma_holds_clear(s: Seq<Bucket>, m: Map<int, u32>, at: int, v: Bucket)
    requires
        holds(s, m),
        0 <= at < s.len(),
        s[at].occ(),
        !v.occ(),
    ensures
        holds(s.update(at, v), m.remove(s[at].index as int)),
{
    let u = s.update(at, v);
    let m2 = m.remove(s[at].index as int);
    assert forall|p: int| #[trigger] m2.contains_key(p) implies exists|i: int|
        0 <= i < u.len() && u[i].occ() && u[i].index == p by {
        let i = choose|i: int| 0 <= i < s.len() && s[i].occ() && s[i].index == p;
        assert(i != at);
        assert(u[i] == s[i]);
    }
    assert forall|i: int, j: int|
        0 <= i < u.len() && 0 <= j < u.len() && u[i].occ() && u[j].occ() && #[trigger] u[i].index
            == #[trigger] u[j].index implies i == j by {
        assert(u[i] == s[i] && u[j] == s[j]);
    }
}

// ---------------------------------------------------------------------------
// The table
// ---------------------------------------------------------------------------

/// Buckets enough to hold `entries` under [`load_limit`], never fewer than
/// [`MIN_BUCKETS`]: the smallest table size that does.
pub fn buckets_for(entries: usize) -> (b: usize)
    requires
        entries <= (usize::MAX / 8) / 4 * 3,
    ensures
        is_table_size(b as int),
        entries <= b / 4 * 3,
        b == MIN_BUCKETS || entries > (b / 2) / 4 * 3,
        MIN_BUCKETS <= b <= usize::MAX / 2,
{
    let mut buckets = MIN_BUCKETS;
    while entries > load_limit(buckets)
        invariant
            is_table_size(buckets as int),
            MIN_BUCKETS <= buckets <= usize::MAX / 2,
            buckets == MIN_BUCKETS || entries > (buckets / 2) / 4 * 3,
            entries <= (usize::MAX / 8) / 4 * 3,
        decreases usize::MAX - buckets,
    {
        assert((buckets * 2) / 2 == buckets);
        buckets = buckets * 2;
    }
    buckets
}

/// `v` emptied and refilled with `n` vacant buckets, keeping its allocation.
fn fill_vacant(v: &mut Vec<Bucket>, n: usize)
    ensures
        final(v)@.len() == n,
        forall|i: int| 0 <= i < n ==> #[trigger] final(v)@[i] == empty_bucket(),
        robin_hood(final(v)@),
        count(final(v)@) == 0,
{
    v.clear();
    let mut i: usize = 0;
    while i < n
        invariant
            v@.len() == i,
            i <= n,
            forall|j: int| 0 <= j < i ==> #[trigger] v@[j] == empty_bucket(),
        decreases n - i,
    {
        v.push(vacant());
        i = i + 1;
    }
    proof {
        let s = v@;
        assert forall|x: int| 0 <= x < s.len() implies #[trigger] pair_ok(s, x) by {
            assert(s[step(x, s.len() as int)] == empty_bucket());
        }
        assert forall|x: int| 0 <= x < s.len() implies !#[trigger] s[x].occ() by {
            assert(s[x] == empty_bucket());
        }
        lemma_count_zero(s);
    }
}

/// How full the bucket table is allowed to get, as a count: three quarters.
pub fn load_limit(buckets: usize) -> (r: usize)
    ensures
        r == buckets / 4 * 3,
{
    buckets / 4 * 3
}

/// The open-addressed bucket table: a number of buckets, or none at all.
#[derive(Debug)]
pub struct HashTable {
    pub buckets: Vec<Bucket>,
}

impl HashTable {
    /// No table.
    pub fn new() -> (t: HashTable)
        ensures
            t.buckets@.len() == 0,
    {
        HashTable { buckets: Vec::new() }
    }

    /// Whether there is no table, and so whether lookups have to scan.
    pub fn is_empty(&self) -> (r: bool)
        ensures
            r == (self.buckets@.len() == 0),
    {
        self.buckets.len() == 0
    }

    /// Give up the table. The buckets' capacity is kept for the next rebuild.
    pub fn clear(&mut self)
        ensures
            final(self).buckets@.len() == 0,
    {
        self.buckets.clear();
    }

    /// The bucket a hash asks for, before any probing.
    fn ideal(&self, hash: u32) -> (r: usize)
        requires
            self.buckets@.len() > 0,
        ensures
            r == ideal(hash, self.buckets@.len() as int),
            r < self.buckets@.len(),
    {
        (hash as usize) % self.buckets.len()
    }

    /// How far the bucket at `at` sits from the one `hash` asked for.
    fn distance(&self, at: usize, hash: u32) -> (r: usize)
        requires
            at < self.buckets@.len(),
        ensures
            r == dist(at as int, ideal(hash, self.buckets@.len() as int), self.buckets@.len() as int),
    {
        let ideal = self.ideal(hash);
        if at >= ideal {
            at - ideal
        } else {
            self.buckets.len() - (ideal - at)
        }
    }

    /// The next bucket in a probe, wrapping at the end of the table.
    fn next(&self, at: usize) -> (r: usize)
        requires
            at < self.buckets@.len(),
        ensures
            r == step(at as int, self.buckets@.len() as int),
    {
        let n = self.buckets.len();
        if at + 1 >= n {
            0
        } else {
            at + 1
        }
    }

    /// Position of `key`, whose hash is `hash`, or `None`.
    ///
    /// Two things end the walk: an empty bucket, and an occupant closer to
    /// its ideal bucket than the probe has travelled. Either means the key was
    /// never inserted, since an insert would have taken that bucket. Every
    /// bucket whose hash matches is confirmed against the stored key.
    pub fn find(&self, keys: &Vec<String>, key: &str, hash: u32) -> (r: Option<usize>)
        requires
            table_ok(self.buckets@),
            holds(self.buckets@, key_hashes(keys@)),
            hash == spec_hash_key(key@),
        ensures
            match r {
                Some(p) => p < keys@.len() && keys@[p as int]@ == key@,
                None => forall|p: int| 0 <= p < keys@.len() ==> keys@[p]@ != key@,
            },
    {
        let ghost s = self.buckets@;
        let ghost n = s.len() as int;
        let ghost h = ideal(hash, n);
        let ghost e = lemma_empty_exists(s);
        let len = self.buckets.len();
        let mut at = self.ideal(hash);
        let mut travelled: usize = 0;
        loop
            invariant
                s == self.buckets@,
                len == n,
                n == s.len(),
                table_ok(s),
                holds(s, key_hashes(keys@)),
                hash == spec_hash_key(key@),
                h == ideal(hash, n),
                0 <= h < n,
                0 <= e < n,
                !s[e].occ(),
                travelled <= dist(e, h, n),
                at == probe_at(h, travelled as int, n),
                forall|i: int|
                    0 <= i < n && #[trigger] s[i].occ() && keys@[s[i].index as int]@ == key@
                        ==> dist(i, h, n) >= travelled,
            decreases dist(e, h, n) - travelled,
        {
            let bucket = self.buckets[at];
            if bucket.is_empty() || self.distance(at, bucket.hash) < travelled {
                proof {
                    assert forall|p: int| 0 <= p < keys@.len() implies keys@[p]@ != key@ by {
                        if keys@[p]@ == key@ {
                            assert(key_hashes(keys@).contains_key(p));
                            let i = choose|i: int| 0 <= i < n && s[i].occ() && s[i].index == p;
                            assert(s[i].hash == hash);
                            if dist(i, h, n) > travelled {
                                lemma_chain(s, i, travelled as int);
                            }
                        }
                    }
                }
                return None;
            }
            if bucket.hash == hash {
                let p = bucket.index as usize;
                proof {
                    assert(s[at as int].occ());
                    assert(key_hashes(keys@).contains_key(p as int));
                }
                if str_equal(keys[p].as_str(), key) {
                    return Some(p);
                }
            }
            proof {
                assert(at != e);
                assert forall|i: int|
                    0 <= i < n && #[trigger] s[i].occ() && keys@[s[i].index as int]@ == key@
                        implies dist(i, h, n) >= travelled + 1 by {
                    assert(key_hashes(keys@).contains_key(s[i].index as int));
                    if dist(i, h, n) == travelled {
                        assert(i == at);
                    }
                }
            }
            at = self.next(at);
            travelled = travelled + 1;
        }
    }

    /// Put `entry` in the table, taking any bucket from an occupant that is
    /// closer to home than the probe has travelled and carrying that occupant
    /// on.
    ///
    /// No duplicate check: the caller has established that `entry`'s position
    /// is not in the table. This ends because the table has an empty bucket.
    pub fn place(&mut self, entry: Bucket, Ghost(m): Ghost<Map<int, u32>>)
        requires
            table_ok(old(self).buckets@),
            holds(old(self).buckets@, m),
            entry.occ(),
            !m.contains_key(entry.index as int),
        ensures
            final(self).buckets@.len() == old(self).buckets@.len(),
            robin_hood(final(self).buckets@),
            holds(final(self).buckets@, m.insert(entry.index as int, entry.hash)),
            count(final(self).buckets@) == count(old(self).buckets@) + 1,
            final(self).buckets@ == placed(
                old(self).buckets@,
                entry,
                ideal(entry.hash, old(self).buckets@.len() as int),
                0,
                old(self).buckets@.len() as nat,
            ),
    {
        let ghost goal = m.insert(entry.index as int, entry.hash);
        let ghost n = old(self).buckets@.len() as int;
        let ghost target = placed(old(self).buckets@, entry, ideal(entry.hash, n), 0, n as nat);
        let ghost mut fuel: nat = n as nat;
        let ghost e = lemma_empty_exists(old(self).buckets@);
        assert(goal.remove(entry.index as int) =~= m);
        let len = self.buckets.len();
        let mut carried = entry;
        let mut at = self.ideal(carried.hash);
        let mut travelled: usize = 0;
        loop
            invariant_except_break
                self.buckets@.len() == n,
                len == n,
                n > 2,
                robin_hood(self.buckets@),
                count(self.buckets@) == count(old(self).buckets@),
                0 <= e < n,
                !self.buckets@[e].occ(),
                at < n,
                travelled < n,
                travelled == dist(at as int, ideal(carried.hash, n), n),
                travelled > 0 ==> (self.buckets@[back(at as int, n)].occ() && bdist(
                    self.buckets@,
                    back(at as int, n),
                ) >= travelled - 1),
                carried.occ(),
                goal.contains_key(carried.index as int),
                goal[carried.index as int] == carried.hash,
                holds(self.buckets@, goal.remove(carried.index as int)),
                dist(e, at as int, n) < fuel,
                placed(self.buckets@, carried, at as int, travelled as int, fuel) == target,
            ensures
                self.buckets@.len() == n,
                robin_hood(self.buckets@),
                holds(self.buckets@, goal),
                count(self.buckets@) == count(old(self).buckets@) + 1,
                self.buckets@ == target,
            decreases dist(e, at as int, n),
        {
            let ghost s = self.buckets@;
            let occupant = self.buckets[at];
            if occupant.is_empty() {
                proof {
                    let u = s.update(at as int, carried);
                    lemma_holds_put(s, goal.remove(carried.index as int), at as int, carried);
                    assert(goal.remove(carried.index as int).insert(
                        carried.index as int,
                        carried.hash,
                    ) =~= goal);
                    lemma_count_update(s, at as int, carried);
                    assert forall|i: int| 0 <= i < n implies #[trigger] pair_ok(u, i) by {
                        assert(pair_ok(s, i));
                        assert(pair_ok(s, at as int));
                    }
                }
                self.buckets.set(at, carried);
                break;
            }
            let theirs = self.distance(at, occupant.hash);
            if theirs < travelled {
                proof {
                    let u = s.update(at as int, carried);
                    let mc = goal.remove(carried.index as int);
                    assert(s[at as int].occ());
                    lemma_holds_put(s, mc, at as int, carried);
                    assert(mc.remove(occupant.index as int).insert(carried.index as int, carried.hash)
                        =~= goal.remove(occupant.index as int));
                    lemma_count_update(s, at as int, carried);
                    assert forall|i: int| 0 <= i < n implies #[trigger] pair_ok(u, i) by {
                        assert(pair_ok(s, i));
                        assert(pair_ok(s, at as int));
                    }
                }
                self.buckets.set(at, carried);
                carried = occupant;
                travelled = theirs;
            } else {
                proof {
                    if travelled + 1 == n {
                        let h = ideal(occupant.hash, n);
                        assert(at as int != e);
                        lemma_chain(s, at as int, dist(e, h, n));
                    }
                }
            }
            at = self.next(at);
            travelled = travelled + 1;
            proof {
                fuel = (fuel - 1) as nat;
            }
        }
    }

    /// The bucket holding the entry at `pos`.
    ///
    /// The walk is looking for a position rather than a key, so it stops at
    /// the position itself; the table describes every entry, so it is there.
    pub fn bucket_of(&self, keys: &Vec<String>, pos: usize) -> (r: usize)
        requires
            table_ok(self.buckets@),
            holds(self.buckets@, key_hashes(keys@)),
            pos < keys@.len(),
            keys@.len() <= MAX_INDEXED,
        ensures
            r < self.buckets@.len(),
            self.buckets@[r as int].occ(),
            self.buckets@[r as int].index == pos,
    {
        let ghost s = self.buckets@;
        let ghost n = s.len() as int;
        let hash = hash_key(keys[pos].as_str());
        proof {
            assert(key_hashes(keys@).contains_key(pos as int));
        }
        let ghost i = choose|i: int| 0 <= i < n && s[i].occ() && s[i].index == pos;
        let ghost h = ideal(hash, n);
        proof {
            assert(s[i].hash == hash);
        }
        let target = pos as u32;
        let len = self.buckets.len();
        let mut at = self.ideal(hash);
        let mut travelled: usize = 0;
        loop
            invariant
                s == self.buckets@,
                n == s.len(),
                len == n,
                n > 2,
                0 <= i < n,
                s[i].occ(),
                s[i].index == pos,
                target == pos,
                h == ideal(s[i].hash, n),
                0 <= h < n,
                travelled <= dist(i, h, n),
                at == probe_at(h, travelled as int, n),
            decreases dist(i, h, n) - travelled,
        {
            if self.buckets[at].index == target {
                return at;
            }
            at = self.next(at);
            travelled = travelled + 1;
        }
    }

    /// Empty the bucket at `at`, pulling the rest of its chain back one.
    ///
    /// Each following bucket that is not already where its hash asked for it
    /// moves back one place, and the hole travels to the end of the chain, so
    /// every entry stays reachable from its ideal bucket.
    pub fn erase(&mut self, at: usize, Ghost(m): Ghost<Map<int, u32>>)
        requires
            table_ok(old(self).buckets@),
            holds(old(self).buckets@, m),
            at < old(self).buckets@.len(),
            old(self).buckets@[at as int].occ(),
        ensures
            final(self).buckets@.len() == old(self).buckets@.len(),
            robin_hood(final(self).buckets@),
            holds(final(self).buckets@, m.remove(old(self).buckets@[at as int].index as int)),
            count(final(self).buckets@) + 1 == count(old(self).buckets@),
    {
        let ghost s0 = old(self).buckets@;
        let ghost n = s0.len() as int;
        let ghost e = lemma_empty_exists(s0);
        let ghost mr = m.remove(s0[at as int].index as int);
        let ghost hv = empty_bucket();
        let len = self.buckets.len();
        let mut hole = at;
        let mut curr = self.next(at);
        proof {
            let sv = s0.update(at as int, hv);
            lemma_holds_clear(s0, m, at as int, hv);
            lemma_count_update(s0, at as int, hv);
            assert forall|x: int| 0 <= x < n && x != at implies #[trigger] pair_ok(sv, x) by {
                assert(pair_ok(s0, x));
            }
            assert(pair_ok(s0, at as int));
            assert(pair_ok(s0, back(at as int, n)));
            assert(step(back(at as int, n), n) == at);
        }
        loop
            invariant_except_break
                len == n,
                self.buckets@.len() == n,
                n > 2,
                hole < n,
                curr == step(hole as int, n),
                self.buckets@[hole as int].occ(),
                0 <= e < n,
                !self.buckets@[e].occ(),
                forall|x: int|
                    0 <= x < n && x != hole ==> #[trigger] pair_ok(
                        self.buckets@.update(hole as int, hv),
                        x,
                    ),
                (self.buckets@[curr as int].occ() && bdist(self.buckets@, curr as int) > 1) ==> (
                self.buckets@[back(hole as int, n)].occ() && bdist(
                    self.buckets@,
                    back(hole as int, n),
                ) >= bdist(self.buckets@, curr as int) - 2),
                holds(self.buckets@.update(hole as int, hv), mr),
                count(self.buckets@.update(hole as int, hv)) + 1 == count(s0),
                hv == empty_bucket(),
            ensures
                self.buckets@.len() == n,
                robin_hood(self.buckets@),
                holds(self.buckets@, mr),
                count(self.buckets@) + 1 == count(s0),
            decreases dist(e, curr as int, n),
        {
            let ghost s = self.buckets@;
            let ghost sv = s.update(hole as int, hv);
            let bucket = self.buckets[curr];
            if bucket.is_empty() || self.distance(curr, bucket.hash) == 0 {
                proof {
                    assert forall|x: int| 0 <= x < n implies #[trigger] pair_ok(sv, x) by {
                        if x == hole {
                            assert(sv[curr as int] == s[curr as int]);
                        }
                    }
                }
                self.buckets.set(hole, vacant());
                break;
            }
            proof {
                let d = bdist(s, curr as int);
                let s1 = s.update(hole as int, bucket);
                let sv1 = s1.update(curr as int, hv);
                assert(sv1 =~= sv.update(hole as int, bucket).update(curr as int, hv));
                assert(sv1 =~= sv.update(curr as int, hv).update(hole as int, bucket));
                // What the table describes: the bucket moves from `curr` to the hole.
                assert(sv[curr as int] == bucket);
                lemma_holds_clear(sv, mr, curr as int, hv);
                let sc = sv.update(curr as int, hv);
                assert(!sc[hole as int].occ());
                lemma_holds_put(sc, mr.remove(bucket.index as int), hole as int, bucket);
                assert(mr.remove(bucket.index as int).insert(bucket.index as int, bucket.hash) =~= mr);
                lemma_count_update(sv, curr as int, hv);
                lemma_count_update(sc, hole as int, bucket);
                // The ordering, pair by pair.
                assert(pair_ok(sv, curr as int));
                assert forall|x: int| 0 <= x < n && x != curr implies #[trigger] pair_ok(sv1, x) by {
                    if x != hole && x != back(hole as int, n) {
                        assert(pair_ok(sv, x));
                    }
                }
            }
            self.buckets.set(hole, bucket);
            hole = curr;
            curr = self.next(curr);
        }
    }

    /// Account for the entry at `pos` having been removed and every entry
    /// above it having shifted down one.
    pub fn shift_down_above(&mut self, pos: usize, Ghost(m): Ghost<Map<int, u32>>)
        requires
            holds(old(self).buckets@, m),
            !m.contains_key(pos as int),
            pos < MAX_INDEXED,
        ensures
            final(self).buckets@.len() == old(self).buckets@.len(),
            forall|i: int|
                0 <= i < final(self).buckets@.len() ==> #[trigger] final(self).buckets@[i] == shifted(
                    old(self).buckets@[i],
                    pos as int,
                ),
            robin_hood(old(self).buckets@) ==> robin_hood(final(self).buckets@),
            count(final(self).buckets@) == count(old(self).buckets@),
            holds(final(self).buckets@, shift_map(m, pos as int)),
    {
        let ghost s0 = old(self).buckets@;
        let len = self.buckets.len();
        let threshold = pos as u32;
        let mut i: usize = 0;
        while i < len
            invariant
                len == s0.len(),
                self.buckets@.len() == len,
                i <= len,
                threshold == pos,
                forall|j: int| 0 <= j < i ==> #[trigger] self.buckets@[j] == shifted(s0[j], pos as int),
                forall|j: int| i <= j < len ==> #[trigger] self.buckets@[j] == s0[j],
            decreases len - i,
        {
            let b = self.buckets[i];
            if !b.is_empty() && b.index > threshold {
                self.buckets.set(i, Bucket { index: b.index - 1, hash: b.hash });
            }
            i = i + 1;
        }
        proof {
            let s = self.buckets@;
            let n = s.len() as int;
            assert forall|j: int| 0 <= j < n implies s[j].occ() == s0[j].occ() && s[j].hash
                == s0[j].hash by {
                assert(s[j] == shifted(s0[j], pos as int));
            }
            lemma_count_same_occupancy(s, s0);
            if robin_hood(s0) {
                assert forall|x: int| 0 <= x < n implies #[trigger] pair_ok(s, x) by {
                    assert(pair_ok(s0, x));
                    assert(s[x] == shifted(s0[x], pos as int));
                    assert(s[step(x, n)] == shifted(s0[step(x, n)], pos as int));
                }
            }
            let m2 = shift_map(m, pos as int);
            assert forall|i: int| 0 <= i < n && #[trigger] s[i].occ() implies m2.contains_key(
                s[i].index as int,
            ) && m2[s[i].index as int] == s[i].hash by {
                assert(s[i] == shifted(s0[i], pos as int));
                assert(s0[i].occ());
            }
            assert forall|p: int| #[trigger] m2.contains_key(p) implies exists|i: int|
                0 <= i < n && s[i].occ() && s[i].index == p by {
                if p < pos {
                    assert(m.contains_key(p));
                    let i = choose|i: int| 0 <= i < n && s0[i].occ() && s0[i].index == p;
                    assert(s[i] == shifted(s0[i], pos as int));
                } else {
                    assert(m.contains_key(p + 1));
                    let i = choose|i: int| 0 <= i < n && s0[i].occ() && s0[i].index == p + 1;
                    assert(s[i] == shifted(s0[i], pos as int));
                }
            }
            assert forall|i: int, j: int|
                0 <= i < n && 0 <= j < n && s[i].occ() && s[j].occ() && #[trigger] s[i].index
                    == #[trigger] s[j].index implies i == j by {
                assert(s[i] == shifted(s0[i], pos as int));
                assert(s[j] == shifted(s0[j], pos as int));
                assert(m.contains_key(s0[i].index as int));
                assert(m.contains_key(s0[j].index as int));
            }
        }
    }

    /// Size the table for `keys` and fill it from scratch, hashing every
    /// key.
    pub fn rebuild(&mut self, keys: &Vec<String>)
        requires
            keys@.len() <= MAX_INDEXED,
            keys@.len() <= (usize::MAX / 8) / 4 * 3,
        ensures
            sized_for(final(self).buckets@.len() as int, keys@.len() as int),
            table_ok(final(self).buckets@),
            holds(final(self).buckets@, key_hashes(keys@)),
            count(final(self).buckets@) == keys@.len(),
    {
        let len = keys.len();
        let n = buckets_for(len);
        fill_vacant(&mut self.buckets, n);
        let mut i: usize = 0;
        proof {
            assert(key_hashes(keys@.take(0)) =~= Map::<int, u32>::empty());
            assert forall|p: int| #[trigger] Map::<int, u32>::empty().contains_key(p) implies exists|
                j: int,
            | 0 <= j < self.buckets@.len() && self.buckets@[j].occ() && self.buckets@[j].index
                == p by {}
        }
        while i < len
            invariant
                len == keys@.len(),
                len <= MAX_INDEXED,
                len <= (usize::MAX / 8) / 4 * 3,
                sized_for(n as int, len as int),
                self.buckets@.len() == n,
                i <= len,
                robin_hood(self.buckets@),
                holds(self.buckets@, key_hashes(keys@.take(i as int))),
                count(self.buckets@) == i,
            decreases len - i,
        {
            let hash = hash_key(keys[i].as_str());
            let ghost before = key_hashes(keys@.take(i as int));
            self.place(Bucket { index: i as u32, hash }, Ghost(before));
            proof {
                assert(before.insert(i as int, hash) =~= key_hashes(keys@.take(i + 1)));
            }
            i = i + 1;
        }
        proof {
            assert(keys@.take(len as int) =~= keys@);
        }
    }

    /// Double the table, carrying every bucket over as it stands.
    ///
    /// Nothing is hashed and nothing is read from the entries: a bucket
    /// already holds its entry's hash and position, and only which bucket
    /// that hash asks for changes.
    pub fn grow(&mut self, Ghost(m): Ghost<Map<int, u32>>)
        requires
            table_ok(old(self).buckets@),
            holds(old(self).buckets@, m),
            old(self).buckets@.len() <= usize::MAX / 4,
        ensures
            final(self).buckets@.len() == 2 * old(self).buckets@.len(),
            robin_hood(final(self).buckets@),
            holds(final(self).buckets@, m),
            count(final(self).buckets@) == count(old(self).buckets@),
    {
        let doubled = self.buckets.len() * 2;
        let mut old_buckets: Vec<Bucket> = Vec::new();
        fill_vacant(&mut old_buckets, doubled);
        std::mem::swap(&mut self.buckets, &mut old_buckets);
        let ghost s0 = old_buckets@;
        let len = old_buckets.len();
        let mut i: usize = 0;
        proof {
            assert(prefix_map(s0, m, 0) =~= Map::<int, u32>::empty());
            assert(s0.take(0) =~= Seq::<Bucket>::empty());
        }
        while i < len
            invariant
                s0 == old_buckets@,
                len == s0.len(),
                s0.len() > 2,
                holds(s0, m),
                self.buckets@.len() == doubled,
                doubled == 2 * len,
                i <= len,
                robin_hood(self.buckets@),
                holds(self.buckets@, prefix_map(s0, m, i as int)),
                count(self.buckets@) == count(s0.take(i as int)),
            decreases len - i,
        {
            let b = old_buckets[i];
            let ghost before = prefix_map(s0, m, i as int);
            proof {
                assert(s0.take(i + 1).drop_last() =~= s0.take(i as int));
                lemma_count_bound(s0.take(i as int));
            }
            if !b.is_empty() {
                proof {
                    assert(s0[i as int].occ());
                    if before.contains_key(b.index as int) {
                        let j = choose|j: int| 0 <= j < i && s0[j].occ() && s0[j].index == b.index;
                        assert(s0[j].index == s0[i as int].index);
                    }
                }
                self.place(b, Ghost(before));
                proof {
                    let after = prefix_map(s0, m, i + 1);
                    assert forall|p: int| after.contains_key(p) == before.insert(b.index as int, b.hash).contains_key(p) by {
                        if before.contains_key(p) {
                            let j = choose|j: int| 0 <= j < i && s0[j].occ() && s0[j].index == p;
                            assert(0 <= j < i + 1 && s0[j].occ() && s0[j].index == p);
                        }
                        if p == b.index {
                            assert(s0[i as int].occ() && s0[i as int].index == p);
                        }
                    }
                    assert(after =~= before.insert(b.index as int, b.hash));
                }
            } else {
                proof {
                    let after = prefix_map(s0, m, i + 1);
                    assert forall|p: int| after.contains_key(p) == before.contains_key(p) by {
                        if before.contains_key(p) {
                            let j = choose|j: int| 0 <= j < i && s0[j].occ() && s0[j].index == p;
                            assert(0 <= j < i + 1 && s0[j].occ() && s0[j].index == p);
                        }
                    }
                    assert(after =~= before);
                }
            }
            i = i + 1;
        }
        proof {
            assert(s0.take(len as int) =~= s0);
            let all = prefix_map(s0, m, len as int);
            assert forall|p: int| all.contains_key(p) == m.contains_key(p) by {
                if m.contains_key(p) {
                    let j = choose|j: int| 0 <= j < len && s0[j].occ() && s0[j].index == p;
                }
            }
            assert(all =~= m);
        }
    }
}

} // verus!
