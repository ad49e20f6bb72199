//! The ordered map: order, lookups at every size, the bucket table, removal,
//! entries, equality, and iteration.

use lib::{buckets_for, hash_key, load_limit, Entry, OrderedMap, LINEAR_MAX, MAX_INDEXED, MIN_BUCKETS};
use std::collections::BTreeMap;

/// The characters a generated key is spelled with.
const ALPHABET: &[u8] = b"abcdefghijklmnopqrstuvwxyz0123456789";

/// Distinct keys from a counter, cheaply.
fn nth_key(n: usize) -> String {
    let mut n = n;
    let mut key = String::from("key_");
    loop {
        key.push(ALPHABET[n % ALPHABET.len()] as char);
        n /= ALPHABET.len();
        if n == 0 {
            break;
        }
    }
    key
}

fn map_of(n: usize) -> OrderedMap<usize> {
    let mut map = OrderedMap::new();
    for i in 0..n {
        map.insert(nth_key(i), i);
    }
    map
}

/// The keys, front to back.
fn keys_of<V>(map: &OrderedMap<V>) -> Vec<String> {
    let mut keys = map.keys();
    let mut out = Vec::new();
    while let Some(key) = keys.next() {
        out.push(key.to_string());
    }
    out
}

/// The keys, back to front.
fn keys_reversed<V>(map: &OrderedMap<V>) -> Vec<String> {
    let mut iter = map.iter();
    let mut out = Vec::new();
    while let Some((key, _)) = iter.next_back() {
        out.push(key.to_string());
    }
    out
}

/// The values, front to back.
fn values_of<V: Copy>(map: &OrderedMap<V>) -> Vec<V> {
    let mut values = map.values();
    let mut out = Vec::new();
    while let Some(value) = values.next() {
        out.push(*value);
    }
    out
}

/// The entries, front to back.
fn entries_of<V: Copy>(map: &OrderedMap<V>) -> Vec<(String, V)> {
    let mut iter = map.iter();
    let mut out = Vec::new();
    while let Some((key, value)) = iter.next() {
        out.push((key.to_string(), *value));
    }
    out
}

/// The bucket a hash asks for in a table of `buckets` buckets.
fn ideal(hash: u32, buckets: usize) -> u32 {
    hash & (buckets as u32 - 1)
}

/// How far the bucket at `at` is from the one `hash` asks for.
fn distance(at: u32, hash: u32, buckets: usize) -> u32 {
    at.wrapping_sub(ideal(hash, buckets)) & (buckets as u32 - 1)
}

/// Every invariant the lookup depends on, checked against the entries.
///
/// A table either describes the whole map or is not there at all. For a
/// table that is there: every occupied bucket points at a live entry whose
/// key still hashes to the hash the bucket stored, every entry has exactly one
/// bucket, every entry is reachable by probing forward from the bucket its
/// hash asked for, the robin hood distance ordering holds along the way, and
/// the load factor is not exceeded.
fn assert_index_consistent<V>(map: &OrderedMap<V>) {
    let len = map.len();
    let buckets = map.bucket_count();
    if buckets == 0 {
        assert!(
            len <= LINEAR_MAX || len > MAX_INDEXED,
            "a map of {len} entries is missing its table"
        );
        return;
    }
    assert!(len > LINEAR_MAX, "a map of {len} entries built a table");
    assert!(buckets.is_power_of_two(), "{buckets} buckets is not a power of two");
    assert!(buckets >= MIN_BUCKETS, "{buckets} buckets is below the minimum");
    assert!(
        len <= load_limit(buckets),
        "{len} entries in {buckets} buckets is over the load factor"
    );

    let mut bucketed = vec![false; len];
    for at in 0..buckets {
        let Some((pos, hash)) = map.bucket_at(at) else {
            continue;
        };
        let at = at as u32;
        let pos = pos as usize;
        assert!(pos < len, "bucket {at} points past the entries");
        let (key, _) = map.get_index(pos).unwrap();
        assert_eq!(hash, hash_key(key), "bucket {at} holds a stale hash");
        assert!(
            !std::mem::replace(&mut bucketed[pos], true),
            "two buckets point at entry {pos}"
        );

        let home = ideal(hash, buckets);
        for step in 0..distance(at, hash, buckets) {
            let passed_at = (home + step) & (buckets as u32 - 1);
            let passed = map.bucket_at(passed_at as usize);
            assert!(
                passed.is_some(),
                "entry {pos} is unreachable: bucket {passed_at} is empty"
            );
            let (_, passed_hash) = passed.unwrap();
            assert!(
                distance(passed_at, passed_hash, buckets) >= step,
                "robin hood ordering is broken at bucket {passed_at}"
            );
        }
    }
    assert!(bucketed.iter().all(|&seen| seen), "an entry has no bucket of its own");

    // And the probe finds them all, which is what the rest is for.
    for pos in 0..len {
        let (key, _) = map.get_index(pos).unwrap();
        let at = map.bucket_of_key(key).expect("a present key has a bucket");
        assert_eq!(
            map.bucket_at(at).map(|(p, _)| p as usize),
            Some(pos),
            "entry {pos} is not where a probe looks for it"
        );
    }
}

#[test]
fn empty_map_answers_nothing() {
    let map: OrderedMap<i32> = OrderedMap::new();
    assert!(map.is_empty());
    assert_eq!(map.len(), 0);
    assert_eq!(map.get("a"), None);
    assert!(!map.contains_key("a"));
    assert_eq!(map.first(), None);
    assert_eq!(map.last(), None);
    assert_eq!(map.iter().next(), None);
}

#[test]
fn insertion_order_survives_every_size() {
    for n in [0usize, 1, 7, 8, 9, 63, 64, 65, 300, 1000] {
        let map = map_of(n);
        assert_eq!(map.len(), n);
        assert_index_consistent(&map);

        let expected: Vec<String> = (0..n).map(nth_key).collect();
        assert_eq!(keys_of(&map), expected, "order wrong at n = {n}");

        for i in 0..n {
            assert_eq!(map.get(&nth_key(i)), Some(&i), "missing key at n = {n}");
            assert_eq!(map.get_index(i), Some((nth_key(i).as_str(), &i)));
        }
        assert_eq!(map.get("key_not_present"), None, "phantom key at n = {n}");
        assert_eq!(map.get(""), None);
    }
}

#[test]
fn duplicate_insert_replaces_in_place() {
    for n in [1usize, 8, 9, 40, 200] {
        let mut map = map_of(n);
        let mut targets = vec![0usize, n / 2, n - 1];
        targets.dedup();
        for target in targets {
            let key = nth_key(target);
            let old = map.insert(key.clone(), 10_000 + target);
            assert_eq!(old, Some(target), "old value not returned at n = {n}");
            assert_eq!(map.len(), n, "duplicate insert changed the length");
            assert_eq!(map.get(&key), Some(&(10_000 + target)));
            assert_eq!(
                map.get_index(target).map(|(k, _)| k.to_string()),
                Some(key),
                "duplicate insert moved the entry"
            );
        }
        assert_index_consistent(&map);
        assert_eq!(
            map.bucket_count(),
            map_of(n).bucket_count(),
            "a duplicate insert grew the table at n = {n}"
        );
    }
}

/// Keys whose hash asks for `bucket` in a table of `buckets` buckets,
/// searched for rather than written down so that they stay meaningful if the
/// hash ever changes.
fn keys_for_bucket(bucket: u32, buckets: usize, wanted: usize) -> Vec<String> {
    let mask = (buckets - 1) as u32;
    let mut found = Vec::new();
    for i in 0..1_000_000usize {
        let key = nth_key(i);
        if hash_key(&key) & mask == bucket {
            found.push(key);
            if found.len() == wanted {
                return found;
            }
        }
    }
    panic!("fewer than {wanted} keys land in bucket {bucket} of {buckets}");
}

/// Which bucket a present key sits in.
fn bucket_of<V>(map: &OrderedMap<V>, key: &str) -> u32 {
    map.bucket_of_key(key).expect("key is present") as u32
}

/// How far a present key sits from the bucket it asked for.
fn distance_of<V>(map: &OrderedMap<V>, key: &str) -> u32 {
    distance(bucket_of(map, key), hash_key(key), map.bucket_count())
}

#[test]
fn the_table_appears_and_doubles_at_the_right_sizes() {
    let mut map: OrderedMap<usize> = OrderedMap::new();
    for n in 1..=200usize {
        map.insert(nth_key(n - 1), n - 1);
        assert_eq!(map.len(), n);
        if n <= LINEAR_MAX {
            assert!(map.bucket_count() == 0, "a map of {n} entries built a table");
        } else {
            assert_eq!(map.bucket_count(), buckets_for(n), "wrong table size at n = {n}");
        }
        assert_index_consistent(&map);
        for i in 0..n {
            assert_eq!(map.get(&nth_key(i)), Some(&i), "lost a key at n = {n}");
        }
    }
    // The first table holds the ninth entry, and each one after it is twice
    // the last.
    assert_eq!(buckets_for(LINEAR_MAX + 1), MIN_BUCKETS);
    for n in 1..=200usize {
        let buckets = buckets_for(n);
        assert!(n <= load_limit(buckets));
        assert!(buckets == MIN_BUCKETS || n > load_limit(buckets / 2));
    }
}

#[test]
fn probes_wrap_around_the_end_of_the_table() {
    // Four keys asking for the last bucket of the smallest table, so that
    // their chain runs off the end and continues at the start.
    let last = (MIN_BUCKETS - 1) as u32;
    let chain = keys_for_bucket(last, MIN_BUCKETS, 4);
    let mut map: OrderedMap<String> = OrderedMap::new();
    for key in &chain {
        map.insert(key.clone(), format!("{key}!"));
    }
    let mut filler = Vec::new();
    while map.len() < load_limit(MIN_BUCKETS) {
        let key = nth_key(5_000_000 + filler.len());
        map.insert(key.clone(), String::new());
        filler.push(key);
    }
    assert_eq!(map.bucket_count(), MIN_BUCKETS);
    assert_index_consistent(&map);

    let wrapped = chain.iter().filter(|k| bucket_of(&map, k) < last).count();
    assert_eq!(wrapped, chain.len() - 1, "the chain did not wrap");

    for key in &chain {
        assert_eq!(map.get(key), Some(&format!("{key}!")));
    }
    assert_eq!(map.get("absent"), None);

    // Removing the one bucket that is not wrapped shifts the wrapped tail of
    // the chain back across the end of the table.
    let head = chain[0].clone();
    assert_eq!(bucket_of(&map, &head), last);
    assert_eq!(map.remove(&head), Some(format!("{head}!")));
    assert_index_consistent(&map);
    assert_eq!(map.get(&head), None);
    for key in chain[1..].iter().chain(&filler) {
        assert!(map.contains_key(key), "lost {key} to a wrapped removal");
    }
}

#[test]
fn a_later_insert_displaces_an_entry_that_is_closer_to_home() {
    // Eight fillers, parked away from buckets 0 to 3.
    let mut filler = keys_for_bucket(8, MIN_BUCKETS, 6);
    filler.extend(keys_for_bucket(4, MIN_BUCKETS, 2));
    let mut map: OrderedMap<u32> = OrderedMap::new();
    for (i, key) in filler.iter().enumerate() {
        map.insert(key.clone(), i as u32);
    }
    assert_eq!(map.len(), LINEAR_MAX);

    // `zero` wants bucket 0 twice over and `one` wants bucket 1, which it
    // gets first. The second `zero` key finds bucket 0 taken by an entry that
    // is home, walks on to bucket 1 one place from its own home, and finds
    // `one` sitting there with nothing invested, so it takes the bucket and
    // carries `one` on to bucket 2.
    let zero = keys_for_bucket(0, MIN_BUCKETS, 2);
    let one = keys_for_bucket(1, MIN_BUCKETS, 1);
    map.insert(zero[0].clone(), 100);
    map.insert(one[0].clone(), 101);
    map.insert(zero[1].clone(), 102);

    assert_eq!(map.bucket_count(), MIN_BUCKETS);
    assert_eq!(bucket_of(&map, &zero[0]), 0);
    assert_eq!(bucket_of(&map, &zero[1]), 1, "the later insert did not take the bucket");
    assert_eq!(bucket_of(&map, &one[0]), 2, "the entry that was home was not displaced");
    assert_index_consistent(&map);

    assert_eq!(map.get(&zero[0]), Some(&100));
    assert_eq!(map.get(&one[0]), Some(&101));
    assert_eq!(map.get(&zero[1]), Some(&102));
    for (i, key) in filler.iter().enumerate() {
        assert_eq!(map.get(key), Some(&(i as u32)));
    }
}

#[test]
fn removing_the_head_of_a_chain_keeps_the_rest_reachable() {
    // Five keys that all ask for the same bucket, so they sit in a run of
    // five with distances 0 to 4.
    let chain = keys_for_bucket(3, MIN_BUCKETS, 5);
    let mut map: OrderedMap<String> = OrderedMap::new();
    for key in &chain {
        map.insert(key.clone(), format!("{key}!"));
    }
    let mut filler = Vec::new();
    while map.len() < load_limit(MIN_BUCKETS) {
        let key = nth_key(6_000_000 + filler.len());
        map.insert(key.clone(), String::new());
        filler.push(key);
    }
    assert_index_consistent(&map);
    for (step, key) in chain.iter().enumerate() {
        assert_eq!(distance_of(&map, key), step as u32, "the keys did not form one chain");
    }

    for removed in [0usize, 1] {
        let key = &chain[removed];
        assert_eq!(map.remove(key), Some(format!("{key}!")));
        assert_index_consistent(&map);
        assert_eq!(map.get(key), None);
        for survivor in &chain[removed + 1..] {
            assert_eq!(
                map.get(survivor),
                Some(&format!("{survivor}!")),
                "removing {key} cut {survivor} out of its chain"
            );
        }
        for key in &filler {
            assert_eq!(map.get(key), Some(&String::new()));
        }
    }
}

/// How many entries the fill test inserts.
const FILL: usize = 4_000;

#[test]
fn filling_rebuilds_a_bounded_number_of_times() {
    let mut map: OrderedMap<usize> = OrderedMap::new();
    let mut buckets = 0;
    let mut rebuilds = 0usize;
    let mut rebuilt_entries = 0usize;
    for i in 0..FILL {
        map.insert(nth_key(i), i);
        if map.bucket_count() != buckets {
            buckets = map.bucket_count();
            rebuilds += 1;
            rebuilt_entries += map.len();
        }
    }
    assert_eq!(map.len(), FILL);
    assert_index_consistent(&map);
    assert!(
        rebuilds <= (FILL.ilog2() as usize) + 1,
        "{rebuilds} rebuilds filling {FILL} entries"
    );
    assert!(
        rebuilt_entries <= 2 * FILL,
        "rebuilding walked {rebuilt_entries} entries filling {FILL}"
    );
}

/// Pairs of distinct keys whose 32-bit hashes are equal, searched for.
fn colliding_pairs(wanted: usize) -> Vec<(String, String)> {
    let mut first_seen: std::collections::HashMap<u32, usize> = std::collections::HashMap::new();
    let mut pairs = Vec::new();
    for i in 0..2_000_000usize {
        let key = nth_key(i);
        let hash = hash_key(&key);
        match first_seen.get(&hash) {
            Some(&j) => {
                pairs.push((nth_key(j), key));
                if pairs.len() == wanted {
                    return pairs;
                }
            }
            None => {
                first_seen.insert(hash, i);
            }
        }
    }
    panic!("no 32-bit hash collision found; the search bound is too low");
}

#[test]
fn colliding_keys_are_all_found_and_no_others() {
    let pairs = colliding_pairs(3);
    for (a, b) in &pairs {
        assert_ne!(a, b);
        assert_eq!(hash_key(a), hash_key(b), "test setup is not a collision");
    }

    // Below the threshold, where lookup is a plain scan.
    let mut small: OrderedMap<&str> = OrderedMap::new();
    let (a, b) = &pairs[0];
    small.insert(a.clone(), "a");
    assert_eq!(small.get(a), Some(&"a"));
    assert_eq!(small.get(b), None, "an absent key with a colliding hash was found");
    small.insert(b.clone(), "b");
    assert_eq!(small.get(a), Some(&"a"));
    assert_eq!(small.get(b), Some(&"b"));

    // Above it, where the probe has to walk past a bucket whose stored hash
    // matches a key that is not the one being looked for.
    let mut big: OrderedMap<String> = OrderedMap::new();
    for (a, _) in &pairs {
        big.insert(a.clone(), format!("{a}!"));
    }
    for i in 0..200 {
        big.insert(nth_key(1_000_000 + i), i.to_string());
    }
    assert!(big.bucket_count() != 0, "the hashed path was never exercised");
    assert_index_consistent(&big);

    for (a, b) in &pairs {
        assert_eq!(big.get(a), Some(&format!("{a}!")));
        assert_eq!(big.get(b), None, "absent colliding key was found");
    }
    for (_, b) in &pairs {
        big.insert(b.clone(), format!("{b}?"));
    }
    for _ in 0..20 {
        big.insert(nth_key(2_000_000 + big.len()), String::new());
    }
    assert_index_consistent(&big);
    for (a, b) in &pairs {
        assert_eq!(big.get(a), Some(&format!("{a}!")));
        assert_eq!(big.get(b), Some(&format!("{b}?")));
    }
}

#[test]
fn colliding_keys_survive_removal() {
    let pairs = colliding_pairs(2);
    let mut map: OrderedMap<String> = OrderedMap::new();
    for (a, b) in &pairs {
        map.insert(a.clone(), format!("{a}!"));
        map.insert(b.clone(), format!("{b}?"));
    }
    for i in 0..100 {
        map.insert(nth_key(3_000_000 + i), i.to_string());
    }
    for (a, b) in &pairs {
        assert_eq!(map.remove(a), Some(format!("{a}!")));
        assert_eq!(map.get(a), None);
        assert_eq!(
            map.get(b),
            Some(&format!("{b}?")),
            "removing one of a colliding pair lost the other"
        );
        assert_index_consistent(&map);
    }
}

#[test]
fn remove_preserves_order() {
    for n in [1usize, 8, 9, 40, 128] {
        for &target in &[0usize, n / 2, n - 1] {
            let mut map = map_of(n);
            let key = nth_key(target);
            assert_eq!(map.remove(&key), Some(target));
            assert_eq!(map.remove(&key), None, "removed twice");
            assert_eq!(map.len(), n - 1);
            assert_index_consistent(&map);

            let expected: Vec<String> = (0..n).filter(|&i| i != target).map(nth_key).collect();
            assert_eq!(keys_of(&map), expected);

            for i in 0..n {
                let found = map.get(&nth_key(i));
                if i == target {
                    assert_eq!(found, None, "n = {n}, removed = {target}");
                } else {
                    assert_eq!(found, Some(&i), "n = {n}, removed = {target}");
                }
            }
        }
    }
}

#[test]
fn remove_everything_one_at_a_time() {
    let mut map = map_of(100);
    for i in (0..100).rev() {
        assert_eq!(map.remove_entry(&nth_key(i)), Some((nth_key(i), i)));
        assert_index_consistent(&map);
        assert_eq!(map.len(), i);
        for j in 0..i {
            assert_eq!(map.get(&nth_key(j)), Some(&j));
        }
    }
    assert!(map.is_empty());
}

#[test]
fn remove_from_the_front_repeatedly() {
    let mut map = map_of(60);
    for i in 0..60 {
        assert_eq!(map.remove(&nth_key(i)), Some(i));
        assert_index_consistent(&map);
        assert_eq!(map.first().map(|(k, _)| k.to_string()), {
            if i + 1 < 60 {
                Some(nth_key(i + 1))
            } else {
                None
            }
        });
    }
}

#[test]
fn crossing_the_linear_threshold_in_both_directions() {
    let mut map = map_of(12);
    assert!(map.bucket_count() != 0);

    // Down past the threshold, from the front, so that every remaining entry
    // moves and every bucket has to be corrected.
    for removed in 0..5 {
        assert_eq!(map.remove(&nth_key(removed)), Some(removed));
        assert_index_consistent(&map);
        assert_eq!(map.len(), 11 - removed);
        for survivor in removed + 1..12 {
            assert_eq!(map.get(&nth_key(survivor)), Some(&survivor));
        }
    }
    assert!(map.bucket_count() == 0, "the table outlived the map's need for it");
    assert_eq!(keys_of(&map), (5..12).map(nth_key).collect::<Vec<_>>());

    // And back up, through the rebuild that the ninth entry asks for.
    for added in 12..24 {
        map.insert(nth_key(added), added);
        assert_index_consistent(&map);
    }
    assert_eq!(map.len(), 19);
    assert!(map.bucket_count() != 0);
    for i in 0..24 {
        let found = map.get(&nth_key(i));
        assert_eq!(found, if i < 5 { None } else { Some(&i) });
    }
    assert_eq!(keys_of(&map), (5..24).map(nth_key).collect::<Vec<_>>());
}

#[test]
fn clear_forgets_everything() {
    let mut map = map_of(50);
    map.clear();
    assert!(map.is_empty());
    assert_eq!(map.get(&nth_key(0)), None);
    assert_index_consistent(&map);
    map.insert("a".into(), 1);
    assert_eq!(map.get("a"), Some(&1));
    assert_eq!(map.len(), 1);

    // Refilling past the threshold builds a table over the entries that are
    // there now, not over the ones that were.
    map.clear();
    for i in 0..40 {
        map.insert(nth_key(i), i);
        assert_index_consistent(&map);
    }
    assert_eq!(map.get("a"), None);
    assert_eq!(keys_of(&map), (0..40).map(nth_key).collect::<Vec<_>>());
    for i in 0..40 {
        assert_eq!(map.get(&nth_key(i)), Some(&i));
    }
}

/// SplitMix64, so the script is the same on every run and on every machine.
struct Rng(u64);

impl Rng {
    fn next(&mut self) -> u64 {
        self.0 = self.0.wrapping_add(0x9E37_79B9_7F4A_7C15);
        let mut z = self.0;
        z = (z ^ (z >> 30)).wrapping_mul(0xBF58_476D_1CE4_E5B9);
        z = (z ^ (z >> 27)).wrapping_mul(0x94D0_49BB_1331_11EB);
        z ^ (z >> 31)
    }

    fn below(&mut self, n: u64) -> u64 {
        self.next() % n
    }
}

/// The key space of the differential script: small, so that duplicate
/// inserts and misses are both common.
const KEY_SPACE: u64 = 400;

#[test]
fn matches_btreemap_over_a_long_script() {
    let mut rng = Rng(0x5EED_1234_ABCD_0001);
    let mut map: OrderedMap<u64> = OrderedMap::new();
    let mut reference: BTreeMap<String, u64> = BTreeMap::new();
    // The order the map claims to keep, maintained independently.
    let mut order: Vec<String> = Vec::new();

    for step in 0..20_000u32 {
        let key = nth_key(rng.below(KEY_SPACE) as usize);
        match rng.below(100) {
            0..=54 => {
                let value = rng.next();
                let ours = map.insert(key.clone(), value);
                let theirs = reference.insert(key.clone(), value);
                assert_eq!(ours, theirs, "step {step}: insert returned differently");
                if theirs.is_none() {
                    order.push(key);
                }
            }
            55..=74 => {
                assert_eq!(map.get(&key), reference.get(&key), "step {step}: get disagreed");
            }
            75..=84 => {
                assert_eq!(
                    map.contains_key(&key),
                    reference.contains_key(&key),
                    "step {step}: contains_key disagreed"
                );
            }
            85..=97 => {
                let ours = map.remove(&key);
                let theirs = reference.remove(&key);
                assert_eq!(ours, theirs, "step {step}: remove returned differently");
                if theirs.is_some() {
                    let at = order.iter().position(|k| *k == key).unwrap();
                    order.remove(at);
                }
            }
            _ => {
                let value = rng.next();
                let ours = *map.entry(key.clone()).or_insert(value);
                let theirs = *reference.entry(key.clone()).or_insert(value);
                assert_eq!(ours, theirs, "step {step}: entry disagreed");
                if ours == value && theirs == value && !order.contains(&key) {
                    order.push(key);
                }
            }
        }

        assert_eq!(map.len(), reference.len(), "step {step}: length disagreed");

        if step % 97 == 0 {
            assert_index_consistent(&map);
            let mut ours = entries_of(&map);
            ours.sort();
            let theirs: Vec<(String, u64)> = reference.iter().map(|(k, v)| (k.clone(), *v)).collect();
            assert_eq!(ours, theirs, "step {step}: contents disagreed");
            assert_eq!(keys_of(&map), order, "step {step}: order disagreed");
        }
    }

    assert!(!map.is_empty(), "the script never exercised a filled map");
}

#[test]
fn entry_vacant_and_occupied() {
    let mut map: OrderedMap<Vec<u32>> = OrderedMap::new();

    map.entry("a".into()).or_default().push(1);
    map.entry("a".into()).or_default().push(2);
    assert_eq!(map.get("a"), Some(&vec![1, 2]));
    assert_eq!(map.len(), 1);

    *map.entry("b".into()).or_insert(vec![9]) = vec![8];
    assert_eq!(map.get("b"), Some(&vec![8]));

    let mut calls = 0;
    map.entry("b".into()).or_insert_with(|| {
        calls += 1;
        vec![7]
    });
    assert_eq!(calls, 0, "or_insert_with ran for an occupied entry");
    map.entry("c".into()).or_insert_with(|| {
        calls += 1;
        vec![7]
    });
    assert_eq!(calls, 1);

    map.entry("c".into()).and_modify(|v| v.push(6)).or_default();
    assert_eq!(map.get("c"), Some(&vec![7, 6]));
    map.entry("d".into()).and_modify(|v| v.push(5)).or_default();
    assert_eq!(map.get("d"), Some(&vec![]));

    assert_eq!(keys_of(&map), ["a", "b", "c", "d"]);

    match map.entry("a".into()) {
        Entry::Occupied(mut e) => {
            assert_eq!(e.key(), "a");
            assert_eq!(e.get(), &vec![1, 2]);
            e.get_mut().push(3);
            assert_eq!(e.insert(vec![0]), vec![1, 2, 3]);
        }
        Entry::Vacant(_) => panic!("a is present"),
    }
    assert_eq!(map.get("a"), Some(&vec![0]));
    assert_eq!(map.first().map(|(k, _)| k), Some("a"), "entry moved a key");

    match map.entry("zz".into()) {
        Entry::Vacant(e) => {
            assert_eq!(e.key(), "zz");
            assert_eq!(e.into_key(), "zz");
        }
        Entry::Occupied(_) => panic!("zz is absent"),
    }
    assert_eq!(map.len(), 4, "into_key inserted something");
}

#[test]
fn entry_removal_keeps_order() {
    let mut map = map_of(30);
    match map.entry(nth_key(10)) {
        Entry::Occupied(e) => assert_eq!(e.remove(), 10),
        Entry::Vacant(_) => panic!("present"),
    }
    assert_index_consistent(&map);
    assert_eq!(map.len(), 29);
    assert_eq!(map.get(&nth_key(10)), None);
    assert_eq!(map.get_index(10), Some((nth_key(11).as_str(), &11)));
}

#[test]
fn entry_stays_indexed_above_the_threshold() {
    let mut map = map_of(100);
    assert!(map.bucket_count() != 0);
    for i in 0..100 {
        assert_eq!(*map.entry(nth_key(i)).or_insert(usize::MAX), i);
    }
    assert_eq!(map.len(), 100);
    assert_eq!(*map.entry(nth_key(500)).or_insert(7), 7);
    assert_eq!(map.len(), 101);
    assert_index_consistent(&map);
}

#[test]
fn equality_ignores_order() {
    let mut forwards: OrderedMap<i32> = OrderedMap::new();
    let mut backwards: OrderedMap<i32> = OrderedMap::new();
    for i in 0..40 {
        forwards.insert(nth_key(i), i as i32);
    }
    for i in (0..40).rev() {
        backwards.insert(nth_key(i), i as i32);
    }
    assert_ne!(
        keys_of(&forwards),
        keys_of(&backwards),
        "the two maps are supposed to differ in order"
    );
    assert_eq!(forwards, backwards);

    let mut differing = backwards.clone();
    differing.insert(nth_key(7), -1);
    assert_ne!(forwards, differing);

    let mut shorter = forwards.clone();
    shorter.remove(&nth_key(39));
    assert_ne!(forwards, shorter);
    assert_ne!(shorter, forwards);

    let empty: OrderedMap<i32> = OrderedMap::new();
    assert_eq!(empty, OrderedMap::new());
    assert_ne!(empty, forwards);

    // Same length, disjoint keys.
    let mut other: OrderedMap<i32> = OrderedMap::new();
    for i in 100..140 {
        other.insert(nth_key(i), i as i32);
    }
    assert_ne!(forwards, other);
}

#[test]
fn clone_keeps_order_and_lookups() {
    let map = map_of(70);
    let copy = map.clone();
    assert_eq!(map, copy);
    assert_eq!(keys_of(&map), keys_of(&copy));
    for i in 0..70 {
        assert_eq!(copy.get(&nth_key(i)), Some(&i));
    }
    assert_index_consistent(&copy);
}

#[test]
fn sort_keys_reorders_and_lookups_still_work() {
    for n in [0usize, 1, 8, 9, 65, 300] {
        let mut map: OrderedMap<usize> = OrderedMap::new();
        for i in (0..n).rev() {
            map.insert(nth_key(i), i);
        }
        map.sort_keys();
        assert_index_consistent(&map);

        let mut expected: Vec<String> = (0..n).map(nth_key).collect();
        expected.sort();
        assert_eq!(keys_of(&map), expected);

        for i in 0..n {
            assert_eq!(map.get(&nth_key(i)), Some(&i), "lost a key at n = {n}");
        }
        assert_eq!(map.first().map(|(k, _)| k.to_string()), expected.first().cloned());
        assert_eq!(map.last().map(|(k, _)| k.to_string()), expected.last().cloned());
    }
}

#[test]
fn positional_accessors() {
    let mut map = map_of(20);
    assert_eq!(map.first(), Some((nth_key(0).as_str(), &0)));
    assert_eq!(map.last(), Some((nth_key(19).as_str(), &19)));
    assert_eq!(map.get_index(20), None);
    assert_eq!(map.get_index_mut(20).map(|(_, v)| *v), None);

    if let Some((key, value)) = map.get_index_mut(5) {
        assert_eq!(key, nth_key(5));
        *value = 500;
    }
    assert_eq!(map.get(&nth_key(5)), Some(&500));
}

#[test]
fn retain_keeps_order_and_rebuilds() {
    let mut map = map_of(100);
    map.retain(|_, value| *value % 3 == 0);
    assert_index_consistent(&map);

    let expected: Vec<String> = (0..100).filter(|i| i % 3 == 0).map(nth_key).collect();
    assert_eq!(keys_of(&map), expected);
    for i in 0..100 {
        let found = map.get(&nth_key(i));
        assert_eq!(found, if i % 3 == 0 { Some(&i) } else { None });
    }

    // Down to under the threshold, where the table goes away entirely.
    map.retain(|key, _| key == nth_key(0));
    assert_eq!(map.len(), 1);
    assert!(map.bucket_count() == 0);
    assert_eq!(map.get(&nth_key(0)), Some(&0));
}

#[test]
fn iterators_agree_on_order() {
    let mut map = map_of(30);
    let keys: Vec<String> = (0..30).map(nth_key).collect();

    assert_eq!(map.iter().len(), 30);
    assert_eq!(keys_of(&map), keys);
    assert_eq!(values_of(&map), (0..30).collect::<Vec<_>>());
    assert_eq!(keys_reversed(&map), keys.iter().rev().cloned().collect::<Vec<_>>());

    let mut i = 0;
    let mut iter = map.iter_mut();
    while let Some((key, value)) = iter.next() {
        assert_eq!(key, keys[i]);
        *value += 1000;
        i += 1;
    }
    let mut values = map.values_mut();
    while let Some(value) = values.next() {
        *value += 1;
    }
    assert_eq!(map.get(&keys[0]), Some(&1001));

    let mut into = map.clone().into_iter();
    let mut owned: Vec<(String, usize)> = Vec::new();
    while let Some(entry) = into.next() {
        owned.push(entry);
    }
    assert_eq!(owned.len(), 30);
    assert_eq!(owned[0].0, keys[0]);

    let rebuilt: OrderedMap<usize> = OrderedMap::from_entries(owned);
    assert_eq!(rebuilt, map);
    assert_eq!(keys_of(&rebuilt), keys);
    assert_index_consistent(&rebuilt);
}

#[test]
fn from_array_and_extend() {
    let mut map = OrderedMap::from_entries(vec![
        ("b".to_string(), 2),
        ("a".to_string(), 1),
        ("b".to_string(), 3),
    ]);
    assert_eq!(map.len(), 2);
    assert_eq!(map.get("b"), Some(&3));
    assert_eq!(keys_of(&map), ["b", "a"]);

    map.extend(vec![("c".to_string(), 4), ("a".to_string(), 5)]);
    assert_eq!(keys_of(&map), ["b", "a", "c"]);
    assert_eq!(*map.index("a"), 5);
    assert_eq!(*map.index("c"), 4);
}

#[test]
fn capacity_is_honoured() {
    let mut map: OrderedMap<u8> = OrderedMap::with_capacity(32);
    assert!(map.capacity() >= 32);
    map.reserve(100);
    assert!(map.capacity() >= 100);
    assert!(map.is_empty());
}

/// A value type with neither `Clone` nor `Default`.
struct NotCloneable(u8);

#[test]
fn values_of_a_type_that_is_neither_clone_nor_default() {
    let mut map: OrderedMap<NotCloneable> = OrderedMap::default();
    map.insert("x".into(), NotCloneable(1));
    assert_eq!(map.get("x").map(|v| v.0), Some(1));
}

#[test]
fn after_removals_the_table_keeps_its_size_until_it_doubles() {
    let mut map = map_of(100);
    let big = map.bucket_count();
    assert_eq!(big, buckets_for(100));
    for i in 20..100 {
        map.remove(&nth_key(i));
    }
    assert_eq!(map.len(), 20);
    assert_eq!(map.bucket_count(), big);
    map.insert("another".to_string(), 0);
    assert_eq!(map.bucket_count(), big, "one insert resized a table with room to spare");
    let mut i = 1000;
    while map.len() < load_limit(big) {
        map.insert(nth_key(i), i);
        i += 1;
    }
    assert_eq!(map.bucket_count(), big);
    map.insert("one past the limit".to_string(), 0);
    assert_eq!(map.bucket_count(), 2 * big);
}

#[test]
fn reserve_keeps_the_entries_and_the_table() {
    let mut map = map_of(50);
    let buckets = map.bucket_count();
    map.reserve(1000);
    assert!(map.capacity() >= 1050);
    assert_eq!(map.bucket_count(), buckets);
    assert_eq!(map.len(), 50);
    for i in 0..50 {
        assert_eq!(map.get(&nth_key(i)), Some(&i));
    }
}

#[test]
fn with_capacity_reserves_without_building_a_table() {
    let map: OrderedMap<u8> = OrderedMap::with_capacity(500);
    assert!(map.capacity() >= 500);
    assert_eq!(map.bucket_count(), 0);
    assert!(map.is_empty());
}

#[test]
fn retain_keeps_the_values_the_callback_left() {
    let mut map = map_of(30);
    map.retain(|_, value| {
        *value *= 10;
        *value % 20 == 0
    });
    assert_eq!(map.len(), 15);
    for i in 0..30 {
        let expected = if i % 2 == 0 { Some(&(i * 10)) } else { None };
        assert_eq!(map.get(&nth_key(i)), expected, "key {i}");
    }
    let keys: Vec<String> = (0..30).step_by(2).map(nth_key).collect();
    assert_eq!(keys_of(&map), keys);
}

#[test]
fn or_default_inserts_the_default_value() {
    let mut map: OrderedMap<u32> = OrderedMap::new();
    *map.entry("a".to_string()).or_default() += 3;
    *map.entry("a".to_string()).or_default() += 4;
    assert_eq!(map.get("a"), Some(&7));
    assert_eq!(*map.entry("b".to_string()).or_default(), 0);
}
