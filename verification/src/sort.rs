//! The order keys sort in, and a merge sort over key-value pairs.
//!
//! Keys compare as `String`s do: lexicographically over their UTF-8 bytes,
//! a key that is a prefix of another coming first.

use vstd::prelude::*;
use vstd::utf8::*;
use vstd::seq_lib::{group_to_multiset_ensures, lemma_multiset_commutative, to_multiset_build, to_multiset_remove};
use vstd::multiset::{group_multiset_axioms, Multiset};

verus! {

/// `a` and `b` part at byte `i`: they agree before it, and there `a` has
/// either run out while `b` goes on, or holds the smaller byte.
pub open spec fn parts_below(a: Seq<u8>, b: Seq<u8>, i: int) -> bool {
    &&& 0 <= i <= a.len()
    &&& i <= b.len()
    &&& forall|k: int| 0 <= k < i ==> a[k] == b[k]
    &&& (i == a.len() && i < b.len()) || (i < a.len() && i < b.len() && a[i] < b[i])
}

/// `a` sorts strictly before `b`, byte by byte.
pub open spec fn bytes_lt(a: Seq<u8>, b: Seq<u8>) -> bool {
    exists|i: int| #[trigger] parts_below(a, b, i)
}

/// Key `a` sorts strictly before key `b`: the order of their UTF-8 bytes,
/// which is the order `String` compares in.
pub open spec fn key_lt(a: Seq<char>, b: Seq<char>) -> bool {
    bytes_lt(encode_utf8(a), encode_utf8(b))
}

/// No sequence of bytes sorts before itself, and no two sort before each
/// other.
pub proof fn lemma_bytes_lt_asymmetric(a: Seq<u8>, b: Seq<u8>)
    ensures
        !(bytes_lt(a, b) && bytes_lt(b, a)),
        !bytes_lt(a, a),
{
    if bytes_lt(a, b) && bytes_lt(b, a) {
        let i = choose|i: int| #[trigger] parts_below(a, b, i);
        let j = choose|j: int| #[trigger] parts_below(b, a, j);
        if i < j {
            assert(a[i] == b[i]);
        } else if j < i {
            assert(a[j] == b[j]);
        }
    }
    if bytes_lt(a, a) {
        let i = choose|i: int| #[trigger] parts_below(a, a, i);
    }
}

/// The byte order is transitive.
pub proof fn lemma_bytes_lt_transitive(a: Seq<u8>, b: Seq<u8>, c: Seq<u8>)
    requires
        bytes_lt(a, b),
        bytes_lt(b, c),
    ensures
        bytes_lt(a, c),
{
    let i = choose|i: int| #[trigger] parts_below(a, b, i);
    let j = choose|j: int| #[trigger] parts_below(b, c, j);
    if i <= j {
        assert forall|k: int| 0 <= k < i implies a[k] == c[k] by {
            assert(a[k] == b[k]);
            assert(b[k] == c[k]);
        }
        if i < j {
            assert(i < c.len());
            if i < a.len() {
                assert(b[i] == c[i]);
            }
        }
        assert(parts_below(a, c, i));
    } else {
        assert forall|k: int| 0 <= k < j implies a[k] == c[k] by {
            assert(a[k] == b[k]);
            assert(b[k] == c[k]);
        }
        assert(a[j] == b[j]);
        assert(parts_below(a, c, j));
    }
}

/// Two sequences that agree on their first `i` bytes are equal, or one
/// sorts before the other.
proof fn lemma_bytes_lt_total_from(a: Seq<u8>, b: Seq<u8>, i: int)
    requires
        0 <= i <= a.len(),
        i <= b.len(),
        forall|k: int| 0 <= k < i ==> a[k] == b[k],
    ensures
        a == b || bytes_lt(a, b) || bytes_lt(b, a),
    decreases a.len() - i,
{
    if i == a.len() && i == b.len() {
        assert(a =~= b);
    } else if i == a.len() {
        assert(parts_below(a, b, i));
    } else if i == b.len() {
        assert(parts_below(b, a, i));
    } else if a[i] < b[i] {
        assert(parts_below(a, b, i));
    } else if b[i] < a[i] {
        assert(parts_below(b, a, i));
    } else {
        lemma_bytes_lt_total_from(a, b, i + 1);
    }
}

/// Any two byte sequences are equal or ordered one way round.
pub proof fn lemma_bytes_lt_total(a: Seq<u8>, b: Seq<u8>)
    ensures
        a == b || bytes_lt(a, b) || bytes_lt(b, a),
{
    lemma_bytes_lt_total_from(a, b, 0);
}

/// The key order is a strict total order: irreflexive, transitive, and
/// deciding between any two different keys.
pub proof fn lemma_key_order(a: Seq<char>, b: Seq<char>, c: Seq<char>)
    ensures
        !key_lt(a, a),
        !(key_lt(a, b) && key_lt(b, a)),
        key_lt(a, b) && key_lt(b, c) ==> key_lt(a, c),
        a == b || key_lt(a, b) || key_lt(b, a),
{
    let (x, y, z) = (encode_utf8(a), encode_utf8(b), encode_utf8(c));
    lemma_bytes_lt_asymmetric(x, y);
    if key_lt(a, b) && key_lt(b, c) {
        lemma_bytes_lt_transitive(x, y, z);
    }
    lemma_bytes_lt_total(x, y);
    encode_utf8_decode_utf8(a);
    encode_utf8_decode_utf8(b);
}

/// Whether key `a` sorts strictly before key `b`, comparing their bytes.
pub fn key_less(a: &str, b: &str) -> (r: bool)
    ensures
        r == key_lt(a@, b@),
{
    let x = a.as_bytes();
    let y = b.as_bytes();
    let (xl, yl) = (x.len(), y.len());
    let mut i: usize = 0;
    while i < xl && i < yl
        invariant
            x@ == encode_utf8(a@),
            y@ == encode_utf8(b@),
            xl == x@.len(),
            yl == y@.len(),
            i <= xl,
            i <= yl,
            forall|k: int| 0 <= k < i ==> x@[k] == y@[k],
        decreases xl - i,
    {
        if x[i] != y[i] {
            let r = x[i] < y[i];
            proof {
                if r {
                    assert(parts_below(x@, y@, i as int));
                } else {
                    assert(parts_below(y@, x@, i as int));
                    lemma_bytes_lt_asymmetric(x@, y@);
                }
            }
            return r;
        }
        i = i + 1;
    }
    if i == xl && i < yl {
        assert(parts_below(x@, y@, i as int));
        true
    } else {
        proof {
            if bytes_lt(x@, y@) {
                let j = choose|j: int| #[trigger] parts_below(x@, y@, j);
                if j < i {
                    assert(x@[j] == y@[j]);
                }
            }
        }
        false
    }
}


/// Key `x` goes before key `y`, ascending when `up` holds and descending
/// otherwise.
pub open spec fn goes_before(x: Seq<char>, y: Seq<char>, up: bool) -> bool {
    if up {
        key_lt(x, y)
    } else {
        key_lt(y, x)
    }
}

/// The pairs run strictly by key, in the direction `up` names.
pub open spec fn runs<V>(s: Seq<(String, V)>, up: bool) -> bool {
    forall|i: int, j: int|
        0 <= i < j < s.len() ==> goes_before(#[trigger] s[i].0@, #[trigger] s[j].0@, up)
}

/// No two pairs share a key.
pub open spec fn distinct_keys<V>(s: Seq<(String, V)>) -> bool {
    forall|i: int, j: int|
        0 <= i < s.len() && 0 <= j < s.len() && i != j ==> #[trigger] s[i].0@ != #[trigger] s[j].0@
}

/// No pair of `a` shares a key with a pair of `b`.
pub open spec fn apart<V>(a: Seq<(String, V)>, b: Seq<(String, V)>) -> bool {
    forall|i: int, j: int| 0 <= i < a.len() && 0 <= j < b.len() ==> #[trigger] a[i].0@ != #[trigger] b[j].0@
}

/// Every pair of `front` goes before every pair of `rest`.
pub open spec fn all_before<V>(front: Seq<(String, V)>, rest: Seq<(String, V)>, up: bool) -> bool {
    forall|i: int, j: int|
        0 <= i < front.len() && 0 <= j < rest.len() ==> goes_before(
            #[trigger] front[i].0@,
            #[trigger] rest[j].0@,
            up,
        )
}

/// The last pair of a run that goes the other way goes before every pair
/// of the run, and so before every pair of anything that follows it.
proof fn lemma_last_leads<V>(s: Seq<(String, V)>, up: bool, x: Seq<char>)
    requires
        s.len() > 0,
        runs(s, !up),
        goes_before(x, s.last().0@, up) || x == s.last().0@,
    ensures
        forall|j: int| 0 <= j < s.len() - 1 ==> goes_before(x, #[trigger] s[j].0@, up),
{
    assert forall|j: int| 0 <= j < s.len() - 1 implies goes_before(x, #[trigger] s[j].0@, up) by {
        let n = s.len() - 1;
        assert(goes_before(s[j].0@, s[n].0@, !up));
        lemma_key_order(x, s[n].0@, s[j].0@);
        lemma_key_order(s[j].0@, s[n].0@, x);
    }
}

/// Merge two runs that go against `up` into one that goes with it, taking
/// from the backs, where each run keeps its leading pair.
fn merge<V>(a: Vec<(String, V)>, b: Vec<(String, V)>, up: bool) -> (r: Vec<(String, V)>)
    requires
        runs(a@, !up),
        runs(b@, !up),
        apart(a@, b@),
    ensures
        runs(r@, up),
        r@.to_multiset() == a@.to_multiset().add(b@.to_multiset()),
{
    broadcast use group_to_multiset_ensures, group_multiset_axioms;

    let ghost total = a@.to_multiset().add(b@.to_multiset());
    let mut a = a;
    let mut b = b;
    let mut out: Vec<(String, V)> = Vec::new();
    assert(out@.to_multiset().add(a@.to_multiset()).add(b@.to_multiset()) =~= total);
    while a.len() > 0 || b.len() > 0
        invariant
            runs(a@, !up),
            runs(b@, !up),
            apart(a@, b@),
            runs(out@, up),
            all_before(out@, a@, up),
            all_before(out@, b@, up),
            out@.to_multiset().add(a@.to_multiset()).add(b@.to_multiset()) == total,
        decreases a@.len() + b@.len(),
    {
        let take_a = if a.len() == 0 {
            false
        } else if b.len() == 0 {
            true
        } else {
            let x = a[a.len() - 1].0.as_str();
            let y = b[b.len() - 1].0.as_str();
            if up {
                key_less(x, y)
            } else {
                key_less(y, x)
            }
        };
        let ghost (a0, b0, out0) = (a@, b@, out@);
        let item = if take_a {
            match a.pop() {
                Some(item) => item,
                None => {
                    return out;
                },
            }
        } else {
            match b.pop() {
                Some(item) => item,
                None => {
                    return out;
                },
            }
        };
        proof {
            let x = item.0@;
            if take_a {
                assert(a0 =~= a@.push(item));
                lemma_last_leads(a0, up, x);
                if b0.len() > 0 {
                    lemma_last_leads(b0, up, x);
                    lemma_key_order(x, b0.last().0@, b0.last().0@);
                }
            } else {
                assert(b0 =~= b@.push(item));
                lemma_last_leads(b0, up, x);
                if a0.len() > 0 {
                    assert(a0.last().0@ != x);
                    lemma_key_order(a0.last().0@, x, x);
                    lemma_last_leads(a0, up, x);
                }
            }
            assert forall|i: int, j: int|
                0 <= i < a@.len() && 0 <= j < b@.len() implies #[trigger] a@[i].0@
                != #[trigger] b@[j].0@ by {
                assert(a@[i] == a0[i]);
                assert(b@[j] == b0[j]);
            }
        }
        out.push(item);
        proof {
            assert(out@ =~= out0.push(item));
            assert forall|i: int, j: int| 0 <= i < j < out@.len() implies goes_before(
                #[trigger] out@[i].0@,
                #[trigger] out@[j].0@,
                up,
            ) by {
                if j == out@.len() - 1 {
                    if take_a {
                        assert(out0[i].0@ == out@[i].0@);
                        assert(a0[a0.len() - 1] == item);
                    } else {
                        assert(b0[b0.len() - 1] == item);
                    }
                }
            }
            assert forall|i: int, j: int|
                0 <= i < out@.len() && 0 <= j < a@.len() implies goes_before(
                #[trigger] out@[i].0@,
                #[trigger] a@[j].0@,
                up,
            ) by {
                assert(a@[j] == a0[j]);
            }
            assert forall|i: int, j: int|
                0 <= i < out@.len() && 0 <= j < b@.len() implies goes_before(
                #[trigger] out@[i].0@,
                #[trigger] b@[j].0@,
                up,
            ) by {
                assert(b@[j] == b0[j]);
            }
            to_multiset_build(out0, item);
            assert(out@.to_multiset() =~= out0.to_multiset().insert(item));
            if take_a {
                to_multiset_build(a@, item);
                assert(a0.to_multiset() =~= a@.to_multiset().insert(item));
                assert(b0 == b@);
            } else {
                to_multiset_build(b@, item);
                assert(b0.to_multiset() =~= b@.to_multiset().insert(item));
                assert(a0 == a@);
            }
            assert(out@.to_multiset().add(a@.to_multiset()).add(b@.to_multiset()) =~= total);
        }
    }
    assert(a@.to_multiset() =~= Multiset::empty());
    assert(b@.to_multiset() =~= Multiset::empty());
    assert(out@.to_multiset() =~= total);
    out
}

/// Sort pairs whose keys are all different by key, ascending when `up`
/// holds and descending otherwise. The result holds the same pairs.
pub fn merge_sort<V>(v: Vec<(String, V)>, up: bool) -> (r: Vec<(String, V)>)
    requires
        distinct_keys(v@),
    ensures
        runs(r@, up),
        r@.to_multiset() == v@.to_multiset(),
    decreases v@.len(),
{
    broadcast use group_to_multiset_ensures, group_multiset_axioms;

    if v.len() <= 1 {
        return v;
    }
    let ghost whole = v@;
    let mut left = v;
    let mid = left.len() / 2;
    let right = left.split_off(mid);
    assert(whole =~= left@ + right@);
    assert forall|i: int, j: int|
        0 <= i < left@.len() && 0 <= j < left@.len() && i != j implies #[trigger] left@[i].0@
        != #[trigger] left@[j].0@ by {
        assert(left@[i] == whole[i]);
        assert(left@[j] == whole[j]);
    }
    assert forall|i: int, j: int|
        0 <= i < right@.len() && 0 <= j < right@.len() && i != j implies #[trigger] right@[i].0@
        != #[trigger] right@[j].0@ by {
        assert(right@[i] == whole[mid + i]);
        assert(right@[j] == whole[mid + j]);
    }
    let ghost (l0, r0) = (left@, right@);
    let l = merge_sort(left, !up);
    let r = merge_sort(right, !up);
    assert forall|i: int, j: int| 0 <= i < l@.len() && 0 <= j < r@.len() implies #[trigger] l@[i].0@
        != #[trigger] r@[j].0@ by {
        assert(l@.to_multiset().count(l@[i]) > 0);
        assert(r@.to_multiset().count(r@[j]) > 0);
        assert(l0.contains(l@[i]));
        assert(r0.contains(r@[j]));
        let p = choose|p: int| 0 <= p < l0.len() && l0[p] == l@[i];
        let q = choose|q: int| 0 <= q < r0.len() && r0[q] == r@[j];
        assert(whole[p] == l0[p]);
        assert(whole[mid + q] == r0[q]);
    }
    let merged = merge(l, r, up);
    proof {
        lemma_multiset_commutative(l0, r0);
    }
    merged
}


/// Two sequences that hold the same elements still do once every element
/// has been mapped through `f`.
pub proof fn lemma_map_multiset<A, B>(a: Seq<A>, b: Seq<A>, f: spec_fn(A) -> B)
    requires
        a.to_multiset() == b.to_multiset(),
    ensures
        a.map_values(f).to_multiset() == b.map_values(f).to_multiset(),
    decreases a.len(),
{
    broadcast use group_to_multiset_ensures, group_multiset_axioms;

    if a.len() == 0 {
        assert(b.len() == a.to_multiset().len());
        assert(a.map_values(f) =~= b.map_values(f));
    } else {
        let x = a.last();
        let a1 = a.drop_last();
        assert(a =~= a1.push(x));
        to_multiset_build(a1, x);
        assert(b.to_multiset().count(x) > 0);
        assert(b.contains(x));
        let j = choose|j: int| 0 <= j < b.len() && b[j] == x;
        let b1 = b.remove(j);
        to_multiset_remove(b, j);
        assert(a1.to_multiset() =~= b1.to_multiset());
        lemma_map_multiset(a1, b1, f);
        let (ma, mb) = (a.map_values(f), b.map_values(f));
        assert(ma =~= a1.map_values(f).push(f(x)));
        to_multiset_build(a1.map_values(f), f(x));
        assert(mb.remove(j) =~= b1.map_values(f));
        to_multiset_remove(mb, j);
        assert(mb[j] == f(x));
        assert(mb.contains(f(x)));
        assert(mb.to_multiset().count(f(x)) > 0);
        assert(mb.to_multiset() =~= b1.map_values(f).to_multiset().insert(f(x)));
    }
}

} // verus!
