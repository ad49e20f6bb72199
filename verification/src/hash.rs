//! Hashing a key, and comparing two keys, over the bytes that spell them.

use vstd::prelude::*;
use vstd::utf8::*;

verus! {

/// The starting state of a key's hash. Any odd constant does.
pub const HASH_SEED: u64 = 0xA076_1D64_78BD_642F;

/// The multiplier folded in after every byte.
pub const HASH_PRIME: u64 = 0x0000_0100_0000_01B3;

/// The multiplier of the final mix, which spreads the low bits of the fold
/// into the high half that a bucket keeps.
pub const HASH_MIX: u64 = 0xFF51_AFD7_ED55_8CCD;

/// The running state after folding `bytes` in, one byte at a time.
pub open spec fn fold_bytes(bytes: Seq<u8>) -> u64
    decreases bytes.len(),
{
    if bytes.len() == 0 {
        HASH_SEED
    } else {
        (fold_bytes(bytes.drop_last()) ^ (bytes.last() as u64)).wrapping_mul(HASH_PRIME)
    }
}

/// The final mix applied to the folded state.
pub open spec fn mix(h: u64) -> u64 {
    let a = h ^ (h >> 33u64);
    let b = a.wrapping_mul(HASH_MIX);
    b ^ (b >> 33u64)
}

/// The 32 bits of a key's hash that the bucket table keeps: the high half of
/// the mixed fold over the key's UTF-8 bytes.
pub open spec fn spec_hash_key(key: Seq<char>) -> u32 {
    (mix(fold_bytes(encode_utf8(key))) >> 32u64) as u32
}

/// Hash of a key, narrowed to the 32 bits a bucket stores.
pub fn hash_key(key: &str) -> (h: u32)
    ensures
        h == spec_hash_key(key@),
{
    let bytes = key.as_bytes();
    let len = bytes.len();
    let mut h: u64 = HASH_SEED;
    let mut i: usize = 0;
    while i < len
        invariant
            len == bytes@.len(),
            bytes@ == encode_utf8(key@),
            i <= len,
            h == fold_bytes(bytes@.take(i as int)),
        decreases len - i,
    {
        assert(bytes@.take(i + 1).drop_last() =~= bytes@.take(i as int));
        h = (h ^ (bytes[i] as u64)).wrapping_mul(HASH_PRIME);
        i = i + 1;
    }
    assert(bytes@.take(len as int) =~= bytes@);
    let a = h ^ (h >> 33u64);
    let b = a.wrapping_mul(HASH_MIX);
    let c = b ^ (b >> 33u64);
    (c >> 32u64) as u32
}

/// Whether two strings are the same text, compared byte for byte.
pub fn str_equal(a: &str, b: &str) -> (r: bool)
    ensures
        r == (a@ == b@),
{
    let x = a.as_bytes();
    let y = b.as_bytes();
    proof {
        encode_utf8_decode_utf8(a@);
        encode_utf8_decode_utf8(b@);
    }
    let len = x.len();
    if len != y.len() {
        return false;
    }
    let mut i: usize = 0;
    while i < len
        invariant
            len == x@.len(),
            len == y@.len(),
            x@ == encode_utf8(a@),
            y@ == encode_utf8(b@),
            i <= len,
            forall|j: int| 0 <= j < i ==> x@[j] == y@[j],
        decreases len - i,
    {
        if x[i] != y[i] {
            return false;
        }
        i = i + 1;
    }
    assert(x@ =~= y@);
    true
}

} // verus!
