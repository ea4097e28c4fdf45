//! A byte-wise hash: each byte is added without carry, then the sum is
//! multiplied by a prime.
use vstd::prelude::*;

verus! {

/// The hash of no bytes.
pub const HASH_SEED: u64 = 0xcbf2_9ce4_8422_2325;

/// The factor that each byte is spread by.
pub const HASH_PRIME: u64 = 0x0000_0100_0000_01b3;

/// The hash `h` with a byte mixed in.
pub open spec fn mixed(h: u64, b: u8) -> u64 {
    (h ^ (b as u64)).wrapping_mul(HASH_PRIME)
}

/// The hash `h` with bytes mixed in.
pub open spec fn mixed_all(h: u64, bytes: Seq<u8>) -> u64
    decreases bytes.len(),
{
    if bytes.len() == 0 {
        h
    } else {
        mixed(mixed_all(h, bytes.drop_last()), bytes.last())
    }
}

/// Mixes a byte into `h`.
pub fn mix(h: u64, b: u8) -> (r: u64)
    ensures
        r == mixed(h, b),
{
    (h ^ (b as u64)).wrapping_mul(HASH_PRIME)
}

/// Mixes bytes into `h`, the first one first.
pub fn mix_all(h: u64, bytes: &[u8]) -> (r: u64)
    ensures
        r == mixed_all(h, bytes@),
{
    let mut r: u64 = h;
    let mut i: usize = 0;
    assert(bytes@.take(0) =~= Seq::<u8>::empty());
    while i < bytes.len()
        invariant
            i <= bytes@.len(),
            r == mixed_all(h, bytes@.take(i as int)),
        decreases bytes@.len() - i,
    {
        r = mix(r, bytes[i]);
        proof {
            let now = bytes@.take(i + 1);
            assert(now.drop_last() =~= bytes@.take(i as int));
            assert(now.last() == bytes@[i as int]);
        }
        i = i + 1;
    }
    assert(bytes@.take(bytes@.len() as int) =~= bytes@);
    r
}

} // verus!
