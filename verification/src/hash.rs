//! 32-bit FNV-1a hashing over little-endian encoded words.
//!
//! Every pseudo-random choice in this crate (sampling scores, tie breaks)
//! is derived from this hash, so its value is pinned down exactly: the
//! executable functions return precisely what the spec-level fold computes.

use vstd::prelude::*;

verus! {

/// FNV-1a offset basis for the 32-bit variant.
pub const FNV_OFFSET_BASIS: u32 = 2166136261;

/// FNV-1a prime for the 32-bit variant.
pub const FNV_PRIME: u32 = 16777619;

/// One FNV-1a round: xor the byte in, then multiply by the prime mod 2^32.
pub open spec fn fnv_step(h: u32, b: u8) -> u32 {
    ((((h ^ (b as u32)) as int) * (FNV_PRIME as int)) % 0x1_0000_0000) as u32
}

/// The four bytes of a 32-bit word, least significant first.
pub open spec fn le_bytes(v: u32) -> Seq<u8> {
    seq![
        (v & 0xff) as u8,
        ((v >> 8) & 0xff) as u8,
        ((v >> 16) & 0xff) as u8,
        ((v >> 24) & 0xff) as u8,
    ]
}

/// Fold `fnv_step` over a byte sequence, left to right.
pub open spec fn fnv_fold_bytes(h: u32, bytes: Seq<u8>) -> u32
    decreases bytes.len(),
{
    if bytes.len() == 0 {
        h
    } else {
        fnv_fold_bytes(fnv_step(h, bytes.first()), bytes.drop_first())
    }
}

/// Fold the hash over whole words, each contributing its four bytes.
pub open spec fn fnv_fold_words(h: u32, words: Seq<u32>) -> u32
    decreases words.len(),
{
    if words.len() == 0 {
        h
    } else {
        fnv_fold_words(fnv_fold_bytes(h, le_bytes(words.first())), words.drop_first())
    }
}

/// FNV-1a over the little-endian bytes of a word sequence, from the offset basis.
pub open spec fn fnv1a_words(words: Seq<u32>) -> u32 {
    fnv_fold_words(FNV_OFFSET_BASIS, words)
}

/// One FNV-1a round over a single byte.
pub fn fnv1a_step(h: u32, byte: u8) -> (r: u32)
    ensures
        r == fnv_step(h, byte),
{
    let x = h ^ (byte as u32);
    x.wrapping_mul(FNV_PRIME)
}

/// Hash a slice of words: each word contributes its four bytes, little-endian.
pub fn fnv1a_u32s(values: &[u32]) -> (r: u32)
    ensures
        r == fnv1a_words(values@),
{
    let mut h: u32 = FNV_OFFSET_BASIS;
    let mut i: usize = 0;
    proof {
        assert(values@.subrange(0, values@.len() as int) =~= values@);
    }
    while i < values.len()
        invariant
            i <= values@.len(),
            fnv_fold_words(h, values@.subrange(i as int, values@.len() as int))
                == fnv1a_words(values@),
        decreases values@.len() - i,
    {
        let v = values[i];
        let b0 = (v & 0xff) as u8;
        let b1 = ((v >> 8) & 0xff) as u8;
        let b2 = ((v >> 16) & 0xff) as u8;
        let b3 = ((v >> 24) & 0xff) as u8;
        proof {
            reveal_with_fuel(fnv_fold_bytes, 5);
            let rest = values@.subrange(i as int, values@.len() as int);
            assert(rest.first() == v);
            assert(rest.drop_first() =~= values@.subrange(i + 1, values@.len() as int));
            let bs = le_bytes(v);
            assert(bs =~= seq![b0, b1, b2, b3]);
            assert(bs.drop_first() =~= seq![b1, b2, b3]);
            assert(bs.drop_first().drop_first() =~= seq![b2, b3]);
            assert(bs.drop_first().drop_first().drop_first() =~= seq![b3]);
            assert(bs.drop_first().drop_first().drop_first().drop_first() =~= Seq::<u8>::empty());
            assert(fnv_fold_bytes(h, bs)
                == fnv_step(fnv_step(fnv_step(fnv_step(h, b0), b1), b2), b3));
            assert(fnv_fold_words(h, rest)
                == fnv_fold_words(fnv_fold_bytes(h, bs), rest.drop_first()));
        }
        h = fnv1a_step(h, b0);
        h = fnv1a_step(h, b1);
        h = fnv1a_step(h, b2);
        h = fnv1a_step(h, b3);
        i = i + 1;
    }
    proof {
        assert(values@.subrange(values@.len() as int, values@.len() as int)
            =~= Seq::<u32>::empty());
    }
    h
}

/// Hash a `(seed, domain tag, value)` triple: the shape every deterministic
/// choice in the sampler is drawn from.
pub fn fnv1a_tagged(seed: u32, tag: u32, value: u32) -> (r: u32)
    ensures
        r == fnv1a_words(seq![seed, tag, value]),
{
    let words = vec![seed, tag, value];
    let r = fnv1a_u32s(words.as_slice());
    proof {
        assert(words@ =~= seq![seed, tag, value]);
    }
    r
}

} // verus!
