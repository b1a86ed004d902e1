//! Packed comparison keys and a verified sort.
//!
//! Every ordering this crate uses (per-cell member order, cell choice order,
//! remainder order) is a lexicographic comparison of small unsigned fields.
//! Packing the fields into one wide integer makes the lexicographic order
//! coincide with the integer order, so a single verified sort serves them all.

use vstd::prelude::*;

verus! {

/// Two fields packed as `hi * 2^32 + lo`; integer order is (hi, lo) lex order.
pub open spec fn key2(hi: int, lo: int) -> int {
    hi * 0x1_0000_0000 + lo
}

/// Three fields packed as `top * 2^64 + mid * 2^32 + lo`;
/// integer order is (top, mid, lo) lex order.
pub open spec fn key3(top: int, mid: int, lo: int) -> int {
    top * 0x1_0000_0000_0000_0000 + mid * 0x1_0000_0000 + lo
}

pub proof fn lemma_key2_order(h1: int, l1: int, h2: int, l2: int)
    requires
        0 <= l1 < 0x1_0000_0000,
        0 <= l2 < 0x1_0000_0000,
    ensures
        key2(h1, l1) < key2(h2, l2) <==> (h1 < h2 || (h1 == h2 && l1 < l2)),
        key2(h1, l1) == key2(h2, l2) <==> (h1 == h2 && l1 == l2),
{
}

pub proof fn lemma_key3_order(a1: int, b1: int, c1: int, a2: int, b2: int, c2: int)
    requires
        0 <= b1 < 0x1_0000_0000,
        0 <= b2 < 0x1_0000_0000,
        0 <= c1 < 0x1_0000_0000,
        0 <= c2 < 0x1_0000_0000,
    ensures
        key3(a1, b1, c1) < key3(a2, b2, c2) <==> (a1 < a2 || (a1 == a2 && b1 < b2) || (a1 == a2
            && b1 == b2 && c1 < c2)),
        key3(a1, b1, c1) == key3(a2, b2, c2) <==> (a1 == a2 && b1 == b2 && c1 == c2),
{
    lemma_key2_order(b1, c1, b2, c2);
}

/// Recover the low field of a packed pair.
pub proof fn lemma_key2_parts(hi: int, lo: int)
    requires
        0 <= lo < 0x1_0000_0000,
        0 <= hi,
    ensures
        key2(hi, lo) % 0x1_0000_0000 == lo,
        key2(hi, lo) / 0x1_0000_0000 == hi,
{
    vstd::arithmetic::div_mod::lemma_fundamental_div_mod_converse(
        key2(hi, lo),
        0x1_0000_0000,
        hi,
        lo,
    );
}

/// Recover the fields of a packed triple.
pub proof fn lemma_key3_parts(top: int, mid: int, lo: int)
    requires
        0 <= mid < 0x1_0000_0000,
        0 <= lo < 0x1_0000_0000,
        0 <= top,
    ensures
        key3(top, mid, lo) % 0x1_0000_0000 == lo,
        (key3(top, mid, lo) / 0x1_0000_0000) % 0x1_0000_0000 == mid,
        key3(top, mid, lo) / 0x1_0000_0000 / 0x1_0000_0000 == top,
{
    assert(key3(top, mid, lo) == (top * 0x1_0000_0000 + mid) * 0x1_0000_0000 + lo);
    vstd::arithmetic::div_mod::lemma_fundamental_div_mod_converse(
        key3(top, mid, lo),
        0x1_0000_0000,
        top * 0x1_0000_0000 + mid,
        lo,
    );
    vstd::arithmetic::div_mod::lemma_fundamental_div_mod_converse(
        top * 0x1_0000_0000 + mid,
        0x1_0000_0000,
        top,
        mid,
    );
}

/// Pack a (hi, lo) pair into a `u64` whose order is the pair's lex order.
pub fn pack2(hi: u32, lo: u32) -> (r: u64)
    ensures
        r == key2(hi as int, lo as int),
{
    (hi as u64) * 0x1_0000_0000 + (lo as u64)
}

/// Pack a (top, mid, lo) triple into a `u128` whose order is the triple's lex order.
pub fn pack3(top: u64, mid: u32, lo: u32) -> (r: u128)
    ensures
        r == key3(top as int, mid as int, lo as int),
{
    (top as u128) * 0x1_0000_0000_0000_0000 + (mid as u128) * 0x1_0000_0000 + (lo as u128)
}

/// Low 32 bits of a packed triple (or pair).
pub fn low_part(x: u128) -> (r: u32)
    ensures
        r == x as int % 0x1_0000_0000,
{
    (x % 0x1_0000_0000) as u32
}

/// The sequence is ordered (non-decreasing).
pub open spec fn sorted(s: Seq<u128>) -> bool {
    forall|k: int, l: int| 0 <= k < l < s.len() ==> s[k] <= s[l]
}

/// Insertion sort: orders the keys in place while keeping exactly the same
/// collection of keys.
pub fn sort_keys(v: &mut Vec<u128>)
    ensures
        final(v)@.len() == old(v)@.len(),
        sorted(final(v)@),
        final(v)@.to_multiset() == old(v)@.to_multiset(),
{
    broadcast use vstd::seq_lib::to_multiset_update;
    broadcast use vstd::multiset::group_multiset_axioms;

    let mut i: usize = 1;
    while i < v.len()
        invariant
            1 <= i,
            v@.len() == old(v)@.len(),
            v@.to_multiset() == old(v)@.to_multiset(),
            sorted(v@.subrange(0, if i <= v@.len() { i as int } else { v@.len() as int })),
        decreases v@.len() - i,
    {
        proof {
            assert forall|k: int, l: int| 0 <= k < l <= i && l != i implies v@[k] <= v@[l] by {
                let pre = v@.subrange(0, i as int);
                assert(pre[k] == v@[k]);
                assert(pre[l] == v@[l]);
            }
        }
        let mut j: usize = i;
        while j > 0 && v[j - 1] > v[j]
            invariant
                j <= i < v@.len(),
                v@.len() == old(v)@.len(),
                v@.to_multiset() == old(v)@.to_multiset(),
                forall|k: int, l: int|
                    0 <= k < l <= i && l != j ==> v@[k] <= v@[l],
                forall|l: int| j < l <= i ==> v@[j as int] <= v@[l],
            decreases j,
        {
            let a = v[j - 1];
            let b = v[j];
            let ghost before = v@;
            v.set(j - 1, b);
            v.set(j, a);
            proof {
                let m = before.to_multiset();
                assert(v@ == before.update(j - 1, b).update(j as int, a));
                assert(before.update(j - 1, b)[j as int] == b);
                vstd::seq_lib::to_multiset_update(before, j - 1, b);
                vstd::seq_lib::to_multiset_update(before.update(j - 1, b), j as int, a);
                assert(v@.to_multiset() == m.insert(b).remove(a).insert(a).remove(b));
                assert(m.count(a) >= 1) by {
                    broadcast use vstd::seq_lib::group_to_multiset_ensures;

                    assert(before.contains(a));
                }
                assert(v@.to_multiset() =~= before.to_multiset());
            }
            j = j - 1;
        }
        proof {
            assert forall|k: int, l: int| 0 <= k < l <= i implies v@[k] <= v@[l] by {
                if l == j {
                    assert(v@[k] <= v@[j - 1]);
                }
            }
            assert(sorted(v@.subrange(0, i + 1)));
        }
        i = i + 1;
    }
    proof {
        if v@.len() > 0 {
            assert(v@.subrange(0, v@.len() as int) =~= v@);
        }
    }
}

} // verus!
