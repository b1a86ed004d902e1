//! Deterministic density-aware viewport sampling.
//!
//! Given point ids, a slot budget, a seed and a coarse grid assignment of
//! the points (the caller bins coordinates into cells), the sampler returns
//! a stable subset of point indices.  All pseudo-randomness is an FNV-1a
//! hash of the seed, a domain tag and the value concerned, so identical
//! inputs always yield identical output.  When the populated cells outnumber
//! the slots, one best point is taken from each of the `slots` cells chosen
//! by weighted sampling without replacement; otherwise every populated cell
//! contributes its best point and the leftover slots are spread by the
//! largest-remainder rule, with exact rational arithmetic.

use vstd::prelude::*;

use crate::hash::fnv1a_tagged;
use crate::hash::fnv1a_words;
use crate::order::key2;
use crate::order::key3;
use crate::order::lemma_key2_order;
use crate::order::lemma_key2_parts;
use crate::order::lemma_key3_order;
use crate::order::lemma_key3_parts;
use crate::order::low_part;
use crate::order::pack2;
use crate::order::pack3;
use crate::order::sort_keys;
use crate::order::sorted;

verus! {

/// Domain tag for per-point scores (the bytes of "cont").
pub const TAG_POINT: u32 = 0x636f_6e74;

/// Domain tag for cell choice hashes (the bytes of "cell").
pub const TAG_CELL: u32 = 0x6365_6c6c;

/// Domain tag for cell tie breaks (the bytes of "tie\0").
pub const TAG_TIE: u32 = 0x7469_6500;

/// Domain tag for remainder tie breaks (the bytes of "rem\0").
pub const TAG_REM: u32 = 0x7265_6d00;

/// The deterministic score of a point id under a seed.
pub open spec fn score_of(seed: u32, id: u32) -> u32 {
    fnv1a_words(seq![seed, TAG_POINT, id])
}

/// Points are ordered by (score, index): the key the sampler minimizes.
pub open spec fn member_key(seed: u32, ids: Seq<u32>, i: int) -> int {
    key2(score_of(seed, ids[i]) as int, i)
}

/// The result is the `slots` lowest-keyed indices, in ascending key order:
/// it is strictly ordered, and every index left out has a key above every
/// key in the result.
pub open spec fn hash_order_prefix(r: Seq<u32>, ids: Seq<u32>, seed: u32, slots: int) -> bool {
    let n = ids.len() as int;
    &&& r.len() == (if slots <= n {
        slots
    } else {
        n
    })
    &&& (forall|k: int| 0 <= k < r.len() ==> 0 <= #[trigger] r[k] < n)
    &&& (forall|k: int, l: int|
        0 <= k < l < r.len() ==> member_key(seed, ids, #[trigger] r[k] as int) < member_key(seed,
        ids, #[trigger] r[l] as int))
    &&& (forall|i: int, k: int|
        #![trigger r[k], r.contains(i as u32)]
        0 <= i < n && 0 <= k < r.len() && !r.contains(i as u32) ==> member_key(seed, ids,
        r[k] as int) < member_key(seed, ids, i))
}

/// The grid cell recorded in the top 64 bits of a packed member entry.
pub open spec fn cell_part(e: u128) -> int {
    e as int / 0x1_0000_0000_0000_0000
}

/// The point index recorded in the low 32 bits of a packed entry.
pub open spec fn idx_part(e: u128) -> int {
    e as int % 0x1_0000_0000
}

/// The packed entry of point `i`: its cell, its score, then its index, so
/// that entry order groups by cell and sorts members by (score, index).
pub open spec fn entry_of(bins: Seq<Option<u32>>, ids: Seq<u32>, seed: u32, i: int) -> int {
    key3((bins[i]->0) as int, score_of(seed, ids[i]) as int, i)
}

/// The populated cells in first-seen order.
pub open spec fn distinct_cells(bins: Seq<Option<u32>>) -> Seq<u32>
    decreases bins.len(),
{
    if bins.len() == 0 {
        Seq::empty()
    } else {
        let pre = distinct_cells(bins.drop_last());
        if bins.last() is Some {
            if pre.contains(bins.last()->0) {
                pre
            } else {
                pre.push(bins.last()->0)
            }
        } else {
            pre
        }
    }
}

pub proof fn lemma_distinct_cells(bins: Seq<Option<u32>>)
    ensures
        distinct_cells(bins).no_duplicates(),
        forall|c: u32|
            #[trigger] distinct_cells(bins).contains(c) <==> exists|i: int|
                0 <= i < bins.len() && #[trigger] bins[i] == Some(c),
    decreases bins.len(),
{
    if bins.len() > 0 {
        let pre = bins.drop_last();
        lemma_distinct_cells(pre);
        assert forall|c: u32| #[trigger] distinct_cells(bins).contains(c) implies exists|i: int|
            0 <= i < bins.len() && #[trigger] bins[i] == Some(c) by {
            if distinct_cells(pre).contains(c) {
                let i = choose|i: int| 0 <= i < pre.len() && #[trigger] pre[i] == Some(c);
                assert(bins[i] == Some(c));
            } else {
                assert(bins.last() == Some(c));
                assert(bins[bins.len() - 1] == Some(c));
            }
        }
        assert forall|c: u32|
            exists|i: int| 0 <= i < bins.len() && #[trigger] bins[i] == Some(c) implies #[trigger]
        distinct_cells(bins).contains(c) by {
            let i = choose|i: int| 0 <= i < bins.len() && #[trigger] bins[i] == Some(c);
            if i < bins.len() - 1 {
                assert(pre[i] == Some(c));
                assert(distinct_cells(pre).contains(c));
                if bins.last() is Some && !distinct_cells(pre).contains(bins.last()->0) {
                    let p = choose|p: int|
                        0 <= p < distinct_cells(pre).len() && distinct_cells(pre)[p] == c;
                    assert(distinct_cells(bins)[p] == c);
                }
            } else {
                assert(bins.last() == Some(c));
                if distinct_cells(pre).contains(c) {
                    let p = choose|p: int|
                        0 <= p < distinct_cells(pre).len() && distinct_cells(pre)[p] == c;
                    if !(bins.last() is Some && !distinct_cells(pre).contains(bins.last()->0)) {
                        assert(distinct_cells(bins) == distinct_cells(pre));
                    } else {
                        assert(distinct_cells(bins)[p] == c);
                    }
                } else {
                    assert(distinct_cells(bins).last() == c);
                }
            }
        }
    }
}

/// An entry's cell field is `c` exactly when the entry lies in the value
/// band reserved for cell `c`.
pub proof fn lemma_cell_band(e: u128, c: int)
    requires
        0 <= c,
    ensures
        cell_part(e) == c <==> (c * 0x1_0000_0000_0000_0000 <= e as int
            && (e as int) < (c + 1) * 0x1_0000_0000_0000_0000),
{
    vstd::arithmetic::div_mod::lemma_fundamental_div_mod(e as int, 0x1_0000_0000_0000_0000);
    if c * 0x1_0000_0000_0000_0000 <= e as int && (e as int) < (c + 1)
        * 0x1_0000_0000_0000_0000 {
        vstd::arithmetic::div_mod::lemma_fundamental_div_mod_converse(
            e as int,
            0x1_0000_0000_0000_0000,
            c,
            e as int - c * 0x1_0000_0000_0000_0000,
        );
    }
}

/// Point `i` is binned, and no other point of its cell has a lower
/// (score, index) key: the point each cell contributes first.
pub open spec fn is_best(bins: Seq<Option<u32>>, ids: Seq<u32>, seed: u32, i: int) -> bool {
    &&& 0 <= i < bins.len()
    &&& bins[i] is Some
    &&& forall|j: int|
        #![trigger bins[j]]
        0 <= j < bins.len() && j != i && bins[j] == bins[i] ==> member_key(seed, ids, i)
            < member_key(seed, ids, j)
}

/// Law: a populated cell has exactly one best member — two points that are
/// both best for the same cell are the same point.
pub proof fn lemma_best_unique(bins: Seq<Option<u32>>, ids: Seq<u32>, seed: u32, i: int, j: int)
    requires
        is_best(bins, ids, seed, i),
        is_best(bins, ids, seed, j),
        bins[i] == bins[j],
    ensures
        i == j,
{
    if i != j {
        assert(member_key(seed, ids, i) < member_key(seed, ids, j));
        assert(member_key(seed, ids, j) < member_key(seed, ids, i));
    }
}

/// The canonical entry sequence of the first `i` points: one packed entry
/// per binned point, in point order.
#[verifier::opaque]
pub open spec fn packed_prefix(bins: Seq<Option<u32>>, ids: Seq<u32>, seed: u32, i: int) -> Seq<
    u128,
>
    decreases i,
{
    if i <= 0 {
        Seq::empty()
    } else {
        let pre = packed_prefix(bins, ids, seed, i - 1);
        if bins[i - 1] is Some {
            pre.push(entry_of(bins, ids, seed, i - 1) as u128)
        } else {
            pre
        }
    }
}

/// `packed` holds exactly one entry for every binned point, and nothing else.
pub open spec fn packed_wf(
    packed: Seq<u128>,
    bins: Seq<Option<u32>>,
    ids: Seq<u32>,
    seed: u32,
) -> bool {
    packed.to_multiset() == packed_prefix(bins, ids, seed, bins.len() as int).to_multiset()
}

/// The canonical entry at position `m` belongs to some binned point: the
/// returned witness is that point's index.
proof fn lemma_pp_member_at(bins: Seq<Option<u32>>, ids: Seq<u32>, seed: u32, i: int, m: int) -> (
    j: int)
    requires
        0 <= i <= bins.len(),
        bins.len() <= 0xffff_ffff,
        0 <= m < packed_prefix(bins, ids, seed, i).len(),
    ensures
        0 <= j < i,
        bins[j] is Some,
        packed_prefix(bins, ids, seed, i)[m] as int == entry_of(bins, ids, seed, j),
        idx_part(packed_prefix(bins, ids, seed, i)[m]) == j,
        cell_part(packed_prefix(bins, ids, seed, i)[m]) == (bins[j]->0) as int,
    decreases i,
{
    reveal_with_fuel(packed_prefix, 2);
    let pre = packed_prefix(bins, ids, seed, i - 1);
    if bins[i - 1] is Some && m == pre.len() {
        lemma_key3_parts((bins[i - 1]->0) as int, score_of(seed, ids[i - 1]) as int, i - 1);
        i - 1
    } else {
        let j = lemma_pp_member_at(bins, ids, seed, i - 1, m);
        lemma_key3_parts((bins[j]->0) as int, score_of(seed, ids[j]) as int, j);
        j
    }
}

/// Every binned point `j` has a canonical entry: the returned witness is
/// its position.
proof fn lemma_pp_complete_at(bins: Seq<Option<u32>>, ids: Seq<u32>, seed: u32, i: int, j: int) -> (
    m: int)
    requires
        0 <= i <= bins.len(),
        bins.len() <= 0xffff_ffff,
        0 <= j < i,
        bins[j] is Some,
    ensures
        0 <= m < packed_prefix(bins, ids, seed, i).len(),
        packed_prefix(bins, ids, seed, i)[m] as int == entry_of(bins, ids, seed, j),
    decreases i,
{
    reveal_with_fuel(packed_prefix, 2);
    let pre = packed_prefix(bins, ids, seed, i - 1);
    if j == i - 1 {
        lemma_key3_parts((bins[i - 1]->0) as int, score_of(seed, ids[i - 1]) as int, i - 1);
        pre.len() as int
    } else {
        let m = lemma_pp_complete_at(bins, ids, seed, i - 1, j);
        m
    }
}

/// The canonical entries are pairwise distinct.
#[verifier::rlimit(60)]
proof fn lemma_pp_nodup(bins: Seq<Option<u32>>, ids: Seq<u32>, seed: u32, i: int)
    requires
        0 <= i <= bins.len(),
        bins.len() <= 0xffff_ffff,
    ensures
        packed_prefix(bins, ids, seed, i).no_duplicates(),
    decreases i,
{
    reveal_with_fuel(packed_prefix, 2);
    let pp = packed_prefix(bins, ids, seed, i);
    if i > 0 {
        lemma_pp_nodup(bins, ids, seed, i - 1);
        let pre = packed_prefix(bins, ids, seed, i - 1);
        if bins[i - 1] is Some {
            let e = entry_of(bins, ids, seed, i - 1) as u128;
            lemma_key3_parts(
                (bins[i - 1]->0) as int,
                score_of(seed, ids[i - 1]) as int,
                i - 1,
            );
            assert(pp == pre.push(e));
            assert forall|m: int| 0 <= m < pre.len() implies pre[m] != e by {
                let j = lemma_pp_member_at(bins, ids, seed, i - 1, m);
                assert(idx_part(pre[m]) == j);
                assert(idx_part(e) == i - 1);
            }
            assert(pp.no_duplicates());
        }
    }
}

/// A sorted permutation keeps membership and distinctness.
proof fn lemma_perm_transfer(a: Seq<u128>, b: Seq<u128>)
    requires
        a.to_multiset() == b.to_multiset(),
    ensures
        forall|x: u128| a.contains(x) <==> #[trigger] b.contains(x),
        a.no_duplicates() ==> b.no_duplicates(),
        a.len() == b.len(),
{
    broadcast use vstd::seq_lib::group_to_multiset_ensures;

    if a.no_duplicates() {
        a.lemma_multiset_has_no_duplicates();
        b.lemma_multiset_has_no_duplicates_conv();
    }
    assert(a.to_multiset().len() == a.len());
    assert(b.to_multiset().len() == b.len());
    assert forall|x: u128| a.contains(x) implies #[trigger] b.contains(x) by {
        assert(a.to_multiset().count(x) > 0);
        assert(b.to_multiset().count(x) > 0);
    }
    assert forall|x: u128| #[trigger] b.contains(x) implies a.contains(x) by {
        assert(b.to_multiset().count(x) > 0);
        assert(a.to_multiset().count(x) > 0);
    }
}

/// A sorted entry vector has the same length and elements as the canonical
/// one, and no duplicates.
proof fn lemma_packed_basic(packed: Seq<u128>, bins: Seq<Option<u32>>, ids: Seq<u32>, seed: u32)
    requires
        packed_wf(packed, bins, ids, seed),
        bins.len() <= 0xffff_ffff,
    ensures
        packed.no_duplicates(),
        packed.len() == packed_prefix(bins, ids, seed, bins.len() as int).len(),
{
    let pp = packed_prefix(bins, ids, seed, bins.len() as int);
    lemma_pp_nodup(bins, ids, seed, bins.len() as int);
    lemma_perm_transfer(pp, packed);
}

/// The sorted entry at position `m` belongs to some binned point.
proof fn lemma_packed_member_at(
    packed: Seq<u128>,
    bins: Seq<Option<u32>>,
    ids: Seq<u32>,
    seed: u32,
    m: int,
) -> (j: int)
    requires
        packed_wf(packed, bins, ids, seed),
        bins.len() <= 0xffff_ffff,
        0 <= m < packed.len(),
    ensures
        0 <= j < bins.len(),
        bins[j] is Some,
        packed[m] as int == entry_of(bins, ids, seed, j),
        idx_part(packed[m]) == j,
        cell_part(packed[m]) == (bins[j]->0) as int,
{
    broadcast use vstd::seq_lib::group_to_multiset_ensures;

    let pp = packed_prefix(bins, ids, seed, bins.len() as int);
    lemma_perm_transfer(pp, packed);
    assert(packed.contains(packed[m]));
    assert(pp.contains(packed[m]));
    let m0 = choose|m0: int| 0 <= m0 < pp.len() && pp[m0] == packed[m];
    let j = lemma_pp_member_at(bins, ids, seed, bins.len() as int, m0);
    j
}

/// Every binned point appears somewhere in the sorted entry vector.
proof fn lemma_packed_complete_at(
    packed: Seq<u128>,
    bins: Seq<Option<u32>>,
    ids: Seq<u32>,
    seed: u32,
    j: int,
) -> (m: int)
    requires
        packed_wf(packed, bins, ids, seed),
        bins.len() <= 0xffff_ffff,
        0 <= j < bins.len(),
        bins[j] is Some,
    ensures
        0 <= m < packed.len(),
        packed[m] as int == entry_of(bins, ids, seed, j),
        idx_part(packed[m]) == j,
        cell_part(packed[m]) == (bins[j]->0) as int,
{
    broadcast use vstd::seq_lib::group_to_multiset_ensures;

    let pp = packed_prefix(bins, ids, seed, bins.len() as int);
    lemma_perm_transfer(pp, packed);
    let m0 = lemma_pp_complete_at(bins, ids, seed, bins.len() as int, j);
    assert(pp.contains(pp[m0]));
    assert(packed.contains(pp[m0]));
    let m = choose|m: int| 0 <= m < packed.len() && packed[m] == pp[m0];
    lemma_key3_parts((bins[j]->0) as int, score_of(seed, ids[j]) as int, j);
    m
}

/// Side count of the sampling grid: `round(sqrt(slots) * 1.15)` clamped to
/// `[8, 64]`, computed exactly — `g` rounds to `sqrt(slots) * 1.15` when
/// `100 * (2g - 1)^2 <= 529 * slots < 100 * (2g + 1)^2`.
pub fn grid_side(slots: usize) -> (g: usize)
    requires
        slots <= 0xffff_ffff,
    ensures
        8 <= g <= 64,
        g > 8 ==> 100 * (2 * g - 1) * (2 * g - 1) <= 529 * slots,
        g < 64 ==> 529 * slots < 100 * (2 * g + 1) * (2 * g + 1),
{
    let s: u64 = 529 * (slots as u64);
    let mut g: usize = 8;
    let mut k: usize = 9;
    while k <= 64
        invariant
            9 <= k <= 65,
            8 <= g < k,
            s == 529 * slots,
            g > 8 ==> 100 * (2 * g - 1) * (2 * g - 1) <= 529 * slots,
            g + 1 < k ==> 529 * slots < 100 * (2 * (g + 1) - 1) * (2 * (g + 1) - 1),
        decreases 65 - k,
    {
        let t: u64 = 2 * (k as u64) - 1;
        proof {
            assert(100 * (t as int) * (t as int) <= 100 * 127 * 127) by (nonlinear_arith)
                requires
                    0 <= t <= 127,
            ;
        }
        if 100 * t * t <= s {
            g = k;
        }
        k = k + 1;
    }
    g
}

/// Least index whose key is not below `key` in a sorted vector.
fn lower_bound(v: &Vec<u128>, key: u128) -> (r: usize)
    requires
        sorted(v@),
    ensures
        r <= v@.len(),
        forall|p: int| 0 <= p < r ==> v@[p] < key,
        forall|p: int| r <= p < v@.len() ==> key <= #[trigger] v@[p],
{
    let mut lo: usize = 0;
    let mut hi: usize = v.len();
    while lo < hi
        invariant
            lo <= hi <= v@.len(),
            sorted(v@),
            forall|p: int| 0 <= p < lo ==> v@[p] < key,
            forall|p: int| hi <= p < v@.len() ==> key <= #[trigger] v@[p],
        decreases hi - lo,
    {
        let mid = lo + (hi - lo) / 2;
        if v[mid] < key {
            lo = mid + 1;
        } else {
            hi = mid;
        }
    }
    lo
}

/// Pure hash-order selection: sort all indices by (score, index) and keep
/// the first `slots`.  This is the fallback when no usable grid exists.
#[verifier::rlimit(30)]
fn hash_order_sample(ids: &[u32], slots: usize, seed: u32) -> (r: Vec<u32>)
    requires
        ids@.len() <= 0xffff_ffff,
    ensures
        hash_order_prefix(r@, ids@, seed, slots as int),
{
    broadcast use vstd::seq_lib::group_to_multiset_ensures;

    let n = ids.len();
    let mut entries: Vec<u128> = Vec::new();
    let mut i: usize = 0;
    #[verifier::loop_isolation(false)]
    while i < n
        invariant
            i <= n,
            entries@.len() == i,
            forall|m: int|
                0 <= m < i ==> (#[trigger] entries@[m]) as int == member_key(seed, ids@, m),
        decreases n - i,
    {
        let score = fnv1a_tagged(seed, TAG_POINT, ids[i]);
        let e = pack2(score, i as u32) as u128;
        entries.push(e);
        i = i + 1;
    }
    proof {
        assert forall|k: int, l: int| 0 <= k < l < entries@.len() implies entries@[k]
            != entries@[l] by {
            lemma_key2_order(
                score_of(seed, ids@[k]) as int,
                k,
                score_of(seed, ids@[l]) as int,
                l,
            );
        }
        assert(entries@.no_duplicates());
    }
    let ghost unsorted = entries@;
    sort_keys(&mut entries);
    proof {
        unsorted.lemma_multiset_has_no_duplicates();
        entries@.lemma_multiset_has_no_duplicates_conv();
        assert(entries@.no_duplicates());
        assert forall|m: int| 0 <= m < entries@.len() implies exists|j: int|
            0 <= j < n && (#[trigger] entries@[m]) as int == member_key(seed, ids@, j) by {
            assert(entries@.contains(entries@[m]));
            assert(entries@.to_multiset().count(entries@[m]) > 0);
            assert(unsorted.to_multiset().count(entries@[m]) > 0);
            assert(unsorted.contains(entries@[m]));
            let j = choose|j: int| 0 <= j < unsorted.len() && unsorted[j] == entries@[m];
            assert(unsorted[j] as int == member_key(seed, ids@, j));
        }
        assert forall|j: int| #![trigger member_key(seed, ids@, j)] 0 <= j < n implies exists|
            p: int,
        |
            0 <= p < entries@.len() && (#[trigger] entries@[p]) as int == member_key(
                seed,
                ids@,
                j,
            ) by {
            assert(unsorted.contains(unsorted[j]));
            assert(unsorted.to_multiset().count(unsorted[j]) > 0);
            assert(entries@.to_multiset().count(unsorted[j]) > 0);
            assert(entries@.contains(unsorted[j]));
            let p = choose|p: int| 0 <= p < entries@.len() && entries@[p] == unsorted[j];
            assert(entries@[p] as int == member_key(seed, ids@, j));
        }
    }
    let take = if slots < n {
        slots
    } else {
        n
    };
    let mut out: Vec<u32> = Vec::new();
    let mut k: usize = 0;
    #[verifier::loop_isolation(false)]
    while k < take
        invariant
            k <= take,
            out@.len() == k,
            forall|m: int|
                0 <= m < k ==> (#[trigger] out@[m] as int) < n && entries@[m] as int == member_key(
                    seed,
                    ids@,
                    out@[m] as int,
                ),
        decreases take - k,
    {
        let e = entries[k];
        let idx = low_part(e);
        proof {
            let j = choose|j: int|
                0 <= j < n && entries@[k as int] as int == member_key(seed, ids@, j);
            lemma_key2_parts(score_of(seed, ids@[j]) as int, j);
            assert(idx as int == j);
        }
        out.push(idx);
        k = k + 1;
    }
    proof {
        let r = out@;
        assert forall|k2: int, l: int| 0 <= k2 < l < r.len() implies member_key(seed, ids@,
            #[trigger] r[k2] as int) < member_key(seed, ids@, #[trigger] r[l] as int) by {
            assert(entries@[k2] <= entries@[l]);
            assert(entries@[k2] != entries@[l]);
        }
        assert forall|i2: int, k2: int|
            #![trigger r[k2], r.contains(i2 as u32)]
            0 <= i2 < n && 0 <= k2 < r.len() && !r.contains(i2 as u32) implies member_key(
            seed, ids@, r[k2] as int) < member_key(seed, ids@, i2) by {
            let p = choose|p: int|
                0 <= p < entries@.len() && (#[trigger] entries@[p]) as int == member_key(
                    seed,
                    ids@,
                    i2,
                );
            lemma_key2_parts(score_of(seed, ids@[i2]) as int, i2);
            if p < r.len() {
                assert(entries@[p] as int == member_key(seed, ids@, r[p] as int));
                lemma_key2_parts(score_of(seed, ids@[r[p] as int]) as int, r[p] as int);
                assert(r[p] as int == i2);
                assert(r[p] == i2 as u32);
                assert(r.contains(i2 as u32));
                assert(false);
            }
            if entries@[k2] == entries@[p] {
                assert(false);
            }
            assert(entries@[k2] < entries@[p]);
        }
    }
    out
}

/// The contiguous run of entries belonging to cell `c` in a sorted vector.
fn run_bounds(packed: &Vec<u128>, c: u32) -> (b: (usize, usize))
    requires
        sorted(packed@),
    ensures
        b.0 <= b.1 <= packed@.len(),
        forall|p: int| b.0 <= p < b.1 ==> cell_part(#[trigger] packed@[p]) == c,
        forall|p: int|
            0 <= p < packed@.len() && !(b.0 <= p < b.1) ==> cell_part(#[trigger] packed@[p]) != c,
{
    let lo = lower_bound(packed, pack3(c as u64, 0, 0));
    let hi = lower_bound(packed, pack3((c as u64) + 1, 0, 0));
    proof {
        let band: int = 0x1_0000_0000_0000_0000;
        assert(key3(c as int, 0, 0) == c * band);
        assert(key3(c as int + 1, 0, 0) == (c + 1) * band);
        if hi < lo {
            assert(packed@[hi as int] < c * band);
            assert((c + 1) * band <= packed@[hi as int]);
            assert(false);
        }
        assert forall|p: int| lo <= p < hi implies cell_part(#[trigger] packed@[p]) == c by {
            lemma_cell_band(packed@[p], c as int);
        }
        assert forall|p: int| 0 <= p < packed@.len() && !(lo <= p < hi) implies cell_part(
            #[trigger] packed@[p],
        ) != c by {
            lemma_cell_band(packed@[p], c as int);
        }
    }
    (lo, hi)
}

/// Does the short cell list already hold `c`?
fn vec_contains_u32(v: &Vec<u32>, c: u32) -> (r: bool)
    ensures
        r == v@.contains(c),
{
    let mut k: usize = 0;
    #[verifier::loop_isolation(false)]
    while k < v.len()
        invariant
            k <= v@.len(),
            forall|m: int| 0 <= m < k ==> v@[m] != c,
        decreases v@.len() - k,
    {
        if v[k] == c {
            proof {
                assert(v@[k as int] == c);
            }
            return true;
        }
        k = k + 1;
    }
    false
}

/// List the populated cells in first-seen order.
fn list_cells(bins: &[Option<u32>]) -> (non_empty: Vec<u32>)
    ensures
        non_empty@ == distinct_cells(bins@),
{
    let n = bins.len();
    let mut non_empty: Vec<u32> = Vec::new();
    let mut i: usize = 0;
    proof {
        assert(bins@.subrange(0, 0) =~= Seq::<Option<u32>>::empty());
    }
    #[verifier::loop_isolation(false)]
    while i < n
        invariant
            i <= n,
            non_empty@ == distinct_cells(bins@.subrange(0, i as int)),
        decreases n - i,
    {
        let ghost pre = bins@.subrange(0, i as int);
        proof {
            assert(bins@.subrange(0, i + 1).drop_last() =~= pre);
            assert(bins@.subrange(0, i + 1).last() == bins@[i as int]);
        }
        if let Some(c) = bins[i] {
            if !vec_contains_u32(&non_empty, c) {
                non_empty.push(c);
            }
        }
        i = i + 1;
    }
    proof {
        assert(bins@.subrange(0, n as int) =~= bins@);
    }
    non_empty
}

/// Pack every binned point into a `(cell, score, index)` entry and sort the
/// entries: members of one cell form a contiguous run ordered by
/// (score, index).
fn pack_points(ids: &[u32], bins: &[Option<u32>], seed: u32) -> (packed: Vec<u128>)
    requires
        bins@.len() == ids@.len(),
        ids@.len() <= 0xffff_ffff,
    ensures
        packed_wf(packed@, bins@, ids@, seed),
        sorted(packed@),
{
    let n = ids.len();
    let mut packed: Vec<u128> = Vec::new();
    let mut i: usize = 0;
    proof {
        reveal_with_fuel(packed_prefix, 1);
        assert(packed@ == packed_prefix(bins@, ids@, seed, 0));
    }
    #[verifier::loop_isolation(false)]
    while i < n
        invariant
            i <= n,
            packed@ == packed_prefix(bins@, ids@, seed, i as int),
        decreases n - i,
    {
        proof {
            reveal_with_fuel(packed_prefix, 2);
        }
        if let Some(c) = bins[i] {
            let score = fnv1a_tagged(seed, TAG_POINT, ids[i]);
            let e = pack3(c as u64, score, i as u32);
            proof {
                lemma_key3_parts(c as int, score as int, i as int);
                assert(e as int == entry_of(bins@, ids@, seed, i as int));
                assert(e == entry_of(bins@, ids@, seed, i as int) as u128);
            }
            packed.push(e);
        }
        i = i + 1;
    }
    let ghost unsorted = packed@;
    sort_keys(&mut packed);
    proof {
        assert(packed@.to_multiset() == packed_prefix(bins@, ids@, seed, bins@.len() as int)
            .to_multiset());
    }
    packed
}

/// The sort key of a populated cell in the weighted choice: the caller's
/// rank (descending), then a tie hash, then the cell key.
pub open spec fn choice_key(ranks: Seq<u64>, seed: u32, c: u32) -> int {
    key3(
        0xffff_ffff_ffff_ffff - ranks[c as int],
        fnv1a_words(seq![seed, TAG_TIE, c]) as int,
        c as int,
    )
}

/// Some selected point lies in cell `c`.
pub open spec fn cell_chosen(r: Seq<u32>, bins: Seq<Option<u32>>, c: u32) -> bool {
    exists|k: int| 0 <= k < r.len() && bins[#[trigger] r[k] as int] == Some(c)
}

/// The first entry of a cell's run is that cell's best member.
proof fn lemma_run_first_is_best(
    packed: Seq<u128>,
    bins: Seq<Option<u32>>,
    ids: Seq<u32>,
    seed: u32,
    c: u32,
    lo: int,
    hi: int,
)
    requires
        packed_wf(packed, bins, ids, seed),
        sorted(packed),
        bins.len() <= 0xffff_ffff,
        0 <= lo < hi <= packed.len(),
        forall|p: int| lo <= p < hi ==> cell_part(#[trigger] packed[p]) == c,
        forall|p: int| 0 <= p < packed.len() && !(lo <= p < hi) ==> cell_part(#[trigger] packed[p]) != c,
    ensures
        is_best(bins, ids, seed, idx_part(packed[lo])),
        bins[idx_part(packed[lo])] == Some(c),
        idx_part(packed[lo]) < bins.len(),
{
    lemma_packed_basic(packed, bins, ids, seed);
    let i0 = lemma_packed_member_at(packed, bins, ids, seed, lo);
    assert(cell_part(packed[lo]) == c);
    assert(bins[i0] == Some(c));
    let s0 = score_of(seed, ids[i0]);
    assert forall|j: int|
        #![trigger bins[j]]
        0 <= j < bins.len() && j != i0 && bins[j] == bins[i0] implies member_key(seed, ids, i0)
        < member_key(seed, ids, j) by {
        let p = lemma_packed_complete_at(packed, bins, ids, seed, j);
        assert(cell_part(packed[p]) == c);
        assert(lo <= p < hi);
        assert(p != lo);
        assert(packed[lo] != packed[p]);
        assert(packed[lo] < packed[p]);
        let sj = score_of(seed, ids[j]);
        lemma_key3_order(c as int, s0 as int, i0, c as int, sj as int, j);
        lemma_key2_order(s0 as int, i0, sj as int, j);
    }
}

/// When the populated cells outnumber the slots: order the cells by
/// (rank descending, tie hash, cell key), keep the first `slots` of them,
/// and return the best member of each, in that cell order.
#[verifier::rlimit(60)]
fn pick_overfull(
    packed: &Vec<u128>,
    non_empty: &Vec<u32>,
    cell_ranks: &Vec<u64>,
    slots: usize,
    seed: u32,
    Ghost(bins): Ghost<Seq<Option<u32>>>,
    Ghost(ids): Ghost<Seq<u32>>,
) -> (r: Vec<u32>)
    requires
        packed_wf(packed@, bins, ids, seed),
        sorted(packed@),
        bins.len() <= 0xffff_ffff,
        non_empty@ == distinct_cells(bins),
        1 <= slots <= non_empty@.len(),
        forall|m: int| 0 <= m < non_empty@.len() ==> (#[trigger] non_empty@[m] as int) < cell_ranks@.len(),
    ensures
        r@.len() == slots,
        forall|k: int| 0 <= k < r@.len() ==> is_best(bins, ids, seed, #[trigger] r@[k] as int),
        r@.no_duplicates(),
        forall|m: int, k: int|
            #![trigger non_empty@[m], r@[k]]
            0 <= m < non_empty@.len() && !cell_chosen(r@, bins, non_empty@[m]) && 0 <= k < r@.len()
                ==> choice_key(cell_ranks@, seed, (bins[r@[k] as int])->0) < choice_key(
                cell_ranks@,
                seed,
                non_empty@[m],
            ),
        forall|k: int, l: int|
            0 <= k < l < r@.len() ==> choice_key(cell_ranks@, seed, (bins[#[trigger] r@[k] as int])->0)
                < choice_key(cell_ranks@, seed, (bins[#[trigger] r@[l] as int])->0),
{
    proof {
        lemma_distinct_cells(bins);
    }
    let cc = non_empty.len();
    let mut choices: Vec<u128> = Vec::new();
    let mut m: usize = 0;
    #[verifier::loop_isolation(false)]
    while m < cc
        invariant
            m <= cc,
            choices@.len() == m,
            forall|q: int|
                0 <= q < m ==> (#[trigger] choices@[q]) as int == choice_key(
                    cell_ranks@,
                    seed,
                    non_empty@[q],
                ) && idx_part(choices@[q]) == non_empty@[q] as int,
        decreases cc - m,
    {
        let c = non_empty[m];
        let rank = cell_ranks[c as usize];
        let flip = u64::MAX - rank;
        let tie = fnv1a_tagged(seed, TAG_TIE, c);
        let e = pack3(flip, tie, c);
        proof {
            lemma_key3_parts(flip as int, tie as int, c as int);
            assert(e as int == choice_key(cell_ranks@, seed, c));
        }
        choices.push(e);
        m = m + 1;
    }
    proof {
        assert forall|k: int, l: int| 0 <= k < l < choices@.len() implies choices@[k]
            != choices@[l] by {
            assert(non_empty@[k] != non_empty@[l]);
        }
        assert(choices@.no_duplicates());
    }
    let ghost pre_sort = choices@;
    sort_keys(&mut choices);
    proof {
        lemma_perm_transfer(pre_sort, choices@);
        assert forall|q: int| 0 <= q < choices@.len() implies (#[trigger] choices@[q]) as int
            == choice_key(cell_ranks@, seed, idx_part(choices@[q]) as u32) by {
            assert(choices@.contains(choices@[q]));
            assert(pre_sort.contains(choices@[q]));
            let mq = choose|mq: int| 0 <= mq < pre_sort.len() && pre_sort[mq] == choices@[q];
            assert(idx_part(pre_sort[mq]) == non_empty@[mq] as int);
        }
    }
    let mut out: Vec<u32> = Vec::new();
    let mut k: usize = 0;
    #[verifier::loop_isolation(false)]
    while k < slots
        invariant
            k <= slots,
            out@.len() == k,
            forall|q: int|
                0 <= q < k ==> is_best(bins, ids, seed, #[trigger] out@[q] as int) && bins[out@[q] as int]
                    == Some(idx_part(choices@[q]) as u32),
            forall|q: int, q2: int| 0 <= q < q2 < k ==> out@[q] != out@[q2],
        decreases slots - k,
    {
        let e = choices[k];
        let c = low_part(e);
        proof {
            assert(choices@.contains(e));
            assert(pre_sort.contains(e));
            let m2 = choose|m2: int| 0 <= m2 < pre_sort.len() && pre_sort[m2] == e;
            assert(c == non_empty@[m2]);
            assert(distinct_cells(bins).contains(c));
            let i1 = choose|i1: int| 0 <= i1 < bins.len() && #[trigger] bins[i1] == Some(c);
            let p = lemma_packed_complete_at(packed@, bins, ids, seed, i1);
            assert(cell_part(packed@[p]) == c);
        }
        let b = run_bounds(packed, c);
        let lo = b.0;
        let hi = b.1;
        proof {
            assert(lo < hi);
            lemma_run_first_is_best(packed@, bins, ids, seed, c, lo as int, hi as int);
        }
        let idx = low_part(packed[lo]);
        proof {
            assert(idx as int == idx_part(packed@[lo as int]));
            assert(is_best(bins, ids, seed, idx as int));
            assert(bins[idx as int] == Some(c));
            assert(idx_part(choices@[k as int]) == c as int) by {
                let m2 = choose|m2: int| 0 <= m2 < pre_sort.len() && pre_sort[m2] == e;
                assert(idx_part(pre_sort[m2]) == non_empty@[m2] as int);
            }
        }
        out.push(idx);
        k = k + 1;
        proof {
            assert forall|q: int, q2: int| 0 <= q < q2 < k implies out@[q] != out@[q2] by {
                let cq = idx_part(choices@[q]) as u32;
                let cq2 = idx_part(choices@[q2]) as u32;
                if cq == cq2 {
                    assert(choices@[q] as int == choice_key(cell_ranks@, seed, cq)) by {
                        assert(choices@.contains(choices@[q]));
                        assert(pre_sort.contains(choices@[q]));
                        let mq = choose|mq: int|
                            0 <= mq < pre_sort.len() && pre_sort[mq] == choices@[q];
                        assert(idx_part(pre_sort[mq]) == non_empty@[mq] as int);
                    }
                    assert(choices@[q2] as int == choice_key(cell_ranks@, seed, cq2)) by {
                        assert(choices@.contains(choices@[q2]));
                        assert(pre_sort.contains(choices@[q2]));
                        let mq = choose|mq: int|
                            0 <= mq < pre_sort.len() && pre_sort[mq] == choices@[q2];
                        assert(idx_part(pre_sort[mq]) == non_empty@[mq] as int);
                    }
                    assert(choices@[q] == choices@[q2]);
                    assert(false);
                } else {
                    assert(bins[out@[q] as int] == Some(cq));
                    assert(bins[out@[q2] as int] == Some(cq2));
                }
            }
        }
    }
    proof {
        assert(out@.no_duplicates());
        assert forall|k: int, l: int|
            0 <= k < l < out@.len() implies choice_key(cell_ranks@, seed, (bins[#[trigger] out@[k] as int])->0)
            < choice_key(cell_ranks@, seed, (bins[#[trigger] out@[l] as int])->0) by {
            assert(bins[out@[k] as int] == Some(idx_part(choices@[k]) as u32));
            assert(bins[out@[l] as int] == Some(idx_part(choices@[l]) as u32));
            assert(choices@[k] as int == choice_key(cell_ranks@, seed, idx_part(choices@[k]) as u32));
            assert(choices@[l] as int == choice_key(cell_ranks@, seed, idx_part(choices@[l]) as u32));
            assert(choices@[k] <= choices@[l]);
            assert(choices@[k] != choices@[l]);
        }
        assert forall|m: int, k2: int|
            #![trigger non_empty@[m], out@[k2]]
            0 <= m < non_empty@.len() && !cell_chosen(out@, bins, non_empty@[m]) && 0 <= k2
                < out@.len() implies choice_key(cell_ranks@, seed, (bins[out@[k2] as int])->0)
            < choice_key(cell_ranks@, seed, non_empty@[m]) by {
            let cm = non_empty@[m];
            assert(pre_sort[m] as int == choice_key(cell_ranks@, seed, cm));
            assert(pre_sort.contains(pre_sort[m]));
            assert(choices@.contains(pre_sort[m]));
            let lm = choose|lm: int| 0 <= lm < choices@.len() && choices@[lm] == pre_sort[m];
            assert(choices@[lm] as int == choice_key(cell_ranks@, seed, idx_part(choices@[lm]) as u32));
            lemma_key3_parts(
                0xffff_ffff_ffff_ffff - cell_ranks@[cm as int],
                fnv1a_words(seq![seed, TAG_TIE, cm]) as int,
                cm as int,
            );
            assert(idx_part(choices@[lm]) == cm as int);
            if lm < slots {
                assert(bins[out@[lm] as int] == Some(idx_part(choices@[lm]) as u32));
                assert(bins[out@[lm] as int] == Some(cm));
                assert(cell_chosen(out@, bins, cm));
                assert(false);
            }
            assert(choices@[k2] <= choices@[lm]);
            assert(choices@[k2] != choices@[lm]);
            assert(choices@[k2] as int == choice_key(
                cell_ranks@,
                seed,
                idx_part(choices@[k2]) as u32,
            ));
            assert(bins[out@[k2] as int] == Some(idx_part(choices@[k2]) as u32));
        }
    }
    out
}

/// The canonical entry sequence is no longer than its point prefix.
proof fn lemma_pp_len(bins: Seq<Option<u32>>, ids: Seq<u32>, seed: u32, i: int)
    requires
        0 <= i,
    ensures
        packed_prefix(bins, ids, seed, i).len() <= i,
    decreases i,
{
    reveal_with_fuel(packed_prefix, 2);
    if i > 0 {
        lemma_pp_len(bins, ids, seed, i - 1);
    }
}

/// How many of the first `i` points are binned.
pub open spec fn binned_prefix_count(bins: Seq<Option<u32>>, i: int) -> int
    decreases i,
{
    if i <= 0 {
        0
    } else {
        binned_prefix_count(bins, i - 1) + (if bins[i - 1] is Some {
            1int
        } else {
            0int
        })
    }
}

/// How many points are binned at all.
pub open spec fn binned_count(bins: Seq<Option<u32>>) -> int {
    binned_prefix_count(bins, bins.len() as int)
}

/// The canonical entry sequence holds exactly one entry per binned point.
proof fn lemma_pp_len_counts(bins: Seq<Option<u32>>, ids: Seq<u32>, seed: u32, i: int)
    requires
        0 <= i,
    ensures
        packed_prefix(bins, ids, seed, i).len() == binned_prefix_count(bins, i),
    decreases i,
{
    reveal_with_fuel(packed_prefix, 2);
    if i > 0 {
        lemma_pp_len_counts(bins, ids, seed, i - 1);
    }
}

/// The point index of every sorted entry, in entry order.
pub open spec fn packed_idxs(packed: Seq<u128>) -> Seq<u32> {
    Seq::new(packed.len(), |p: int| idx_part(packed[p]) as u32)
}

/// Entry indices are pairwise distinct: each binned point packs once.
proof fn lemma_packed_idxs_nodup(packed: Seq<u128>, bins: Seq<Option<u32>>, ids: Seq<u32>, seed: u32)
    requires
        packed_wf(packed, bins, ids, seed),
        bins.len() <= 0xffff_ffff,
    ensures
        packed_idxs(packed).no_duplicates(),
{
    let idxs = packed_idxs(packed);
    assert forall|k: int, l: int| 0 <= k < l < idxs.len() implies idxs[k] != idxs[l] by {
        lemma_packed_basic(packed, bins, ids, seed);
        let j1 = lemma_packed_member_at(packed, bins, ids, seed, k);
        let j2 = lemma_packed_member_at(packed, bins, ids, seed, l);
        if j1 == j2 {
            assert(packed[k] as int == entry_of(bins, ids, seed, j1));
            assert(packed[l] as int == entry_of(bins, ids, seed, j2));
            assert(packed[k] == packed[l]);
            assert(false);
        }
        assert(idxs[k] == j1 as u32 && idxs[l] == j2 as u32);
    }
}

/// Law of counting: a duplicate-free sequence whose members all occur in
/// another sequence is no longer than it.
pub proof fn lemma_nodup_in_len(a: Seq<u32>, b: Seq<u32>)
    requires
        a.no_duplicates(),
        forall|x: u32| a.contains(x) ==> b.contains(x),
    ensures
        a.len() <= b.len(),
{
    broadcast use vstd::seq_lib::group_to_multiset_ensures;
    broadcast use vstd::multiset::group_multiset_axioms;

    a.lemma_multiset_has_no_duplicates();
    let ma = a.to_multiset();
    let mb = b.to_multiset();
    assert forall|x: u32| #[trigger] ma.count(x) <= mb.count(x) by {
        if ma.count(x) > 0 {
            assert(a.contains(x));
            assert(ma.count(x) == 1);
            assert(b.contains(x));
            assert(mb.count(x) > 0);
        }
    }
    assert(ma.subset_of(mb));
    vstd::multiset::axiom_len_sub(mb, ma);
    assert(ma.len() == a.len());
    assert(mb.len() == b.len());
}

/// The cell of every sorted entry, in entry order.
pub open spec fn packed_cells(packed: Seq<u128>) -> Seq<u32> {
    Seq::new(packed.len(), |p: int| cell_part(packed[p]) as u32)
}

/// When the slots outnumber the populated cells: take the best member of
/// every populated cell first, then spread the remaining slots over the
/// cells' leftover members by the largest-remainder rule — exact share
/// `remaining * leftover / total`, floored, with the cells' fractional
/// remainders (compared exactly, as remainders modulo the total) breaking
/// the bumps, tie-broken by hash and cell key.
#[verifier::rlimit(100)]
fn pick_underfull(
    packed: &Vec<u128>,
    non_empty: &Vec<u32>,
    slots: usize,
    seed: u32,
    Ghost(bins): Ghost<Seq<Option<u32>>>,
    Ghost(ids): Ghost<Seq<u32>>,
) -> (r: Vec<u32>)
    requires
        packed_wf(packed@, bins, ids, seed),
        sorted(packed@),
        bins.len() <= 0xffff_ffff,
        non_empty@ == distinct_cells(bins),
        1 <= non_empty@.len() < slots,
        slots <= 0xffff_ffff,
    ensures
        r@.len() <= slots,
        r@.len() >= non_empty@.len(),
        forall|m: int|
            0 <= m < non_empty@.len() ==> is_best(bins, ids, seed, #[trigger] r@[m] as int)
                && bins[r@[m] as int] == Some(non_empty@[m]),
        forall|k: int|
            0 <= k < r@.len() ==> 0 <= (#[trigger] r@[k] as int) && (r@[k] as int) < bins.len()
                && bins[r@[k] as int] is Some,
        r@.no_duplicates(),
        forall|k: int|
            non_empty@.len() <= k < r@.len() ==> !is_best(bins, ids, seed, #[trigger] r@[k] as int),
        binned_count(bins) <= slots ==> r@.len() == binned_count(bins),
{
    proof {
        lemma_distinct_cells(bins);
        lemma_packed_basic(packed@, bins, ids, seed);
        lemma_pp_len(bins, ids, seed, bins.len() as int);
        assert(packed@.len() <= bins.len());
        lemma_pp_len_counts(bins, ids, seed, bins.len() as int);
        assert(packed@.len() == binned_count(bins));
        lemma_packed_idxs_nodup(packed@, bins, ids, seed);
    }
    let cc = non_empty.len();
    let mut picked: Vec<u32> = Vec::new();
    let mut m: usize = 0;
    #[verifier::loop_isolation(false)]
    while m < cc
        invariant
            m <= cc,
            picked@.len() == m,
            forall|q: int|
                0 <= q < m ==> is_best(bins, ids, seed, #[trigger] picked@[q] as int)
                    && bins[picked@[q] as int] == Some(non_empty@[q]),
            forall|q: int, q2: int| 0 <= q < q2 < m ==> picked@[q] != picked@[q2],
        decreases cc - m,
    {
        let c = non_empty[m];
        proof {
            assert(distinct_cells(bins).contains(c)) by {
                assert(distinct_cells(bins)[m as int] == c);
            }
            let i1 = choose|i1: int| 0 <= i1 < bins.len() && #[trigger] bins[i1] == Some(c);
            let p = lemma_packed_complete_at(packed@, bins, ids, seed, i1);
            assert(cell_part(packed@[p]) == c);
        }
        let b = run_bounds(packed, c);
        proof {
            assert(b.0 < b.1);
            lemma_run_first_is_best(packed@, bins, ids, seed, c, b.0 as int, b.1 as int);
        }
        let idx = low_part(packed[b.0]);
        proof {
            assert(idx as int == idx_part(packed@[b.0 as int]));
            assert forall|q: int| 0 <= q < m implies picked@[q] != idx by {
                assert(bins[picked@[q] as int] == Some(non_empty@[q]));
                assert(non_empty@[q] != c);
            }
        }
        picked.push(idx);
        m = m + 1;
    }
    let ghost firsts = picked@;

    let rs = slots - cc;
    let rs_w = rs as u128;

    // Total leftover members over all cells: each populated cell holds one
    // run, and every run keeps exactly one best, so the leftovers are the
    // binned points minus the populated cells.
    proof {
        assert forall|x: u32| non_empty@.contains(x) implies packed_cells(packed@).contains(
            x,
        ) by {
            assert(distinct_cells(bins).contains(x));
            let i1 = choose|i1: int| 0 <= i1 < bins.len() && #[trigger] bins[i1] == Some(x);
            let pw = lemma_packed_complete_at(packed@, bins, ids, seed, i1);
            assert(packed_cells(packed@)[pw] == x);
        }
        lemma_nodup_in_len(non_empty@, packed_cells(packed@));
        assert(cc <= packed@.len());
    }
    let total_points = packed.len();
    if total_points == cc {
        // No cell has more than its best member to give.
        return picked;
    }
    let total = (total_points - cc) as u128;
    proof {
        assert(total > 0);
        assert(packed@.len() == cc + total);
    }

    // One sort key per cell: exact fractional remainder (descending), then a
    // tie hash, then the cell key.
    let mut allocs: Vec<u128> = Vec::new();
    let mut m3: usize = 0;
    #[verifier::loop_isolation(false)]
    while m3 < cc
        invariant
            m3 <= cc,
            allocs@.len() == m3,
            forall|q: int| 0 <= q < m3 ==> idx_part(#[trigger] allocs@[q]) == non_empty@[q] as int,
        decreases cc - m3,
    {
        let c = non_empty[m3];
        proof {
            assert(distinct_cells(bins).contains(c)) by {
                assert(distinct_cells(bins)[m3 as int] == c);
            }
            let i1 = choose|i1: int| 0 <= i1 < bins.len() && #[trigger] bins[i1] == Some(c);
            let p = lemma_packed_complete_at(packed@, bins, ids, seed, i1);
            assert(cell_part(packed@[p]) == c);
        }
        let b = run_bounds(packed, c);
        proof {
            assert(b.0 < b.1);
            assert(b.1 <= packed@.len() <= 0xffff_ffff);
        }
        let remv = (b.1 - b.0 - 1) as u128;
        proof {
            assert((rs_w as int) * (remv as int) <= 0x1_0000_0000_0000_0000)
                by (nonlinear_arith)
                requires
                    0 <= rs_w <= 0x1_0000_0000,
                    0 <= remv <= 0x1_0000_0000,
            ;
        }
        let frac: u128 = if rs_w > total {
            proof {
                assert((remv as int) * ((rs_w as int) - (total as int)) <= 0x1_0000_0000_0000_0000)
                    by (nonlinear_arith)
                    requires
                        0 <= remv <= 0x1_0000_0000,
                        0 <= (rs_w as int) - (total as int) <= 0x1_0000_0000,
                ;
            }
            remv * (rs_w - total)
        } else {
            proof {
                vstd::arithmetic::div_mod::lemma_mod_decreases(
                    (rs_w * remv) as nat,
                    total as nat,
                );
            }
            (rs_w * remv) % total
        };
        let flip = u64::MAX - (frac as u64);
        let tie = fnv1a_tagged(seed, TAG_REM, c);
        let e = pack3(flip, tie, c);
        proof {
            lemma_key3_parts(flip as int, tie as int, c as int);
        }
        allocs.push(e);
        m3 = m3 + 1;
    }
    proof {
        assert forall|k: int, l: int| 0 <= k < l < allocs@.len() implies allocs@[k]
            != allocs@[l] by {
            assert(non_empty@[k] != non_empty@[l]);
        }
        assert(allocs@.no_duplicates());
    }
    let ghost pre_alloc = allocs@;
    sort_keys(&mut allocs);
    proof {
        lemma_perm_transfer(pre_alloc, allocs@);
        assert forall|q: int, q2: int|
            0 <= q < q2 < allocs@.len() implies idx_part(#[trigger] allocs@[q]) != idx_part(
            #[trigger] allocs@[q2],
        ) by {
            assert(allocs@.contains(allocs@[q]));
            assert(pre_alloc.contains(allocs@[q]));
            let a1 = choose|a1: int| 0 <= a1 < pre_alloc.len() && pre_alloc[a1] == allocs@[q];
            assert(allocs@.contains(allocs@[q2]));
            assert(pre_alloc.contains(allocs@[q2]));
            let a2 = choose|a2: int| 0 <= a2 < pre_alloc.len() && pre_alloc[a2] == allocs@[q2];
            assert(allocs@[q] != allocs@[q2]);
            if a1 == a2 {
                assert(false);
            }
            assert(non_empty@[a1] != non_empty@[a2]);
        }
    }

    // Base allocation: the floored exact share, capped by the leftover count.
    let mut used: u128 = 0;
    let mut m4: usize = 0;
    #[verifier::loop_isolation(false)]
    while m4 < cc
        invariant
            m4 <= cc,
            used <= (m4 as int) * 0x1_0000_0000_0000_0000,
        decreases cc - m4,
    {
        let b = run_bounds(packed, non_empty[m4]);
        if b.1 > b.0 {
            let remv = (b.1 - b.0 - 1) as u128;
            proof {
                assert(b.1 <= packed@.len() <= 0xffff_ffff);
                assert((rs_w as int) * (remv as int) <= 0x1_0000_0000_0000_0000)
                    by (nonlinear_arith)
                    requires
                        0 <= rs_w <= 0x1_0000_0000,
                        0 <= remv <= 0x1_0000_0000,
                ;
                vstd::arithmetic::div_mod::lemma_div_is_ordered(
                    0,
                    (rs_w * remv) as int,
                    total as int,
                );
                vstd::arithmetic::div_mod::lemma_div_is_ordered_by_denominator(
                    (rs_w * remv) as int,
                    1,
                    total as int,
                );
            }
            let mut base = (rs_w * remv) / total;
            if base > remv {
                base = remv;
            }
            used = used + base;
        }
        m4 = m4 + 1;
    }
    let mut remainder: u128 = if rs_w > used {
        rs_w - used
    } else {
        0
    };

    // Grant extras cell by cell in remainder order; each cell takes its
    // additional members in ascending (score, index) order.
    let mut m5: usize = 0;
    let mut done = false;
    let ghost mut done_cells: Seq<u32> = Seq::empty();
    #[verifier::loop_isolation(false)]
    while m5 < cc && !done
        invariant
            m5 <= cc,
            allocs@.len() == cc,
            picked@.len() >= cc,
            picked@.subrange(0, cc as int) == firsts,
            !done ==> picked@.len() < slots,
            done ==> picked@.len() == slots,
            done_cells.len() == m5,
            forall|q: int| 0 <= q < m5 ==> #[trigger] done_cells[q] == idx_part(allocs@[q]) as u32,
            forall|k: int|
                cc <= k < picked@.len() ==> 0 <= (#[trigger] picked@[k] as int) && (
                picked@[k] as int) < bins.len() && bins[picked@[k] as int] is Some && !is_best(
                    bins, ids, seed, picked@[k] as int) && done_cells.contains(
                    bins[picked@[k] as int]->0),
            forall|q: int, q2: int| 0 <= q < q2 < picked@.len() ==> picked@[q] != picked@[q2],
            rs_w >= total && !done ==> (forall|q: int, p: int|
                #![trigger allocs@[q], packed@[p]]
                0 <= q < m5 && 0 <= p < packed@.len() && cell_part(packed@[p]) == idx_part(
                    allocs@[q],
                ) ==> picked@.contains(idx_part(packed@[p]) as u32)),
        decreases cc - m5,
    {
        let e = allocs[m5];
        let c = low_part(e);
        proof {
            assert(idx_part(allocs@[m5 as int]) == c as int);
            assert(allocs@.contains(e));
            assert(pre_alloc.contains(e));
            let a1 = choose|a1: int| 0 <= a1 < pre_alloc.len() && pre_alloc[a1] == e;
            assert(c == non_empty@[a1]);
            assert(distinct_cells(bins).contains(c)) by {
                assert(distinct_cells(bins)[a1] == c);
            }
            let i1 = choose|i1: int| 0 <= i1 < bins.len() && #[trigger] bins[i1] == Some(c);
            let p = lemma_packed_complete_at(packed@, bins, ids, seed, i1);
            assert(cell_part(packed@[p]) == c);
            assert(!done_cells.contains(c)) by {
                if done_cells.contains(c) {
                    let q = choose|q: int| 0 <= q < done_cells.len() && done_cells[q] == c;
                    assert(idx_part(allocs@[q]) == c as int);
                    assert(idx_part(allocs@[m5 as int]) == c as int);
                    assert(q < m5 < allocs@.len());
                }
            }
        }
        let b = run_bounds(packed, c);
        let lo = b.0;
        let hi = b.1;
        proof {
            assert(lo < hi);
            assert(hi <= packed@.len() <= 0xffff_ffff);
            lemma_run_first_is_best(packed@, bins, ids, seed, c, lo as int, hi as int);
        }
        let remv = hi - lo - 1;
        let remv_w = remv as u128;
        proof {
            assert((rs_w as int) * (remv_w as int) <= 0x1_0000_0000_0000_0000)
                by (nonlinear_arith)
                requires
                    0 <= rs_w <= 0x1_0000_0000,
                    0 <= remv_w <= 0x1_0000_0000,
            ;
            vstd::arithmetic::div_mod::lemma_div_is_ordered(
                0,
                (rs_w * remv_w) as int,
                total as int,
            );
            vstd::arithmetic::div_mod::lemma_div_is_ordered_by_denominator(
                (rs_w * remv_w) as int,
                1,
                total as int,
            );
        }
        proof {
            if rs_w >= total {
                vstd::arithmetic::mul::lemma_mul_inequality(
                    total as int,
                    rs_w as int,
                    remv_w as int,
                );
                vstd::arithmetic::div_mod::lemma_div_is_ordered(
                    (total as int) * (remv_w as int),
                    (rs_w as int) * (remv_w as int),
                    total as int,
                );
                vstd::arithmetic::div_mod::lemma_div_multiples_vanish(
                    remv_w as int,
                    total as int,
                );
                assert(((rs_w as int) * (remv_w as int)) / (total as int) >= remv_w as int);
            }
        }
        let mut base = (rs_w * remv_w) / total;
        if base > remv_w {
            base = remv_w;
        }
        if remainder > 0 && base < remv_w {
            base = base + 1;
            remainder = remainder - 1;
        }
        let take = base as usize;
        proof {
            assert(take <= remv);
            assert(rs_w >= total ==> take == remv);
        }
        let ghost start_len = picked@.len();
        let ghost pre_iter = picked@;
        let mut p: usize = 1;
        #[verifier::loop_isolation(false)]
        while p <= take
            invariant
                1 <= p <= take + 1,
                take <= remv,
                picked@.len() == start_len + (p - 1),
                cc <= start_len,
                picked@.len() >= cc,
                picked@.subrange(0, cc as int) == firsts,
                picked@.subrange(0, start_len as int) == pre_iter,
                forall|k: int|
                    start_len <= k < picked@.len() ==> #[trigger] picked@[k] as int == idx_part(
                        packed@[lo + (k - start_len) + 1],
                    ),
                forall|k: int|
                    cc <= k < start_len ==> 0 <= (#[trigger] picked@[k] as int) && (
                    picked@[k] as int) < bins.len() && bins[picked@[k] as int] is Some && !is_best(
                        bins, ids, seed, picked@[k] as int) && done_cells.contains(
                        bins[picked@[k] as int]->0),
                forall|k: int|
                    start_len <= k < picked@.len() ==> 0 <= (#[trigger] picked@[k] as int) && (
                    picked@[k] as int) < bins.len() && bins[picked@[k] as int] == Some(c)
                        && !is_best(bins, ids, seed, picked@[k] as int),
                forall|q: int, q2: int| 0 <= q < q2 < picked@.len() ==> picked@[q] != picked@[q2],
            decreases take + 1 - p,
        {
            let pos = lo + p;
            let idx = low_part(packed[pos]);
            proof {
                let j = lemma_packed_member_at(packed@, bins, ids, seed, pos as int);
                assert(idx as int == j);
                assert(bins[j] == Some(c));
                let best0 = idx_part(packed@[lo as int]);
                assert(j != best0) by {
                    let j0 = lemma_packed_member_at(packed@, bins, ids, seed, lo as int);
                    if j == j0 {
                        assert(packed@[pos as int] as int == entry_of(bins, ids, seed, j));
                        assert(packed@[lo as int] as int == entry_of(bins, ids, seed, j0));
                        assert(packed@[pos as int] == packed@[lo as int]);
                        assert(packed@.no_duplicates());
                        assert(false);
                    }
                }
                assert(!is_best(bins, ids, seed, j)) by {
                    if is_best(bins, ids, seed, j) {
                        assert(is_best(bins, ids, seed, best0));
                        assert(bins[best0] == Some(c));
                        assert(member_key(seed, ids, j) < member_key(seed, ids, best0));
                        assert(member_key(seed, ids, best0) < member_key(seed, ids, j));
                    }
                }
                assert forall|k: int| 0 <= k < picked@.len() implies picked@[k] != idx by {
                    if k < cc {
                        assert(picked@[k] == firsts[k]) by {
                            assert(picked@.subrange(0, cc as int)[k] == picked@[k]);
                        }
                        assert(is_best(bins, ids, seed, picked@[k] as int));
                    } else if k < start_len {
                        assert(done_cells.contains(bins[picked@[k] as int]->0));
                        if picked@[k] == idx {
                            assert(bins[picked@[k] as int]->0 == c);
                            assert(done_cells.contains(c));
                        }
                    } else {
                        assert(picked@[k] as int == idx_part(packed@[lo + (k - start_len) + 1]));
                        let k_pos = lo + (k - start_len) + 1;
                        if picked@[k] == idx {
                            let jk = lemma_packed_member_at(packed@, bins, ids, seed, k_pos);
                            assert(packed@[k_pos] == packed@[pos as int]);
                            assert(false);
                        }
                    }
                }
            }
            picked.push(idx);
            p = p + 1;
        }
        if picked.len() >= slots {
            picked.truncate(slots);
            proof {
                assert(picked@.subrange(0, cc as int) =~= firsts);
            }
            done = true;
        }
        m5 = m5 + 1;
        proof {
            if rs_w >= total && !done {
                assert(picked@.len() == start_len + take);
                assert(picked@.subrange(0, start_len as int) == pre_iter);
                assert forall|q: int, p: int|
                    #![trigger allocs@[q], packed@[p]]
                    0 <= q < m5 && 0 <= p < packed@.len() && cell_part(packed@[p]) == idx_part(
                        allocs@[q],
                    ) implies picked@.contains(idx_part(packed@[p]) as u32) by {
                    if q == m5 - 1 {
                        assert(idx_part(allocs@[q]) == c as int);
                        assert(lo <= p < hi);
                        if p == lo {
                            assert(allocs@.contains(e)) by {
                                assert(allocs@[m5 - 1] == e);
                            }
                            assert(pre_alloc.contains(e));
                            let a1 = choose|a1: int|
                                0 <= a1 < pre_alloc.len() && pre_alloc[a1] == e;
                            assert(non_empty@[a1] == c);
                            assert(picked@[a1] == firsts[a1]) by {
                                assert(picked@.subrange(0, cc as int)[a1] == picked@[a1]);
                            }
                            assert(is_best(bins, ids, seed, picked@[a1] as int));
                            assert(bins[picked@[a1] as int] == Some(c));
                            lemma_run_first_is_best(packed@, bins, ids, seed, c, lo as int,
                                hi as int);
                            lemma_best_unique(bins, ids, seed, picked@[a1] as int,
                                idx_part(packed@[lo as int]));
                            assert(picked@[a1] as int == idx_part(packed@[p]));
                            assert(picked@.contains(idx_part(packed@[p]) as u32));
                        } else {
                            let k = start_len + (p - lo - 1);
                            assert(take == remv);
                            assert(start_len <= k < picked@.len());
                            assert(picked@[k] as int == idx_part(
                                packed@[lo + (k - start_len) + 1],
                            ));
                            assert(lo + (k - start_len) + 1 == p);
                            assert(picked@.contains(idx_part(packed@[p]) as u32));
                        }
                    } else {
                        assert(pre_iter.contains(idx_part(packed@[p]) as u32));
                        let kk = choose|kk: int|
                            0 <= kk < pre_iter.len() && pre_iter[kk] == idx_part(
                                packed@[p],
                            ) as u32;
                        assert(picked@[kk] == pre_iter[kk]) by {
                            assert(picked@.subrange(0, start_len as int)[kk] == picked@[kk]);
                        }
                        assert(picked@.contains(idx_part(packed@[p]) as u32));
                    }
                }
            }
            let prev_cells = done_cells;
            done_cells = prev_cells.push(c);
            assert forall|k: int|
                cc <= k < picked@.len() implies 0 <= (#[trigger] picked@[k] as int) && (
            picked@[k] as int) < bins.len() && bins[picked@[k] as int] is Some && !is_best(
                bins, ids, seed, picked@[k] as int) && done_cells.contains(
                bins[picked@[k] as int]->0) by {
                let cell_k = bins[picked@[k] as int]->0;
                if cell_k == c {
                    assert(done_cells[done_cells.len() - 1] == c);
                    assert(done_cells.contains(cell_k));
                } else {
                    assert(prev_cells.contains(cell_k));
                    let q = choose|q: int|
                        0 <= q < prev_cells.len() && prev_cells[q] == cell_k;
                    assert(done_cells[q] == cell_k);
                    assert(done_cells.contains(cell_k));
                }
            }
        }
    }
    proof {
        assert forall|m6: int| 0 <= m6 < cc implies is_best(bins, ids, seed,
            #[trigger] picked@[m6] as int) && bins[picked@[m6] as int] == Some(non_empty@[m6]) by {
            assert(picked@.subrange(0, cc as int)[m6] == picked@[m6]);
            assert(firsts[m6] == picked@[m6]);
        }
        assert(picked@.no_duplicates());
        if rs_w >= total {
            assert(packed@.len() <= slots);
            assert forall|x: u32| picked@.contains(x) implies packed_idxs(packed@).contains(
                x,
            ) by {
                let k = choose|k: int| 0 <= k < picked@.len() && picked@[k] == x;
                assert(0 <= (x as int) < bins.len() && bins[x as int] is Some) by {
                    if k < cc {
                        assert(is_best(bins, ids, seed, picked@[k] as int));
                    }
                }
                let pw = lemma_packed_complete_at(packed@, bins, ids, seed, x as int);
                assert(packed_idxs(packed@)[pw] == x);
            }
            lemma_nodup_in_len(picked@, packed_idxs(packed@));
            if done {
                assert(picked@.len() == slots);
                assert(picked@.len() == packed@.len());
            } else {
                assert(m5 == cc);
                assert forall|x: u32| packed_idxs(packed@).contains(x) implies picked@.contains(
                    x,
                ) by {
                    let pw = choose|pw: int|
                        0 <= pw < packed_idxs(packed@).len() && packed_idxs(packed@)[pw] == x;
                    let j = lemma_packed_member_at(packed@, bins, ids, seed, pw);
                    let cp = bins[j]->0;
                    assert(distinct_cells(bins).contains(cp)) by {
                        assert(bins[j] == Some(cp));
                    }
                    let mq = choose|mq: int|
                        0 <= mq < non_empty@.len() && non_empty@[mq] == cp;
                    assert(idx_part(pre_alloc[mq]) == cp as int);
                    assert(pre_alloc.contains(pre_alloc[mq]));
                    assert(allocs@.contains(pre_alloc[mq]));
                    let q = choose|q: int|
                        0 <= q < allocs@.len() && allocs@[q] == pre_alloc[mq];
                    assert(idx_part(allocs@[q]) == cp as int);
                    assert(cell_part(packed@[pw]) == cp as int);
                    assert(picked@.contains(idx_part(packed@[pw]) as u32));
                    assert(idx_part(packed@[pw]) == j);
                    assert(x == j as u32);
                }
                lemma_nodup_in_len(packed_idxs(packed@), picked@);
                assert(picked@.len() == packed@.len());
            }
        }
        assert(binned_count(bins) <= slots ==> rs_w >= total);
    }
    picked
}

/// The caller-prepared grid assignment: a side count, one optional cell per
/// point (points outside the viewport or without representable coordinates
/// carry none), and one weighted-choice rank per cell.  Ranks order the
/// cells for weighted sampling without replacement: a larger rank means the
/// cell is preferred, and ranks are compared before the hash tie break.
pub struct ViewportGrid {
    pub side: u32,
    pub bins: Vec<Option<u32>>,
    pub cell_ranks: Vec<u64>,
}

/// Structural consistency of a prepared grid for `n` points.
pub open spec fn grid_req(g: ViewportGrid, n: int) -> bool {
    &&& g.bins@.len() == n
    &&& 1 <= g.side <= 64
    &&& g.cell_ranks@.len() == (g.side as int) * (g.side as int)
    &&& forall|i: int|
        0 <= i < g.bins@.len() && g.bins@[i] is Some ==> ((#[trigger] g.bins@[i]->0) as int) < (
        g.side as int) * (g.side as int)
}

/// What the grid-based selection promises: a bounded, duplicate-free list
/// of binned point indices.  When the populated cells reach the slot count,
/// the result is exactly `slots` cell-best points, from the cells that win
/// the (rank, tie hash, cell key) order, listed in that order — which pins
/// the output completely.  When the cells fall short, every populated
/// cell's best point leads the result in first-seen cell order, everything
/// after those is a leftover (never a cell's best), and whenever the binned
/// points fit the budget the result holds all of them.
pub open spec fn sampled_viewport(
    r: Seq<u32>,
    bins: Seq<Option<u32>>,
    ids: Seq<u32>,
    ranks: Seq<u64>,
    seed: u32,
    slots: int,
) -> bool {
    let cells = distinct_cells(bins);
    &&& r.len() <= slots
    &&& r.no_duplicates()
    &&& (forall|k: int|
        0 <= k < r.len() ==> 0 <= (#[trigger] r[k] as int) && (r[k] as int) < bins.len()
            && bins[r[k] as int] is Some)
    &&& (cells.len() == 0 ==> r.len() == 0)
    &&& (cells.len() >= slots ==> r.len() == slots && (forall|k: int|
        0 <= k < r.len() ==> is_best(bins, ids, seed, #[trigger] r[k] as int)))
    &&& (cells.len() >= slots ==> (forall|m: int, k: int|
        #![trigger cells[m], r[k]]
        0 <= m < cells.len() && !cell_chosen(r, bins, cells[m]) && 0 <= k < r.len()
            ==> choice_key(ranks, seed, (bins[r[k] as int])->0) < choice_key(
            ranks,
            seed,
            cells[m],
        )))
    &&& (cells.len() >= slots ==> (forall|k: int, l: int|
        0 <= k < l < r.len() ==> choice_key(ranks, seed, (bins[#[trigger] r[k] as int])->0)
            < choice_key(ranks, seed, (bins[#[trigger] r[l] as int])->0)))
    &&& (0 < cells.len() < slots ==> r.len() >= cells.len() && (forall|m: int|
        0 <= m < cells.len() ==> is_best(bins, ids, seed, #[trigger] r[m] as int)
            && bins[r[m] as int] == Some(cells[m])))
    &&& (0 < cells.len() < slots ==> (forall|k: int|
        cells.len() <= k < r.len() ==> !is_best(bins, ids, seed, #[trigger] r[k] as int)))
    &&& (0 < cells.len() < slots && binned_count(bins) <= slots ==> r.len() == binned_count(bins))
}

/// Deterministic viewport sampling: pick up to `slots` point indices.
///
/// A zero budget or an empty point set yields an empty result, and a point
/// set that fits the budget is returned whole, in order.  With no usable
/// grid (a degenerate bounding box or step), selection falls back to pure
/// hash order.  Otherwise the populated cells decide: one best point from
/// each of `slots` rank-chosen cells when cells abound, or full cell
/// coverage topped up by the largest-remainder rule when they do not.
/// Every choice derives from FNV-1a hashes of the seed, so identical
/// arguments always produce identical output.
pub fn sample_viewport(ids: &[u32], slots: usize, seed: u32, grid: Option<&ViewportGrid>) -> (r:
    Vec<u32>)
    requires
        ids@.len() <= 0xffff_ffff,
        slots <= 0xffff_ffff,
        grid matches Some(g) ==> grid_req(*g, ids@.len() as int),
    ensures
        slots == 0 ==> r@.len() == 0,
        ids@.len() == 0 ==> r@.len() == 0,
        (slots > 0 && 0 < ids@.len() <= slots) ==> r@.len() == ids@.len() && (forall|k: int|
            0 <= k < r@.len() ==> (#[trigger] r@[k]) as int == k),
        (slots > 0 && ids@.len() > slots && grid is None) ==> hash_order_prefix(
            r@,
            ids@,
            seed,
            slots as int,
        ),
        slots > 0 && ids@.len() > slots ==> (grid matches Some(g) ==> sampled_viewport(
            r@,
            g.bins@,
            ids@,
            g.cell_ranks@,
            seed,
            slots as int,
        )),
{
    if slots == 0 {
        return Vec::new();
    }
    let n = ids.len();
    if n == 0 {
        return Vec::new();
    }
    if n <= slots {
        let mut all: Vec<u32> = Vec::new();
        let mut i: usize = 0;
        #[verifier::loop_isolation(false)]
        while i < n
            invariant
                i <= n,
                all@.len() == i,
                forall|k: int| 0 <= k < i ==> (#[trigger] all@[k]) as int == k,
            decreases n - i,
        {
            all.push(i as u32);
            i = i + 1;
        }
        return all;
    }
    match grid {
        None => hash_order_sample(ids, slots, seed),
        Some(g) => {
            let packed = pack_points(ids, g.bins.as_slice(), seed);
            let non_empty = list_cells(g.bins.as_slice());
            proof {
                lemma_distinct_cells(g.bins@);
            }
            if non_empty.len() == 0 {
                return Vec::new();
            }
            proof {
                assert forall|m: int| 0 <= m < non_empty@.len() implies (
                #[trigger] non_empty@[m] as int) < g.cell_ranks@.len() by {
                    assert(distinct_cells(g.bins@).contains(non_empty@[m])) by {
                        assert(distinct_cells(g.bins@)[m] == non_empty@[m]);
                    }
                    let i1 = choose|i1: int|
                        0 <= i1 < g.bins@.len() && #[trigger] g.bins@[i1] == Some(non_empty@[m]);
                }
            }
            if non_empty.len() >= slots {
                pick_overfull(
                    &packed,
                    &non_empty,
                    &g.cell_ranks,
                    slots,
                    seed,
                    Ghost(g.bins@),
                    Ghost(ids@),
                )
            } else {
                pick_underfull(&packed, &non_empty, slots, seed, Ghost(g.bins@), Ghost(ids@))
            }
        },
    }
}

} // verus!
