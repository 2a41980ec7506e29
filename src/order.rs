//! Reading order: top to bottom, then left to right.

use vstd::prelude::*;
use crate::fraction::{BoundingBox, less_than, lemma_magnitude_order_is_numeric};
use crate::pairs::{KeyValuePair, PairView, pairs_view};

verus! {

/// Where a record stands on the page: its key's box, else its value's box.
pub open spec fn anchor(p: PairView) -> Option<BoundingBox> {
    if p.key_box is Some {
        p.key_box
    } else {
        p.value_box
    }
}

/// The rank of a record in reading order: by `top`, then by `left`, each by
/// its magnitude pattern, which orders fractions in `[0, 1]` by value; the
/// records without a position come after all others and equal among themselves.
pub open spec fn reading_key(p: PairView) -> int {
    match anchor(p) {
        Some(b) => b.top.magnitude() as int * 0x1_0000_0000 + b.left.magnitude() as int,
        None => 0x1_0000_0000_0000_0000,
    }
}

/// In the list `s`, the record at `i` comes before the one at `j` once sorted:
/// by reading key, and among equal keys by position in `s`.
pub open spec fn comes_before(s: Seq<PairView>, i: int, j: int) -> bool {
    reading_key(s[i]) < reading_key(s[j]) || (reading_key(s[i]) == reading_key(s[j]) && i < j)
}

/// `sorted` is `unsorted` in reading order, record `k` of it being record
/// `perm[k]` of `unsorted`. Records of equal key keep their order, so this
/// fixes `sorted`.
pub open spec fn is_reading_order(unsorted: Seq<PairView>, sorted: Seq<PairView>, perm: Seq<int>) -> bool {
    &&& sorted.len() == unsorted.len()
    &&& perm.len() == unsorted.len()
    &&& forall|k: int| 0 <= k < perm.len() ==> 0 <= #[trigger] perm[k] < unsorted.len()
    &&& forall|k: int| 0 <= k < perm.len() ==> #[trigger] sorted[k] == unsorted[perm[k]]
    &&& forall|k: int, l: int| 0 <= k < l < perm.len() ==> comes_before(unsorted, #[trigger] perm[k], #[trigger] perm[l])
}

/// The reading key of a record.
pub fn reading_key_of(p: &KeyValuePair) -> (r: u128)
    ensures
        r as int == reading_key(p@),
{
    let b = if p.key_bounding_box.is_some() { p.key_bounding_box } else { p.value_bounding_box };
    match b {
        Some(b) => b.top.magnitude_bits() as u128 * 0x1_0000_0000 + b.left.magnitude_bits() as u128,
        None => 0x1_0000_0000_0000_0000,
    }
}

/// The positions of `pairs` in reading order: a stable insertion sort.
fn reading_order_positions(pairs: &Vec<KeyValuePair>) -> (r: Vec<usize>)
    ensures
        r@.len() == pairs@.len(),
        forall|k: int| 0 <= k < r@.len() ==> #[trigger] r@[k] < pairs@.len(),
        forall|k: int, l: int|
            0 <= k < l < r@.len() ==> comes_before(pairs_view(pairs@), #[trigger] r@[k] as int, #[trigger] r@[l] as int),
{
    let ghost v = pairs_view(pairs@);
    let n = pairs.len();
    let mut keys: Vec<u128> = Vec::new();
    let mut i: usize = 0;
    while i < n
        invariant
            i <= n,
            n == pairs@.len(),
            v == pairs_view(pairs@),
            keys@.len() == i,
            forall|m: int| 0 <= m < i ==> #[trigger] keys@[m] as int == reading_key(v[m]),
        decreases n - i,
    {
        keys.push(reading_key_of(&pairs[i]));
        i = i + 1;
    }
    let mut order: Vec<usize> = Vec::new();
    let mut i: usize = 0;
    while i < n
        invariant
            i <= n,
            n == pairs@.len(),
            v == pairs_view(pairs@),
            v.len() == n,
            keys@.len() == n,
            forall|m: int| 0 <= m < n ==> #[trigger] keys@[m] as int == reading_key(v[m]),
            order@.len() == i,
            forall|k: int| 0 <= k < i ==> #[trigger] order@[k] < i,
            forall|k: int, l: int|
                0 <= k < l < i ==> comes_before(v, #[trigger] order@[k] as int, #[trigger] order@[l] as int),
        decreases n - i,
    {
        let key = keys[i];
        let mut j: usize = i;
        while j > 0 && keys[order[j - 1]] > key
            invariant
                j <= i,
                i < n,
                order@.len() == i,
                keys@.len() == n,
                key == keys@[i as int],
                forall|k: int| 0 <= k < i ==> #[trigger] order@[k] < i,
                forall|m: int| j <= m < i ==> keys@[#[trigger] order@[m] as int] > key,
            decreases j,
        {
            j = j - 1;
        }
        proof {
            assert forall|k: int| 0 <= k < j implies comes_before(v, #[trigger] order@[k] as int, i as int) by {
                if k < j - 1 {
                    assert(comes_before(v, order@[k] as int, order@[j - 1] as int));
                }
            }
        }
        let ghost before = order@;
        order.insert(j, i);
        proof {
            assert forall|k: int, l: int|
                0 <= k < l < i + 1 implies comes_before(v, #[trigger] order@[k] as int, #[trigger] order@[l] as int) by {
                if l < j {
                    assert(order@[k] == before[k] && order@[l] == before[l]);
                } else if l == j {
                    assert(order@[k] == before[k]);
                    assert(comes_before(v, before[k] as int, i as int));
                } else if k < j {
                    assert(order@[k] == before[k] && order@[l] == before[l - 1]);
                    assert(comes_before(v, before[k] as int, i as int));
                    assert(keys@[before[l - 1] as int] > key);
                    assert(keys@[before[k] as int] <= key);
                } else if k == j {
                    assert(order@[l] == before[l - 1]);
                    assert(keys@[before[l - 1] as int] > key);
                } else {
                    assert(order@[k] == before[k - 1] && order@[l] == before[l - 1]);
                }
            }
        }
        i = i + 1;
    }
    order
}

/// Puts `pairs` in reading order: records with a position first, by `top`
/// and then by `left` as numbers (`-0.0` counting as zero); then the records
/// without one. The sort is stable: records of equal rank keep their order.
pub fn sort_key_value_pairs(pairs: &mut Vec<KeyValuePair>)
    ensures
        exists|perm: Seq<int>| is_reading_order(pairs_view(old(pairs)@), pairs_view(final(pairs)@), perm),
        numerically_ordered(pairs_view(final(pairs)@)),
{
    let order = reading_order_positions(pairs);
    let ghost v = pairs_view(pairs@);
    let mut out: Vec<KeyValuePair> = Vec::new();
    let mut k: usize = 0;
    while k < order.len()
        invariant
            k <= order@.len(),
            order@.len() == pairs@.len(),
            v == pairs_view(pairs@),
            forall|m: int| 0 <= m < order@.len() ==> #[trigger] order@[m] < pairs@.len(),
            out@.len() == k,
            forall|m: int| 0 <= m < k ==> #[trigger] out@[m]@ == v[order@[m] as int],
        decreases order@.len() - k,
    {
        out.push(pairs[order[k]].duplicate());
        k = k + 1;
    }
    let ghost perm = order@.map_values(|x: usize| x as int);
    proof {
        let sorted = pairs_view(out@);
        assert forall|m: int| 0 <= m < perm.len() implies #[trigger] sorted[m] == v[perm[m]] by {
            assert(perm[m] == order@[m] as int);
        }
        assert forall|a: int, b: int| 0 <= a < b < perm.len() implies comes_before(v, #[trigger] perm[a], #[trigger] perm[b]) by {
            assert(perm[a] == order@[a] as int && perm[b] == order@[b] as int);
        }
        assert(is_reading_order(v, sorted, perm));
        lemma_reading_order_is_numeric(v, sorted, perm);
    }
    *pairs = out;
}

/// In reading order, of two records with a position the one with the smaller
/// `top` comes first, and of two with equal `top` the one with the smaller
/// `left`.
pub proof fn lemma_reading_order_top_then_left(unsorted: Seq<PairView>, sorted: Seq<PairView>, perm: Seq<int>)
    requires
        is_reading_order(unsorted, sorted, perm),
    ensures
        forall|k: int, l: int|
            0 <= k < l < sorted.len() && anchor(#[trigger] sorted[k]) is Some && anchor(#[trigger] sorted[l]) is Some ==> {
                let a = anchor(sorted[k])->0;
                let b = anchor(sorted[l])->0;
                a.top.magnitude() < b.top.magnitude() || (a.top.magnitude() == b.top.magnitude() && a.left.magnitude() <= b.left.magnitude())
            },
{
    assert forall|k: int, l: int|
        0 <= k < l < sorted.len() && anchor(#[trigger] sorted[k]) is Some && anchor(#[trigger] sorted[l]) is Some implies {
            let a = anchor(sorted[k])->0;
            let b = anchor(sorted[l])->0;
            a.top.magnitude() < b.top.magnitude() || (a.top.magnitude() == b.top.magnitude() && a.left.magnitude() <= b.left.magnitude())
        } by {
        assert(comes_before(unsorted, perm[k], perm[l]));
        let a = anchor(sorted[k])->0;
        let b = anchor(sorted[l])->0;
        assert(reading_key(sorted[k]) <= reading_key(sorted[l]));
        assert(a.top.magnitude() < b.top.magnitude() || (a.top.magnitude() == b.top.magnitude() && a.left.magnitude() <= b.left.magnitude())) by (nonlinear_arith)
            requires
                a.top.magnitude() as int * 0x1_0000_0000 + a.left.magnitude() as int
                    <= b.top.magnitude() as int * 0x1_0000_0000 + b.left.magnitude() as int,
                a.left.magnitude() < 0x1_0000_0000,
                b.left.magnitude() < 0x1_0000_0000;
    }
}

/// Of two records with a position whose coordinates lie in `[0, 1]`, the
/// later has no smaller `top` as a number, and, where the two `top`s are
/// equal numbers, no smaller `left`.
pub open spec fn numerically_ordered(sorted: Seq<PairView>) -> bool {
    forall|k: int, l: int|
        0 <= k < l < sorted.len() && anchor(#[trigger] sorted[k]) is Some && anchor(#[trigger] sorted[l]) is Some
            && anchor(sorted[k])->0.top.wf() && anchor(sorted[l])->0.top.wf()
            && anchor(sorted[k])->0.left.wf() && anchor(sorted[l])->0.left.wf()
            ==> {
                let a = anchor(sorted[k])->0;
                let b = anchor(sorted[l])->0;
                &&& !less_than(b.top, a.top)
                &&& (!less_than(a.top, b.top) ==> !less_than(b.left, a.left))
            }
}

/// Reading order compares `top` and then `left` as numbers.
pub proof fn lemma_reading_order_is_numeric(unsorted: Seq<PairView>, sorted: Seq<PairView>, perm: Seq<int>)
    requires
        is_reading_order(unsorted, sorted, perm),
    ensures
        numerically_ordered(sorted),
{
    lemma_reading_order_top_then_left(unsorted, sorted, perm);
    assert forall|k: int, l: int|
        0 <= k < l < sorted.len() && anchor(#[trigger] sorted[k]) is Some && anchor(#[trigger] sorted[l]) is Some
            && anchor(sorted[k])->0.top.wf() && anchor(sorted[l])->0.top.wf()
            && anchor(sorted[k])->0.left.wf() && anchor(sorted[l])->0.left.wf()
            implies {
                let a = anchor(sorted[k])->0;
                let b = anchor(sorted[l])->0;
                &&& !less_than(b.top, a.top)
                &&& (!less_than(a.top, b.top) ==> !less_than(b.left, a.left))
            } by {
        let a = anchor(sorted[k])->0;
        let b = anchor(sorted[l])->0;
        lemma_magnitude_order_is_numeric(a.top, b.top);
        lemma_magnitude_order_is_numeric(b.top, a.top);
        lemma_magnitude_order_is_numeric(b.left, a.left);
    }
}

/// In reading order, every record with a position comes before every record
/// without one.
pub proof fn lemma_reading_order_positioned_first(unsorted: Seq<PairView>, sorted: Seq<PairView>, perm: Seq<int>)
    requires
        is_reading_order(unsorted, sorted, perm),
    ensures
        forall|k: int, l: int|
            0 <= k < l < sorted.len() && anchor(#[trigger] sorted[l]) is Some ==> anchor(#[trigger] sorted[k]) is Some,
{
    assert forall|k: int, l: int|
        0 <= k < l < sorted.len() && anchor(#[trigger] sorted[l]) is Some implies anchor(#[trigger] sorted[k]) is Some by {
        assert(comes_before(unsorted, perm[k], perm[l]));
        if let Some(b) = anchor(sorted[l]) {
            assert(reading_key(sorted[l]) < 0x1_0000_0000_0000_0000) by (nonlinear_arith)
                requires
                    reading_key(sorted[l]) == b.top.magnitude() as int * 0x1_0000_0000 + b.left.magnitude() as int,
                    b.top.magnitude() < 0x1_0000_0000,
                    b.left.magnitude() < 0x1_0000_0000;
        }
    }
}

/// Records without a position keep, in reading order, the order they had.
pub proof fn lemma_reading_order_keeps_unplaced(unsorted: Seq<PairView>, sorted: Seq<PairView>, perm: Seq<int>)
    requires
        is_reading_order(unsorted, sorted, perm),
    ensures
        forall|k: int, l: int|
            0 <= k < l < sorted.len() && anchor(#[trigger] sorted[k]) is None && anchor(#[trigger] sorted[l]) is None
                ==> perm[k] < perm[l],
{
    assert forall|k: int, l: int|
        0 <= k < l < sorted.len() && anchor(#[trigger] sorted[k]) is None && anchor(#[trigger] sorted[l]) is None
            implies perm[k] < perm[l] by {
        assert(comes_before(unsorted, perm[k], perm[l]));
    }
}

} // verus!
