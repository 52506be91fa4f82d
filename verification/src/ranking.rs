//! The order in which each heuristic considers the items.
//!
//! Every heuristic orders the item indices by a strict total order, in which
//! ties of its key go to the item that the instance lists first. The ranking
//! is the one arrangement of all indices that ascends in that order, so the
//! sort is stable by definition.
//!
//! Profit per weight is a quotient, and seldom a whole number. This module
//! does not divide: the caller hands in, for each item, an integer that
//! stands for the quotient, and the items are ranked by those integers.

use crate::error::KnapsackError;
use crate::knapsack::{Instance, Knapsack};
use vstd::prelude::*;
use vstd::set_lib::{lemma_int_range, lemma_subset_equality, set_int_range};

verus! {

/// The four greedy heuristics.
#[derive(Debug, Clone, PartialEq, Eq)]
pub enum Heuristic {
    /// Items in the order in which the instance lists them.
    Default,
    /// Most profitable items first.
    MaxProfit,
    /// Lightest items first; the pass ends at the first item that does not fit.
    MinWeight,
    /// Items with the most profit per unit of weight first. The list holds
    /// one key per item, by item index. The key stands for the quotient of
    /// the item's profit by its weight, as the caller has computed it: a
    /// greater quotient has a greater key, and equal quotients have equal
    /// keys. The key of an item of weight zero is not read.
    MaxProfitPerWeight(Vec<u64>),
}

impl Heuristic {
    /// Whether the pass ends at the first item that does not fit.
    pub open spec fn stops_at_miss_spec(self) -> bool {
        self == Heuristic::MinWeight
    }

    /// Whether the pass ends at the first item that does not fit.
    pub fn stops_at_miss(&self) -> (stops: bool)
        ensures
            stops == self.stops_at_miss_spec(),
    {
        match self {
            Heuristic::MinWeight => true,
            _ => false,
        }
    }

    /// The heuristic has what it needs to rank the items of `instance`: where
    /// it ranks by keys, one key per item.
    pub open spec fn sized_for(self, instance: Instance) -> bool {
        match self {
            Heuristic::MaxProfitPerWeight(densities) => densities@.len() == instance.n,
            _ => true,
        }
    }

    /// Whether the heuristic has what it needs to rank the items of `knapsack`.
    pub fn is_sized_for(&self, knapsack: &Knapsack) -> (ok: bool)
        ensures
            ok == self.sized_for(knapsack@),
    {
        match self {
            Heuristic::MaxProfitPerWeight(densities) => densities.len() == knapsack.n as usize,
            _ => true,
        }
    }
}

/// The key by which the profit-per-weight heuristic ranks `item`: the key
/// that the caller gave for its quotient or, for an item of weight zero, a
/// key above all of those. An item of weight zero costs no capacity, so it
/// counts as denser than every item that has weight, and as equal to every
/// other item of weight zero.
pub open spec fn density_key(instance: Instance, densities: Seq<u64>, item: int) -> int {
    if instance.weights[item] == 0 {
        u64::MAX + 1
    } else {
        densities[item] as int
    }
}

/// Item `a` is considered before item `b` by `heuristic`. Where the key of
/// the heuristic does not tell two items apart, the lower index goes first.
pub open spec fn precedes(instance: Instance, heuristic: Heuristic, a: int, b: int) -> bool {
    let pa = instance.profits[a];
    let pb = instance.profits[b];
    let wa = instance.weights[a];
    let wb = instance.weights[b];
    match heuristic {
        Heuristic::Default => a < b,
        Heuristic::MaxProfit => pa > pb || (pa == pb && a < b),
        Heuristic::MinWeight => wa < wb || (wa == wb && a < b),
        Heuristic::MaxProfitPerWeight(densities) => {
            let ka = density_key(instance, densities@, a);
            let kb = density_key(instance, densities@, b);
            ka > kb || (ka == kb && a < b)
        },
    }
}

/// `block` holds the indices from `lo` up to, not including, `hi`, and
/// ascends in the order of `heuristic`. Since that order is strict, no index
/// occurs twice, so every index of the range occurs exactly once.
pub open spec fn is_ranked_block(
    instance: Instance,
    heuristic: Heuristic,
    block: Seq<int>,
    lo: int,
    hi: int,
) -> bool {
    &&& block.len() == hi - lo
    &&& forall|i: int| 0 <= i < block.len() ==> lo <= #[trigger] block[i] < hi
    &&& forall|i: int, j: int|
        #![trigger block[i], block[j]]
        0 <= i < j < block.len() ==> precedes(instance, heuristic, block[i], block[j])
}

/// `order` arranges all item indices of `instance` as `heuristic` considers them.
pub open spec fn is_ranking(instance: Instance, heuristic: Heuristic, order: Seq<int>) -> bool {
    is_ranked_block(instance, heuristic, order, 0, instance.n as int)
}

/// Item `a` is item `b` or is considered before it.
pub open spec fn precedes_or_same(instance: Instance, heuristic: Heuristic) -> spec_fn(
    int,
    int,
) -> bool {
    |a: int, b: int| a == b || precedes(instance, heuristic, a, b)
}

/// The order in which `heuristic` considers the items of `instance`: the
/// indices `0..n`, sorted.
pub open spec fn ranking(instance: Instance, heuristic: Heuristic) -> Seq<int> {
    Seq::new(instance.n, |i: int| i).sort_by(precedes_or_same(instance, heuristic))
}

/// A list of item indices as a sequence of integers.
pub open spec fn indices(order: Seq<usize>) -> Seq<int> {
    order.map_values(|i: usize| i as int)
}

/// The order of every heuristic is a strict total order on item indices.
pub proof fn lemma_precedes_is_strict_total(instance: Instance, heuristic: Heuristic)
    ensures
        forall|a: int| !#[trigger] precedes(instance, heuristic, a, a),
        forall|a: int, b: int| #[trigger]
            precedes(instance, heuristic, a, b) ==> !precedes(instance, heuristic, b, a),
        forall|a: int, b: int|
            a != b ==> #[trigger] precedes(instance, heuristic, a, b) || precedes(
                instance,
                heuristic,
                b,
                a,
            ),
        forall|a: int, b: int, c: int|
            #![trigger precedes(instance, heuristic, a, b), precedes(instance, heuristic, b, c)]
            precedes(instance, heuristic, a, b) && precedes(instance, heuristic, b, c)
                ==> precedes(instance, heuristic, a, c),
{
}

/// Every index of the range occurs in a ranked block.
pub proof fn lemma_ranked_block_covers(
    instance: Instance,
    heuristic: Heuristic,
    block: Seq<int>,
    lo: int,
    hi: int,
    a: int,
)
    requires
        is_ranked_block(instance, heuristic, block, lo, hi),
        lo <= a < hi,
    ensures
        block.contains(a),
{
    assert forall|i: int, j: int| 0 <= i < block.len() && 0 <= j < block.len() && i != j implies block[i]
        != block[j] by {
        if i < j {
            assert(precedes(instance, heuristic, block[i], block[j]));
        } else {
            assert(precedes(instance, heuristic, block[j], block[i]));
        }
    }
    assert(block.no_duplicates());
    block.unique_seq_to_set();
    lemma_int_range(lo, hi);
    let full = set_int_range(lo, hi);
    assert forall|x: int| block.to_set().contains(x) implies full.contains(x) by {
        let i = choose|i: int| 0 <= i < block.len() && block[i] == x;
        assert(lo <= block[i] < hi);
    }
    assert(block.to_set().subset_of(full));
    lemma_subset_equality(block.to_set(), full);
    assert(full.contains(a));
    assert(block.to_set().contains(a));
}

proof fn lemma_rankings_agree_upto(
    instance: Instance,
    heuristic: Heuristic,
    first: Seq<int>,
    second: Seq<int>,
    upto: nat,
)
    requires
        is_ranking(instance, heuristic, first),
        is_ranking(instance, heuristic, second),
        upto <= instance.n,
    ensures
        forall|i: int| 0 <= i < upto ==> first[i] == second[i],
    decreases upto,
{
    if upto > 0 {
        let p = upto - 1;
        lemma_rankings_agree_upto(instance, heuristic, first, second, p as nat);
        lemma_precedes_is_strict_total(instance, heuristic);
        let a = first[p];
        let b = second[p];
        assert(0 <= a < instance.n);
        assert(0 <= b < instance.n);
        lemma_ranked_block_covers(instance, heuristic, second, 0, instance.n as int, a);
        lemma_ranked_block_covers(instance, heuristic, first, 0, instance.n as int, b);
        let ia = choose|i: int| 0 <= i < second.len() && second[i] == a;
        let ib = choose|i: int| 0 <= i < first.len() && first[i] == b;
        if ia < p {
            assert(first[ia] == second[ia]);
            assert(precedes(instance, heuristic, first[ia], first[p]));
        }
        if ib < p {
            assert(first[ib] == second[ib]);
            assert(precedes(instance, heuristic, second[ib], second[p]));
        }
        if ia > p {
            assert(precedes(instance, heuristic, second[p], second[ia]));
            if ib > p {
                assert(precedes(instance, heuristic, first[p], first[ib]));
            }
        }
    }
}

/// An instance has one ranking per heuristic: two arrangements of all item
/// indices that both ascend in the heuristic's order are the same.
pub proof fn lemma_ranking_is_unique(
    instance: Instance,
    heuristic: Heuristic,
    first: Seq<int>,
    second: Seq<int>,
)
    requires
        is_ranking(instance, heuristic, first),
        is_ranking(instance, heuristic, second),
    ensures
        first == second,
{
    lemma_rankings_agree_upto(instance, heuristic, first, second, instance.n);
    assert(first =~= second);
}

/// The ranking of an instance is an arrangement of all its item indices that
/// ascends in the heuristic's order.
pub proof fn lemma_ranking_is_ranking(instance: Instance, heuristic: Heuristic)
    ensures
        is_ranking(instance, heuristic, ranking(instance, heuristic)),
{
    broadcast use vstd::seq_lib::group_to_multiset_ensures;

    let listed = Seq::new(instance.n, |i: int| i);
    let leq = precedes_or_same(instance, heuristic);
    let sorted = ranking(instance, heuristic);
    lemma_precedes_is_strict_total(instance, heuristic);
    listed.lemma_sort_by_ensures(leq);
    assert(sorted.len() == listed.len()) by {
        assert(sorted.to_multiset().len() == listed.to_multiset().len());
    }
    assert forall|i: int| 0 <= i < sorted.len() implies 0 <= #[trigger] sorted[i] < instance.n by {
        let x = sorted[i];
        assert(sorted.contains(x));
        assert(listed.contains(x));
        let j = choose|j: int| 0 <= j < listed.len() && listed[j] == x;
        assert(listed[j] == j);
    }
    listed.lemma_multiset_has_no_duplicates();
    sorted.lemma_multiset_has_no_duplicates_conv();
    assert forall|i: int, j: int| 0 <= i < j < sorted.len() implies precedes(
        instance,
        heuristic,
        #[trigger] sorted[i],
        #[trigger] sorted[j],
    ) by {
        assert(leq(sorted[i], sorted[j]));
        assert(sorted[i] != sorted[j]);
    }
}

/// Whether item `a` is considered before item `b`.
fn comes_before(knapsack: &Knapsack, heuristic: &Heuristic, a: usize, b: usize) -> (before: bool)
    requires
        knapsack@.well_formed(),
        heuristic.sized_for(knapsack@),
        a < knapsack.n,
        b < knapsack.n,
    ensures
        before == precedes(knapsack@, *heuristic, a as int, b as int),
{
    let pa: u32 = knapsack.profits[a];
    let pb: u32 = knapsack.profits[b];
    let wa: u32 = knapsack.weights[a];
    let wb: u32 = knapsack.weights[b];
    match heuristic {
        Heuristic::Default => a < b,
        Heuristic::MaxProfit => pa > pb || (pa == pb && a < b),
        Heuristic::MinWeight => wa < wb || (wa == wb && a < b),
        Heuristic::MaxProfitPerWeight(densities) => {
            if wa == 0 {
                wb != 0 || a < b
            } else if wb == 0 {
                false
            } else {
                let ka: u64 = densities[a];
                let kb: u64 = densities[b];
                ka > kb || (ka == kb && a < b)
            }
        },
    }
}

/// Merges two adjacent ranked blocks into one.
fn merge_blocks(
    knapsack: &Knapsack,
    heuristic: &Heuristic,
    left: &Vec<usize>,
    right: &Vec<usize>,
    lo: usize,
    mid: usize,
    hi: usize,
) -> (merged: Vec<usize>)
    requires
        knapsack@.well_formed(),
        heuristic.sized_for(knapsack@),
        lo <= mid <= hi <= knapsack.n,
        is_ranked_block(knapsack@, *heuristic, indices(left@), lo as int, mid as int),
        is_ranked_block(knapsack@, *heuristic, indices(right@), mid as int, hi as int),
    ensures
        is_ranked_block(knapsack@, *heuristic, indices(merged@), lo as int, hi as int),
{
    let ghost instance = knapsack@;
    let ghost l = indices(left@);
    let ghost r = indices(right@);
    let mut merged: Vec<usize> = Vec::new();
    let mut i: usize = 0;
    let mut j: usize = 0;
    while i < left.len() || j < right.len()
        invariant
            instance == knapsack@,
            instance.well_formed(),
            heuristic.sized_for(instance),
            lo <= mid <= hi <= knapsack.n,
            l == indices(left@),
            r == indices(right@),
            is_ranked_block(instance, *heuristic, l, lo as int, mid as int),
            is_ranked_block(instance, *heuristic, r, mid as int, hi as int),
            i <= left.len(),
            j <= right.len(),
            merged.len() == i + j,
            forall|x: int| 0 <= x < merged.len() ==> lo <= #[trigger] merged[x] < hi,
            forall|x: int, y: int|
                #![trigger merged[x], merged[y]]
                0 <= x < y < merged.len() ==> precedes(
                    instance,
                    *heuristic,
                    merged[x] as int,
                    merged[y] as int,
                ),
            forall|x: int, y: int|
                #![trigger merged[x], l[y]]
                0 <= x < merged.len() && i <= y < l.len() ==> precedes(
                    instance,
                    *heuristic,
                    merged[x] as int,
                    l[y],
                ),
            forall|x: int, y: int|
                #![trigger merged[x], r[y]]
                0 <= x < merged.len() && j <= y < r.len() ==> precedes(
                    instance,
                    *heuristic,
                    merged[x] as int,
                    r[y],
                ),
        decreases left.len() - i + right.len() - j,
    {
        proof {
            lemma_precedes_is_strict_total(instance, *heuristic);
            if i < left.len() {
                assert(l[i as int] == left[i as int]);
                assert(lo <= l[i as int] < mid);
            }
            if j < right.len() {
                assert(r[j as int] == right[j as int]);
                assert(mid <= r[j as int] < hi);
            }
        }
        let from_left: bool = if j >= right.len() {
            true
        } else if i >= left.len() {
            false
        } else {
            comes_before(knapsack, heuristic, left[i], right[j])
        };
        let ghost before = merged@;
        if from_left {
            let item: usize = left[i];
            merged.push(item);
            proof {
                assert forall|y: int| i < y < l.len() implies precedes(
                    instance,
                    *heuristic,
                    item as int,
                    #[trigger] l[y],
                ) by {
                    assert(precedes(instance, *heuristic, l[i as int], l[y]));
                }
                assert forall|y: int| j <= y < r.len() implies precedes(
                    instance,
                    *heuristic,
                    item as int,
                    #[trigger] r[y],
                ) by {
                    assert(precedes(instance, *heuristic, item as int, r[j as int]));
                    if y > j {
                        assert(precedes(instance, *heuristic, r[j as int], r[y]));
                    }
                }
            }
            i += 1;
        } else {
            let item: usize = right[j];
            merged.push(item);
            proof {
                assert forall|y: int| j < y < r.len() implies precedes(
                    instance,
                    *heuristic,
                    item as int,
                    #[trigger] r[y],
                ) by {
                    assert(precedes(instance, *heuristic, r[j as int], r[y]));
                }
                assert forall|y: int| i <= y < l.len() implies precedes(
                    instance,
                    *heuristic,
                    item as int,
                    #[trigger] l[y],
                ) by {
                    assert(l[i as int] != r[j as int]);
                    assert(precedes(instance, *heuristic, item as int, l[i as int]));
                    if y > i {
                        assert(precedes(instance, *heuristic, l[i as int], l[y]));
                    }
                }
            }
            j += 1;
        }
        proof {
            assert forall|x: int, y: int| 0 <= x < y < merged.len() implies precedes(
                instance,
                *heuristic,
                #[trigger] merged[x] as int,
                #[trigger] merged[y] as int,
            ) by {
                if y < before.len() {
                    assert(merged[x] == before[x] && merged[y] == before[y]);
                } else {
                    assert(merged[x] == before[x]);
                    if from_left {
                        assert(precedes(instance, *heuristic, before[x] as int, l[i - 1]));
                    } else {
                        assert(precedes(instance, *heuristic, before[x] as int, r[j - 1]));
                    }
                }
            }
        }
    }
    merged
}

/// Ranks the items from `lo` up to, not including, `hi` by merge sort.
fn ranked_block(knapsack: &Knapsack, heuristic: &Heuristic, lo: usize, hi: usize) -> (block: Vec<
    usize,
>)
    requires
        knapsack@.well_formed(),
        heuristic.sized_for(knapsack@),
        lo <= hi <= knapsack.n,
    ensures
        is_ranked_block(knapsack@, *heuristic, indices(block@), lo as int, hi as int),
    decreases hi - lo,
{
    if hi - lo <= 1 {
        let mut block: Vec<usize> = Vec::new();
        if lo < hi {
            block.push(lo);
        }
        block
    } else {
        let mid: usize = lo + (hi - lo) / 2;
        let left: Vec<usize> = ranked_block(knapsack, heuristic, lo, mid);
        let right: Vec<usize> = ranked_block(knapsack, heuristic, mid, hi);
        merge_blocks(knapsack, heuristic, &left, &right, lo, mid, hi)
    }
}

/// Lists the items in the order they have in the instance.
fn listed_order(count: usize) -> (order: Vec<usize>)
    ensures
        order.len() == count,
        forall|i: int| 0 <= i < order.len() ==> #[trigger] order[i] == i,
{
    let mut order: Vec<usize> = Vec::new();
    let mut i: usize = 0;
    while i < count
        invariant
            i <= count,
            order.len() == i,
            forall|j: int| 0 <= j < order.len() ==> #[trigger] order[j] == j,
        decreases count - i,
    {
        order.push(i);
        i += 1;
    }
    order
}

/// Computes the order in which `heuristic` considers the items of
/// `knapsack`. Fails, with `InvalidInstance`, exactly where an item list, or
/// the key list of the heuristic, does not have `n` entries.
pub fn rank(knapsack: &Knapsack, heuristic: &Heuristic) -> (ranked: Result<
    Vec<usize>,
    KnapsackError,
>)
    ensures
        !knapsack@.well_formed() || !heuristic.sized_for(knapsack@) ==> ranked == Err::<
            Vec<usize>,
            KnapsackError,
        >(KnapsackError::InvalidInstance),
        knapsack@.well_formed() && heuristic.sized_for(knapsack@) ==> {
            &&& ranked is Ok
            &&& indices(ranked->Ok_0@) == ranking(knapsack@, *heuristic)
            &&& is_ranking(knapsack@, *heuristic, indices(ranked->Ok_0@))
        },
{
    if !knapsack.is_well_formed() || !heuristic.is_sized_for(knapsack) {
        return Err(KnapsackError::InvalidInstance);
    }
    let count: usize = knapsack.n as usize;
    let order: Vec<usize> = match heuristic {
        Heuristic::Default => listed_order(count),
        _ => ranked_block(knapsack, heuristic, 0, count),
    };
    proof {
        lemma_ranking_is_ranking(knapsack@, *heuristic);
        lemma_ranking_is_unique(
            knapsack@,
            *heuristic,
            indices(order@),
            ranking(knapsack@, *heuristic),
        );
    }
    Ok(order)
}

} // verus!
