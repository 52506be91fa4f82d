//! The greedy pass and the four heuristics built on it.
//!
//! A pass walks an order of item indices once. It admits an item where the
//! item's weight, added to the weight admitted so far, stays within the
//! capacity. The heuristics differ in the order they walk, and in whether the
//! pass goes on after an item that does not fit.

use crate::error::KnapsackError;
use crate::knapsack::{selected_sum, Instance, Knapsack, Selection, Solution};
use crate::ranking::{indices, is_ranking, precedes, rank, ranking, Heuristic};
use vstd::prelude::*;

verus! {

/// The state of a pass: what it has chosen, and whether it has ended early.
pub struct Pass {
    pub chosen: Selection,
    pub halted: bool,
}

/// The state in which every pass begins.
pub open spec fn start(instance: Instance) -> Pass {
    Pass { chosen: Selection::none(instance.n), halted: false }
}

/// The state after a pass in state `before` has looked at `item`. A pass that
/// has ended changes nothing, and neither does an item that is chosen
/// already. Otherwise the item is admitted where it fits; where it does not,
/// the pass ends if `stop_at_miss` is set.
pub open spec fn consider(instance: Instance, before: Pass, item: int, stop_at_miss: bool) -> Pass {
    let chosen = before.chosen;
    if before.halted || chosen.chromosome[item] == 1 {
        before
    } else if chosen.weight + instance.weights[item] <= instance.capacity {
        Pass {
            chosen: Selection {
                profits: chosen.profits + instance.profits[item],
                weight: chosen.weight + instance.weights[item],
                chromosome: chosen.chromosome.update(item, 1),
            },
            halted: false,
        }
    } else {
        Pass { chosen, halted: stop_at_miss }
    }
}

/// The state of a pass over `order` after its first `steps` entries.
pub open spec fn pass(instance: Instance, order: Seq<int>, stop_at_miss: bool, steps: nat) -> Pass
    decreases steps,
{
    if steps == 0 {
        start(instance)
    } else {
        consider(
            instance,
            pass(instance, order, stop_at_miss, (steps - 1) as nat),
            order[steps - 1],
            stop_at_miss,
        )
    }
}

/// Every entry of `order` is the index of an item of `instance`.
pub open spec fn names_items(instance: Instance, order: Seq<int>) -> bool {
    forall|i: int| 0 <= i < order.len() ==> 0 <= #[trigger] order[i] < instance.n
}

/// What `heuristic` chooses on `instance`: the outcome of one pass over the
/// heuristic's ranking of all items.
pub open spec fn solution(instance: Instance, heuristic: Heuristic) -> Selection {
    pass(
        instance,
        ranking(instance, heuristic),
        heuristic.stops_at_miss_spec(),
        instance.n,
    ).chosen
}

proof fn lemma_selected_sum_of_none(values: Seq<nat>, n: nat, upto: nat)
    requires
        upto <= n,
    ensures
        selected_sum(values, Selection::none(n).chromosome, upto) == 0,
    decreases upto,
{
    if upto > 0 {
        lemma_selected_sum_of_none(values, n, (upto - 1) as nat);
    }
}

proof fn lemma_selected_sum_after_choice(values: Seq<nat>, flags: Seq<nat>, item: int, upto: nat)
    requires
        0 <= item < flags.len(),
        flags[item] != 1,
        upto <= flags.len(),
    ensures
        selected_sum(values, flags.update(item, 1), upto) == selected_sum(values, flags, upto) + (
        if item < upto {
            values[item]
        } else {
            0
        }),
    decreases upto,
{
    if upto > 0 {
        lemma_selected_sum_after_choice(values, flags, item, (upto - 1) as nat);
    }
}

proof fn lemma_selected_sum_is_bounded(values: Seq<nat>, flags: Seq<nat>, upto: nat, bound: nat)
    requires
        upto <= values.len(),
        forall|i: int| 0 <= i < values.len() ==> #[trigger] values[i] <= bound,
    ensures
        selected_sum(values, flags, upto) <= upto * bound,
    decreases upto,
{
    if upto > 0 {
        lemma_selected_sum_is_bounded(values, flags, (upto - 1) as nat, bound);
        assert(upto * bound == (upto - 1) * bound + bound) by (nonlinear_arith);
    }
}

/// One step keeps a feasible selection feasible.
proof fn lemma_consider_keeps_feasible(
    instance: Instance,
    before: Pass,
    item: int,
    stop_at_miss: bool,
)
    requires
        instance.well_formed(),
        before.chosen.feasible_for(instance),
        0 <= item < instance.n,
    ensures
        consider(instance, before, item, stop_at_miss).chosen.feasible_for(instance),
{
    let after = consider(instance, before, item, stop_at_miss);
    if after != before && after.chosen != before.chosen {
        let flags = before.chosen.chromosome;
        lemma_selected_sum_after_choice(instance.weights, flags, item, instance.n);
        lemma_selected_sum_after_choice(instance.profits, flags, item, instance.n);
    }
}

/// Whatever the order, a pass over item indices chooses a feasible
/// selection: one flag per item, each 0 or 1, totals that are the sums over
/// the chosen items, and a weight within the capacity.
pub proof fn lemma_pass_is_feasible(
    instance: Instance,
    order: Seq<int>,
    stop_at_miss: bool,
    steps: nat,
)
    requires
        instance.well_formed(),
        names_items(instance, order),
        steps <= order.len(),
    ensures
        pass(instance, order, stop_at_miss, steps).chosen.feasible_for(instance),
    decreases steps,
{
    if steps == 0 {
        lemma_selected_sum_of_none(instance.weights, instance.n, instance.n);
        lemma_selected_sum_of_none(instance.profits, instance.n, instance.n);
    } else {
        lemma_pass_is_feasible(instance, order, stop_at_miss, (steps - 1) as nat);
        lemma_consider_keeps_feasible(
            instance,
            pass(instance, order, stop_at_miss, (steps - 1) as nat),
            order[steps - 1],
            stop_at_miss,
        );
    }
}

/// A pass that has ended stays as it is.
pub proof fn lemma_halted_pass_stays(
    instance: Instance,
    order: Seq<int>,
    stop_at_miss: bool,
    steps: nat,
    later: nat,
)
    requires
        steps <= later,
        pass(instance, order, stop_at_miss, steps).halted,
    ensures
        pass(instance, order, stop_at_miss, later) == pass(instance, order, stop_at_miss, steps),
    decreases later,
{
    if steps < later {
        lemma_halted_pass_stays(instance, order, stop_at_miss, steps, (later - 1) as nat);
    }
}

/// Every heuristic chooses a feasible selection on every well-formed instance.
pub proof fn lemma_solution_is_feasible(instance: Instance, heuristic: Heuristic)
    requires
        instance.well_formed(),
    ensures
        solution(instance, heuristic).feasible_for(instance),
{
    crate::ranking::lemma_ranking_is_ranking(instance, heuristic);
    lemma_pass_is_feasible(
        instance,
        ranking(instance, heuristic),
        heuristic.stops_at_miss_spec(),
        instance.n,
    );
}

/// A solution that chooses none of `count` items.
fn nothing_chosen(count: usize) -> (solution: Solution)
    ensures
        solution@ == Selection::none(count as nat),
{
    let mut chromosome: Vec<u32> = Vec::new();
    let mut i: usize = 0;
    while i < count
        invariant
            i <= count,
            chromosome.len() == i,
            forall|j: int| 0 <= j < chromosome.len() ==> #[trigger] chromosome[j] == 0,
        decreases count - i,
    {
        chromosome.push(0);
        i += 1;
    }
    let solution = Solution { profits: 0, weight: 0, chromosome };
    assert(solution@.chromosome =~= Selection::none(count as nat).chromosome);
    solution
}

/// Looks at one item: admits it into `partial` where it is not chosen yet and
/// fits. Returns whether the pass ends here.
fn consider_item(knapsack: &Knapsack, partial: &mut Solution, item: usize, stop_at_miss: bool) -> (halted:
    bool)
    requires
        knapsack@.well_formed(),
        item < knapsack.n,
        old(partial)@.feasible_for(knapsack@),
    ensures
        (Pass { chosen: final(partial)@, halted }) == consider(
            knapsack@,
            (Pass { chosen: old(partial)@, halted: false }),
            item as int,
            stop_at_miss,
        ),
        final(partial)@.feasible_for(knapsack@),
{
    let ghost instance = knapsack@;
    let ghost before = Pass { chosen: partial@, halted: false };
    proof {
        lemma_consider_keeps_feasible(instance, before, item as int, stop_at_miss);
    }
    if partial.chromosome[item] == 1 {
        return false;
    }
    let weight: u32 = knapsack.weights[item];
    let profit: u32 = knapsack.profits[item];
    if weight <= knapsack.capacity - partial.weight {
        proof {
            let after = consider(instance, before, item as int, stop_at_miss);
            lemma_selected_sum_is_bounded(
                instance.profits,
                after.chosen.chromosome,
                instance.n,
                0xffff_ffff,
            );
        }
        partial.weight = partial.weight + weight;
        partial.profits = partial.profits + profit as u64;
        partial.chromosome.set(item, 1);
        assert(partial@.chromosome =~= before.chosen.chromosome.update(item as int, 1));
        false
    } else {
        stop_at_miss
    }
}

/// Runs one pass over `order`.
fn run_pass(knapsack: &Knapsack, order: &Vec<usize>, stop_at_miss: bool) -> (solution: Solution)
    requires
        knapsack@.well_formed(),
        names_items(knapsack@, indices(order@)),
    ensures
        solution@ == pass(knapsack@, indices(order@), stop_at_miss, order@.len()).chosen,
        solution@.feasible_for(knapsack@),
{
    let ghost instance = knapsack@;
    let ghost walk = indices(order@);
    let mut partial: Solution = nothing_chosen(knapsack.n as usize);
    let mut halted: bool = false;
    let mut i: usize = 0;
    proof {
        lemma_pass_is_feasible(instance, walk, stop_at_miss, 0);
    }
    while i < order.len() && !halted
        invariant
            instance == knapsack@,
            instance.well_formed(),
            walk == indices(order@),
            names_items(instance, walk),
            i <= order.len(),
            (Pass { chosen: partial@, halted }) == pass(instance, walk, stop_at_miss, i as nat),
            partial@.feasible_for(instance),
        decreases order.len() - i,
    {
        assert(0 <= walk[i as int] < instance.n);
        halted = consider_item(knapsack, &mut partial, order[i], stop_at_miss);
        i += 1;
    }
    proof {
        if halted {
            lemma_halted_pass_stays(instance, walk, stop_at_miss, i as nat, order@.len());
        }
    }
    partial
}

/// Whether every entry of `order` is below `count`.
fn all_below(order: &Vec<usize>, count: usize) -> (ok: bool)
    ensures
        ok == (forall|i: int| 0 <= i < order.len() ==> #[trigger] order[i] < count),
{
    let mut i: usize = 0;
    while i < order.len()
        invariant
            i <= order.len(),
            forall|j: int| 0 <= j < i ==> #[trigger] order[j] < count,
        decreases order.len() - i,
    {
        if order[i] >= count {
            return false;
        }
        i += 1;
    }
    true
}

/// Runs one greedy pass over the items in the order given. An entry that
/// names an item already chosen changes nothing.
///
/// Fails with `InvalidInstance` where the item lists do not match `n`, and
/// otherwise with `IndexOutOfRange` where some entry of `order` names no
/// item. On every other input the pass is run and its selection returned;
/// that selection is feasible.
pub fn pack(knapsack: &Knapsack, order: &Vec<usize>, stop_at_miss: bool) -> (packed: Result<
    Solution,
    KnapsackError,
>)
    ensures
        !knapsack@.well_formed() ==> packed == Err::<Solution, KnapsackError>(
            KnapsackError::InvalidInstance,
        ),
        knapsack@.well_formed() && !names_items(knapsack@, indices(order@)) ==> packed == Err::<
            Solution,
            KnapsackError,
        >(KnapsackError::IndexOutOfRange),
        knapsack@.well_formed() && names_items(knapsack@, indices(order@)) ==> {
            &&& packed is Ok
            &&& packed->Ok_0@ == pass(
                knapsack@,
                indices(order@),
                stop_at_miss,
                order@.len(),
            ).chosen
            &&& packed->Ok_0@.feasible_for(knapsack@)
            &&& packed->Ok_0.weight <= knapsack.capacity
            &&& packed->Ok_0.chromosome.len() == knapsack.n
        },
{
    if !knapsack.is_well_formed() {
        return Err(KnapsackError::InvalidInstance);
    }
    let ghost walk = indices(order@);
    if !all_below(order, knapsack.n as usize) {
        proof {
            let i = choose|i: int| 0 <= i < order.len() && !(#[trigger] order[i] < knapsack.n);
            assert(!(0 <= walk[i] < knapsack@.n));
        }
        return Err(KnapsackError::IndexOutOfRange);
    }
    Ok(run_pass(knapsack, order, stop_at_miss))
}

/// Solves `knapsack` by `heuristic`: ranks the items and runs one pass over
/// the ranking.
///
/// Fails, with `InvalidInstance`, exactly where an item list, or the key
/// list of the heuristic, does not have `n` entries. On every other input
/// the result is the heuristic's selection, which is feasible.
pub fn solve(knapsack: &Knapsack, heuristic: &Heuristic) -> (solved: Result<
    Solution,
    KnapsackError,
>)
    ensures
        !knapsack@.well_formed() || !heuristic.sized_for(knapsack@) ==> solved == Err::<
            Solution,
            KnapsackError,
        >(KnapsackError::InvalidInstance),
        knapsack@.well_formed() && heuristic.sized_for(knapsack@) ==> {
            &&& solved is Ok
            &&& solved->Ok_0@ == solution(knapsack@, *heuristic)
            &&& solved->Ok_0@.feasible_for(knapsack@)
            &&& solved->Ok_0.weight <= knapsack.capacity
            &&& solved->Ok_0.chromosome.len() == knapsack.n
        },
{
    match rank(knapsack, heuristic) {
        Err(error) => Err(error),
        Ok(order) => Ok(run_pass(knapsack, &order, heuristic.stops_at_miss())),
    }
}

/// How many of the first `upto` steps of a pass are done before it ends.
pub open spec fn steps_before_halt(
    instance: Instance,
    order: Seq<int>,
    stop_at_miss: bool,
    upto: nat,
) -> nat
    decreases upto,
{
    if upto == 0 {
        0
    } else if pass(instance, order, stop_at_miss, upto).halted {
        steps_before_halt(instance, order, stop_at_miss, (upto - 1) as nat)
    } else {
        upto
    }
}

/// What `heuristic` has chosen on `instance` after each step of its pass, up
/// to the step that ends the pass, which is left out.
pub open spec fn steps(instance: Instance, heuristic: Heuristic) -> Seq<Selection> {
    let order = ranking(instance, heuristic);
    let stop_at_miss = heuristic.stops_at_miss_spec();
    Seq::new(
        steps_before_halt(instance, order, stop_at_miss, instance.n),
        |i: int| pass(instance, order, stop_at_miss, (i + 1) as nat).chosen,
    )
}

/// A list of solutions as a sequence of selections.
pub open spec fn selections(solutions: Seq<Solution>) -> Seq<Selection> {
    solutions.map_values(|solution: Solution| solution@)
}

proof fn lemma_steps_before_halt(
    instance: Instance,
    order: Seq<int>,
    stop_at_miss: bool,
    done: nat,
    upto: nat,
)
    requires
        done <= upto,
        !pass(instance, order, stop_at_miss, done).halted,
        done < upto ==> pass(instance, order, stop_at_miss, done + 1).halted,
    ensures
        steps_before_halt(instance, order, stop_at_miss, upto) == done,
    decreases upto,
{
    if done < upto {
        lemma_halted_pass_stays(instance, order, stop_at_miss, done + 1, upto);
        lemma_steps_before_halt(instance, order, stop_at_miss, done, (upto - 1) as nat);
    }
}

/// A copy of a solution.
fn copy_of(solution: &Solution) -> (copy: Solution)
    ensures
        copy@ == solution@,
{
    let copy = Solution {
        profits: solution.profits,
        weight: solution.weight,
        chromosome: solution.chromosome.clone(),
    };
    copy
}

/// Solves `knapsack` by `heuristic` and reports the partial solution after
/// each step of the pass, in the order of the steps. A step that ends the
/// pass is not reported, so the last entry, where there is one, is the
/// heuristic's solution.
///
/// Fails, with `InvalidInstance`, exactly where an item list, or the key
/// list of the heuristic, does not have `n` entries.
pub fn trace(knapsack: &Knapsack, heuristic: &Heuristic) -> (traced: Result<
    Vec<Solution>,
    KnapsackError,
>)
    ensures
        !knapsack@.well_formed() || !heuristic.sized_for(knapsack@) ==> traced == Err::<
            Vec<Solution>,
            KnapsackError,
        >(KnapsackError::InvalidInstance),
        knapsack@.well_formed() && heuristic.sized_for(knapsack@) ==> traced is Ok && selections(
            traced->Ok_0@,
        ) == steps(knapsack@, *heuristic),
{
    let order: Vec<usize> = match rank(knapsack, heuristic) {
        Err(error) => {
            return Err(error);
        },
        Ok(order) => order,
    };
    let ghost instance = knapsack@;
    let ghost walk = indices(order@);
    let stop_at_miss: bool = heuristic.stops_at_miss();
    let mut partial: Solution = nothing_chosen(knapsack.n as usize);
    let mut reported: Vec<Solution> = Vec::new();
    let mut halted: bool = false;
    let mut i: usize = 0;
    proof {
        lemma_pass_is_feasible(instance, walk, stop_at_miss, 0);
    }
    while i < order.len() && !halted
        invariant
            instance == knapsack@,
            instance.well_formed(),
            walk == indices(order@),
            names_items(instance, walk),
            i <= order.len(),
            (Pass { chosen: partial@, halted }) == pass(instance, walk, stop_at_miss, i as nat),
            partial@.feasible_for(instance),
            !halted ==> reported.len() == i,
            halted ==> reported.len() + 1 == i,
            !pass(instance, walk, stop_at_miss, reported@.len()).halted,
            forall|j: int|
                0 <= j < reported.len() ==> (#[trigger] reported[j])@ == pass(
                    instance,
                    walk,
                    stop_at_miss,
                    (j + 1) as nat,
                ).chosen,
        decreases order.len() - i,
    {
        assert(0 <= walk[i as int] < instance.n);
        halted = consider_item(knapsack, &mut partial, order[i], stop_at_miss);
        i += 1;
        if !halted {
            reported.push(copy_of(&partial));
        }
    }
    proof {
        lemma_steps_before_halt(instance, walk, stop_at_miss, reported@.len(), instance.n);
        assert(selections(reported@) =~= steps(instance, *heuristic));
    }
    Ok(reported)
}

/// The ranking of the first-fit heuristic lists the items as the instance does.
pub proof fn lemma_default_ranking_is_listing(instance: Instance)
    ensures
        ranking(instance, Heuristic::Default) == Seq::new(instance.n, |i: int| i),
{
    crate::ranking::lemma_ranking_is_ranking(instance, Heuristic::Default);
    crate::ranking::lemma_ranking_is_unique(
        instance,
        Heuristic::Default,
        ranking(instance, Heuristic::Default),
        Seq::new(instance.n, |i: int| i),
    );
}

/// First fit: looks at the items in the order of the instance and admits
/// every item that still fits. An item that does not fit is passed over, and
/// the items after it are still looked at.
///
/// Fails, with `InvalidInstance`, exactly where the item lists do not match `n`.
pub fn default(knapsack: &Knapsack) -> (solved: Result<Solution, KnapsackError>)
    ensures
        !knapsack@.well_formed() ==> solved == Err::<Solution, KnapsackError>(
            KnapsackError::InvalidInstance,
        ),
        knapsack@.well_formed() ==> {
            &&& solved is Ok
            &&& solved->Ok_0@ == solution(knapsack@, Heuristic::Default)
            &&& solved->Ok_0@ == pass(
                knapsack@,
                Seq::new(knapsack@.n, |i: int| i),
                false,
                knapsack@.n,
            ).chosen
            &&& solved->Ok_0@.feasible_for(knapsack@)
            &&& solved->Ok_0.weight <= knapsack.capacity
            &&& solved->Ok_0.chromosome.len() == knapsack.n
        },
{
    proof {
        lemma_default_ranking_is_listing(knapsack@);
    }
    solve(knapsack, &Heuristic::Default)
}

/// Maximum profit: looks at the items from the most profitable down, items
/// of equal profit in the order of the instance, and admits every item that
/// still fits.
///
/// Fails, with `InvalidInstance`, exactly where the item lists do not match `n`.
pub fn map(knapsack: &Knapsack) -> (solved: Result<Solution, KnapsackError>)
    ensures
        !knapsack@.well_formed() ==> solved == Err::<Solution, KnapsackError>(
            KnapsackError::InvalidInstance,
        ),
        knapsack@.well_formed() ==> {
            &&& solved is Ok
            &&& solved->Ok_0@ == solution(knapsack@, Heuristic::MaxProfit)
            &&& solved->Ok_0@.feasible_for(knapsack@)
            &&& solved->Ok_0.weight <= knapsack.capacity
            &&& solved->Ok_0.chromosome.len() == knapsack.n
        },
{
    solve(knapsack, &Heuristic::MaxProfit)
}

/// Minimum weight: looks at the items from the lightest up, items of equal
/// weight in the order of the instance, admits every item that fits and ends
/// at the first that does not: no later item is lighter, so none would fit.
///
/// Fails, with `InvalidInstance`, exactly where the item lists do not match `n`.
pub fn miw(knapsack: &Knapsack) -> (solved: Result<Solution, KnapsackError>)
    ensures
        !knapsack@.well_formed() ==> solved == Err::<Solution, KnapsackError>(
            KnapsackError::InvalidInstance,
        ),
        knapsack@.well_formed() ==> {
            &&& solved is Ok
            &&& solved->Ok_0@ == solution(knapsack@, Heuristic::MinWeight)
            &&& solved->Ok_0@.feasible_for(knapsack@)
            &&& solved->Ok_0.weight <= knapsack.capacity
            &&& solved->Ok_0.chromosome.len() == knapsack.n
        },
{
    solve(knapsack, &Heuristic::MinWeight)
}

/// Maximum profit per weight: looks at the items from the greatest quotient
/// of profit by weight down, items of equal quotient in the order of the
/// instance, and admits every item that still fits. Items of weight zero come
/// first, in the order of the instance.
///
/// The quotients are the caller's: `densities[i]` is an integer that stands
/// for the quotient of item `i`, greater for a greater quotient and equal
/// for an equal one. For quotients taken in floating point, which are never
/// negative here, the bit pattern of the quotient is such an integer. The
/// entry of an item of weight zero is not read.
///
/// Fails, with `InvalidInstance`, exactly where an item list or `densities`
/// does not have `n` entries.
pub fn mpw(knapsack: &Knapsack, densities: Vec<u64>) -> (solved: Result<Solution, KnapsackError>)
    ensures
        !knapsack@.well_formed() || densities.len() != knapsack.n ==> solved == Err::<
            Solution,
            KnapsackError,
        >(KnapsackError::InvalidInstance),
        knapsack@.well_formed() && densities.len() == knapsack.n ==> {
            &&& solved is Ok
            &&& solved->Ok_0@ == solution(knapsack@, Heuristic::MaxProfitPerWeight(densities))
            &&& solved->Ok_0@.feasible_for(knapsack@)
            &&& solved->Ok_0.weight <= knapsack.capacity
            &&& solved->Ok_0.chromosome.len() == knapsack.n
        },
{
    solve(knapsack, &Heuristic::MaxProfitPerWeight(densities))
}

/// A heuristic has one outcome on an instance: whichever arrangement of the
/// items ascends in the heuristic's order, the pass over it chooses what the
/// heuristic chooses.
pub proof fn lemma_outcome_is_determined(
    instance: Instance,
    heuristic: Heuristic,
    order: Seq<int>,
)
    requires
        is_ranking(instance, heuristic, order),
    ensures
        pass(instance, order, heuristic.stops_at_miss_spec(), instance.n).chosen == solution(
            instance,
            heuristic,
        ),
{
    crate::ranking::lemma_ranking_is_ranking(instance, heuristic);
    crate::ranking::lemma_ranking_is_unique(
        instance,
        heuristic,
        order,
        ranking(instance, heuristic),
    );
}

/// On an instance without items every heuristic chooses nothing: no profit,
/// no weight and no flags.
pub proof fn lemma_empty_instance(instance: Instance, heuristic: Heuristic)
    requires
        instance.well_formed(),
        instance.n == 0,
    ensures
        solution(instance, heuristic) == (Selection {
            profits: 0,
            weight: 0,
            chromosome: Seq::empty(),
        }),
{
    assert(Selection::none(0).chromosome =~= Seq::empty());
}

/// An item that a pass has chosen was among the entries it has looked at.
proof fn lemma_chosen_were_considered(
    instance: Instance,
    order: Seq<int>,
    stop_at_miss: bool,
    upto: nat,
    item: int,
)
    requires
        instance.well_formed(),
        names_items(instance, order),
        upto <= order.len(),
        0 <= item < instance.n,
        pass(instance, order, stop_at_miss, upto).chosen.chromosome[item] == 1,
    ensures
        exists|t: int| 0 <= t < upto && order[t] == item,
    decreases upto,
{
    if upto > 0 {
        let before = pass(instance, order, stop_at_miss, (upto - 1) as nat);
        lemma_pass_is_feasible(instance, order, stop_at_miss, (upto - 1) as nat);
        if before.chosen.chromosome[item] == 1 {
            lemma_chosen_were_considered(instance, order, stop_at_miss, (upto - 1) as nat, item);
        } else {
            assert(order[upto - 1] == item);
        }
    }
}

/// An item that a pass has chosen stays chosen.
proof fn lemma_chosen_stay_chosen(
    instance: Instance,
    order: Seq<int>,
    stop_at_miss: bool,
    upto: nat,
    later: nat,
    item: int,
)
    requires
        instance.well_formed(),
        names_items(instance, order),
        upto <= later <= order.len(),
        0 <= item < instance.n,
        pass(instance, order, stop_at_miss, upto).chosen.chromosome[item] == 1,
    ensures
        pass(instance, order, stop_at_miss, later).chosen.chromosome[item] == 1,
    decreases later,
{
    if upto < later {
        lemma_chosen_stay_chosen(instance, order, stop_at_miss, upto, (later - 1) as nat, item);
        lemma_pass_is_feasible(instance, order, stop_at_miss, (later - 1) as nat);
    }
}

/// An item that a pass has chosen weighs no more than the capacity.
proof fn lemma_chosen_items_fit(
    instance: Instance,
    order: Seq<int>,
    stop_at_miss: bool,
    upto: nat,
    item: int,
)
    requires
        instance.well_formed(),
        names_items(instance, order),
        upto <= order.len(),
        0 <= item < instance.n,
        pass(instance, order, stop_at_miss, upto).chosen.chromosome[item] == 1,
    ensures
        instance.weights[item] <= instance.capacity,
    decreases upto,
{
    if upto > 0 {
        let before = pass(instance, order, stop_at_miss, (upto - 1) as nat);
        lemma_pass_is_feasible(instance, order, stop_at_miss, (upto - 1) as nat);
        if before.chosen.chromosome[item] == 1 {
            lemma_chosen_items_fit(instance, order, stop_at_miss, (upto - 1) as nat, item);
        } else {
            assert(order[upto - 1] == item);
        }
    }
}

/// The lightest-first heuristic leaves no gap: once it has rejected an item,
/// it chooses none of the items ranked after that one.
pub proof fn lemma_min_weight_has_no_gap(instance: Instance, i: int, j: int)
    requires
        instance.well_formed(),
        0 <= i < j < instance.n,
    ensures
        ({
            let order = ranking(instance, Heuristic::MinWeight);
            let flags = solution(instance, Heuristic::MinWeight).chromosome;
            flags[order[i]] == 0 ==> flags[order[j]] == 0
        }),
{
    let heuristic = Heuristic::MinWeight;
    let order = ranking(instance, heuristic);
    let flags = solution(instance, heuristic).chromosome;
    crate::ranking::lemma_ranking_is_ranking(instance, heuristic);
    if flags[order[i]] == 0 {
        let after = pass(instance, order, true, (i + 1) as nat);
        lemma_pass_is_feasible(instance, order, true, i as nat);
        if !after.halted {
            assert(after.chosen.chromosome[order[i]] == 1);
            lemma_chosen_stay_chosen(instance, order, true, (i + 1) as nat, instance.n, order[i]);
        }
        lemma_halted_pass_stays(instance, order, true, (i + 1) as nat, instance.n);
        if flags[order[j]] == 1 {
            lemma_chosen_were_considered(instance, order, true, (i + 1) as nat, order[j]);
            let t = choose|t: int| 0 <= t < i + 1 && order[t] == order[j];
            assert(precedes(instance, heuristic, order[t], order[j]));
        }
    }
}

/// The lightest-first heuristic never passes over an item for a heavier one:
/// where it rejects an item, it rejects every item that it ranks after that
/// one, which are the heavier items and the items of the same weight that
/// the instance lists later.
pub proof fn lemma_min_weight_rejects_heavier(instance: Instance, a: int, b: int)
    requires
        instance.well_formed(),
        0 <= a < instance.n,
        0 <= b < instance.n,
        precedes(instance, Heuristic::MinWeight, a, b),
    ensures
        ({
            let flags = solution(instance, Heuristic::MinWeight).chromosome;
            flags[a] == 0 ==> flags[b] == 0
        }),
{
    let heuristic = Heuristic::MinWeight;
    let order = ranking(instance, heuristic);
    crate::ranking::lemma_ranking_is_ranking(instance, heuristic);
    crate::ranking::lemma_ranked_block_covers(instance, heuristic, order, 0, instance.n as int, a);
    crate::ranking::lemma_ranked_block_covers(instance, heuristic, order, 0, instance.n as int, b);
    let i = choose|i: int| 0 <= i < order.len() && order[i] == a;
    let j = choose|j: int| 0 <= j < order.len() && order[j] == b;
    if j < i {
        assert(precedes(instance, heuristic, order[j], order[i]));
    }
    lemma_min_weight_has_no_gap(instance, i, j);
}

proof fn lemma_stop_matches_scan(instance: Instance, order: Seq<int>, upto: nat)
    requires
        instance.well_formed(),
        is_ranking(instance, Heuristic::MinWeight, order),
        upto <= instance.n,
    ensures
        pass(instance, order, true, upto).chosen == pass(instance, order, false, upto).chosen,
        !pass(instance, order, false, upto).halted,
        pass(instance, order, true, upto).halted ==> upto >= 1 && forall|t: int|
            upto - 1 <= t < instance.n ==> pass(instance, order, true, upto).chosen.weight
                + instance.weights[#[trigger] order[t]] > instance.capacity,
    decreases upto,
{
    if upto > 0 {
        lemma_stop_matches_scan(instance, order, (upto - 1) as nat);
        let stopping = pass(instance, order, true, (upto - 1) as nat);
        let item = order[upto - 1];
        if !stopping.halted && pass(instance, order, true, upto).halted {
            assert forall|t: int| upto - 1 <= t < instance.n implies stopping.chosen.weight
                + instance.weights[#[trigger] order[t]] > instance.capacity by {
                if t > upto - 1 {
                    assert(precedes(instance, Heuristic::MinWeight, order[upto - 1], order[t]));
                }
            }
        }
    }
}

/// Ending the lightest-first pass at the first item that does not fit loses
/// nothing: a pass over the same ranking that looks at every item chooses
/// the same items.
pub proof fn lemma_min_weight_stop_is_safe(instance: Instance)
    requires
        instance.well_formed(),
    ensures
        pass(
            instance,
            ranking(instance, Heuristic::MinWeight),
            false,
            instance.n,
        ).chosen == solution(instance, Heuristic::MinWeight),
{
    crate::ranking::lemma_ranking_is_ranking(instance, Heuristic::MinWeight);
    lemma_stop_matches_scan(instance, ranking(instance, Heuristic::MinWeight), instance.n);
}

/// The flags of the chosen items that `heuristic` considers before `item`,
/// and 0 for every other item.
pub open spec fn chosen_before(
    instance: Instance,
    heuristic: Heuristic,
    flags: Seq<nat>,
    item: int,
) -> Seq<nat> {
    Seq::new(
        flags.len(),
        |j: int|
            if precedes(instance, heuristic, j, item) {
                flags[j]
            } else {
                0
            },
    )
}

/// A pass that goes on after a miss never ends early.
proof fn lemma_scan_never_halts(instance: Instance, order: Seq<int>, upto: nat)
    ensures
        !pass(instance, order, false, upto).halted,
    decreases upto,
{
    if upto > 0 {
        lemma_scan_never_halts(instance, order, (upto - 1) as nat);
    }
}

/// An item that is not chosen when the pass has looked at it is not chosen
/// later either: a ranking names it once.
proof fn lemma_passed_over_stays_out(
    instance: Instance,
    heuristic: Heuristic,
    order: Seq<int>,
    stop_at_miss: bool,
    position: int,
    later: nat,
)
    requires
        instance.well_formed(),
        is_ranking(instance, heuristic, order),
        0 <= position < later <= instance.n,
        pass(instance, order, stop_at_miss, (position + 1) as nat).chosen.chromosome[order[position]]
            != 1,
    ensures
        pass(instance, order, stop_at_miss, later).chosen.chromosome[order[position]] != 1,
    decreases later,
{
    if later > position + 1 {
        lemma_passed_over_stays_out(
            instance,
            heuristic,
            order,
            stop_at_miss,
            position,
            (later - 1) as nat,
        );
        lemma_pass_is_feasible(instance, order, stop_at_miss, (later - 1) as nat);
        assert(precedes(instance, heuristic, order[position], order[later - 1]));
    }
}

proof fn lemma_scan_admits_what_fits(
    instance: Instance,
    heuristic: Heuristic,
    order: Seq<int>,
    item: int,
)
    requires
        instance.well_formed(),
        is_ranking(instance, heuristic, order),
        0 <= item < instance.n,
    ensures
        ({
            let chosen = pass(instance, order, false, instance.n).chosen;
            (chosen.chromosome[item] == 1) == (instance.weights[item] + selected_sum(
                instance.weights,
                chosen_before(instance, heuristic, chosen.chromosome, item),
                instance.n,
            ) <= instance.capacity)
        }),
{
    let n = instance.n;
    crate::ranking::lemma_ranked_block_covers(instance, heuristic, order, 0, n as int, item);
    let t = choose|t: int| 0 <= t < order.len() && order[t] == item;
    let before = pass(instance, order, false, t as nat).chosen.chromosome;
    let after = pass(instance, order, false, (t + 1) as nat).chosen.chromosome;
    let last = pass(instance, order, false, n).chosen.chromosome;
    lemma_pass_is_feasible(instance, order, false, t as nat);
    lemma_pass_is_feasible(instance, order, false, n);
    lemma_scan_never_halts(instance, order, t as nat);
    crate::ranking::lemma_precedes_is_strict_total(instance, heuristic);
    assert forall|j: int| 0 <= j < n implies before[j] == chosen_before(
        instance,
        heuristic,
        last,
        item,
    )[j] by {
        if before[j] == 1 {
            lemma_chosen_were_considered(instance, order, false, t as nat, j);
            let s = choose|s: int| 0 <= s < t && order[s] == j;
            assert(precedes(instance, heuristic, order[s], order[t]));
            lemma_chosen_stay_chosen(instance, order, false, t as nat, n, j);
        } else if precedes(instance, heuristic, j, item) && last[j] == 1 {
            crate::ranking::lemma_ranked_block_covers(instance, heuristic, order, 0, n as int, j);
            let s = choose|s: int| 0 <= s < order.len() && order[s] == j;
            if s > t {
                assert(precedes(instance, heuristic, order[t], order[s]));
            }
            if pass(instance, order, false, (s + 1) as nat).chosen.chromosome[j] != 1 {
                lemma_passed_over_stays_out(instance, heuristic, order, false, s, n);
            }
            lemma_chosen_stay_chosen(instance, order, false, (s + 1) as nat, t as nat, j);
        }
    }
    assert(before =~= chosen_before(instance, heuristic, last, item));
    if before[item] == 1 {
        lemma_chosen_were_considered(instance, order, false, t as nat, item);
        let s = choose|s: int| 0 <= s < t && order[s] == item;
        assert(precedes(instance, heuristic, order[s], order[t]));
    }
    if after[item] == 1 {
        lemma_chosen_stay_chosen(instance, order, false, (t + 1) as nat, n, item);
    } else {
        lemma_passed_over_stays_out(instance, heuristic, order, false, t, n);
    }
}

/// What every heuristic chooses: an item is chosen exactly where its weight,
/// added to the weight of the chosen items that the heuristic considers
/// before it, stays within the capacity.
pub proof fn lemma_admits_what_fits(instance: Instance, heuristic: Heuristic, item: int)
    requires
        instance.well_formed(),
        0 <= item < instance.n,
    ensures
        ({
            let chosen = solution(instance, heuristic);
            (chosen.chromosome[item] == 1) == (instance.weights[item] + selected_sum(
                instance.weights,
                chosen_before(instance, heuristic, chosen.chromosome, item),
                instance.n,
            ) <= instance.capacity)
        }),
{
    crate::ranking::lemma_ranking_is_ranking(instance, heuristic);
    if heuristic.stops_at_miss_spec() {
        lemma_min_weight_stop_is_safe(instance);
    }
    lemma_scan_admits_what_fits(instance, heuristic, ranking(instance, heuristic), item);
}

proof fn lemma_nothing_fits(instance: Instance, order: Seq<int>, stop_at_miss: bool, upto: nat)
    requires
        instance.well_formed(),
        names_items(instance, order),
        upto <= order.len(),
        instance.capacity == 0,
        forall|i: int| 0 <= i < instance.n ==> #[trigger] instance.weights[i] > 0,
    ensures
        pass(instance, order, stop_at_miss, upto).chosen == Selection::none(instance.n),
    decreases upto,
{
    if upto > 0 {
        lemma_nothing_fits(instance, order, stop_at_miss, (upto - 1) as nat);
        let item = order[upto - 1];
        assert(instance.weights[item] > 0);
    }
}

/// With capacity zero and no item of weight zero, every heuristic chooses
/// none of the items.
pub proof fn lemma_zero_capacity(instance: Instance, heuristic: Heuristic)
    requires
        instance.well_formed(),
        instance.capacity == 0,
        forall|i: int| 0 <= i < instance.n ==> #[trigger] instance.weights[i] > 0,
    ensures
        solution(instance, heuristic) == Selection::none(instance.n),
{
    crate::ranking::lemma_ranking_is_ranking(instance, heuristic);
    lemma_nothing_fits(
        instance,
        ranking(instance, heuristic),
        heuristic.stops_at_miss_spec(),
        instance.n,
    );
}

/// With capacity zero, a pass ends early only at an item that has weight.
proof fn lemma_zero_capacity_halts_at_weight(
    instance: Instance,
    order: Seq<int>,
    stop_at_miss: bool,
    upto: nat,
)
    requires
        instance.well_formed(),
        names_items(instance, order),
        upto <= order.len(),
        instance.capacity == 0,
        pass(instance, order, stop_at_miss, upto).halted,
    ensures
        stop_at_miss,
        exists|s: int| 0 <= s < upto && instance.weights[#[trigger] order[s]] > 0,
    decreases upto,
{
    if upto > 0 {
        let before = pass(instance, order, stop_at_miss, (upto - 1) as nat);
        lemma_pass_is_feasible(instance, order, stop_at_miss, (upto - 1) as nat);
        if before.halted {
            lemma_zero_capacity_halts_at_weight(instance, order, stop_at_miss, (upto - 1) as nat);
        } else {
            assert(instance.weights[order[upto - 1]] > 0);
        }
    }
}

/// With capacity zero, every heuristic chooses exactly the items of weight
/// zero.
pub proof fn lemma_zero_capacity_admits_weightless(
    instance: Instance,
    heuristic: Heuristic,
    item: int,
)
    requires
        instance.well_formed(),
        instance.capacity == 0,
        0 <= item < instance.n,
    ensures
        (solution(instance, heuristic).chromosome[item] == 1) == (instance.weights[item] == 0),
{
    let order = ranking(instance, heuristic);
    let stop_at_miss = heuristic.stops_at_miss_spec();
    crate::ranking::lemma_ranking_is_ranking(instance, heuristic);
    if solution(instance, heuristic).chromosome[item] == 1 {
        lemma_chosen_items_fit(instance, order, stop_at_miss, instance.n, item);
    }
    if instance.weights[item] == 0 {
        crate::ranking::lemma_ranked_block_covers(
            instance,
            heuristic,
            order,
            0,
            instance.n as int,
            item,
        );
        let t = choose|t: int| 0 <= t < order.len() && order[t] == item;
        let before = pass(instance, order, stop_at_miss, t as nat);
        lemma_pass_is_feasible(instance, order, stop_at_miss, t as nat);
        if before.halted {
            lemma_zero_capacity_halts_at_weight(instance, order, stop_at_miss, t as nat);
            let s = choose|s: int| 0 <= s < t && instance.weights[#[trigger] order[s]] > 0;
            assert(precedes(instance, heuristic, order[s], order[t]));
        }
        assert(pass(instance, order, stop_at_miss, (t + 1) as nat).chosen.chromosome[item] == 1);
        lemma_chosen_stay_chosen(
            instance,
            order,
            stop_at_miss,
            (t + 1) as nat,
            instance.n,
            item,
        );
    }
}

} // verus!
