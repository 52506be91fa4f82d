//! The problem instance and the solution, each with its mathematical model.

use crate::error::KnapsackError;
use rand::distributions::Uniform;
use rand::Rng;
use vstd::prelude::*;
use vstd::slice::slice_to_vec;

verus! {

/// A knapsack instance as mathematics sees it.
pub struct Instance {
    /// The declared number of items.
    pub n: nat,
    /// The largest total weight that may be packed.
    pub capacity: nat,
    /// The weight of each item, by item index.
    pub weights: Seq<nat>,
    /// The profit of each item, by item index.
    pub profits: Seq<nat>,
}

impl Instance {
    /// Both item lists have exactly `n` entries.
    pub open spec fn well_formed(self) -> bool {
        &&& self.weights.len() == self.n
        &&& self.profits.len() == self.n
    }
}

/// A choice of items as mathematics sees it.
pub struct Selection {
    /// The claimed total profit.
    pub profits: nat,
    /// The claimed total weight.
    pub weight: nat,
    /// One flag per item; an item is chosen where its flag is 1.
    pub chromosome: Seq<nat>,
}

/// The sum of `values[i]` over the indices `i < upto` whose flag is 1.
pub open spec fn selected_sum(values: Seq<nat>, flags: Seq<nat>, upto: nat) -> nat
    decreases upto,
{
    if upto == 0 {
        0
    } else {
        let rest = selected_sum(values, flags, (upto - 1) as nat);
        if flags[upto - 1] == 1 {
            rest + values[upto - 1]
        } else {
            rest
        }
    }
}

impl Selection {
    /// The selection that chooses none of `n` items.
    pub open spec fn none(n: nat) -> Selection {
        Selection { profits: 0, weight: 0, chromosome: Seq::new(n, |i: int| 0nat) }
    }

    /// The selection describes a choice among the items of `instance`: one
    /// flag per item, each 0 or 1, and totals that are the sums over the
    /// chosen items.
    pub open spec fn consistent_with(self, instance: Instance) -> bool {
        &&& self.chromosome.len() == instance.n
        &&& forall|i: int| 0 <= i < self.chromosome.len() ==> #[trigger] self.chromosome[i] <= 1
        &&& self.weight == selected_sum(instance.weights, self.chromosome, instance.n)
        &&& self.profits == selected_sum(instance.profits, self.chromosome, instance.n)
    }

    /// The selection is consistent with `instance` and fits its capacity.
    pub open spec fn feasible_for(self, instance: Instance) -> bool {
        &&& self.consistent_with(instance)
        &&& self.weight <= instance.capacity
    }
}

/// A knapsack instance: `n` items, given by two parallel lists, and a capacity.
#[derive(Debug, Clone, PartialEq, Eq)]
pub struct Knapsack {
    pub n: u32,
    pub capacity: u32,
    pub weights: Vec<u32>,
    pub profits: Vec<u32>,
}

impl View for Knapsack {
    type V = Instance;

    open spec fn view(&self) -> Instance {
        Instance {
            n: self.n as nat,
            capacity: self.capacity as nat,
            weights: self.weights@.map_values(|w: u32| w as nat),
            profits: self.profits@.map_values(|p: u32| p as nat),
        }
    }
}

/// Draws one value from `rand`'s thread-local generator with `Rng::sample`,
/// on the distribution `Uniform::from(lower..=upper)`. Building that
/// distribution panics where `lower > upper`, hence the precondition. The
/// value drawn is claimed to lie between the two bounds, both included, and
/// nothing else is claimed of it.
///
/// No precondition can rule out that the call panics for want of entropy.
/// The generator takes its seed from the operating system when a thread
/// first uses it, and a fresh one after every 64 KiB of output and after a
/// fork; it panics where the operating system gives none, and where it
/// cannot register its fork handler.
#[verifier::external_body]
fn draw_uniform(lower: u32, upper: u32) -> (value: u32)
    requires
        lower <= upper,
    ensures
        lower <= value <= upper,
{
    rand::thread_rng().sample(Uniform::from(lower..=upper))
}

/// Draws `count` values, each between `lower` and `upper`.
fn draw_many(count: usize, lower: u32, upper: u32) -> (values: Vec<u32>)
    requires
        lower <= upper,
    ensures
        values.len() == count,
        forall|i: int| 0 <= i < values.len() ==> lower <= #[trigger] values[i] <= upper,
{
    let mut values: Vec<u32> = Vec::new();
    let mut i: usize = 0;
    while i < count
        invariant
            lower <= upper,
            i <= count,
            values.len() == i,
            forall|j: int| 0 <= j < values.len() ==> lower <= #[trigger] values[j] <= upper,
        decreases count - i,
    {
        values.push(draw_uniform(lower, upper));
        i += 1;
    }
    values
}

impl Default for Knapsack {
    /// The instance without items and without capacity.
    fn default() -> (knapsack: Self)
        ensures
            knapsack.n == 0,
            knapsack.capacity == 0,
            knapsack.weights@ == Seq::<u32>::empty(),
            knapsack.profits@ == Seq::<u32>::empty(),
    {
        Knapsack { n: 0, capacity: 0, weights: Vec::new(), profits: Vec::new() }
    }
}

impl Knapsack {
    /// Builds an instance of `n` items with capacity `q`, or 0 where `q` is
    /// absent. The items are `(profit, weight)` pairs and keep their order;
    /// without them both lists are empty. The number of pairs is not held
    /// against `n`: see `is_well_formed`.
    pub fn new(n: u32, q: Option<u32>, items: Option<&[(u32, u32)]>) -> (knapsack: Self)
        ensures
            knapsack.n == n,
            knapsack.capacity == (match q {
                Some(capacity) => capacity,
                None => 0,
            }),
            knapsack.profits@ == (match items {
                Some(pairs) => pairs@.map_values(|pair: (u32, u32)| pair.0),
                None => Seq::empty(),
            }),
            knapsack.weights@ == (match items {
                Some(pairs) => pairs@.map_values(|pair: (u32, u32)| pair.1),
                None => Seq::empty(),
            }),
    {
        let capacity: u32 = match q {
            Some(capacity) => capacity,
            None => 0,
        };
        let mut weights: Vec<u32> = Vec::new();
        let mut profits: Vec<u32> = Vec::new();
        if let Some(pairs) = items {
            let mut i: usize = 0;
            while i < pairs.len()
                invariant
                    i <= pairs.len(),
                    profits@ == pairs@.take(i as int).map_values(|pair: (u32, u32)| pair.0),
                    weights@ == pairs@.take(i as int).map_values(|pair: (u32, u32)| pair.1),
                decreases pairs.len() - i,
            {
                profits.push(pairs[i].0);
                weights.push(pairs[i].1);
                i += 1;
            }
        }
        Knapsack { n, capacity, weights, profits }
    }

    /// Whether both item lists have exactly `n` entries.
    pub fn is_well_formed(&self) -> (ok: bool)
        ensures
            ok == self@.well_formed(),
    {
        self.weights.len() == self.n as usize && self.profits.len() == self.n as usize
    }

    /// Checks the instance: fails, with `InvalidInstance`, exactly where an
    /// item list does not have `n` entries.
    pub fn validate(&self) -> (checked: Result<(), KnapsackError>)
        ensures
            self@.well_formed() ==> checked is Ok,
            !self@.well_formed() ==> checked == Err::<(), KnapsackError>(
                KnapsackError::InvalidInstance,
            ),
    {
        if self.is_well_formed() {
            Ok(())
        } else {
            Err(KnapsackError::InvalidInstance)
        }
    }

    /// Replaces both item lists, `profits[i]` and `weights[i]` describing item
    /// `i`. Fails, with `InvalidInstance`, exactly where a list does not have
    /// `n` entries; the instance then stays as it is.
    pub fn set_items(&mut self, profits: Vec<u32>, weights: Vec<u32>) -> (done: Result<
        (),
        KnapsackError,
    >)
        ensures
            profits.len() == old(self).n && weights.len() == old(self).n ==> {
                &&& done is Ok
                &&& final(self).n == old(self).n
                &&& final(self).capacity == old(self).capacity
                &&& final(self).profits == profits
                &&& final(self).weights == weights
            },
            profits.len() != old(self).n || weights.len() != old(self).n ==> {
                &&& done == Err::<(), KnapsackError>(KnapsackError::InvalidInstance)
                &&& *final(self) == *old(self)
            },
    {
        let count: usize = self.n as usize;
        if profits.len() != count || weights.len() != count {
            return Err(KnapsackError::InvalidInstance);
        }
        self.profits = profits;
        self.weights = weights;
        Ok(())
    }

    /// Replaces both item lists by `n` random values each, every one between
    /// `lower_bound` and `upper_bound`, both included. Where the bounds are
    /// the wrong way round, nothing is drawn and the instance stays as it is.
    ///
    /// # Panics
    ///
    /// The values come from `rand`'s thread-local generator, which seeds
    /// itself from the operating system on a thread's first use and again at
    /// every reseed. Where the operating system gives no entropy the draw
    /// panics, and so does this function; the contract holds of every call
    /// that returns.
    pub fn create_random_items(&mut self, lower_bound: u32, upper_bound: u32) -> (done: Result<
        (),
        KnapsackError,
    >)
        ensures
            lower_bound > upper_bound ==> done == Err::<(), KnapsackError>(
                KnapsackError::InvalidRange,
            ) && *final(self) == *old(self),
            lower_bound <= upper_bound ==> {
                &&& done is Ok
                &&& final(self).n == old(self).n
                &&& final(self).capacity == old(self).capacity
                &&& final(self)@.well_formed()
                &&& forall|i: int|
                    0 <= i < final(self).n ==> lower_bound <= #[trigger] final(self).profits[i]
                        <= upper_bound
                &&& forall|i: int|
                    0 <= i < final(self).n ==> lower_bound <= #[trigger] final(self).weights[i]
                        <= upper_bound
            },
    {
        if lower_bound > upper_bound {
            return Err(KnapsackError::InvalidRange);
        }
        let count: usize = self.n as usize;
        let profits: Vec<u32> = draw_many(count, lower_bound, upper_bound);
        let weights: Vec<u32> = draw_many(count, lower_bound, upper_bound);
        self.set_items(profits, weights)
    }
}

/// What a heuristic returns: the total profit and weight of the chosen items,
/// and one flag per item, 1 where the item is chosen and 0 where it is not.
#[derive(Debug, Clone, PartialEq, Eq)]
pub struct Solution {
    pub profits: u64,
    pub weight: u32,
    pub chromosome: Vec<u32>,
}

impl View for Solution {
    type V = Selection;

    open spec fn view(&self) -> Selection {
        Selection {
            profits: self.profits as nat,
            weight: self.weight as nat,
            chromosome: self.chromosome@.map_values(|flag: u32| flag as nat),
        }
    }
}

impl Default for Solution {
    /// The solution of the instance without items.
    fn default() -> (solution: Self)
        ensures
            solution.profits == 0,
            solution.weight == 0,
            solution.chromosome@ == Seq::<u32>::empty(),
    {
        Solution { profits: 0, weight: 0, chromosome: Vec::new() }
    }
}

impl Solution {
    /// Builds a solution from its parts; the flags are copied.
    pub fn new(profits: u64, weight: u32, chromosome: &[u32]) -> (solution: Self)
        ensures
            solution.profits == profits,
            solution.weight == weight,
            solution.chromosome@ == chromosome@,
    {
        Solution { profits, weight, chromosome: slice_to_vec(chromosome) }
    }
}

} // verus!
