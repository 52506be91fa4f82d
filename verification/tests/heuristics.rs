use knapsack_heuristics::error::KnapsackError;
use knapsack_heuristics::heuristic;
use knapsack_heuristics::knapsack::{Knapsack, Solution};
use knapsack_heuristics::ranking::{rank, Heuristic};

fn densities(knapsack: &Knapsack) -> Vec<u64> {
    knapsack
        .profits
        .iter()
        .zip(knapsack.weights.iter())
        .map(|(profit, weight)| (*profit as f64 / *weight as f64).to_bits())
        .collect()
}

fn all(knapsack: &Knapsack) -> Vec<Heuristic> {
    vec![
        Heuristic::Default,
        Heuristic::MaxProfit,
        Heuristic::MinWeight,
        Heuristic::MaxProfitPerWeight(densities(knapsack)),
    ]
}

fn three_items() -> Knapsack {
    Knapsack::new(3, Some(15), Some(&[(10, 5), (20, 10), (30, 15)]))
}

fn four_items() -> Knapsack {
    Knapsack::new(4, Some(50), Some(&[(60, 10), (100, 20), (120, 30), (30, 5)]))
}

fn selected(values: &[u32], chromosome: &[u32]) -> u64 {
    let mut sum: u64 = 0;
    for (value, flag) in values.iter().zip(chromosome.iter()) {
        if *flag == 1 {
            sum += *value as u64;
        }
    }
    sum
}

fn assert_feasible(knapsack: &Knapsack, solution: &Solution) {
    assert!(solution.weight <= knapsack.capacity);
    assert_eq!(solution.chromosome.len(), knapsack.n as usize);
    assert!(solution.chromosome.iter().all(|flag| *flag == 0 || *flag == 1));
    assert_eq!(solution.profits, selected(&knapsack.profits, &solution.chromosome));
    assert_eq!(solution.weight as u64, selected(&knapsack.weights, &solution.chromosome));
}

#[test]
fn default_takes_first_two_of_three() {
    let solution = heuristic::default(&three_items()).unwrap();
    assert_eq!(solution, Solution::new(30, 15, &[1, 1, 0]));
}

#[test]
fn map_takes_only_the_most_profitable_of_three() {
    let solution = heuristic::map(&three_items()).unwrap();
    assert_eq!(solution, Solution::new(30, 15, &[0, 0, 1]));
}

#[test]
fn miw_takes_the_two_lightest_of_three() {
    let solution = heuristic::miw(&three_items()).unwrap();
    assert_eq!(solution, Solution::new(30, 15, &[1, 1, 0]));
}

#[test]
fn mpw_with_equal_densities_follows_the_listing() {
    let knapsack = three_items();
    let solution = heuristic::mpw(&knapsack, densities(&knapsack)).unwrap();
    assert_eq!(solution, Solution::new(30, 15, &[1, 1, 0]));
    assert_eq!(solution, heuristic::default(&knapsack).unwrap());
}

#[test]
fn default_on_four_items() {
    let solution = heuristic::default(&four_items()).unwrap();
    assert_eq!(solution, Solution::new(190, 35, &[1, 1, 0, 1]));
}

#[test]
fn map_on_four_items() {
    let solution = heuristic::map(&four_items()).unwrap();
    assert_eq!(solution, Solution::new(220, 50, &[0, 1, 1, 0]));
}

#[test]
fn miw_on_four_items() {
    let solution = heuristic::miw(&four_items()).unwrap();
    assert_eq!(solution, Solution::new(190, 35, &[1, 1, 0, 1]));
}

#[test]
fn mpw_on_four_items() {
    let solution = heuristic::mpw(&four_items(), densities(&four_items())).unwrap();
    assert_eq!(solution, Solution::new(190, 35, &[1, 1, 0, 1]));
}

#[test]
fn default_goes_on_after_an_item_that_does_not_fit() {
    let knapsack = Knapsack::new(2, Some(5), Some(&[(1, 10), (2, 5)]));
    let solution = heuristic::default(&knapsack).unwrap();
    assert_eq!(solution, Solution::new(2, 5, &[0, 1]));
}

#[test]
fn map_goes_on_after_an_item_that_does_not_fit() {
    let knapsack = Knapsack::new(3, Some(6), Some(&[(9, 7), (5, 4), (3, 2)]));
    let solution = heuristic::map(&knapsack).unwrap();
    assert_eq!(solution, Solution::new(8, 6, &[0, 1, 1]));
}

#[test]
fn mpw_goes_on_after_an_item_that_does_not_fit() {
    let knapsack = Knapsack::new(3, Some(5), Some(&[(60, 6), (10, 2), (9, 3)]));
    let solution = heuristic::mpw(&knapsack, densities(&knapsack)).unwrap();
    assert_eq!(solution, Solution::new(19, 5, &[0, 1, 1]));
}

#[test]
fn miw_ends_at_the_first_item_that_does_not_fit() {
    let knapsack = Knapsack::new(4, Some(8), Some(&[(1, 4), (1, 3), (1, 9), (1, 1)]));
    let solution = heuristic::miw(&knapsack).unwrap();
    assert_eq!(solution, Solution::new(3, 8, &[1, 1, 0, 1]));
}

#[test]
fn miw_takes_everything_that_fits() {
    let knapsack = Knapsack::new(3, Some(100), Some(&[(1, 4), (2, 3), (3, 9)]));
    let solution = heuristic::miw(&knapsack).unwrap();
    assert_eq!(solution, Solution::new(6, 16, &[1, 1, 1]));
}

#[test]
fn miw_leaves_no_gap_in_its_ranking() {
    let knapsack = Knapsack::new(
        6,
        Some(20),
        Some(&[(5, 9), (1, 2), (7, 6), (2, 2), (9, 30), (4, 7)]),
    );
    let order = rank(&knapsack, &Heuristic::MinWeight).unwrap();
    let solution = heuristic::miw(&knapsack).unwrap();
    assert_eq!(order, vec![1, 3, 2, 5, 0, 4]);
    assert_eq!(solution, Solution::new(14, 17, &[0, 1, 1, 1, 0, 1]));
    let mut rejected = false;
    for item in order {
        if solution.chromosome[item] == 0 {
            rejected = true;
        } else {
            assert!(!rejected);
        }
    }
}

#[test]
fn miw_loses_nothing_by_ending_early() {
    let knapsack = Knapsack::new(
        6,
        Some(20),
        Some(&[(5, 9), (1, 2), (7, 6), (2, 2), (9, 30), (4, 7)]),
    );
    let order = rank(&knapsack, &Heuristic::MinWeight).unwrap();
    let scanned = heuristic::pack(&knapsack, &order, false).unwrap();
    assert_eq!(heuristic::miw(&knapsack).unwrap(), scanned);
}

#[test]
fn every_heuristic_is_feasible_and_consistent() {
    let knapsack = Knapsack::new(
        8,
        Some(40),
        Some(&[(15, 12), (3, 0), (40, 25), (8, 8), (22, 11), (1, 41), (17, 9), (6, 3)]),
    );
    for heuristic in all(&knapsack) {
        let solution = heuristic::solve(&knapsack, &heuristic).unwrap();
        assert_feasible(&knapsack, &solution);
    }
    assert_eq!(
        heuristic::default(&knapsack).unwrap(),
        Solution::new(64, 40, &[1, 1, 1, 0, 0, 0, 0, 1])
    );
    assert_eq!(
        heuristic::map(&knapsack).unwrap(),
        Solution::new(71, 39, &[0, 1, 1, 0, 1, 0, 0, 1])
    );
    assert_eq!(
        heuristic::miw(&knapsack).unwrap(),
        Solution::new(56, 31, &[0, 1, 0, 1, 1, 0, 1, 1])
    );
    assert_eq!(
        heuristic::mpw(&knapsack, densities(&knapsack)).unwrap(),
        Solution::new(63, 35, &[1, 1, 0, 0, 1, 0, 1, 1])
    );
}

#[test]
fn named_functions_agree_with_solve() {
    let knapsack = four_items();
    assert_eq!(
        heuristic::default(&knapsack),
        heuristic::solve(&knapsack, &Heuristic::Default)
    );
    assert_eq!(heuristic::map(&knapsack), heuristic::solve(&knapsack, &Heuristic::MaxProfit));
    assert_eq!(heuristic::miw(&knapsack), heuristic::solve(&knapsack, &Heuristic::MinWeight));
    assert_eq!(
        heuristic::mpw(&knapsack, densities(&knapsack)),
        heuristic::solve(&knapsack, &Heuristic::MaxProfitPerWeight(densities(&knapsack)))
    );
}

#[test]
fn solving_twice_gives_the_same_solution() {
    let knapsack = four_items();
    for heuristic in all(&knapsack) {
        let first = heuristic::solve(&knapsack, &heuristic).unwrap();
        let second = heuristic::solve(&knapsack, &heuristic).unwrap();
        assert_eq!(first, second);
    }
}

#[test]
fn solving_leaves_the_instance_as_it_is() {
    let knapsack = four_items();
    let before = knapsack.clone();
    for heuristic in all(&knapsack) {
        let _ = heuristic::solve(&knapsack, &heuristic).unwrap();
    }
    assert_eq!(knapsack, before);
}

#[test]
fn empty_instance_gives_the_empty_solution() {
    let without_lists = Knapsack::new(0, Some(10), None);
    let with_empty_list = Knapsack::new(0, None, Some(&[]));
    for heuristic in all(&without_lists) {
        assert_eq!(
            heuristic::solve(&without_lists, &heuristic).unwrap(),
            Solution::new(0, 0, &[])
        );
        assert_eq!(
            heuristic::solve(&with_empty_list, &heuristic).unwrap(),
            Solution::new(0, 0, &[])
        );
    }
}

#[test]
fn capacity_zero_admits_nothing_that_has_weight() {
    let knapsack = Knapsack::new(3, Some(0), Some(&[(10, 5), (20, 1), (30, 15)]));
    for heuristic in all(&knapsack) {
        assert_eq!(
            heuristic::solve(&knapsack, &heuristic).unwrap(),
            Solution::new(0, 0, &[0, 0, 0])
        );
    }
}

#[test]
fn capacity_zero_admits_exactly_the_weightless_items() {
    let knapsack = Knapsack::new(4, None, Some(&[(10, 5), (7, 0), (30, 15), (0, 0)]));
    for heuristic in all(&knapsack) {
        assert_eq!(
            heuristic::solve(&knapsack, &heuristic).unwrap(),
            Solution::new(7, 0, &[0, 1, 0, 1])
        );
    }
}

#[test]
fn single_item_heavier_than_capacity_is_left_out() {
    let knapsack = Knapsack::new(1, Some(9), Some(&[(100, 10)]));
    for heuristic in all(&knapsack) {
        assert_eq!(heuristic::solve(&knapsack, &heuristic).unwrap(), Solution::new(0, 0, &[0]));
    }
}

#[test]
fn single_item_of_exactly_the_capacity_is_taken() {
    let knapsack = Knapsack::new(1, Some(10), Some(&[(100, 10)]));
    for heuristic in all(&knapsack) {
        assert_eq!(
            heuristic::solve(&knapsack, &heuristic).unwrap(),
            Solution::new(100, 10, &[1])
        );
    }
}

#[test]
fn weights_at_the_top_of_the_range_do_not_wrap() {
    let knapsack = Knapsack::new(3, Some(u32::MAX), Some(&[(1, u32::MAX), (2, 1), (4, u32::MAX)]));
    assert_eq!(
        heuristic::default(&knapsack).unwrap(),
        Solution::new(1, u32::MAX, &[1, 0, 0])
    );
    assert_eq!(heuristic::map(&knapsack).unwrap(), Solution::new(4, u32::MAX, &[0, 0, 1]));
    assert_eq!(heuristic::miw(&knapsack).unwrap(), Solution::new(2, 1, &[0, 1, 0]));
    assert_eq!(heuristic::mpw(&knapsack, densities(&knapsack)).unwrap(), Solution::new(2, 1, &[0, 1, 0]));
}

#[test]
fn total_profit_may_exceed_the_range_of_one_profit() {
    let knapsack =
        Knapsack::new(3, Some(2), Some(&[(u32::MAX, 1), (u32::MAX, 0), (u32::MAX, 1)]));
    for heuristic in all(&knapsack) {
        assert_eq!(
            heuristic::solve(&knapsack, &heuristic).unwrap(),
            Solution::new(12_884_901_885, 2, &[1, 1, 1])
        );
    }
}

#[test]
fn mismatched_lists_are_an_invalid_instance() {
    let too_few = Knapsack::new(3, Some(15), Some(&[(10, 5), (20, 10)]));
    let too_many = Knapsack::new(1, Some(15), Some(&[(10, 5), (20, 10)]));
    let none = Knapsack::new(2, Some(15), None);
    let mut uneven = Knapsack::new(2, Some(15), Some(&[(10, 5), (20, 10)]));
    uneven.weights.push(1);
    for knapsack in [too_few, too_many, none, uneven] {
        assert_eq!(heuristic::default(&knapsack), Err(KnapsackError::InvalidInstance));
        assert_eq!(heuristic::map(&knapsack), Err(KnapsackError::InvalidInstance));
        assert_eq!(heuristic::miw(&knapsack), Err(KnapsackError::InvalidInstance));
        assert_eq!(heuristic::mpw(&knapsack, densities(&knapsack)), Err(KnapsackError::InvalidInstance));
        for heuristic in all(&knapsack) {
            assert_eq!(
                heuristic::solve(&knapsack, &heuristic),
                Err(KnapsackError::InvalidInstance)
            );
            assert_eq!(
                heuristic::trace(&knapsack, &heuristic),
                Err(KnapsackError::InvalidInstance)
            );
        }
        assert_eq!(
            heuristic::pack(&knapsack, &vec![0], false),
            Err(KnapsackError::InvalidInstance)
        );
    }
}

#[test]
fn pack_follows_the_order_it_is_given() {
    let knapsack = three_items();
    assert_eq!(
        heuristic::pack(&knapsack, &vec![2, 0, 1], false).unwrap(),
        Solution::new(30, 15, &[0, 0, 1])
    );
    assert_eq!(
        heuristic::pack(&knapsack, &vec![1, 2, 0], false).unwrap(),
        Solution::new(30, 15, &[1, 1, 0])
    );
    assert_eq!(
        heuristic::pack(&knapsack, &vec![1, 2, 0], true).unwrap(),
        Solution::new(20, 10, &[0, 1, 0])
    );
}

#[test]
fn pack_looks_only_at_the_items_in_the_order() {
    let knapsack = three_items();
    assert_eq!(
        heuristic::pack(&knapsack, &vec![], false).unwrap(),
        Solution::new(0, 0, &[0, 0, 0])
    );
    assert_eq!(
        heuristic::pack(&knapsack, &vec![1], true).unwrap(),
        Solution::new(20, 10, &[0, 1, 0])
    );
}

#[test]
fn pack_counts_a_repeated_item_once() {
    let knapsack = three_items();
    assert_eq!(
        heuristic::pack(&knapsack, &vec![0, 0, 1, 0], false).unwrap(),
        Solution::new(30, 15, &[1, 1, 0])
    );
    assert_eq!(
        heuristic::pack(&knapsack, &vec![0, 0, 0], true).unwrap(),
        Solution::new(10, 5, &[1, 0, 0])
    );
}

#[test]
fn pack_refuses_an_index_out_of_range() {
    let knapsack = three_items();
    assert_eq!(
        heuristic::pack(&knapsack, &vec![3], false),
        Err(KnapsackError::IndexOutOfRange)
    );
    assert_eq!(
        heuristic::pack(&knapsack, &vec![0, 1, usize::MAX], true),
        Err(KnapsackError::IndexOutOfRange)
    );
    assert_eq!(
        heuristic::pack(&knapsack, &vec![2, 2, 7, 0], true),
        Err(KnapsackError::IndexOutOfRange)
    );
    let empty = Knapsack::new(0, Some(1), None);
    assert_eq!(heuristic::pack(&empty, &vec![0], false), Err(KnapsackError::IndexOutOfRange));
}

#[test]
fn pack_reports_an_invalid_instance_before_a_bad_index() {
    let knapsack = Knapsack::new(3, Some(15), Some(&[(10, 5)]));
    assert_eq!(
        heuristic::pack(&knapsack, &vec![9], false),
        Err(KnapsackError::InvalidInstance)
    );
}

#[test]
fn trace_reports_every_step_of_a_full_scan() {
    let steps = heuristic::trace(&three_items(), &Heuristic::Default).unwrap();
    assert_eq!(
        steps,
        vec![
            Solution::new(10, 5, &[1, 0, 0]),
            Solution::new(30, 15, &[1, 1, 0]),
            Solution::new(30, 15, &[1, 1, 0]),
        ]
    );
    let steps = heuristic::trace(&three_items(), &Heuristic::MaxProfit).unwrap();
    assert_eq!(
        steps,
        vec![
            Solution::new(30, 15, &[0, 0, 1]),
            Solution::new(30, 15, &[0, 0, 1]),
            Solution::new(30, 15, &[0, 0, 1]),
        ]
    );
}

#[test]
fn trace_leaves_out_the_step_that_ends_the_pass() {
    let steps = heuristic::trace(&three_items(), &Heuristic::MinWeight).unwrap();
    assert_eq!(
        steps,
        vec![Solution::new(10, 5, &[1, 0, 0]), Solution::new(30, 15, &[1, 1, 0])]
    );
    let nothing_fits = Knapsack::new(2, Some(1), Some(&[(1, 2), (1, 3)]));
    assert_eq!(
        heuristic::trace(&nothing_fits, &Heuristic::MinWeight).unwrap(),
        Vec::<Solution>::new()
    );
    assert_eq!(heuristic::trace(&nothing_fits, &Heuristic::Default).unwrap().len(), 2);
}

#[test]
fn trace_ends_with_the_solution() {
    let knapsack = four_items();
    for heuristic in all(&knapsack) {
        let steps = heuristic::trace(&knapsack, &heuristic).unwrap();
        let solution = heuristic::solve(&knapsack, &heuristic).unwrap();
        assert_eq!(steps.last(), Some(&solution));
    }
}

#[test]
fn trace_of_the_empty_instance_is_empty() {
    let knapsack = Knapsack::new(0, Some(5), None);
    for heuristic in all(&knapsack) {
        assert_eq!(heuristic::trace(&knapsack, &heuristic).unwrap(), Vec::<Solution>::new());
    }
}

#[test]
fn mpw_keeps_the_listing_where_the_quotients_round_to_one_double() {
    let knapsack = Knapsack::new(
        2,
        Some(134_217_729),
        Some(&[(134_217_730, 134_217_729), (134_217_729, 134_217_728)]),
    );
    let keys = densities(&knapsack);
    assert_eq!(keys[0], keys[1]);
    assert_eq!(
        heuristic::mpw(&knapsack, keys).unwrap(),
        Solution::new(134_217_730, 134_217_729, &[1, 0])
    );
}

#[test]
fn mpw_ranks_by_the_keys_it_is_given() {
    let knapsack = three_items();
    assert_eq!(
        heuristic::mpw(&knapsack, vec![1, 2, 3]).unwrap(),
        Solution::new(30, 15, &[0, 0, 1])
    );
    assert_eq!(
        heuristic::mpw(&knapsack, vec![3, 2, 1]).unwrap(),
        Solution::new(30, 15, &[1, 1, 0])
    );
    assert_eq!(
        heuristic::mpw(&knapsack, vec![0, u64::MAX, 0]).unwrap(),
        Solution::new(30, 15, &[1, 1, 0])
    );
    assert_eq!(
        heuristic::mpw(&knapsack, vec![7, 7, 7]).unwrap(),
        Solution::new(30, 15, &[1, 1, 0])
    );
    assert_eq!(
        heuristic::mpw(&knapsack, vec![7, 7, 8]).unwrap(),
        Solution::new(30, 15, &[0, 0, 1])
    );
}

#[test]
fn mpw_puts_weightless_items_first_whatever_their_keys() {
    let knapsack = Knapsack::new(3, Some(5), Some(&[(9, 5), (1, 0), (2, 0)]));
    assert_eq!(
        heuristic::mpw(&knapsack, vec![u64::MAX, 0, 0]).unwrap(),
        Solution::new(12, 5, &[1, 1, 1])
    );
    let steps = heuristic::trace(&knapsack, &Heuristic::MaxProfitPerWeight(vec![u64::MAX, 0, 7]))
        .unwrap();
    assert_eq!(
        steps,
        vec![
            Solution::new(1, 0, &[0, 1, 0]),
            Solution::new(3, 0, &[0, 1, 1]),
            Solution::new(12, 5, &[1, 1, 1]),
        ]
    );
}

#[test]
fn mpw_wants_one_key_per_item() {
    let knapsack = three_items();
    assert_eq!(heuristic::mpw(&knapsack, vec![1, 2]), Err(KnapsackError::InvalidInstance));
    assert_eq!(heuristic::mpw(&knapsack, vec![]), Err(KnapsackError::InvalidInstance));
    assert_eq!(
        heuristic::mpw(&knapsack, vec![1, 2, 3, 4]),
        Err(KnapsackError::InvalidInstance)
    );
    let by_density = Heuristic::MaxProfitPerWeight(vec![1, 2]);
    assert_eq!(heuristic::solve(&knapsack, &by_density), Err(KnapsackError::InvalidInstance));
    assert_eq!(heuristic::trace(&knapsack, &by_density), Err(KnapsackError::InvalidInstance));
    assert_eq!(rank(&knapsack, &by_density), Err(KnapsackError::InvalidInstance));
}

fn considered_before(knapsack: &Knapsack, heuristic: &Heuristic, a: usize, b: usize) -> bool {
    let order = rank(knapsack, heuristic).unwrap();
    let place = |item: usize| order.iter().position(|entry| *entry == item).unwrap();
    place(a) < place(b)
}

#[test]
fn an_item_is_chosen_exactly_where_it_fits_on_what_ranks_before_it() {
    let knapsack = Knapsack::new(
        8,
        Some(40),
        Some(&[(15, 12), (3, 0), (40, 25), (8, 8), (22, 11), (1, 41), (17, 9), (6, 3)]),
    );
    for heuristic in all(&knapsack) {
        let solution = heuristic::solve(&knapsack, &heuristic).unwrap();
        for item in 0..8 {
            let mut earlier: u64 = 0;
            for other in 0..8 {
                if solution.chromosome[other] == 1
                    && considered_before(&knapsack, &heuristic, other, item)
                {
                    earlier += knapsack.weights[other] as u64;
                }
            }
            let fits = knapsack.weights[item] as u64 + earlier <= knapsack.capacity as u64;
            assert_eq!(solution.chromosome[item] == 1, fits);
        }
    }
}
