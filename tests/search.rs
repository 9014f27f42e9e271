use tkp_tabu::neighbors::{profit_pool, rank_by_ratio, ratio_key_of, slack_pool};
use tkp_tabu::search::{
    baseline_solution, move_count_of, pick_move, repair_move, selected_sample, Move,
};
use tkp_tabu::{
    recompute, ImprovementSink, NoopSink, Order, RepairExhausted, SearchConfig, Solution,
    TabuSearch, TkpInstance, DEFAULT_ASPIRATION_THRESHOLD,
};

fn order(profit: u32, demand: u32, start: u32, end: u32) -> Order {
    Order { profit, demand, start, end }
}

fn instance(capacity: u32, orders: Vec<Order>, seed: u64) -> TkpInstance {
    let mut inst = TkpInstance::parse_from_text("0\n0\n", "t".to_string(), seed).expect("empty");
    inst.capacity = capacity;
    inst.order_count = orders.len();
    inst.orders = orders;
    inst
}

fn config(tabu: usize, size: usize, cost_benefit: bool, slack_fill: bool) -> SearchConfig {
    SearchConfig {
        tabu_list_size: tabu,
        neighborhood_size: size,
        enable_cost_benefit: cost_benefit,
        enable_slack_fill: slack_fill,
        aspiration_threshold: DEFAULT_ASPIRATION_THRESHOLD,
    }
}

/// A larger problem with crowded slots, for runs of many iterations.
fn crowded(seed: u64) -> TkpInstance {
    let mut orders = Vec::new();
    for i in 0..40u32 {
        let start = 1 + (i * 7) % 20;
        let end = start + (i * 3) % 6;
        orders.push(order(5 + (i * 13) % 41, 1 + (i * 5) % 9, start, end));
    }
    instance(20, orders, seed)
}

struct Recorder {
    profits: Vec<u32>,
    iterations: Vec<usize>,
}

impl ImprovementSink for Recorder {
    fn improved(&mut self, iteration: usize, profit: u32, _sample: &Vec<usize>) {
        self.iterations.push(iteration);
        self.profits.push(profit);
    }
}

#[test]
fn config_new_enables_both_moves() {
    let c = SearchConfig::new(20, 30);
    assert_eq!(c, config(20, 30, true, true));
    assert_eq!(c.aspiration_threshold, 50);
}

#[test]
fn single_order_that_fits_is_chosen() {
    let inst = instance(5, vec![order(10, 5, 1, 1)], 3);
    for iterations in [1usize, 5, 50] {
        let best = inst.tabu_search(iterations, &config(10, 10, true, true), &mut NoopSink).unwrap();
        assert_eq!(best.total_profit, 10);
        assert_eq!(best.selected_orders, vec![true]);
    }
}

#[test]
fn conflicting_orders_keep_the_more_profitable() {
    let inst = instance(10, vec![order(7, 6, 1, 1), order(9, 6, 1, 1)], 11);
    for iterations in [1usize, 2, 10, 200] {
        let best = inst.tabu_search(iterations, &config(10, 20, true, true), &mut NoopSink).unwrap();
        assert_eq!(best.total_profit, 9);
        assert_eq!(best.selected_orders, vec![false, true]);
        assert!(best.is_feasible);
    }
}

#[test]
fn both_conflicting_orders_together_are_infeasible() {
    let os = vec![order(7, 6, 1, 1), order(9, 6, 1, 1)];
    assert!(!recompute(&os, 10, &vec![true, true]).is_feasible);
}

#[test]
fn zero_iterations_return_the_baseline() {
    let inst = crowded(5);
    let best = inst.tabu_search(0, &config(10, 10, true, true), &mut NoopSink).unwrap();
    assert_eq!(best.total_profit, 0);
    assert_eq!(best.selected_orders, vec![false; 40]);
    assert_eq!(best, baseline_solution(&inst.orders, inst.capacity));
}

#[test]
fn empty_problem_returns_the_baseline() {
    let inst = instance(5, vec![], 1);
    let best = inst.tabu_search(100, &config(10, 10, true, true), &mut NoopSink).unwrap();
    assert_eq!(best.total_profit, 0);
    assert!(best.selected_orders.is_empty());
}

#[test]
fn invalid_problem_is_refused() {
    let inst = instance(5, vec![order(1, 1, 0, 1)], 1);
    assert_eq!(
        inst.tabu_search(10, &config(10, 10, true, true), &mut NoopSink).unwrap_err(),
        tkp_tabu::InstanceError::StartsAtZero(0)
    );
}

#[test]
fn more_iterations_never_do_worse_with_random_moves_only() {
    let inst = crowded(42);
    let c = config(20, 10, false, false);
    let short = inst.tabu_search(100, &c, &mut NoopSink).unwrap();
    let long = inst.tabu_search(1000, &c, &mut NoopSink).unwrap();
    assert!(long.total_profit >= short.total_profit);
    assert!(short.is_feasible && long.is_feasible);
}

#[test]
fn same_seed_gives_the_same_run() {
    let c = config(20, 15, true, true);
    let mut first = Recorder { profits: vec![], iterations: vec![] };
    let mut second = Recorder { profits: vec![], iterations: vec![] };
    let a = crowded(9).tabu_search(300, &c, &mut first).unwrap();
    let b = crowded(9).tabu_search(300, &c, &mut second).unwrap();
    assert_eq!(a, b);
    assert_eq!(first.profits, second.profits);
    assert_eq!(first.iterations, second.iterations);
}

#[test]
fn improvements_are_reported_in_increasing_order() {
    let mut rec = Recorder { profits: vec![], iterations: vec![] };
    let best = crowded(4).tabu_search(300, &config(20, 15, true, true), &mut rec).unwrap();
    assert!(!rec.profits.is_empty());
    assert!(rec.profits.windows(2).all(|w| w[0] < w[1]));
    assert!(rec.iterations.windows(2).all(|w| w[0] < w[1]));
    assert_eq!(*rec.profits.last().unwrap(), best.total_profit);
}

#[test]
fn result_is_consistent_with_its_selection() {
    let inst = crowded(17);
    let best = inst.tabu_search(200, &config(20, 20, true, true), &mut NoopSink).unwrap();
    assert!(best.is_feasible);
    assert!(best.total_profit > 0);
    assert_eq!(best, recompute(&inst.orders, inst.capacity, &best.selected_orders));
}

#[test]
fn best_profit_never_decreases_across_iterations() {
    let inst = crowded(23);
    let mut search = TabuSearch::new(config(5, 10, true, true), inst.clone());
    let mut current = baseline_solution(&inst.orders, inst.capacity);
    let mut best = current.clone();
    for _ in 0..200 {
        let before = best.total_profit;
        let improved = search.iterate(&mut current, &mut best);
        assert!(best.total_profit >= before);
        assert_eq!(improved, best.total_profit > before);
        assert!(current.is_feasible && best.is_feasible);
        assert_eq!(current, recompute(&inst.orders, inst.capacity, &current.selected_orders));
    }
    assert!(best.total_profit > 0);
}

#[test]
fn tabu_search_method_runs_on_its_own_problem() {
    let inst = instance(5, vec![order(10, 5, 1, 1)], 3);
    let mut search = TabuSearch::new(config(10, 5, true, true), inst);
    let best = search.tabu_search(3, &mut NoopSink);
    assert_eq!(best.total_profit, 10);
}

#[test]
fn select_neighbor_prefers_highest_profit_then_earliest() {
    let os = vec![order(4, 1, 1, 1), order(6, 1, 1, 1), order(6, 1, 2, 2)];
    let search = TabuSearch::new(config(10, 5, true, true), instance(1, os.clone(), 1));
    let a = recompute(&os, 1, &vec![true, false, false]);
    let b = recompute(&os, 1, &vec![false, true, false]);
    let c = recompute(&os, 1, &vec![false, false, true]);
    let over = recompute(&os, 1, &vec![true, true, true]);
    let batch: Vec<Result<Solution, RepairExhausted>> =
        vec![Ok(a), Err(RepairExhausted), Ok(over), Ok(b), Ok(c)];
    assert_eq!(search.select_neighbor(&batch), Some(3));
    let none: Vec<Result<Solution, RepairExhausted>> = vec![Err(RepairExhausted)];
    assert_eq!(search.select_neighbor(&none), None);
}

#[test]
fn ratio_key_rounds_half_away_from_zero() {
    assert_eq!(ratio_key_of(&order(10, 1, 1, 5)), 3);
    assert_eq!(ratio_key_of(&order(10, 1, 1, 4)), 3);
    assert_eq!(ratio_key_of(&order(9, 1, 1, 3)), 5);
    assert_eq!(ratio_key_of(&order(7, 1, 1, 3)), 4);
    assert_eq!(ratio_key_of(&order(7, 1, 2, 2)), u32::MAX);
    assert_eq!(ratio_key_of(&order(0, 1, 2, 2)), 0);
}

#[test]
fn ranking_keeps_the_last_order_of_each_key() {
    let os = vec![order(6, 1, 1, 3), order(9, 1, 1, 4), order(2, 1, 1, 2), order(3, 1, 1, 2)];
    assert_eq!(rank_by_ratio(&os), vec![(3, 3), (2, 2)]);
}

#[test]
fn profit_pool_takes_five_eligible_in_ranking_order() {
    let mut os = Vec::new();
    for i in 0..8u32 {
        os.push(order(10 * (i + 1), 1, 1, 2));
    }
    os.push(order(1000, 9, 1, 2));
    let ranking = rank_by_ratio(&os);
    let cur = recompute(&os, 5, &vec![false, false, false, false, false, false, true, false, false]);
    let pool = profit_pool(&os, 5, &ranking, &cur, &vec![7]);
    assert_eq!(pool, vec![5, 4, 3, 2, 1]);
}

#[test]
fn slack_pool_prefers_the_most_free_capacity() {
    let os = vec![
        order(1, 1, 1, 1),
        order(1, 1, 1, 3),
        order(1, 1, 2, 3),
        order(1, 1, 3, 3),
        order(1, 1, 2, 2),
        order(1, 1, 1, 2),
        order(1, 9, 1, 1),
    ];
    let cur = recompute(&os, 4, &vec![true, false, false, false, false, false, false]);
    let pool = slack_pool(&os, 4, &cur, &vec![5]);
    assert_eq!(pool, vec![(11, 1), (8, 2), (4, 4), (4, 3)]);
}

#[test]
fn sample_lists_the_first_chosen_orders() {
    let os: Vec<Order> = (0..20u32).map(|i| order(1, 1, i + 1, i + 1)).collect();
    let sel: Vec<bool> = (0..20).map(|i| i % 3 != 1).collect();
    let s = recompute(&os, 1, &sel);
    assert_eq!(selected_sample(&s, 4), vec![0, 2, 3, 5]);
    assert_eq!(selected_sample(&s, 100).len(), 13);
}

#[test]
fn pick_move_follows_the_enabled_moves() {
    let both = config(1, 1, true, true);
    let cb = config(1, 1, true, false);
    let sf = config(1, 1, false, true);
    let none = config(1, 1, false, false);
    assert_eq!(move_count_of(&both), 3);
    assert_eq!(move_count_of(&cb), 2);
    assert_eq!(move_count_of(&sf), 2);
    assert_eq!(move_count_of(&none), 1);
    assert_eq!(pick_move(&both, 0), Move::RandomFlip);
    assert_eq!(pick_move(&both, 1), Move::CostBenefit);
    assert_eq!(pick_move(&both, 2), Move::SlackFill);
    assert_eq!(pick_move(&cb, 1), Move::CostBenefit);
    assert_eq!(pick_move(&sf, 1), Move::SlackFill);
    assert_eq!(pick_move(&none, 0), Move::RandomFlip);
}

#[test]
fn repair_move_adds_or_drops_the_picked_order() {
    let os: Vec<Order> = (0..4u32).map(|i| order(i + 1, 1, 1, 1)).collect();
    let mut s = recompute(&os, 10, &vec![true, false, true, false]);
    repair_move(&mut s, &os, 10, true, 1);
    assert_eq!(s.selected_orders, vec![true, false, true, true]);
    repair_move(&mut s, &os, 10, false, 0);
    assert_eq!(s.selected_orders, vec![false, false, true, true]);
    repair_move(&mut s, &os, 10, true, 5);
    assert_eq!(s.selected_orders, vec![false, false, true, true]);
    assert_eq!(s, recompute(&os, 10, &s.selected_orders));
}

#[test]
fn random_moves_that_fit_flip_one_order() {
    let os: Vec<Order> = (0..6u32).map(|i| order(i + 1, 1, 1, 2)).collect();
    let inst = instance(100, os, 8);
    let best = inst.tabu_search(1, &config(5, 1, false, false), &mut NoopSink).unwrap();
    assert_eq!(best.selected_orders.iter().filter(|b| **b).count(), 1);
    assert!(best.total_profit >= 1);
}
