use tkp_tabu::{last_order_end, recompute, Order, Solution};

fn orders() -> Vec<Order> {
    vec![
        Order { profit: 10, demand: 4, start: 1, end: 2 },
        Order { profit: 7, demand: 3, start: 2, end: 4 },
        Order { profit: 5, demand: 2, start: 3, end: 3 },
    ]
}

fn baseline(orders: &Vec<Order>) -> Solution {
    Solution::new(orders.len(), 0, last_order_end(orders))
}

#[test]
fn new_solution_is_empty_and_feasible() {
    let s = Solution::new(3, 0, 4);
    assert_eq!(s.selected_orders, vec![false; 3]);
    assert_eq!(s.total_profit, 0);
    assert!(s.is_feasible);
    assert_eq!(s.total_demand, vec![0; 4]);
}

#[test]
fn last_order_end_is_the_largest_end() {
    assert_eq!(last_order_end(&orders()), 4);
    assert_eq!(last_order_end(&vec![]), 0);
}

#[test]
fn apply_updates_profile_profit_and_feasibility() {
    let os = orders();
    let mut s = baseline(&os);
    s.apply(&os, 6, 0);
    assert_eq!(s.total_demand, vec![4, 4, 0, 0]);
    assert_eq!(s.total_profit, 10);
    assert!(s.is_feasible);
    s.apply(&os, 6, 1);
    assert_eq!(s.total_demand, vec![4, 7, 3, 3]);
    assert_eq!(s.total_profit, 17);
    assert!(!s.is_feasible);
    s.apply(&os, 6, 0);
    assert_eq!(s.total_demand, vec![0, 3, 3, 3]);
    assert_eq!(s.total_profit, 7);
    assert!(s.is_feasible);
}

#[test]
fn incremental_state_matches_recomputation() {
    let os = orders();
    let mut s = baseline(&os);
    for &i in &[0usize, 2, 1, 2, 0, 2, 1] {
        s.apply(&os, 6, i);
        let fresh = recompute(&os, 6, &s.selected_orders);
        assert_eq!(fresh, s);
    }
}

#[test]
fn profit_follows_any_sequence_of_toggles() {
    let os = orders();
    let mut s = baseline(&os);
    s.apply_all(&os, 6, &vec![2, 0, 1, 1, 2, 1]);
    assert_eq!(s.selected_orders, vec![true, true, false]);
    assert_eq!(s.total_profit, 17);
    assert_eq!(s, recompute(&os, 6, &vec![true, true, false]));
}

#[test]
fn recompute_builds_from_scratch() {
    let os = orders();
    let s = recompute(&os, 5, &vec![true, false, true]);
    assert_eq!(s.total_demand, vec![4, 4, 2, 0]);
    assert_eq!(s.total_profit, 15);
    assert!(s.is_feasible);
    let t = recompute(&os, 5, &vec![false, true, true]);
    assert_eq!(t.total_demand, vec![0, 3, 5, 3]);
    assert!(t.is_feasible);
    let u = recompute(&os, 4, &vec![false, true, true]);
    assert!(!u.is_feasible);
}

#[test]
fn solutions_compare_on_every_part() {
    let os = orders();
    let a = recompute(&os, 6, &vec![true, false, false]);
    let mut b = a.clone();
    assert_eq!(a, b);
    b.is_feasible = false;
    assert_ne!(a, b);
    let mut c = a.clone();
    c.total_demand[3] = 1;
    assert_ne!(a, c);
}
