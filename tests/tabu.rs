use tkp_tabu::{recompute, Order, TabuMemory};

fn orders() -> Vec<Order> {
    vec![
        Order { profit: 1, demand: 1, start: 1, end: 1 },
        Order { profit: 2, demand: 1, start: 1, end: 1 },
    ]
}

#[test]
fn full_memory_forgets_its_oldest_entry() {
    let os = orders();
    let a = recompute(&os, 5, &vec![true, false]);
    let b = recompute(&os, 5, &vec![false, true]);
    let c = recompute(&os, 5, &vec![true, true]);
    let mut m = TabuMemory::new(2);
    m.add_to_tabu_list(a.clone());
    m.add_to_tabu_list(b.clone());
    assert_eq!(m.len(), 2);
    assert!(m.is_tabu(&a) && m.is_tabu(&b));
    m.add_to_tabu_list(c.clone());
    assert_eq!(m.len(), 2);
    assert!(!m.is_tabu(&a));
    assert!(m.is_tabu(&b) && m.is_tabu(&c));
}

#[test]
fn memory_of_capacity_zero_stays_empty() {
    let os = orders();
    let mut m = TabuMemory::new(0);
    m.add_to_tabu_list(recompute(&os, 5, &vec![true, false]));
    assert_eq!(m.len(), 0);
}

#[test]
fn remembered_solution_is_not_added_twice() {
    let os = orders();
    let a = recompute(&os, 5, &vec![true, false]);
    let mut m = TabuMemory::new(3);
    m.add_to_tabu_list(a.clone());
    m.add_to_tabu_list(a.clone());
    assert_eq!(m.len(), 1);
}
