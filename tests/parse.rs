use tkp_tabu::{InstanceError, Order, TkpInstance};

fn order(profit: u32, demand: u32, start: u32, end: u32) -> Order {
    Order { profit, demand, start, end }
}

#[test]
fn parse_from_line_reads_four_fields() {
    assert_eq!(Order::parse_from_line("10 5 1 3"), Some(order(10, 5, 1, 3)));
}

#[test]
fn parse_from_line_ignores_surrounding_space_and_extra_fields() {
    assert_eq!(Order::parse_from_line("  7 2 4 9 11\r\n"), Some(order(7, 2, 4, 9)));
    assert_eq!(Order::parse_from_line("\t+7 02 4 9"), Some(order(7, 2, 4, 9)));
}

#[test]
fn parse_from_line_rejects_malformed_lines() {
    assert_eq!(Order::parse_from_line("10 5 1"), None);
    assert_eq!(Order::parse_from_line("10  5 1 3"), None);
    assert_eq!(Order::parse_from_line("10 5 x 3"), None);
    assert_eq!(Order::parse_from_line("10 5 1 3 -2"), None);
    assert_eq!(Order::parse_from_line(""), None);
    assert_eq!(Order::parse_from_line("+ 5 1 3"), None);
}

#[test]
fn parse_from_line_rejects_values_over_u32() {
    assert_eq!(Order::parse_from_line("4294967295 0 1 1"), Some(order(u32::MAX, 0, 1, 1)));
    assert_eq!(Order::parse_from_line("4294967296 0 1 1"), None);
}

#[test]
fn parse_from_text_reads_a_problem() {
    let inst = TkpInstance::parse_from_text("2\n10\n5 3 1 2\n7 4 2 3\n", "p".to_string(), 1)
        .expect("a problem");
    assert_eq!(inst.order_count, 2);
    assert_eq!(inst.capacity, 10);
    assert_eq!(inst.orders, vec![order(5, 3, 1, 2), order(7, 4, 2, 3)]);
    assert_eq!(inst.name, "p");
}

#[test]
fn parse_from_text_handles_crlf_and_short_files() {
    let inst = TkpInstance::parse_from_text("3\r\n8\r\n1 1 1 1\r\n", "q".to_string(), 1)
        .expect("a problem");
    assert_eq!(inst.order_count, 3);
    assert_eq!(inst.capacity, 8);
    assert_eq!(inst.orders, vec![order(1, 1, 1, 1)]);
}

#[test]
fn parse_from_text_ignores_lines_after_the_orders() {
    let inst = TkpInstance::parse_from_text("1\n8\n1 1 1 1\nnot an order\n", "r".to_string(), 1)
        .expect("a problem");
    assert_eq!(inst.orders, vec![order(1, 1, 1, 1)]);
}

#[test]
fn parse_from_text_rejects_malformed_problems() {
    assert!(TkpInstance::parse_from_text("", "e".to_string(), 1).is_none());
    assert!(TkpInstance::parse_from_text("2\n", "e".to_string(), 1).is_none());
    assert!(TkpInstance::parse_from_text("x\n10\n", "e".to_string(), 1).is_none());
    assert!(TkpInstance::parse_from_text("1\n10 \n1 1 1 1\n", "e".to_string(), 1).is_none());
    assert!(TkpInstance::parse_from_text("2\n10\n1 1 1 1\n1 1\n", "e".to_string(), 1).is_none());
}

fn instance(capacity: u32, orders: Vec<Order>) -> TkpInstance {
    let mut inst = TkpInstance::parse_from_text("0\n0\n", "t".to_string(), 7).expect("empty");
    inst.capacity = capacity;
    inst.order_count = orders.len();
    inst.orders = orders;
    inst
}

#[test]
fn validate_reports_each_error() {
    assert_eq!(instance(5, vec![order(1, 1, 1, 2)]).validate(), Ok(()));
    assert_eq!(
        instance(5, vec![order(1, 1, 1, 2), order(1, 1, 0, 2)]).validate(),
        Err(InstanceError::StartsAtZero(1))
    );
    assert_eq!(
        instance(5, vec![order(1, 1, 3, 2), order(1, 1, 0, 2)]).validate(),
        Err(InstanceError::EndsBeforeStart(0))
    );
    assert_eq!(
        instance(5, vec![order(u32::MAX, 1, 1, 1), order(1, 1, 1, 1)]).validate(),
        Err(InstanceError::ProfitOverflow)
    );
    assert_eq!(
        instance(5, vec![order(1, u32::MAX, 1, 1), order(1, 1, 1, 1)]).validate(),
        Err(InstanceError::DemandOverflow)
    );
}

#[test]
fn capacity_rows_lists_overloaded_slots() {
    let inst = instance(5, vec![order(1, 3, 1, 2), order(1, 3, 2, 3), order(1, 1, 4, 4)]);
    let rows = inst.capacity_rows();
    assert_eq!(rows, vec![(2, vec![0, 1])]);
}
