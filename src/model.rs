use vstd::prelude::*;

verus! {

/// One schedulable order: it occupies `demand` units of capacity at every slot
/// of the inclusive range `start..=end`, and yields `profit` when chosen.
#[derive(Clone, Copy, Debug, PartialEq, Eq, Structural)]
pub struct Order {
    pub profit: u32,
    pub demand: u32,
    pub start: u32,
    pub end: u32,
}

/// Whether order `o` is active at slot `t`.
pub open spec fn active(o: Order, t: int) -> bool {
    o.start <= t <= o.end
}

/// Total demand at slot `t` of the chosen orders among the first `n`.
pub open spec fn load(orders: Seq<Order>, sel: Seq<bool>, t: int, n: int) -> int
    decreases n,
{
    if n <= 0 {
        0
    } else {
        load(orders, sel, t, n - 1) + if sel[n - 1] && active(orders[n - 1], t) {
            orders[n - 1].demand as int
        } else {
            0
        }
    }
}

/// Total profit of the chosen orders among the first `n`.
pub open spec fn profit_sum(orders: Seq<Order>, sel: Seq<bool>, n: int) -> int
    decreases n,
{
    if n <= 0 {
        0
    } else {
        profit_sum(orders, sel, n - 1) + if sel[n - 1] {
            orders[n - 1].profit as int
        } else {
            0
        }
    }
}

/// Sum of the demands of the first `n` orders.
pub open spec fn demand_total(orders: Seq<Order>, n: int) -> int
    decreases n,
{
    if n <= 0 {
        0
    } else {
        demand_total(orders, n - 1) + orders[n - 1].demand
    }
}

/// Sum of the profits of the first `n` orders.
pub open spec fn profit_total(orders: Seq<Order>, n: int) -> int
    decreases n,
{
    if n <= 0 {
        0
    } else {
        profit_total(orders, n - 1) + orders[n - 1].profit
    }
}

/// The last slot in which any of the first `n` orders is active (0 for none).
pub open spec fn horizon_upto(orders: Seq<Order>, n: int) -> int
    decreases n,
{
    if n <= 0 {
        0
    } else {
        let h = horizon_upto(orders, n - 1);
        if orders[n - 1].end > h {
            orders[n - 1].end as int
        } else {
            h
        }
    }
}

/// The number of slots that the orders span: the largest `end`.
pub open spec fn horizon(orders: Seq<Order>) -> int {
    horizon_upto(orders, orders.len() as int)
}

/// A problem that the search accepts: every order spans a non-empty range of
/// slots numbered from 1, and neither all profits together nor all demands
/// together overflow a `u32`, so no selection and no slot can.
pub open spec fn orders_valid(orders: Seq<Order>) -> bool {
    &&& forall|i: int| 0 <= i < orders.len() ==> 1 <= #[trigger] orders[i].start <= orders[i].end
    &&& profit_total(orders, orders.len() as int) <= u32::MAX
    &&& demand_total(orders, orders.len() as int) <= u32::MAX
}

/// Whether no slot of the horizon carries more than `capacity` under `sel`.
pub open spec fn fits_capacity(orders: Seq<Order>, capacity: int, sel: Seq<bool>) -> bool {
    forall|t: int| 1 <= t <= horizon(orders) ==> #[trigger] load(orders, sel, t, orders.len() as int) <= capacity
}

pub proof fn lemma_load_bounds(orders: Seq<Order>, sel: Seq<bool>, t: int, n: int)
    requires
        0 <= n <= orders.len(),
        n <= sel.len(),
    ensures
        0 <= load(orders, sel, t, n) <= demand_total(orders, n),
        0 <= demand_total(orders, n),
    decreases n,
{
    if n > 0 {
        lemma_load_bounds(orders, sel, t, n - 1);
    }
}

pub proof fn lemma_profit_bounds(orders: Seq<Order>, sel: Seq<bool>, n: int)
    requires
        0 <= n <= orders.len(),
        n <= sel.len(),
    ensures
        0 <= profit_sum(orders, sel, n) <= profit_total(orders, n),
        0 <= profit_total(orders, n),
    decreases n,
{
    if n > 0 {
        lemma_profit_bounds(orders, sel, n - 1);
    }
}

pub proof fn lemma_totals_monotone(orders: Seq<Order>, m: int, n: int)
    requires
        0 <= m <= n <= orders.len(),
    ensures
        demand_total(orders, m) <= demand_total(orders, n),
        profit_total(orders, m) <= profit_total(orders, n),
    decreases n,
{
    if m < n {
        lemma_totals_monotone(orders, m, n - 1);
    }
}

/// No order of the first `n` ends after `horizon_upto(orders, n)`.
pub proof fn lemma_horizon_bounds(orders: Seq<Order>, n: int, i: int)
    requires
        0 <= i < n <= orders.len(),
    ensures
        orders[i].end <= horizon_upto(orders, n),
    decreases n,
{
    if i < n - 1 {
        lemma_horizon_bounds(orders, n - 1, i);
    }
}

pub proof fn lemma_horizon_nonneg(orders: Seq<Order>, n: int)
    ensures
        0 <= horizon_upto(orders, n) <= u32::MAX,
    decreases n,
{
    if n > 0 {
        lemma_horizon_nonneg(orders, n - 1);
    }
}

/// Flipping the choice of order `i` changes the load at each slot by that
/// order's demand where it is active, and nowhere else.
pub proof fn lemma_load_flip(orders: Seq<Order>, sel: Seq<bool>, i: int, t: int, n: int)
    requires
        0 <= i < sel.len(),
        0 <= n <= orders.len(),
        n <= sel.len(),
    ensures
        load(orders, sel.update(i, !sel[i]), t, n) == load(orders, sel, t, n) + if i < n
            && active(orders[i], t) {
            if sel[i] {
                -(orders[i].demand as int)
            } else {
                orders[i].demand as int
            }
        } else {
            0
        },
    decreases n,
{
    if n > 0 {
        lemma_load_flip(orders, sel, i, t, n - 1);
    }
}

/// Flipping the choice of order `i` changes the profit by that order's profit.
pub proof fn lemma_profit_flip(orders: Seq<Order>, sel: Seq<bool>, i: int, n: int)
    requires
        0 <= i < sel.len(),
        0 <= n <= orders.len(),
        n <= sel.len(),
    ensures
        profit_sum(orders, sel.update(i, !sel[i]), n) == profit_sum(orders, sel, n) + if i < n {
            if sel[i] {
                -(orders[i].profit as int)
            } else {
                orders[i].profit as int
            }
        } else {
            0
        },
    decreases n,
{
    if n > 0 {
        lemma_profit_flip(orders, sel, i, n - 1);
    }
}

/// With nothing chosen, every slot is empty and the profit is zero.
pub proof fn lemma_nothing_chosen(orders: Seq<Order>, sel: Seq<bool>, t: int, n: int)
    requires
        0 <= n <= sel.len(),
        forall|j: int| 0 <= j < sel.len() ==> !sel[j],
    ensures
        load(orders, sel, t, n) == 0,
        profit_sum(orders, sel, n) == 0,
    decreases n,
{
    if n > 0 {
        lemma_nothing_chosen(orders, sel, t, n - 1);
    }
}

} // verus!
