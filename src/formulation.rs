use vstd::prelude::*;

use crate::instance::TkpInstance;
use crate::model::{active, horizon, lemma_load_bounds, lemma_totals_monotone, load, orders_valid, Order};
use crate::solution::last_order_end;

verus! {

/// The orders among the first `n` that are active at slot `t`, in index
/// order.
pub open spec fn active_orders(orders: Seq<Order>, t: int, n: int) -> Seq<usize>
    decreases n,
{
    if n <= 0 {
        Seq::empty()
    } else {
        let p = active_orders(orders, t, n - 1);
        if active(orders[n - 1], t) {
            p.push((n - 1) as usize)
        } else {
            p
        }
    }
}

/// The demand at slot `t` if every order were chosen.
pub open spec fn full_load(orders: Seq<Order>, t: int) -> int {
    load(orders, Seq::new(orders.len(), |i: int| true), t, orders.len() as int)
}

/// The slots among `1..=h` at which choosing every order would exceed
/// `capacity`: the only slots that need a capacity constraint.
pub open spec fn constrained_slots(orders: Seq<Order>, capacity: int, h: int) -> Seq<u32>
    decreases h,
{
    if h <= 0 {
        Seq::empty()
    } else {
        let p = constrained_slots(orders, capacity, h - 1);
        if full_load(orders, h) > capacity {
            p.push(h as u32)
        } else {
            p
        }
    }
}

impl TkpInstance {
    /// The capacity constraints of the integer program of this problem: for
    /// each slot at which all orders together would exceed the capacity, in
    /// slot order, the slot and the orders active at it.
    pub fn capacity_rows(&self) -> (r: Vec<(u32, Vec<usize>)>)
        requires
            orders_valid(self.orders@),
        ensures
            r@.map_values(|row: (u32, Vec<usize>)| row.0) == constrained_slots(
                self.orders@,
                self.capacity as int,
                horizon(self.orders@),
            ),
            forall|j: int|
                0 <= j < r@.len() ==> (#[trigger] r@[j]).1@ == active_orders(
                    self.orders@,
                    r@[j].0 as int,
                    self.orders@.len() as int,
                ),
    {
        let ghost os = self.orders@;
        let ghost n = os.len() as int;
        let ghost all = Seq::new(os.len(), |i: int| true);
        let h = last_order_end(&self.orders) as u64;
        proof {
            crate::model::lemma_horizon_nonneg(os, n);
        }
        let mut rows: Vec<(u32, Vec<usize>)> = Vec::new();
        let mut t: u64 = 1;
        while t <= h
            invariant
                os == self.orders@,
                n == os.len(),
                all == Seq::new(os.len(), |i: int| true),
                orders_valid(os),
                h == horizon(os),
                h <= u32::MAX,
                1 <= t <= h + 1,
                rows@.map_values(|row: (u32, Vec<usize>)| row.0) == constrained_slots(
                    os,
                    self.capacity as int,
                    t - 1,
                ),
                forall|j: int|
                    0 <= j < rows@.len() ==> (#[trigger] rows@[j]).1@ == active_orders(
                        os,
                        rows@[j].0 as int,
                        n,
                    ),
            decreases h + 1 - t,
        {
            let mut members: Vec<usize> = Vec::new();
            let mut demand: u64 = 0;
            let mut i: usize = 0;
            while i < self.orders.len()
                invariant
                    os == self.orders@,
                    n == os.len(),
                    all == Seq::new(os.len(), |i: int| true),
                    orders_valid(os),
                    i <= n,
                    members@ == active_orders(os, t as int, i as int),
                    demand == load(os, all, t as int, i as int),
                decreases n - i,
            {
                let o = self.orders[i];
                proof {
                    lemma_load_bounds(os, all, t as int, i + 1);
                    lemma_totals_monotone(os, i + 1, n);
                }
                if o.start as u64 <= t && t <= o.end as u64 {
                    members.push(i);
                    demand = demand + o.demand as u64;
                }
                i = i + 1;
            }
            let ghost before = rows@;
            if demand > self.capacity as u64 {
                rows.push((t as u32, members));
                assert(rows@.map_values(|row: (u32, Vec<usize>)| row.0) =~= before.map_values(
                    |row: (u32, Vec<usize>)| row.0,
                ).push(t as u32));
            }
            t = t + 1;
        }
        rows
    }
}

} // verus!
