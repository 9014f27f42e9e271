use rand::rngs::StdRng;

use vstd::prelude::*;

use crate::model::{
    demand_total, lemma_totals_monotone, orders_valid, profit_total, Order,
};

verus! {

/// A problem to solve: the capacity of every slot, the orders (their index is
/// their identity) and the random stream that the search draws from.
#[derive(Debug)]
pub struct TkpInstance {
    pub order_count: usize,
    pub capacity: u32,
    pub orders: Vec<Order>,
    pub name: String,
    pub rng: StdRng,
}

/// Why a problem cannot be searched.
#[derive(Clone, Copy, Debug, PartialEq, Eq, Structural)]
pub enum InstanceError {
    /// The order at this index starts at slot 0; slots are numbered from 1.
    StartsAtZero(usize),
    /// The order at this index ends before it starts.
    EndsBeforeStart(usize),
    /// The profits of all orders together do not fit in a `u32`.
    ProfitOverflow,
    /// The demands of all orders together do not fit in a `u32`.
    DemandOverflow,
}

/// Whether order `o` spans a non-empty range of slots numbered from 1.
pub open spec fn order_in_range(o: Order) -> bool {
    1 <= o.start <= o.end
}

/// What [`TkpInstance::validate`] reports for `orders`: the first order out of
/// range, else an overflow of the profits, else of the demands.
pub open spec fn validation_result(orders: Seq<Order>) -> Result<(), InstanceError> {
    let n = orders.len() as int;
    if exists|i: int| 0 <= i < n && !order_in_range(#[trigger] orders[i]) {
        let i = choose|i: int|
            0 <= i < n && !order_in_range(#[trigger] orders[i]) && forall|j: int|
                0 <= j < i ==> order_in_range(#[trigger] orders[j]);
        if orders[i].start == 0 {
            Err(InstanceError::StartsAtZero(i as usize))
        } else {
            Err(InstanceError::EndsBeforeStart(i as usize))
        }
    } else if profit_total(orders, n) > u32::MAX {
        Err(InstanceError::ProfitOverflow)
    } else if demand_total(orders, n) > u32::MAX {
        Err(InstanceError::DemandOverflow)
    } else {
        Ok(())
    }
}

impl Clone for TkpInstance {
    /// A copy whose random stream continues from the same point.
    fn clone(&self) -> (r: TkpInstance)
        ensures
            r.order_count == self.order_count,
            r.capacity == self.capacity,
            r.orders@ == self.orders@,
            r.name@ == self.name@,
    {
        TkpInstance {
            order_count: self.order_count,
            capacity: self.capacity,
            orders: self.orders.clone(),
            name: self.name.clone(),
            rng: self.rng.clone(),
        }
    }
}

impl TkpInstance {
    /// Checks once, before a search, that the orders can be searched: each
    /// spans slots `1..` in order, and all profits and all demands together fit
    /// a `u32`.
    pub fn validate(&self) -> (r: Result<(), InstanceError>)
        ensures
            r == validation_result(self.orders@),
            r is Ok <==> orders_valid(self.orders@),
    {
        let ghost os = self.orders@;
        let ghost n = os.len() as int;
        let mut i: usize = 0;
        while i < self.orders.len()
            invariant
                os == self.orders@,
                n == os.len(),
                i <= n,
                forall|j: int| 0 <= j < i ==> order_in_range(#[trigger] os[j]),
            decreases n - i,
        {
            let o = self.orders[i];
            if o.start == 0 || o.start > o.end {
                proof {
                    let w = choose|w: int|
                        0 <= w < n && !order_in_range(#[trigger] os[w]) && forall|j: int|
                            0 <= j < w ==> order_in_range(#[trigger] os[j]);
                    assert(!order_in_range(os[i as int]));
                    if w < i {
                        assert(order_in_range(os[w]));
                    }
                    if w > i {
                        assert(order_in_range(os[i as int]));
                    }
                    assert(w == i);
                }
                if o.start == 0 {
                    return Err(InstanceError::StartsAtZero(i));
                } else {
                    return Err(InstanceError::EndsBeforeStart(i));
                }
            }
            i = i + 1;
        }
        let mut profit: u64 = 0;
        let mut demand: u64 = 0;
        let mut profit_over = false;
        let mut demand_over = false;
        i = 0;
        while i < self.orders.len()
            invariant
                os == self.orders@,
                n == os.len(),
                i <= n,
                profit_over ==> profit_total(os, n) > u32::MAX,
                !profit_over ==> profit == profit_total(os, i as int),
                demand_over ==> demand_total(os, n) > u32::MAX,
                !demand_over ==> demand == demand_total(os, i as int),
                profit <= u32::MAX,
                demand <= u32::MAX,
            decreases n - i,
        {
            let o = self.orders[i];
            proof {
                lemma_totals_monotone(os, i + 1, n);
            }
            if !profit_over {
                if profit + o.profit as u64 > u32::MAX as u64 {
                    profit_over = true;
                } else {
                    profit = profit + o.profit as u64;
                }
            }
            if !demand_over {
                if demand + o.demand as u64 > u32::MAX as u64 {
                    demand_over = true;
                } else {
                    demand = demand + o.demand as u64;
                }
            }
            i = i + 1;
        }
        if profit_over {
            Err(InstanceError::ProfitOverflow)
        } else if demand_over {
            Err(InstanceError::DemandOverflow)
        } else {
            Ok(())
        }
    }
}

} // verus!
