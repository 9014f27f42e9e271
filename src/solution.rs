use vstd::prelude::*;

use crate::model::{
    fits_capacity, horizon, horizon_upto, lemma_horizon_bounds, lemma_horizon_nonneg,
    lemma_load_bounds, lemma_load_flip, lemma_profit_bounds, lemma_profit_flip,
    lemma_totals_monotone, load, orders_valid, profit_sum, Order,
};

verus! {

/// A selection of orders together with the state derived from it: the
/// profit of the chosen orders, the demand carried at every slot (slot `t` at
/// index `t - 1`) and whether no slot is over capacity.
#[derive(Debug)]
pub struct Solution {
    pub selected_orders: Vec<bool>,
    pub total_profit: u32,
    pub is_feasible: bool,
    pub total_demand: Vec<u32>,
}

/// The mathematical value of a [`Solution`]: two solutions are the same exactly
/// when all four parts agree.
pub struct SolutionView {
    pub selected: Seq<bool>,
    pub total_profit: u32,
    pub is_feasible: bool,
    pub total_demand: Seq<u32>,
}

impl View for Solution {
    type V = SolutionView;

    open spec fn view(&self) -> SolutionView {
        SolutionView {
            selected: self.selected_orders@,
            total_profit: self.total_profit,
            is_feasible: self.is_feasible,
            total_demand: self.total_demand@,
        }
    }
}

/// Whether every slot of `profile` carries at most `capacity`.
pub open spec fn profile_fits(profile: Seq<u32>, capacity: int) -> bool {
    forall|k: int| 0 <= k < profile.len() ==> #[trigger] profile[k] <= capacity
}

impl SolutionView {
    /// The solution is exactly what its selection gives for these orders: the
    /// per-slot demand, the profit and the feasibility all agree with a
    /// computation from scratch.
    pub open spec fn wf(self, orders: Seq<Order>, capacity: int) -> bool {
        let n = orders.len() as int;
        &&& self.selected.len() == n
        &&& self.total_demand.len() == horizon(orders)
        &&& forall|k: int|
            0 <= k < horizon(orders) ==> #[trigger] self.total_demand[k] == load(
                orders,
                self.selected,
                k + 1,
                n,
            )
        &&& self.total_profit == profit_sum(orders, self.selected, n)
        &&& self.is_feasible == fits_capacity(orders, capacity, self.selected)
    }

    /// The selection after flipping the choice of order `i`.
    pub open spec fn flipped(self, i: int) -> Seq<bool> {
        self.selected.update(i, !self.selected[i])
    }
}

impl Solution {
    pub open spec fn wf(&self, orders: Seq<Order>, capacity: int) -> bool {
        self@.wf(orders, capacity)
    }

    /// A solution with `size` orders, none chosen, the given profit and
    /// `last_order_end` empty slots.
    pub fn new(size: usize, profit: u32, last_order_end: usize) -> (r: Solution)
        ensures
            r.selected_orders@ == Seq::new(size as nat, |i: int| false),
            r.total_profit == profit,
            r.is_feasible,
            r.total_demand@ == Seq::new(last_order_end as nat, |i: int| 0u32),
    {
        let r = Solution {
            selected_orders: vec![false; size],
            total_profit: profit,
            is_feasible: true,
            total_demand: vec![0u32; last_order_end],
        };
        assert(r.selected_orders@ =~= Seq::new(size as nat, |i: int| false));
        assert(r.total_demand@ =~= Seq::new(last_order_end as nat, |i: int| 0u32));
        r
    }

    /// Whether every slot carries at most `capacity`.
    pub fn profile_fits(&self, capacity: u32) -> (r: bool)
        ensures
            r == profile_fits(self.total_demand@, capacity as int),
    {
        let mut k: usize = 0;
        while k < self.total_demand.len()
            invariant
                k <= self.total_demand@.len(),
                forall|j: int| 0 <= j < k ==> #[trigger] self.total_demand@[j] <= capacity,
            decreases self.total_demand@.len() - k,
        {
            if self.total_demand[k] > capacity {
                return false;
            }
            k = k + 1;
        }
        true
    }

    /// Flips the choice of order `idx` and brings the profit, the demand of
    /// each slot that the order covers, and the feasibility up to date, without
    /// recomputing the untouched slots.
    pub fn apply(&mut self, orders: &Vec<Order>, capacity: u32, idx: usize)
        requires
            orders_valid(orders@),
            old(self).wf(orders@, capacity as int),
            idx < orders@.len(),
        ensures
            final(self).wf(orders@, capacity as int),
            final(self).selected_orders@ == old(self)@.flipped(idx as int),
    {
        let ghost os = orders@;
        let ghost n = os.len() as int;
        let ghost old_sel = self.selected_orders@;
        let ghost old_demand = self.total_demand@;
        let ghost old_feasible = self.is_feasible;
        let o = orders[idx];
        let adding = !self.selected_orders[idx];
        self.selected_orders.set(idx, adding);
        let ghost new_sel = self.selected_orders@;
        assert(new_sel == old_sel.update(idx as int, !old_sel[idx as int]));
        proof {
            lemma_profit_flip(os, old_sel, idx as int, n);
            lemma_profit_bounds(os, new_sel, n);
            lemma_profit_bounds(os, old_sel, n);
            lemma_horizon_bounds(os, n, idx as int);
            lemma_horizon_nonneg(os, n);
        }
        if adding {
            self.total_profit = self.total_profit + o.profit;
        } else {
            self.total_profit = self.total_profit - o.profit;
        }
        let end = o.end as usize;
        let mut k: usize = (o.start - 1) as usize;
        let mut touched_fit = true;
        while k < end
            invariant
                os == orders@,
                n == os.len(),
                orders_valid(os),
                idx < n,
                o == os[idx as int],
                adding == !old_sel[idx as int],
                new_sel == old_sel.update(idx as int, adding),
                old_sel.len() == n,
                o.start - 1 <= k <= end,
                end == o.end,
                end <= horizon(os),
                old_demand.len() == horizon(os),
                self.total_demand@.len() == horizon(os),
                forall|j: int|
                    0 <= j < horizon(os) ==> #[trigger] old_demand[j] == load(os, old_sel, j + 1, n),
                forall|j: int|
                    0 <= j < horizon(os) ==> #[trigger] self.total_demand@[j] == if o.start - 1 <= j
                        < k {
                        load(os, new_sel, j + 1, n)
                    } else {
                        old_demand[j] as int
                    },
                self.selected_orders@ == new_sel,
                self.is_feasible == old_feasible,
                self.total_profit == profit_sum(os, new_sel, n),
                touched_fit == forall|j: int|
                    o.start - 1 <= j < k ==> #[trigger] load(os, new_sel, j + 1, n) <= capacity,
            decreases end - k,
        {
            proof {
                lemma_load_flip(os, old_sel, idx as int, k + 1, n);
                lemma_load_bounds(os, new_sel, k + 1, n);
            }
            let cur = self.total_demand[k];
            let next = if adding {
                cur + o.demand
            } else {
                cur - o.demand
            };
            self.total_demand.set(k, next);
            if next > capacity {
                touched_fit = false;
            }
            k = k + 1;
        }
        let ghost new_demand = self.total_demand@;
        assert forall|j: int| 0 <= j < horizon(os) implies #[trigger] new_demand[j] == load(
            os,
            new_sel,
            j + 1,
            n,
        ) by {
            lemma_load_flip(os, old_sel, idx as int, j + 1, n);
        }
        if adding {
            // Adding only raises loads: the result fits iff the old selection
            // fitted and no touched slot went over.
            proof {
                if old_feasible && touched_fit {
                    assert forall|t: int| 1 <= t <= horizon(os) implies #[trigger] load(
                        os,
                        new_sel,
                        t,
                        n,
                    ) <= capacity by {
                        lemma_load_flip(os, old_sel, idx as int, t, n);
                        if o.start <= t <= o.end {
                            assert(load(os, new_sel, (t - 1) + 1, n) <= capacity);
                        }
                    }
                }
                if !old_feasible {
                    let t = choose|t: int|
                        1 <= t <= horizon(os) && !(#[trigger] load(os, old_sel, t, n) <= capacity);
                    lemma_load_flip(os, old_sel, idx as int, t, n);
                }
                if !touched_fit {
                    let j = choose|j: int|
                        o.start - 1 <= j < end && !(#[trigger] load(os, new_sel, j + 1, n) <= capacity);
                    assert(load(os, new_sel, j + 1, n) > capacity);
                }
            }
            self.is_feasible = self.is_feasible && touched_fit;
        } else if self.is_feasible {
            // Removing only lowers loads.
            assert forall|t: int| 1 <= t <= horizon(os) implies #[trigger] load(
                os,
                new_sel,
                t,
                n,
            ) <= capacity by {
                lemma_load_flip(os, old_sel, idx as int, t, n);
                lemma_load_bounds(os, old_sel, t, n);
            }
        } else {
            let fits = self.profile_fits(capacity);
            proof {
                if fits {
                    assert forall|t: int| 1 <= t <= horizon(os) implies #[trigger] load(
                        os,
                        new_sel,
                        t,
                        n,
                    ) <= capacity by {
                        assert(new_demand[t - 1] == load(os, new_sel, t, n));
                    }
                } else {
                    let j = choose|j: int| 0 <= j < new_demand.len() && !(#[trigger] new_demand[j] <= capacity);
                    assert(load(os, new_sel, j + 1, n) > capacity);
                }
            }
            self.is_feasible = fits;
        }
    }
}

/// The number of slots that `orders` span: the largest `end`, or 0.
pub fn last_order_end(orders: &Vec<Order>) -> (r: usize)
    ensures
        r == horizon(orders@),
{
    let mut h: u32 = 0;
    let mut i: usize = 0;
    while i < orders.len()
        invariant
            i <= orders@.len(),
            h == horizon_upto(orders@, i as int),
        decreases orders@.len() - i,
    {
        if orders[i].end > h {
            h = orders[i].end;
        }
        i = i + 1;
    }
    h as usize
}

/// The selection after flipping, one after the other, the orders of
/// `toggles`.
pub open spec fn flip_all(sel: Seq<bool>, toggles: Seq<usize>) -> Seq<bool>
    decreases toggles.len(),
{
    if toggles.len() == 0 {
        sel
    } else {
        let s = flip_all(sel, toggles.drop_last());
        let i = toggles.last() as int;
        s.update(i, !s[i])
    }
}

impl Solution {
    /// Flips the orders of `toggles` one after the other. Whatever the
    /// sequence, the profit stays the sum of the profits of the chosen
    /// orders, and the whole solution stays what its selection gives.
    pub fn apply_all(&mut self, orders: &Vec<Order>, capacity: u32, toggles: &Vec<usize>)
        requires
            orders_valid(orders@),
            old(self).wf(orders@, capacity as int),
            forall|j: int| 0 <= j < toggles@.len() ==> #[trigger] toggles@[j] < orders@.len(),
        ensures
            final(self).wf(orders@, capacity as int),
            final(self).selected_orders@ == flip_all(old(self).selected_orders@, toggles@),
            final(self).total_profit == profit_sum(
                orders@,
                final(self).selected_orders@,
                orders@.len() as int,
            ),
    {
        let ghost start = self.selected_orders@;
        let mut k: usize = 0;
        while k < toggles.len()
            invariant
                orders_valid(orders@),
                self.wf(orders@, capacity as int),
                forall|j: int| 0 <= j < toggles@.len() ==> #[trigger] toggles@[j] < orders@.len(),
                k <= toggles@.len(),
                self.selected_orders@ == flip_all(start, toggles@.take(k as int)),
            decreases toggles@.len() - k,
        {
            assert(toggles@.take(k + 1).drop_last() =~= toggles@.take(k as int));
            self.apply(orders, capacity, toggles[k]);
            k = k + 1;
        }
        assert(toggles@.take(k as int) =~= toggles@);
    }
}

/// Builds the solution for the selection `selected` from scratch, slot by
/// slot and order by order.
pub fn recompute(orders: &Vec<Order>, capacity: u32, selected: &Vec<bool>) -> (r: Solution)
    requires
        orders_valid(orders@),
        selected@.len() == orders@.len(),
    ensures
        r.wf(orders@, capacity as int),
        r.selected_orders@ == selected@,
{
    let ghost os = orders@;
    let ghost sel = selected@;
    let ghost n = os.len() as int;
    let h = last_order_end(orders);
    let mut demand: Vec<u32> = vec![0u32; h];
    let mut profit: u32 = 0;
    let mut i: usize = 0;
    while i < orders.len()
        invariant
            os == orders@,
            sel == selected@,
            n == os.len(),
            sel.len() == n,
            orders_valid(os),
            i <= n,
            h == horizon(os),
            demand@.len() == h,
            forall|k: int| 0 <= k < h ==> #[trigger] demand@[k] == load(os, sel, k + 1, i as int),
            profit == profit_sum(os, sel, i as int),
        decreases n - i,
    {
        let o = orders[i];
        proof {
            lemma_profit_bounds(os, sel, i + 1);
            lemma_totals_monotone(os, i + 1, n);
        }
        if selected[i] {
            profit = profit + o.profit;
            proof {
                lemma_horizon_bounds(os, n, i as int);
            }
            let end = o.end as usize;
            let mut k: usize = (o.start - 1) as usize;
            while k < end
                invariant
                    os == orders@,
                    sel == selected@,
                    n == os.len(),
                    sel.len() == n,
                    orders_valid(os),
                    i < n,
                    sel[i as int],
                    o == os[i as int],
                    o.start - 1 <= k <= end,
                    end == o.end,
                    end <= h,
                    h == horizon(os),
                    demand@.len() == h,
                    forall|j: int|
                        0 <= j < h ==> #[trigger] demand@[j] == if o.start - 1 <= j < k {
                            load(os, sel, j + 1, i + 1)
                        } else {
                            load(os, sel, j + 1, i as int)
                        },
                decreases end - k,
            {
                proof {
                    lemma_load_bounds(os, sel, k + 1, i + 1);
                    lemma_totals_monotone(os, i + 1, n);
                }
                let next = demand[k] + o.demand;
                demand.set(k, next);
                k = k + 1;
            }
        }
        i = i + 1;
    }
    let r = Solution {
        selected_orders: selected.clone(),
        total_profit: profit,
        is_feasible: true,
        total_demand: demand,
    };
    assert(r.selected_orders@ =~= sel);
    let fits = r.profile_fits(capacity);
    proof {
        if fits {
            assert forall|t: int| 1 <= t <= horizon(os) implies #[trigger] load(os, sel, t, n)
                <= capacity by {
                assert(r.total_demand@[t - 1] == load(os, sel, t, n));
            }
        } else {
            let j = choose|j: int|
                0 <= j < r.total_demand@.len() && !(#[trigger] r.total_demand@[j] <= capacity);
            assert(load(os, sel, j + 1, n) > capacity);
        }
    }
    Solution { is_feasible: fits, ..r }
}

/// A well-formed solution is fixed by its selection: whatever sequence of
/// flips led to it, its demand per slot, profit and feasibility are those that
/// a computation from scratch gives.
pub proof fn lemma_state_determined_by_selection(
    orders: Seq<Order>,
    capacity: int,
    a: SolutionView,
    b: SolutionView,
)
    requires
        a.wf(orders, capacity),
        b.wf(orders, capacity),
        a.selected == b.selected,
    ensures
        a == b,
{
    assert(a.total_demand =~= b.total_demand);
}

fn same_flags(a: &Vec<bool>, b: &Vec<bool>) -> (r: bool)
    ensures
        r == (a@ == b@),
{
    if a.len() != b.len() {
        return false;
    }
    let mut i: usize = 0;
    while i < a.len()
        invariant
            a@.len() == b@.len(),
            i <= a@.len(),
            forall|j: int| 0 <= j < i ==> a@[j] == b@[j],
        decreases a@.len() - i,
    {
        if a[i] != b[i] {
            return false;
        }
        i = i + 1;
    }
    assert(a@ =~= b@);
    true
}

fn same_amounts(a: &Vec<u32>, b: &Vec<u32>) -> (r: bool)
    ensures
        r == (a@ == b@),
{
    if a.len() != b.len() {
        return false;
    }
    let mut i: usize = 0;
    while i < a.len()
        invariant
            a@.len() == b@.len(),
            i <= a@.len(),
            forall|j: int| 0 <= j < i ==> a@[j] == b@[j],
        decreases a@.len() - i,
    {
        if a[i] != b[i] {
            return false;
        }
        i = i + 1;
    }
    assert(a@ =~= b@);
    true
}

impl Clone for Solution {
    fn clone(&self) -> (r: Solution)
        ensures
            r@ == self@,
    {
        let r = Solution {
            selected_orders: self.selected_orders.clone(),
            total_profit: self.total_profit,
            is_feasible: self.is_feasible,
            total_demand: self.total_demand.clone(),
        };
        assert(r.selected_orders@ =~= self.selected_orders@);
        assert(r.total_demand@ =~= self.total_demand@);
        r
    }
}

impl PartialEq for Solution {
    /// Two solutions are equal when selection, profit, feasibility and
    /// per-slot demand all agree.
    fn eq(&self, other: &Solution) -> (r: bool) {
        self.total_profit == other.total_profit && self.is_feasible == other.is_feasible
            && same_flags(&self.selected_orders, &other.selected_orders) && same_amounts(
            &self.total_demand,
            &other.total_demand,
        )
    }
}

impl vstd::std_specs::cmp::PartialEqSpecImpl for Solution {
    open spec fn obeys_eq_spec() -> bool {
        true
    }

    open spec fn eq_spec(&self, other: &Solution) -> bool {
        self@ == other@
    }
}

} // verus!
