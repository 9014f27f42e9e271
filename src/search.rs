use rand::rngs::StdRng;

use vstd::prelude::*;

use crate::instance::TkpInstance;
use crate::model::{fits_capacity, horizon, lemma_nothing_chosen, orders_valid, Order};
use crate::neighbors::{
    eligible, lemma_adding_fitting_order, pool_has, profit_pool, profit_pool_spec, rank_by_ratio,
    ranking_ok, slack_pool, slack_pool_ok,
};
use crate::random::{choose_one, random_below};
use crate::solution::{last_order_end, Solution, SolutionView};
use crate::instance::{validation_result, InstanceError};
use crate::neighbors::first_k;
use crate::tabu::{after_insert, TabuMemory};

verus! {

/// How many rounds of repair an infeasible random move gets before the
/// candidate is given up.
pub const MAX_REPAIR_DEPTH: usize = 20;

/// The fewest perturbations in one round of repair.
pub const MIN_REPAIR_MOVES: usize = 5;

/// The aspiration threshold of [`SearchConfig::new`].
pub const DEFAULT_ASPIRATION_THRESHOLD: u32 = 50;

/// Settings of one search run.
#[derive(Clone, Copy, Debug, PartialEq, Eq, Structural)]
pub struct SearchConfig {
    /// How many accepted solutions the tabu memory holds.
    pub tabu_list_size: usize,
    /// How many candidates each iteration generates.
    pub neighborhood_size: usize,
    /// Whether cost-benefit moves may be drawn.
    pub enable_cost_benefit: bool,
    /// Whether slack-fill moves may be drawn.
    pub enable_slack_fill: bool,
    /// An accepted move that improves on the best profit by more than this is
    /// not remembered as tabu.
    pub aspiration_threshold: u32,
}

impl SearchConfig {
    /// Both greedy moves enabled and the default aspiration threshold.
    pub fn new(tabu_list_size: usize, neighborhood_size: usize) -> (r: SearchConfig)
        ensures
            r.tabu_list_size == tabu_list_size,
            r.neighborhood_size == neighborhood_size,
            r.enable_cost_benefit,
            r.enable_slack_fill,
            r.aspiration_threshold == DEFAULT_ASPIRATION_THRESHOLD,
    {
        SearchConfig {
            tabu_list_size,
            neighborhood_size,
            enable_cost_benefit: true,
            enable_slack_fill: true,
            aspiration_threshold: DEFAULT_ASPIRATION_THRESHOLD,
        }
    }
}

/// A random move whose result stayed over capacity through every round of
/// repair; the candidate is dropped.
#[derive(Clone, Copy, Debug, PartialEq, Eq, Structural)]
pub struct RepairExhausted;

/// Told of every improvement of the best solution during a search.
pub trait ImprovementSink {
    /// `iteration` counts from 0, `profit` is the new best profit and `sample`
    /// holds the first chosen orders of the new best solution.
    fn improved(&mut self, iteration: usize, profit: u32, sample: &Vec<usize>);
}

/// An [`ImprovementSink`] that ignores every event.
pub struct NoopSink;

impl ImprovementSink for NoopSink {
    fn improved(&mut self, iteration: usize, profit: u32, sample: &Vec<usize>) {
    }
}

/// The all-unselected solution of `orders`.
pub open spec fn baseline(orders: Seq<Order>) -> SolutionView {
    SolutionView {
        selected: Seq::new(orders.len(), |i: int| false),
        total_profit: 0,
        is_feasible: true,
        total_demand: Seq::new(horizon(orders) as nat, |i: int| 0u32),
    }
}

/// The all-unselected solution of `orders`: no profit, every slot empty.
pub fn baseline_solution(orders: &Vec<Order>, capacity: u32) -> (r: Solution)
    ensures
        r@ == baseline(orders@),
        r.wf(orders@, capacity as int),
{
    let h = last_order_end(orders);
    let r = Solution::new(orders.len(), 0, h);
    proof {
        let n = orders@.len() as int;
        lemma_nothing_chosen(orders@, r.selected_orders@, 0, n);
        assert forall|k: int| 0 <= k < horizon(orders@) implies #[trigger] r.total_demand@[k]
            == crate::model::load(orders@, r.selected_orders@, k + 1, n) by {
            lemma_nothing_chosen(orders@, r.selected_orders@, k + 1, n);
        }
        assert forall|t: int| 1 <= t <= horizon(orders@) implies #[trigger] crate::model::load(
            orders@,
            r.selected_orders@,
            t,
            n,
        ) <= capacity by {
            lemma_nothing_chosen(orders@, r.selected_orders@, t, n);
        }
    }
    r
}

/// The indices among the first `j` at which `flags` holds `value`, in
/// increasing order.
pub open spec fn indices_with(flags: Seq<bool>, value: bool, j: int) -> Seq<usize>
    decreases j,
{
    if j <= 0 {
        Seq::empty()
    } else {
        let p = indices_with(flags, value, j - 1);
        if flags[j - 1] == value {
            p.push((j - 1) as usize)
        } else {
            p
        }
    }
}

/// The indices `i` with `flags[i] == value`, in increasing order.
fn indices_where(flags: &Vec<bool>, value: bool) -> (r: Vec<usize>)
    ensures
        r@ == indices_with(flags@, value, flags@.len() as int),
        forall|j: int| 0 <= j < r@.len() ==> #[trigger] r@[j] < flags@.len() && flags@[r@[j] as int] == value,
{
    let mut r: Vec<usize> = Vec::new();
    let mut i: usize = 0;
    while i < flags.len()
        invariant
            i <= flags@.len(),
            r@ == indices_with(flags@, value, i as int),
            forall|j: int| 0 <= j < r@.len() ==> #[trigger] r@[j] < flags@.len() && flags@[r@[j] as int] == value,
        decreases flags@.len() - i,
    {
        let ghost next = indices_with(flags@, value, i + 1);
        if flags[i] == value {
            r.push(i);
            assert(r@[r@.len() - 1] == i);
        }
        assert(r@ == next);
        i = i + 1;
    }
    r
}

/// One move of repair, given its draws: when `add`, the `pick`-th unchosen
/// order (in index order) is added, otherwise the `pick`-th chosen order is
/// dropped; nothing changes when there is no such order.
pub fn repair_move(s: &mut Solution, orders: &Vec<Order>, capacity: u32, add: bool, pick: usize)
    requires
        orders_valid(orders@),
        old(s).wf(orders@, capacity as int),
    ensures
        final(s).wf(orders@, capacity as int),
        ({
            let c = indices_with(old(s).selected_orders@, !add, orders@.len() as int);
            final(s).selected_orders@ == if pick < c.len() {
                old(s)@.flipped(c[pick as int] as int)
            } else {
                old(s).selected_orders@
            }
        }),
{
    let candidates = indices_where(&s.selected_orders, !add);
    if pick < candidates.len() {
        let j = candidates[pick];
        s.apply(orders, capacity, j);
    }
}

/// What a random flip-repair move from `cur` gives: a success is a feasible
/// solution of the problem, and there is an order (the one flipped first)
/// such that, when flipping it alone fits, the move succeeds with exactly
/// that flip.
pub open spec fn random_move_post(
    orders: Seq<Order>,
    capacity: int,
    cur: SolutionView,
    r: Result<Solution, RepairExhausted>,
) -> bool {
    &&& r matches Ok(s) ==> s@.wf(orders, capacity) && s.is_feasible
    &&& exists|i: int|
        0 <= i < orders.len() && (fits_capacity(orders, capacity, #[trigger] cur.flipped(i)) ==> (
        r is Ok && r->Ok_0@.selected == cur.flipped(i)))
}

/// What every move from `cur` gives: a success is a feasible solution of the
/// problem, and when every single flip fits, the move succeeds with one of
/// them.
pub open spec fn candidate_from(
    orders: Seq<Order>,
    capacity: int,
    cur: SolutionView,
    r: Result<Solution, RepairExhausted>,
) -> bool {
    &&& r matches Ok(s) ==> s@.wf(orders, capacity) && s.is_feasible
    &&& (forall|i: int|
        0 <= i < orders.len() ==> fits_capacity(orders, capacity, #[trigger] cur.flipped(i)))
        ==> r is Ok && exists|i: int|
        0 <= i < orders.len() && r->Ok_0@.selected == #[trigger] cur.flipped(i)
}

/// What a cost-benefit move from `cur` gives, `before` and `after` being the
/// search before and after it: when the pool of candidates is not empty, one
/// of them is added and recorded as offered; otherwise the move is a random
/// flip-repair move. Slack-fill bookkeeping is untouched.
pub open spec fn profit_move_post(
    before: &TabuSearch,
    after: &TabuSearch,
    cur: SolutionView,
    r: Result<Solution, RepairExhausted>,
) -> bool {
    let pool = profit_pool_spec(
        before.orders(),
        before.capacity(),
        cur,
        before.offered_by_profit(),
        before.ranking(),
    );
    &&& after.offered_by_slack() == before.offered_by_slack()
    &&& r matches Ok(s) ==> s@.wf(before.orders(), before.capacity()) && s.is_feasible
    &&& pool.len() > 0 ==> r is Ok && exists|j: usize|
        pool.contains(j) && (j as int) < before.orders().len() && #[trigger] cur.flipped(j as int)
            == r->Ok_0@.selected && after.offered_by_profit() == before.offered_by_profit().push(j)
    &&& pool.len() == 0 ==> after.offered_by_profit() == before.offered_by_profit()
        && random_move_post(before.orders(), before.capacity(), cur, r)
}

/// What a slack-fill move from `cur` gives: when some order is eligible, one
/// of the best five by free capacity is added and recorded as offered;
/// otherwise the move is a random flip-repair move. Cost-benefit bookkeeping
/// is untouched.
pub open spec fn slack_move_post(
    before: &TabuSearch,
    after: &TabuSearch,
    cur: SolutionView,
    r: Result<Solution, RepairExhausted>,
) -> bool {
    let os = before.orders();
    let c = before.capacity();
    let off = before.offered_by_slack();
    &&& after.offered_by_profit() == before.offered_by_profit()
    &&& r matches Ok(s) ==> s@.wf(os, c) && s.is_feasible
    &&& (exists|i: int| 0 <= i < os.len() && #[trigger] eligible(os, c, cur, off, i)) ==> r is Ok
        && exists|j: usize, pool: Seq<(u64, usize)>|
        slack_pool_ok(os, c, cur, off, pool, os.len() as int) && #[trigger] pool_has(pool, j as int)
            && (j as int) < os.len() && cur.flipped(j as int) == r->Ok_0@.selected
            && after.offered_by_slack() == off.push(j)
    &&& (forall|i: int| 0 <= i < os.len() ==> !#[trigger] eligible(os, c, cur, off, i)) ==> (
    after.offered_by_slack() == off && random_move_post(os, c, cur, r))
}

/// The kinds of move that generate a candidate.
#[derive(Clone, Copy, Debug, PartialEq, Eq, Structural)]
pub enum Move {
    RandomFlip,
    CostBenefit,
    SlackFill,
}

/// How many moves `config` enables: random flip-repair always, and each
/// enabled greedy move.
pub open spec fn move_count(config: SearchConfig) -> int {
    1 + (if config.enable_cost_benefit {
        1int
    } else {
        0int
    }) + (if config.enable_slack_fill {
        1int
    } else {
        0int
    })
}

/// The move that draw `d` (below [`move_count`]) selects: 0 is random
/// flip-repair, then come the enabled greedy moves, cost-benefit before
/// slack-fill.
pub open spec fn drawn_move(config: SearchConfig, d: int) -> Move {
    if d == 0 {
        Move::RandomFlip
    } else if d == 1 && config.enable_cost_benefit {
        Move::CostBenefit
    } else {
        Move::SlackFill
    }
}

/// Computes [`move_count`].
pub fn move_count_of(config: &SearchConfig) -> (r: usize)
    ensures
        r == move_count(*config),
{
    let mut count: usize = 1;
    if config.enable_cost_benefit {
        count = count + 1;
    }
    if config.enable_slack_fill {
        count = count + 1;
    }
    count
}

/// Computes [`drawn_move`].
pub fn pick_move(config: &SearchConfig, draw: usize) -> (r: Move)
    ensures
        r == drawn_move(*config, draw as int),
{
    if draw == 0 {
        Move::RandomFlip
    } else if draw == 1 && config.enable_cost_benefit {
        Move::CostBenefit
    } else {
        Move::SlackFill
    }
}

proof fn lemma_random_move_candidate(
    orders: Seq<Order>,
    capacity: int,
    cur: SolutionView,
    r: Result<Solution, RepairExhausted>,
)
    requires
        random_move_post(orders, capacity, cur, r),
    ensures
        candidate_from(orders, capacity, cur, r),
{
    let i = choose|i: int|
        0 <= i < orders.len() && (fits_capacity(orders, capacity, #[trigger] cur.flipped(i)) ==> (
        r is Ok && r->Ok_0@.selected == cur.flipped(i)));
    if forall|k: int|
        0 <= k < orders.len() ==> fits_capacity(orders, capacity, #[trigger] cur.flipped(k)) {
        assert(fits_capacity(orders, capacity, cur.flipped(i)));
    }
}

/// The bookkeeping of offered orders after one move: unchanged, or one
/// order appended to exactly one of the two lists.
pub open spec fn offered_step(before: &TabuSearch, after: &TabuSearch) -> bool {
    ||| after.offered_by_profit() == before.offered_by_profit() && after.offered_by_slack()
        == before.offered_by_slack()
    ||| after.offered_by_slack() == before.offered_by_slack() && exists|j: usize|
        after.offered_by_profit() == #[trigger] before.offered_by_profit().push(j)
    ||| after.offered_by_profit() == before.offered_by_profit() && exists|j: usize|
        after.offered_by_slack() == #[trigger] before.offered_by_slack().push(j)
}

/// A tabu search over one problem: the tabu memory, the cost-benefit ranking
/// of the orders, and the orders already offered by each greedy move in the
/// current iteration.
#[derive(Debug)]
pub struct TabuSearch {
    tabu: TabuMemory,
    tkp_instance: TkpInstance,
    config: SearchConfig,
    cost_benefit: Vec<(u32, usize)>,
    selected_for_profit_pool: Vec<usize>,
    selected_for_slack_fill: Vec<usize>,
}

impl TabuSearch {
    /// The orders searched over.
    pub closed spec fn orders(&self) -> Seq<Order> {
        self.tkp_instance.orders@
    }

    /// The capacity of every slot.
    pub closed spec fn capacity(&self) -> int {
        self.tkp_instance.capacity as int
    }

    /// The settings of the run.
    pub closed spec fn config(&self) -> SearchConfig {
        self.config
    }

    /// The solutions currently remembered as tabu, oldest first.
    pub closed spec fn tabu_entries(&self) -> Seq<SolutionView> {
        self.tabu.entries()
    }

    /// The cost-benefit ranking: for each key, highest first, the last order
    /// that carries it.
    pub closed spec fn ranking(&self) -> Seq<(u32, usize)> {
        self.cost_benefit@
    }

    /// The random stream that the moves draw from.
    pub closed spec fn rng(&self) -> StdRng {
        self.tkp_instance.rng
    }

    /// The orders offered by cost-benefit moves in this iteration.
    pub closed spec fn offered_by_profit(&self) -> Seq<usize> {
        self.selected_for_profit_pool@
    }

    /// The orders offered by slack-fill moves in this iteration.
    pub closed spec fn offered_by_slack(&self) -> Seq<usize> {
        self.selected_for_slack_fill@
    }

    pub closed spec fn wf(&self) -> bool {
        &&& orders_valid(self.orders())
        &&& ranking_ok(self.orders(), self.ranking(), self.orders().len() as int)
        &&& self.tabu.wf()
        &&& self.tabu.capacity() == self.config.tabu_list_size
    }

    /// The parts that no move changes: problem, settings, ranking and tabu
    /// memory.
    pub open spec fn same_setup(&self, other: &TabuSearch) -> bool {
        &&& self.orders() == other.orders()
        &&& self.capacity() == other.capacity()
        &&& self.config() == other.config()
        &&& self.ranking() == other.ranking()
        &&& self.tabu_entries() == other.tabu_entries()
    }

    /// Whether `s` is a solution of this problem, consistent with its
    /// selection.
    pub open spec fn holds(&self, s: SolutionView) -> bool {
        s.wf(self.orders(), self.capacity())
    }

    /// A search over `tkp_instance` with the given settings and an empty tabu
    /// memory.
    pub fn new(config: SearchConfig, tkp_instance: TkpInstance) -> (r: TabuSearch)
        requires
            orders_valid(tkp_instance.orders@),
        ensures
            r.wf(),
            r.orders() == tkp_instance.orders@,
            r.capacity() == tkp_instance.capacity,
            r.config() == config,
            r.tabu_entries() == Seq::<SolutionView>::empty(),
            r.offered_by_profit() == Seq::<usize>::empty(),
            r.offered_by_slack() == Seq::<usize>::empty(),
            ranking_ok(r.orders(), r.ranking(), r.orders().len() as int),
            r.rng() == tkp_instance.rng,
    {
        let cost_benefit = rank_by_ratio(&tkp_instance.orders);
        TabuSearch {
            tabu: TabuMemory::new(config.tabu_list_size),
            tkp_instance,
            config,
            cost_benefit,
            selected_for_profit_pool: Vec::new(),
            selected_for_slack_fill: Vec::new(),
        }
    }

    /// Random flip-repair: flips a random order; while the result is over
    /// capacity, runs rounds of repair, each of `max(depth + 1, 5)` moves that
    /// with probability `1 / (depth + 1)` add a random unchosen order and
    /// otherwise drop a random chosen one (see [`repair_move`]). After
    /// [`MAX_REPAIR_DEPTH`] rounds the candidate is given up. A first flip that
    /// fits is returned as it is.
    fn generate_random_neighbor(&mut self, current: &Solution) -> (r: Result<
        Solution,
        RepairExhausted,
    >)
        requires
            old(self).wf(),
            old(self).holds(current@),
            old(self).orders().len() > 0,
        ensures
            final(self).wf(),
            final(self).same_setup(old(self)),
            final(self).offered_by_profit() == old(self).offered_by_profit(),
            final(self).offered_by_slack() == old(self).offered_by_slack(),
            random_move_post(old(self).orders(), old(self).capacity(), current@, r),
    {
        let n = self.tkp_instance.orders.len();
        let capacity = self.tkp_instance.capacity;
        let ghost before = *self;
        let ghost os = self.orders();
        let mut neighbor = current.clone();
        let idx = random_below(&mut self.tkp_instance.rng, n);
        neighbor.apply(&self.tkp_instance.orders, capacity, idx);
        let ghost first = current@.flipped(idx as int);
        assert(neighbor.selected_orders@ == first);
        let mut depth: usize = 0;
        while !neighbor.is_feasible
            invariant
                before == *old(self),
                self.wf(),
                self.same_setup(&before),
                self.offered_by_profit() == before.offered_by_profit(),
                self.offered_by_slack() == before.offered_by_slack(),
                os == self.orders(),
                n == os.len(),
                capacity == self.capacity(),
                self.holds(neighbor@),
                idx < n,
                first == current@.flipped(idx as int),
                fits_capacity(os, capacity as int, first) ==> neighbor.selected_orders@ == first,
                depth <= MAX_REPAIR_DEPTH,
            decreases MAX_REPAIR_DEPTH - depth,
        {
            if depth >= MAX_REPAIR_DEPTH {
                return Err(RepairExhausted);
            }
            let moves = if depth + 1 > MIN_REPAIR_MOVES {
                depth + 1
            } else {
                MIN_REPAIR_MOVES
            };
            let mut k: usize = 0;
            while k < moves
                invariant
                    before == *old(self),
                    self.wf(),
                    self.same_setup(&before),
                    self.offered_by_profit() == before.offered_by_profit(),
                    self.offered_by_slack() == before.offered_by_slack(),
                    n == self.orders().len(),
                    capacity == self.capacity(),
                    self.holds(neighbor@),
                    depth < MAX_REPAIR_DEPTH,
                    k <= moves,
                decreases moves - k,
            {
                let add = random_below(&mut self.tkp_instance.rng, depth + 1) == 0;
                let candidates = indices_where(&neighbor.selected_orders, !add);
                if candidates.len() > 0 {
                    let pick = random_below(&mut self.tkp_instance.rng, candidates.len());
                    repair_move(&mut neighbor, &self.tkp_instance.orders, capacity, add, pick);
                }
                k = k + 1;
            }
            depth = depth + 1;
        }
        Ok(neighbor)
    }
}

impl TabuSearch {
    /// Cost-benefit move: draws one of the first five eligible orders in
    /// ranking order, records it as offered and adds it; when none is
    /// eligible, falls back to random flip-repair.
    fn generate_best_profit_pool(&mut self, current: &Solution) -> (r: Result<
        Solution,
        RepairExhausted,
    >)
        requires
            old(self).wf(),
            old(self).holds(current@),
            current.is_feasible,
            old(self).orders().len() > 0,
        ensures
            final(self).wf(),
            final(self).same_setup(old(self)),
            profit_move_post(old(self), final(self), current@, r),
    {
        let capacity = self.tkp_instance.capacity;
        let pool = profit_pool(
            &self.tkp_instance.orders,
            capacity,
            &self.cost_benefit,
            current,
            &self.selected_for_profit_pool,
        );
        match choose_one(&mut self.tkp_instance.rng, &pool) {
            None => self.generate_random_neighbor(current),
            Some(j) => {
                let ghost os = self.orders();
                proof {
                    let w = choose|w: int| 0 <= w < pool@.len() && pool@[w] == j;
                    assert(pool@[w] < os.len());
                    lemma_pool_member_eligible(
                        os,
                        capacity as int,
                        current@,
                        self.offered_by_profit(),
                        self.ranking(),
                        self.ranking().len() as int,
                        j,
                    );
                    lemma_adding_fitting_order(os, capacity as int, current@, j as int);
                }
                self.selected_for_profit_pool.push(j);
                let mut neighbor = current.clone();
                neighbor.apply(&self.tkp_instance.orders, capacity, j);
                Ok(neighbor)
            },
        }
    }

    /// Slack-fill move: among the eligible orders, draws one of the five that
    /// leave the most free capacity over their slots, records it as offered
    /// and adds it; when none is eligible, falls back to random flip-repair.
    fn generate_slack_fill(&mut self, current: &Solution) -> (r: Result<Solution, RepairExhausted>)
        requires
            old(self).wf(),
            old(self).holds(current@),
            current.is_feasible,
            old(self).orders().len() > 0,
        ensures
            final(self).wf(),
            final(self).same_setup(old(self)),
            slack_move_post(old(self), final(self), current@, r),
    {
        let capacity = self.tkp_instance.capacity;
        let ghost os = self.orders();
        let ghost off = self.offered_by_slack();
        let ranked = slack_pool(
            &self.tkp_instance.orders,
            capacity,
            current,
            &self.selected_for_slack_fill,
        );
        let mut pool: Vec<usize> = Vec::new();
        let mut k: usize = 0;
        while k < ranked.len()
            invariant
                k <= ranked@.len(),
                pool@.len() == k,
                forall|x: int| 0 <= x < k ==> #[trigger] pool@[x] == ranked@[x].1,
            decreases ranked@.len() - k,
        {
            pool.push(ranked[k].1);
            k = k + 1;
        }
        proof {
            if exists|i: int| 0 <= i < os.len() && #[trigger] eligible(os, capacity as int, current@, off, i) {
                let i = choose|i: int| 0 <= i < os.len() && #[trigger] eligible(os, capacity as int, current@, off, i);
                if ranked@.len() == 0 {
                    assert(!pool_has(ranked@, i));
                }
            }
        }
        match choose_one(&mut self.tkp_instance.rng, &pool) {
            None => {
                proof {
                    assert forall|i: int| 0 <= i < os.len() implies !#[trigger] eligible(
                        os,
                        capacity as int,
                        current@,
                        off,
                        i,
                    ) by {
                        if eligible(os, capacity as int, current@, off, i) {
                            assert(!pool_has(ranked@, i));
                        }
                    }
                }
                self.generate_random_neighbor(current)
            },
            Some(j) => {
                proof {
                    let w = choose|w: int| 0 <= w < pool@.len() && pool@[w] == j;
                    assert(ranked@[w].1 == j);
                    assert(pool_has(ranked@, j as int));
                    lemma_adding_fitting_order(os, capacity as int, current@, j as int);
                }
                self.selected_for_slack_fill.push(j);
                let mut neighbor = current.clone();
                neighbor.apply(&self.tkp_instance.orders, capacity, j);
                Ok(neighbor)
            },
        }
    }
}

/// Every order among the eligible ones of a ranking prefix is eligible and
/// names an order of the ranking.
proof fn lemma_pool_member_eligible(
    orders: Seq<Order>,
    capacity: int,
    cur: SolutionView,
    offered: Seq<usize>,
    ranking: Seq<(u32, usize)>,
    m: int,
    j: usize,
)
    requires
        0 <= m <= ranking.len(),
        ranking_ok(orders, ranking, orders.len() as int),
        crate::neighbors::eligible_ranked(orders, capacity, cur, offered, ranking, m).contains(j),
    ensures
        (j as int) < orders.len(),
        eligible(orders, capacity, cur, offered, j as int),
    decreases m,
{
    let s = crate::neighbors::eligible_ranked(orders, capacity, cur, offered, ranking, m);
    if m > 0 {
        let p = crate::neighbors::eligible_ranked(orders, capacity, cur, offered, ranking, m - 1);
        let i = ranking[m - 1].1;
        if eligible(orders, capacity, cur, offered, i as int) && j == i {
            assert(ranking[m - 1].1 < orders.len());
        } else {
            let w = choose|w: int| 0 <= w < s.len() && s[w] == j;
            assert(p[w] == j);
            lemma_pool_member_eligible(orders, capacity, cur, offered, ranking, m - 1, j);
        }
    }
}

/// How many chosen orders an improvement event lists.
pub const SAMPLE_SIZE: usize = 15;

/// Whether candidate `c` may be accepted: it was generated, fits, and is not
/// remembered as tabu.
pub open spec fn admissible(tabu: Seq<SolutionView>, c: Result<Solution, RepairExhausted>) -> bool {
    c matches Ok(s) && s.is_feasible && !tabu.contains(s@)
}

/// The profit of a generated candidate (0 for a dropped one).
pub open spec fn candidate_profit(c: Result<Solution, RepairExhausted>) -> int {
    match c {
        Ok(s) => s.total_profit as int,
        Err(_) => 0,
    }
}

/// Among the first `n` candidates, the admissible one of highest profit,
/// the earliest on ties.
pub open spec fn best_admissible(
    tabu: Seq<SolutionView>,
    batch: Seq<Result<Solution, RepairExhausted>>,
    n: int,
) -> Option<int>
    decreases n,
{
    if n <= 0 {
        None
    } else {
        let b = best_admissible(tabu, batch, n - 1);
        if admissible(tabu, batch[n - 1]) && match b {
            None => true,
            Some(k) => candidate_profit(batch[n - 1]) > candidate_profit(batch[k]),
        } {
            Some(n - 1)
        } else {
            b
        }
    }
}

proof fn lemma_best_admissible_is_admissible(
    tabu: Seq<SolutionView>,
    batch: Seq<Result<Solution, RepairExhausted>>,
    n: int,
)
    ensures
        best_admissible(tabu, batch, n) matches Some(k) ==> 0 <= k < n && admissible(
            tabu,
            batch[k],
        ),
    decreases n,
{
    if n > 0 {
        lemma_best_admissible_is_admissible(tabu, batch, n - 1);
    }
}

/// Whether accepting a solution of profit `profit` over a best of
/// `best_before` improves by more than `threshold`, so that it is not made
/// tabu.
pub open spec fn aspirates(threshold: int, best_before: int, profit: int) -> bool {
    profit - best_before > threshold
}

/// The first `limit` chosen orders of `s`, in increasing order.
pub fn selected_sample(s: &Solution, limit: usize) -> (r: Vec<usize>)
    ensures
        r@ == first_k(indices_with(s.selected_orders@, true, s.selected_orders@.len() as int), limit as int),
{
    let ghost sel = s.selected_orders@;
    let mut r: Vec<usize> = Vec::new();
    let mut i: usize = 0;
    while i < s.selected_orders.len()
        invariant
            sel == s.selected_orders@,
            i <= sel.len(),
            r@ == first_k(indices_with(sel, true, i as int), limit as int),
        decreases sel.len() - i,
    {
        let ghost p = indices_with(sel, true, i as int);
        let ghost next = indices_with(sel, true, i + 1);
        if s.selected_orders[i] && r.len() < limit {
            r.push(i);
        }
        proof {
            if sel[i as int] && p.len() >= limit {
                assert(next.take(limit as int) =~= p.take(limit as int));
            }
        }
        assert(r@ == first_k(next, limit as int));
        i = i + 1;
    }
    r
}

impl TabuSearch {
    /// Draws a move uniformly among the enabled ones (random flip-repair,
    /// cost-benefit, slack-fill; see [`drawn_move`]) and generates one
    /// candidate with it.
    fn generate_neighbor(&mut self, current: &Solution) -> (r: Result<Solution, RepairExhausted>)
        requires
            old(self).wf(),
            old(self).holds(current@),
            current.is_feasible,
            old(self).orders().len() > 0,
        ensures
            final(self).wf(),
            final(self).same_setup(old(self)),
            r matches Ok(s) ==> final(self).holds(s@) && s.is_feasible,
            candidate_from(old(self).orders(), old(self).capacity(), current@, r),
            offered_step(old(self), final(self)),
            exists|d: int|
                0 <= d < move_count(old(self).config()) && match #[trigger] drawn_move(
                    old(self).config(),
                    d,
                ) {
                    Move::RandomFlip => {
                        &&& final(self).offered_by_profit() == old(self).offered_by_profit()
                        &&& final(self).offered_by_slack() == old(self).offered_by_slack()
                        &&& random_move_post(old(self).orders(), old(self).capacity(), current@, r)
                    },
                    Move::CostBenefit => profit_move_post(old(self), final(self), current@, r),
                    Move::SlackFill => slack_move_post(old(self), final(self), current@, r),
                },
    {
        let ghost before = *self;
        let count = move_count_of(&self.config);
        let draw = random_below(&mut self.tkp_instance.rng, count);
        let r = match pick_move(&self.config, draw) {
            Move::RandomFlip => self.generate_random_neighbor(current),
            Move::CostBenefit => self.generate_best_profit_pool(current),
            Move::SlackFill => self.generate_slack_fill(current),
        };
        proof {
            let os = before.orders();
            let c = before.capacity();
            assert(drawn_move(before.config(), draw as int) == drawn_move(before.config(), draw as int));
            match drawn_move(before.config(), draw as int) {
                Move::RandomFlip => {
                    lemma_random_move_candidate(os, c, current@, r);
                },
                Move::CostBenefit => {
                    let pool = profit_pool_spec(
                        os,
                        c,
                        current@,
                        before.offered_by_profit(),
                        before.ranking(),
                    );
                    if pool.len() == 0 {
                        lemma_random_move_candidate(os, c, current@, r);
                    } else {
                        let j = choose|j: usize|
                            pool.contains(j) && (j as int) < os.len() && #[trigger] current@.flipped(
                                j as int,
                            ) == r->Ok_0@.selected && self.offered_by_profit()
                                == before.offered_by_profit().push(j);
                        assert(current@.flipped(j as int) == r->Ok_0@.selected);
                    }
                },
                Move::SlackFill => {
                    let off = before.offered_by_slack();
                    if exists|i: int| 0 <= i < os.len() && #[trigger] eligible(os, c, current@, off, i) {
                        let (j, pool) = choose|j: usize, pool: Seq<(u64, usize)>|
                            slack_pool_ok(os, c, current@, off, pool, os.len() as int)
                                && #[trigger] pool_has(pool, j as int) && (j as int) < os.len()
                                && current@.flipped(j as int) == r->Ok_0@.selected
                                && self.offered_by_slack() == off.push(j);
                        assert(current@.flipped(j as int) == r->Ok_0@.selected);
                    } else {
                        lemma_random_move_candidate(os, c, current@, r);
                    }
                },
            }
        }
        r
    }

    /// Generates the candidates of one iteration from `current`.
    fn generate_neighborhood(&mut self, current: &Solution) -> (r: Vec<
        Result<Solution, RepairExhausted>,
    >)
        requires
            old(self).wf(),
            old(self).holds(current@),
            current.is_feasible,
            old(self).orders().len() > 0,
        ensures
            final(self).wf(),
            final(self).same_setup(old(self)),
            r@.len() == old(self).config().neighborhood_size,
            forall|j: int|
                0 <= j < r@.len() ==> (#[trigger] r@[j] matches Ok(s) ==> final(self).holds(s@)
                    && s.is_feasible),
            forall|j: int|
                0 <= j < r@.len() ==> candidate_from(
                    old(self).orders(),
                    old(self).capacity(),
                    current@,
                    #[trigger] r@[j],
                ),
    {
        let ghost before = *self;
        let mut batch: Vec<Result<Solution, RepairExhausted>> = Vec::new();
        let mut k: usize = 0;
        while k < self.config.neighborhood_size
            invariant
                before == *old(self),
                self.wf(),
                self.same_setup(&before),
                self.holds(current@),
                current.is_feasible,
                self.orders().len() > 0,
                batch@.len() == k,
                k <= self.config().neighborhood_size,
                forall|j: int|
                    0 <= j < batch@.len() ==> (#[trigger] batch@[j] matches Ok(s) ==> self.holds(
                        s@,
                    ) && s.is_feasible),
                forall|j: int|
                    0 <= j < batch@.len() ==> candidate_from(
                        before.orders(),
                        before.capacity(),
                        current@,
                        #[trigger] batch@[j],
                    ),
            decreases self.config().neighborhood_size - k,
        {
            let c = self.generate_neighbor(current);
            batch.push(c);
            k = k + 1;
        }
        batch
    }

    /// The candidate to accept: the admissible one of highest profit, the
    /// earliest on ties, or `None` when none is admissible.
    pub fn select_neighbor(&self, neighbors: &Vec<Result<Solution, RepairExhausted>>) -> (r:
        Option<usize>)
        ensures
            match r {
                Some(k) => best_admissible(
                    self.tabu_entries(),
                    neighbors@,
                    neighbors@.len() as int,
                ) == Some(k as int),
                None => best_admissible(
                    self.tabu_entries(),
                    neighbors@,
                    neighbors@.len() as int,
                ) is None,
            },
    {
        let ghost tabu = self.tabu_entries();
        let mut chosen: Option<usize> = None;
        let mut chosen_profit: u32 = 0;
        let mut j: usize = 0;
        while j < neighbors.len()
            invariant
                tabu == self.tabu_entries(),
                j <= neighbors@.len(),
                match chosen {
                    Some(k) => best_admissible(tabu, neighbors@, j as int) == Some(k as int) && k
                        < j && chosen_profit == candidate_profit(neighbors@[k as int]),
                    None => best_admissible(tabu, neighbors@, j as int) is None,
                },
            decreases neighbors@.len() - j,
        {
            match &neighbors[j] {
                Ok(s) => {
                    if s.is_feasible && !self.tabu.is_tabu(s) && (chosen.is_none() || s.total_profit
                        > chosen_profit) {
                        chosen = Some(j);
                        chosen_profit = s.total_profit;
                    }
                },
                Err(_) => {},
            }
            j = j + 1;
        }
        chosen
    }

    /// Whether accepting a solution of profit `profit` when the best profit
    /// was `best_before` improves by more than the aspiration threshold, so
    /// that the solution is not made tabu.
    pub fn aspiration_criterion(&self, profit: u32, best_before: u32) -> (r: bool)
        ensures
            r == aspirates(self.config().aspiration_threshold as int, best_before as int, profit as int),
    {
        profit > best_before && profit - best_before > self.config.aspiration_threshold
    }

    /// Accepts `chosen` as the current solution, makes it the best when it
    /// improves on it, and remembers it as tabu unless it improves on the
    /// previous best by more than the aspiration threshold.
    fn accept(&mut self, current: &mut Solution, best: &mut Solution, chosen: Solution) -> (r: bool)
        requires
            old(self).wf(),
        ensures
            final(self).wf(),
            final(self).orders() == old(self).orders(),
            final(self).capacity() == old(self).capacity(),
            final(self).config() == old(self).config(),
            final(self).ranking() == old(self).ranking(),
            final(self).offered_by_profit() == old(self).offered_by_profit(),
            final(self).offered_by_slack() == old(self).offered_by_slack(),
            final(current)@ == chosen@,
            r == (chosen.total_profit > old(best).total_profit),
            final(best)@ == if r {
                chosen@
            } else {
                old(best)@
            },
            final(self).tabu_entries() == if aspirates(
                old(self).config().aspiration_threshold as int,
                old(best).total_profit as int,
                chosen.total_profit as int,
            ) {
                old(self).tabu_entries()
            } else {
                after_insert(
                    old(self).tabu_entries(),
                    old(self).config().tabu_list_size as nat,
                    chosen@,
                )
            },
    {
        let best_before = best.total_profit;
        let improved = chosen.total_profit > best_before;
        if improved {
            *best = chosen.clone();
        }
        if !self.aspiration_criterion(chosen.total_profit, best_before) {
            self.tabu.add_to_tabu_list(chosen.clone());
        }
        *current = chosen;
        improved
    }
}

/// The current solution after an iteration whose candidates were `batch`:
/// the candidate that [`best_admissible`] picks, or `cur` when there is none.
pub open spec fn next_current(
    tabu: Seq<SolutionView>,
    batch: Seq<Result<Solution, RepairExhausted>>,
    cur: SolutionView,
) -> SolutionView {
    match best_admissible(tabu, batch, batch.len() as int) {
        Some(k) => match batch[k] {
            Ok(s) => s@,
            Err(_) => cur,
        },
        None => cur,
    }
}

/// The best solution after an iteration whose candidates were `batch`: the
/// picked candidate when it beats `best`, else `best`.
pub open spec fn next_best(
    tabu: Seq<SolutionView>,
    batch: Seq<Result<Solution, RepairExhausted>>,
    best: SolutionView,
) -> SolutionView {
    match best_admissible(tabu, batch, batch.len() as int) {
        Some(k) => match batch[k] {
            Ok(s) => if s.total_profit > best.total_profit {
                s@
            } else {
                best
            },
            Err(_) => best,
        },
        None => best,
    }
}

/// The tabu memory after an iteration whose candidates were `batch`: the
/// picked candidate is remembered unless it beats `best` by more than
/// `threshold`.
pub open spec fn next_tabu(
    tabu: Seq<SolutionView>,
    capacity: nat,
    threshold: int,
    batch: Seq<Result<Solution, RepairExhausted>>,
    best: SolutionView,
) -> Seq<SolutionView> {
    match best_admissible(tabu, batch, batch.len() as int) {
        Some(k) => match batch[k] {
            Ok(s) => if aspirates(threshold, best.total_profit as int, s.total_profit as int) {
                tabu
            } else {
                after_insert(tabu, capacity, s@)
            },
            Err(_) => tabu,
        },
        None => tabu,
    }
}

/// The part of a search that an iteration changes, as values.
pub struct SearchState {
    pub current: SolutionView,
    pub best: SolutionView,
    pub tabu: Seq<SolutionView>,
}

/// The state after an iteration from `st` whose candidates were `batch`.
pub open spec fn next_state(
    config: SearchConfig,
    st: SearchState,
    batch: Seq<Result<Solution, RepairExhausted>>,
) -> SearchState {
    SearchState {
        current: next_current(st.tabu, batch, st.current),
        best: next_best(st.tabu, batch, st.best),
        tabu: next_tabu(
            st.tabu,
            config.tabu_list_size as nat,
            config.aspiration_threshold as int,
            batch,
            st.best,
        ),
    }
}

/// One iteration leads from `a` to `b`: for some batch of
/// `neighborhood_size` candidates, each of which a move from `a.current` can
/// give, `b` is what [`next_state`] makes of it.
pub open spec fn steps_to(
    orders: Seq<Order>,
    capacity: int,
    config: SearchConfig,
    a: SearchState,
    b: SearchState,
) -> bool {
    exists|batch: Seq<Result<Solution, RepairExhausted>>|
        {
            &&& batch.len() == config.neighborhood_size
            &&& forall|j: int|
                0 <= j < batch.len() ==> candidate_from(
                    orders,
                    capacity,
                    a.current,
                    #[trigger] batch[j],
                )
            &&& b == #[trigger] next_state(config, a, batch)
        }
}

/// `trace` starts at `start` and each of its states follows from the one
/// before by one iteration.
pub open spec fn run_from(
    orders: Seq<Order>,
    capacity: int,
    config: SearchConfig,
    start: SearchState,
    trace: Seq<SearchState>,
) -> bool {
    &&& trace.len() >= 1
    &&& trace[0] == start
    &&& forall|k: int|
        0 <= k < trace.len() - 1 ==> #[trigger] steps_to(
            orders,
            capacity,
            config,
            trace[k],
            trace[k + 1],
        )
}

/// A search of `iterations` iterations from `start` can end with best
/// solution `best` and tabu memory `tabu`, and `best` is at least as good as
/// every solution it accepted on the way.
pub open spec fn run_ends(
    orders: Seq<Order>,
    capacity: int,
    config: SearchConfig,
    start: SearchState,
    iterations: int,
    best: SolutionView,
    tabu: Seq<SolutionView>,
) -> bool {
    exists|trace: Seq<SearchState>|
        {
            &&& #[trigger] run_from(orders, capacity, config, start, trace)
            &&& trace.len() == iterations + 1
            &&& trace.last().best == best
            &&& trace.last().tabu == tabu
            &&& forall|k: int|
                0 <= k < trace.len() ==> (#[trigger] trace[k]).current.total_profit
                    <= best.total_profit
        }
}

/// The state a search starts from: nothing chosen, and the given memory.
pub open spec fn start_state(orders: Seq<Order>, tabu: Seq<SolutionView>) -> SearchState {
    SearchState { current: baseline(orders), best: baseline(orders), tabu }
}

impl TabuSearch {
    /// One iteration: generates the candidates from `current`, accepts the
    /// admissible one of highest profit (if any) as the new current solution,
    /// updates the best solution and the tabu memory, and forgets which
    /// orders the greedy moves offered. Returns whether the best improved.
    pub fn iterate(&mut self, current: &mut Solution, best: &mut Solution) -> (improved: bool)
        requires
            old(self).wf(),
            old(self).holds(old(current)@),
            old(current).is_feasible,
            old(self).holds(old(best)@),
            old(best).is_feasible,
            old(self).orders().len() > 0,
        ensures
            final(self).wf(),
            final(self).orders() == old(self).orders(),
            final(self).capacity() == old(self).capacity(),
            final(self).config() == old(self).config(),
            final(self).ranking() == old(self).ranking(),
            final(self).offered_by_profit() == Seq::<usize>::empty(),
            final(self).offered_by_slack() == Seq::<usize>::empty(),
            final(self).holds(final(current)@),
            final(current).is_feasible,
            final(self).holds(final(best)@),
            final(best).is_feasible,
            final(best).total_profit >= old(best).total_profit,
            improved == (final(best).total_profit > old(best).total_profit),
            improved ==> final(best)@ == final(current)@,
            !improved ==> final(best)@ == old(best)@,
            final(current).total_profit <= final(best).total_profit || (final(current)@ == old(
                current,
            )@ && final(best)@ == old(best)@),
            exists|batch: Seq<Result<Solution, RepairExhausted>>|
                {
                    &&& batch.len() == old(self).config().neighborhood_size
                    &&& final(current)@ == #[trigger] next_current(
                        old(self).tabu_entries(),
                        batch,
                        old(current)@,
                    )
                    &&& final(best)@ == next_best(old(self).tabu_entries(), batch, old(best)@)
                    &&& final(self).tabu_entries() == next_tabu(
                        old(self).tabu_entries(),
                        old(self).config().tabu_list_size as nat,
                        old(self).config().aspiration_threshold as int,
                        batch,
                        old(best)@,
                    )
                },
            steps_to(
                old(self).orders(),
                old(self).capacity(),
                old(self).config(),
                SearchState {
                    current: old(current)@,
                    best: old(best)@,
                    tabu: old(self).tabu_entries(),
                },
                SearchState {
                    current: final(current)@,
                    best: final(best)@,
                    tabu: final(self).tabu_entries(),
                },
            ),
    {
        let ghost tabu_before = self.tabu_entries();
        let neighbors = self.generate_neighborhood(current);
        let ghost batch = neighbors@;
        let pick = self.select_neighbor(&neighbors);
        proof {
            lemma_best_admissible_is_admissible(tabu_before, batch, batch.len() as int);
        }
        let mut improved = false;
        match pick {
            Some(k) => {
                match &neighbors[k] {
                    Ok(s) => {
                        let chosen = s.clone();
                        improved = self.accept(current, best, chosen);
                    },
                    Err(_) => {},
                }
            },
            None => {},
        }
        self.selected_for_profit_pool.clear();
        self.selected_for_slack_fill.clear();
        assert(current@ == next_current(tabu_before, batch, old(current)@));
        assert(best@ == next_best(tabu_before, batch, old(best)@));
        proof {
            let a = SearchState { current: old(current)@, best: old(best)@, tabu: tabu_before };
            let b = SearchState { current: current@, best: best@, tabu: self.tabu_entries() };
            assert(b == next_state(self.config(), a, batch));
        }
        improved
    }

    /// Runs `iterations` iterations from the all-unselected solution and
    /// returns the best solution found, telling `sink` of every improvement.
    /// Without orders, or without iterations, that is the all-unselected
    /// solution.
    pub fn tabu_search<S: ImprovementSink>(&mut self, iterations: usize, sink: &mut S) -> (r:
        Solution)
        requires
            old(self).wf(),
        ensures
            final(self).wf(),
            final(self).orders() == old(self).orders(),
            final(self).capacity() == old(self).capacity(),
            final(self).config() == old(self).config(),
            final(self).ranking() == old(self).ranking(),
            final(self).holds(r@),
            r.is_feasible,
            iterations == 0 || old(self).orders().len() == 0 ==> r@ == baseline(old(self).orders())
                && final(self).tabu_entries() == old(self).tabu_entries(),
            old(self).orders().len() > 0 ==> run_ends(
                old(self).orders(),
                old(self).capacity(),
                old(self).config(),
                start_state(old(self).orders(), old(self).tabu_entries()),
                iterations as int,
                r@,
                final(self).tabu_entries(),
            ),
            iterations > 0 && old(self).orders().len() > 0 ==> final(self).offered_by_profit()
                == Seq::<usize>::empty() && final(self).offered_by_slack() == Seq::<usize>::empty(),
    {
        let mut best = baseline_solution(&self.tkp_instance.orders, self.tkp_instance.capacity);
        if self.tkp_instance.orders.len() == 0 {
            return best;
        }
        let mut current = best.clone();
        let ghost before = *self;
        let ghost os = self.orders();
        let ghost c = self.capacity();
        let ghost cfg = self.config();
        let ghost start = start_state(os, self.tabu_entries());
        let ghost mut trace: Seq<SearchState> = seq![start];
        let mut it: usize = 0;
        while it < iterations
            invariant
                before == *old(self),
                os == before.orders(),
                c == before.capacity(),
                cfg == before.config(),
                start == start_state(os, before.tabu_entries()),
                self.wf(),
                self.orders() == os,
                self.capacity() == c,
                self.config() == cfg,
                self.ranking() == before.ranking(),
                os.len() > 0,
                self.holds(current@),
                current.is_feasible,
                self.holds(best@),
                best.is_feasible,
                it <= iterations,
                it == 0 ==> best@ == baseline(os) && self.tabu_entries() == before.tabu_entries(),
                it > 0 ==> self.offered_by_profit() == Seq::<usize>::empty()
                    && self.offered_by_slack() == Seq::<usize>::empty(),
                run_from(os, c, cfg, start, trace),
                trace.len() == it + 1,
                trace.last() == (SearchState {
                    current: current@,
                    best: best@,
                    tabu: self.tabu_entries(),
                }),
                current.total_profit <= best.total_profit,
                forall|k: int|
                    0 <= k < trace.len() ==> (#[trigger] trace[k]).current.total_profit
                        <= best.total_profit,
            decreases iterations - it,
        {
            let ghost prev = trace;
            let improved = self.iterate(&mut current, &mut best);
            proof {
                let next = SearchState { current: current@, best: best@, tabu: self.tabu_entries() };
                trace = prev.push(next);
                assert forall|k: int| 0 <= k < trace.len() - 1 implies #[trigger] steps_to(
                    os,
                    c,
                    cfg,
                    trace[k],
                    trace[k + 1],
                ) by {
                    if k < prev.len() - 1 {
                        assert(trace[k] == prev[k] && trace[k + 1] == prev[k + 1]);
                    } else {
                        assert(trace[k] == prev.last());
                    }
                }
                assert forall|k: int| 0 <= k < trace.len() implies (#[trigger] trace[k]).current.total_profit
                    <= best.total_profit by {
                    if k < prev.len() {
                        assert(trace[k] == prev[k]);
                    }
                }
            }
            if improved {
                let sample = selected_sample(&best, SAMPLE_SIZE);
                sink.improved(it, best.total_profit, &sample);
            }
            it = it + 1;
        }
        best
    }
}

impl TkpInstance {
    /// Checks the problem, then runs a tabu search of `iterations`
    /// iterations on a copy of it, so that its random stream starts from the
    /// same point on every call. Returns the best solution found, or why the
    /// problem cannot be searched.
    pub fn tabu_search<S: ImprovementSink>(
        &self,
        iterations: usize,
        config: &SearchConfig,
        sink: &mut S,
    ) -> (r: Result<Solution, InstanceError>)
        ensures
            match r {
                Ok(s) => {
                    &&& validation_result(self.orders@) is Ok
                    &&& s.wf(self.orders@, self.capacity as int)
                    &&& s.is_feasible
                    &&& iterations == 0 ==> s@ == baseline(self.orders@)
                    &&& self.orders@.len() > 0 ==> exists|t: Seq<SolutionView>|
                        run_ends(
                            self.orders@,
                            self.capacity as int,
                            *config,
                            start_state(self.orders@, Seq::empty()),
                            iterations as int,
                            s@,
                            t,
                        )
                },
                Err(e) => validation_result(self.orders@) == Err::<(), InstanceError>(e),
            },
    {
        match self.validate() {
            Err(e) => Err(e),
            Ok(()) => {
                let mut search = TabuSearch::new(*config, self.clone());
                let best = search.tabu_search(iterations, sink);
                assert(self.orders@.len() > 0 ==> run_ends(
                    self.orders@,
                    self.capacity as int,
                    *config,
                    start_state(self.orders@, Seq::empty()),
                    iterations as int,
                    best@,
                    search.tabu_entries(),
                ));
                Ok(best)
            },
        }
    }
}

} // verus!
