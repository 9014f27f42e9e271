use std::collections::BTreeMap;

use vstd::std_specs::btree::{increasing_seq, spec_btree_map_iter};
use vstd::std_specs::cmp::OrdSpec;
use vstd::std_specs::iter::IteratorSpec;

use vstd::prelude::*;

use crate::model::{
    active, fits_capacity, horizon, lemma_horizon_bounds, lemma_load_flip, load, orders_valid, Order,
};
use crate::solution::{Solution, SolutionView};

verus! {

/// How many of the best-ranked eligible orders a greedy move picks from.
pub const POOL_SIZE: usize = 5;

/// The cost-benefit key of an order: its profit divided by `end - start`,
/// rounded to the nearest integer with halves away from zero, and saturated
/// to `u32::MAX`; an order with `start == end` gets `u32::MAX`, or 0 when its
/// profit is 0.
pub open spec fn ratio_key(o: Order) -> int {
    let d = o.end - o.start;
    if d <= 0 {
        if o.profit == 0 {
            0
        } else {
            u32::MAX as int
        }
    } else {
        let q = (2 * o.profit + d) / (2 * d);
        if q > u32::MAX {
            u32::MAX as int
        } else {
            q
        }
    }
}

/// Computes [`ratio_key`] for `o`.
pub fn ratio_key_of(o: &Order) -> (r: u32)
    requires
        o.start <= o.end,
    ensures
        r == ratio_key(*o),
{
    let d = (o.end - o.start) as u64;
    if d == 0 {
        if o.profit == 0 {
            0
        } else {
            u32::MAX
        }
    } else {
        let q = (2 * o.profit as u64 + d) / (2 * d);
        if q > u32::MAX as u64 {
            u32::MAX
        } else {
            q as u32
        }
    }
}

/// Whether some entry of `ranking` carries key `k`.
pub open spec fn has_key(ranking: Seq<(u32, usize)>, k: int) -> bool {
    exists|j: int| 0 <= j < ranking.len() && #[trigger] ranking[j].0 == k
}

/// `ranking` maps each cost-benefit key of the first `n` orders to the last
/// order that carries it, ordered from the highest key down.
pub open spec fn ranking_ok(orders: Seq<Order>, ranking: Seq<(u32, usize)>, n: int) -> bool {
    &&& forall|j: int|
        0 <= j < ranking.len() ==> (#[trigger] ranking[j]).1 < n && ranking[j].0 == ratio_key(
            orders[ranking[j].1 as int],
        )
    &&& forall|a: int, b: int|
        0 <= a < b < ranking.len() ==> (#[trigger] ranking[a]).0 > (#[trigger] ranking[b]).0
    &&& forall|i: int| 0 <= i < n ==> has_key(ranking, ratio_key(#[trigger] orders[i]))
    &&& forall|j: int, i: int|
        0 <= j < ranking.len() && 0 <= i < n && ratio_key(#[trigger] orders[i]) == (
        #[trigger] ranking[j]).0 ==> i <= ranking[j].1
}

/// Maps each cost-benefit key of the first `n` orders to the last order that
/// carries it.
pub open spec fn key_map_ok(orders: Seq<Order>, m: Map<u32, usize>, n: int) -> bool {
    &&& forall|x: int|
        0 <= x < n ==> m.contains_key(ratio_key(#[trigger] orders[x]) as u32) && x <= m[ratio_key(
            orders[x],
        ) as u32]
    &&& forall|k: u32|
        #[trigger] m.contains_key(k) ==> m[k] < n && ratio_key(orders[m[k] as int]) == k
}

/// Ranks the orders by cost-benefit key, highest first, keeping for each key
/// only the last order that carries it.
pub fn rank_by_ratio(orders: &Vec<Order>) -> (r: Vec<(u32, usize)>)
    requires
        forall|i: int| 0 <= i < orders@.len() ==> (#[trigger] orders@[i]).start <= orders@[i].end,
    ensures
        ranking_ok(orders@, r@, orders@.len() as int),
{
    broadcast use vstd::std_specs::btree::group_btree_axioms;
    broadcast use vstd::laws_cmp::group_laws_cmp;

    let ghost os = orders@;
    let mut by_key: BTreeMap<u32, usize> = BTreeMap::new();
    let mut i: usize = 0;
    while i < orders.len()
        invariant
            os == orders@,
            i <= os.len(),
            forall|x: int| 0 <= x < os.len() ==> (#[trigger] os[x]).start <= os[x].end,
            key_map_ok(os, by_key@, i as int),
        decreases os.len() - i,
    {
        let k = ratio_key_of(&orders[i]);
        by_key.insert(k, i);
        assert forall|x: int| 0 <= x < i + 1 implies by_key@.contains_key(
            ratio_key(#[trigger] os[x]) as u32,
        ) && x <= by_key@[ratio_key(os[x]) as u32] by {}
        i = i + 1;
    }
    let ghost m = by_key@;
    let ghost entries = spec_btree_map_iter(&by_key).remaining();
    let mut ascending: Vec<(u32, usize)> = Vec::new();
    for kv in it: by_key.iter()
        invariant
            it.seq() == entries,
            ascending@.len() == it.index(),
            forall|j: int|
                0 <= j < it.index() ==> #[trigger] ascending@[j] == (*it.seq()[j].0, *it.seq()[j].1),
    {
        let (k, v) = kv;
        ascending.push((*k, *v));
    }
    let ghost s = ascending@;
    assert(s.len() == entries.len());
    assert(forall|j: int| 0 <= j < s.len() ==> m.contains_key(#[trigger] s[j].0) && m[s[j].0] == s[j].1);
    let ghost keys = entries.map_values(|kv: (&u32, &usize)| *kv.0);
    assert(increasing_seq(keys));
    assert forall|a: int, b: int| 0 <= a < b < s.len() implies (#[trigger] s[a]).0 < (
    #[trigger] s[b]).0 by {
        assert(keys[a].cmp_spec(&keys[b]) is Less);
    }
    assert forall|k: u32| #[trigger] m.contains_key(k) implies exists|j: int|
        0 <= j < s.len() && s[j].0 == k by {
        assert(entries.contains((&k, &m[k])));
        let j = choose|j: int| 0 <= j < entries.len() && entries[j] == (&k, &m[k]);
        assert(s[j].0 == k);
    }
    let mut ranking: Vec<(u32, usize)> = Vec::new();
    let mut j: usize = ascending.len();
    while j > 0
        invariant
            j <= s.len(),
            s == ascending@,
            ranking@.len() == s.len() - j,
            forall|x: int| 0 <= x < ranking@.len() ==> #[trigger] ranking@[x] == s[s.len() - 1 - x],
        decreases j,
    {
        j = j - 1;
        ranking.push(ascending[j]);
    }
    let ghost r = ranking@;
    assert forall|x: int| 0 <= x < os.len() implies has_key(r, ratio_key(#[trigger] os[x])) by {
        let k = ratio_key(os[x]) as u32;
        assert(m.contains_key(k));
        let w = choose|w: int| 0 <= w < s.len() && s[w].0 == k;
        assert(r[s.len() - 1 - w] == s[w]);
    }
    assert forall|a: int, b: int| 0 <= a < b < r.len() implies (#[trigger] r[a]).0 > (
    #[trigger] r[b]).0 by {
        assert(s[s.len() - 1 - b].0 < s[s.len() - 1 - a].0);
    }
    assert forall|q: int| 0 <= q < r.len() implies (#[trigger] r[q]).1 < os.len() && r[q].0
        == ratio_key(os[r[q].1 as int]) by {
        assert(m.contains_key(s[s.len() - 1 - q].0));
    }
    assert forall|q: int, x: int|
        0 <= q < r.len() && 0 <= x < os.len() && ratio_key(#[trigger] os[x]) == (
        #[trigger] r[q]).0 implies x <= r[q].1 by {
        assert(m.contains_key(s[s.len() - 1 - q].0));
    }
    ranking
}

/// Whether order `i` fits on top of the demand profile `profile`: at none of
/// its slots would the demand exceed `capacity`.
pub open spec fn fits_at(orders: Seq<Order>, capacity: int, profile: Seq<u32>, i: int) -> bool {
    forall|t: int|
        orders[i].start <= t <= orders[i].end ==> #[trigger] profile[t - 1] + orders[i].demand
            <= capacity
}

/// Whether a greedy move may add order `i` to `cur`: it is not chosen yet,
/// it was not offered earlier in this iteration, and it fits.
pub open spec fn eligible(
    orders: Seq<Order>,
    capacity: int,
    cur: SolutionView,
    offered: Seq<usize>,
    i: int,
) -> bool {
    &&& !cur.selected[i]
    &&& !offered.contains(i as usize)
    &&& fits_at(orders, capacity, cur.total_demand, i)
}

/// Whether `v` occurs in `s`.
pub fn contains_index(s: &Vec<usize>, v: usize) -> (r: bool)
    ensures
        r == s@.contains(v),
{
    let mut j: usize = 0;
    while j < s.len()
        invariant
            j <= s@.len(),
            forall|x: int| 0 <= x < j ==> s@[x] != v,
        decreases s@.len() - j,
    {
        if s[j] == v {
            return true;
        }
        j = j + 1;
    }
    false
}

/// Whether order `i` fits on top of the demand of `cur`.
pub fn fits_now(orders: &Vec<Order>, capacity: u32, cur: &Solution, i: usize) -> (r: bool)
    requires
        orders_valid(orders@),
        cur.wf(orders@, capacity as int),
        i < orders@.len(),
    ensures
        r == fits_at(orders@, capacity as int, cur.total_demand@, i as int),
{
    let o = orders[i];
    proof {
        lemma_horizon_bounds(orders@, orders@.len() as int, i as int);
    }
    let mut k: usize = (o.start - 1) as usize;
    let end = o.end as usize;
    while k < end
        invariant
            o == orders@[i as int],
            1 <= o.start,
            o.start - 1 <= k <= end,
            end == o.end,
            end <= cur.total_demand@.len(),
            forall|t: int|
                o.start <= t <= k ==> #[trigger] cur.total_demand@[t - 1] + o.demand <= capacity,
        decreases end - k,
    {
        if cur.total_demand[k] as u64 + o.demand as u64 > capacity as u64 {
            assert(cur.total_demand@[(k + 1) - 1] + o.demand > capacity);
            return false;
        }
        k = k + 1;
    }
    true
}

/// Whether a greedy move may add order `i` to `cur`.
pub fn is_eligible(
    orders: &Vec<Order>,
    capacity: u32,
    cur: &Solution,
    offered: &Vec<usize>,
    i: usize,
) -> (r: bool)
    requires
        orders_valid(orders@),
        cur.wf(orders@, capacity as int),
        i < orders@.len(),
    ensures
        r == eligible(orders@, capacity as int, cur@, offered@, i as int),
{
    !cur.selected_orders[i] && !contains_index(offered, i) && fits_now(orders, capacity, cur, i)
}

/// The eligible orders among the first `j` entries of `ranking`, in ranking
/// order.
pub open spec fn eligible_ranked(
    orders: Seq<Order>,
    capacity: int,
    cur: SolutionView,
    offered: Seq<usize>,
    ranking: Seq<(u32, usize)>,
    j: int,
) -> Seq<usize>
    decreases j,
{
    if j <= 0 {
        Seq::empty()
    } else {
        let s = eligible_ranked(orders, capacity, cur, offered, ranking, j - 1);
        let i = ranking[j - 1].1;
        if eligible(orders, capacity, cur, offered, i as int) {
            s.push(i)
        } else {
            s
        }
    }
}

/// The first `k` items of `s`, or all of them when there are fewer.
pub open spec fn first_k<A>(s: Seq<A>, k: int) -> Seq<A> {
    if s.len() <= k {
        s
    } else {
        s.take(k)
    }
}

/// The candidates of a cost-benefit move: the first [`POOL_SIZE`] eligible
/// orders in ranking order.
pub open spec fn profit_pool_spec(
    orders: Seq<Order>,
    capacity: int,
    cur: SolutionView,
    offered: Seq<usize>,
    ranking: Seq<(u32, usize)>,
) -> Seq<usize> {
    first_k(
        eligible_ranked(orders, capacity, cur, offered, ranking, ranking.len() as int),
        POOL_SIZE as int,
    )
}

proof fn lemma_eligible_ranked_prefix(
    orders: Seq<Order>,
    capacity: int,
    cur: SolutionView,
    offered: Seq<usize>,
    ranking: Seq<(u32, usize)>,
    j: int,
    m: int,
)
    requires
        0 <= j <= m,
    ensures
        eligible_ranked(orders, capacity, cur, offered, ranking, j).len() <= eligible_ranked(
            orders,
            capacity,
            cur,
            offered,
            ranking,
            m,
        ).len(),
        eligible_ranked(orders, capacity, cur, offered, ranking, m).take(
            eligible_ranked(orders, capacity, cur, offered, ranking, j).len() as int,
        ) == eligible_ranked(orders, capacity, cur, offered, ranking, j),
    decreases m,
{
    let sj = eligible_ranked(orders, capacity, cur, offered, ranking, j);
    let sm = eligible_ranked(orders, capacity, cur, offered, ranking, m);
    if j < m {
        lemma_eligible_ranked_prefix(orders, capacity, cur, offered, ranking, j, m - 1);
        let sp = eligible_ranked(orders, capacity, cur, offered, ranking, m - 1);
        assert(sm.take(sj.len() as int) =~= sp.take(sj.len() as int));
    } else {
        assert(sm.take(sj.len() as int) =~= sm);
    }
}

/// The candidates of a cost-benefit move from `cur`: walking the ranking from
/// the highest key, the first [`POOL_SIZE`] orders that are eligible.
pub fn profit_pool(
    orders: &Vec<Order>,
    capacity: u32,
    ranking: &Vec<(u32, usize)>,
    cur: &Solution,
    offered: &Vec<usize>,
) -> (r: Vec<usize>)
    requires
        orders_valid(orders@),
        cur.wf(orders@, capacity as int),
        ranking_ok(orders@, ranking@, orders@.len() as int),
    ensures
        r@ == profit_pool_spec(orders@, capacity as int, cur@, offered@, ranking@),
        forall|x: int| 0 <= x < r@.len() ==> #[trigger] r@[x] < orders@.len(),
{
    let mut pool: Vec<usize> = Vec::new();
    let mut j: usize = 0;
    while j < ranking.len() && pool.len() < POOL_SIZE
        invariant
            orders_valid(orders@),
            cur.wf(orders@, capacity as int),
            ranking_ok(orders@, ranking@, orders@.len() as int),
            j <= ranking@.len(),
            pool@ == eligible_ranked(orders@, capacity as int, cur@, offered@, ranking@, j as int),
            pool@.len() <= POOL_SIZE,
            forall|x: int| 0 <= x < pool@.len() ==> #[trigger] pool@[x] < orders@.len(),
        decreases ranking@.len() - j,
    {
        let i = ranking[j].1;
        assert(ranking@[j as int].1 < orders@.len());
        let ghost next = eligible_ranked(
            orders@,
            capacity as int,
            cur@,
            offered@,
            ranking@,
            j + 1,
        );
        if is_eligible(orders, capacity, cur, offered, i) {
            pool.push(i);
        }
        assert(pool@ == next);
        j = j + 1;
    }
    proof {
        let all = eligible_ranked(
            orders@,
            capacity as int,
            cur@,
            offered@,
            ranking@,
            ranking@.len() as int,
        );
        lemma_eligible_ranked_prefix(
            orders@,
            capacity as int,
            cur@,
            offered@,
            ranking@,
            j as int,
            ranking@.len() as int,
        );
        if j < ranking@.len() {
            assert(pool@.len() == POOL_SIZE);
            assert(all.take(POOL_SIZE as int) == pool@);
        } else {
            assert(all == pool@);
        }
    }
    pool
}

/// The free capacity left by `profile`, summed over slots `lo..=hi`.
pub open spec fn slack_sum(capacity: int, profile: Seq<u32>, lo: int, hi: int) -> int
    decreases hi - lo + 1,
{
    if hi < lo {
        0
    } else {
        slack_sum(capacity, profile, lo, hi - 1) + (capacity - profile[hi - 1])
    }
}

/// The free capacity that `profile` leaves over the slots of order `i`.
pub open spec fn slack_score(orders: Seq<Order>, capacity: int, profile: Seq<u32>, i: int) -> int {
    slack_sum(capacity, profile, orders[i].start as int, orders[i].end as int)
}

/// Slack-fill order: more free capacity first, and between equal amounts the
/// later order first.
pub open spec fn ranks_before(score_a: int, a: int, score_b: int, b: int) -> bool {
    score_a > score_b || (score_a == score_b && a > b)
}

/// Whether order `i` is among the candidates of `pool`.
pub open spec fn pool_has(pool: Seq<(u64, usize)>, i: int) -> bool {
    exists|j: int| 0 <= j < pool.len() && (#[trigger] pool[j]).1 == i
}

/// `pool` holds the best [`POOL_SIZE`] eligible orders among the first `n`
/// by slack-fill order (all of them when there are fewer), best first, each
/// with its free capacity.
pub open spec fn slack_pool_ok(
    orders: Seq<Order>,
    capacity: int,
    cur: SolutionView,
    offered: Seq<usize>,
    pool: Seq<(u64, usize)>,
    n: int,
) -> bool {
    &&& pool.len() <= POOL_SIZE
    &&& forall|j: int|
        0 <= j < pool.len() ==> {
            &&& (#[trigger] pool[j]).1 < n
            &&& eligible(orders, capacity, cur, offered, pool[j].1 as int)
            &&& pool[j].0 == slack_score(orders, capacity, cur.total_demand, pool[j].1 as int)
        }
    &&& forall|a: int, b: int|
        0 <= a < b < pool.len() ==> ranks_before(
            (#[trigger] pool[a]).0 as int,
            pool[a].1 as int,
            (#[trigger] pool[b]).0 as int,
            pool[b].1 as int,
        )
    &&& forall|i: int|
        0 <= i < n && #[trigger] eligible(orders, capacity, cur, offered, i) && !pool_has(pool, i)
            ==> pool.len() == POOL_SIZE && ranks_before(
            pool[POOL_SIZE - 1].0 as int,
            pool[POOL_SIZE - 1].1 as int,
            slack_score(orders, capacity, cur.total_demand, i),
            i,
        )
}

/// The free capacity that `cur` leaves over the slots of order `i`.
pub fn slack_score_of(orders: &Vec<Order>, capacity: u32, cur: &Solution, i: usize) -> (r: u64)
    requires
        orders_valid(orders@),
        cur.wf(orders@, capacity as int),
        cur.is_feasible,
        i < orders@.len(),
    ensures
        r == slack_score(orders@, capacity as int, cur.total_demand@, i as int),
{
    let o = orders[i];
    proof {
        lemma_horizon_bounds(orders@, orders@.len() as int, i as int);
    }
    let mut k: usize = (o.start - 1) as usize;
    let end = o.end as usize;
    let mut acc: u64 = 0;
    while k < end
        invariant
            orders_valid(orders@),
            cur.wf(orders@, capacity as int),
            cur.is_feasible,
            o == orders@[i as int],
            1 <= o.start,
            o.start - 1 <= k <= end,
            end == o.end,
            end <= horizon(orders@),
            acc == slack_sum(capacity as int, cur.total_demand@, o.start as int, k as int),
            acc <= (k - (o.start - 1)) * 4294967295,
        decreases end - k,
    {
        assert(cur.total_demand@[k as int] <= capacity) by {
            assert(crate::model::load(
                orders@,
                cur.selected_orders@,
                k + 1,
                orders@.len() as int,
            ) <= capacity);
        }
        acc = acc + (capacity - cur.total_demand[k]) as u64;
        k = k + 1;
    }
    acc
}

/// The candidates of a slack-fill move from `cur`: the [`POOL_SIZE`] eligible
/// orders that leave the most free capacity over their slots, best first.
pub fn slack_pool(orders: &Vec<Order>, capacity: u32, cur: &Solution, offered: &Vec<usize>) -> (r:
    Vec<(u64, usize)>)
    requires
        orders_valid(orders@),
        cur.wf(orders@, capacity as int),
        cur.is_feasible,
    ensures
        slack_pool_ok(orders@, capacity as int, cur@, offered@, r@, orders@.len() as int),
{
    let ghost os = orders@;
    let ghost c = capacity as int;
    let ghost cv = cur@;
    let ghost off = offered@;
    let mut pool: Vec<(u64, usize)> = Vec::new();
    let mut i: usize = 0;
    while i < orders.len()
        invariant
            os == orders@,
            c == capacity,
            cv == cur@,
            off == offered@,
            orders_valid(os),
            cur.wf(os, c),
            cur.is_feasible,
            i <= os.len(),
            slack_pool_ok(os, c, cv, off, pool@, i as int),
        decreases os.len() - i,
    {
        if is_eligible(orders, capacity, cur, offered, i) {
            let score = slack_score_of(orders, capacity, cur, i);
            let mut p: usize = 0;
            while p < pool.len() && pool[p].0 > score
                invariant
                    p <= pool@.len(),
                    forall|j: int| 0 <= j < p ==> (#[trigger] pool@[j]).0 > score,
                decreases pool@.len() - p,
            {
                p = p + 1;
            }
            let ghost old_p = pool@;
            assert forall|j: int| p <= j < old_p.len() implies ranks_before(
                score as int,
                i as int,
                (#[trigger] old_p[j]).0 as int,
                old_p[j].1 as int,
            ) by {
                if j > p {
                    assert(ranks_before(
                        old_p[p as int].0 as int,
                        old_p[p as int].1 as int,
                        old_p[j].0 as int,
                        old_p[j].1 as int,
                    ));
                }
            }
            if p < POOL_SIZE {
                pool.insert(p, (score, i));
                let ghost q = pool@;
                assert(q.len() == old_p.len() + 1);
                assert forall|a: int, b: int| 0 <= a < b < q.len() implies ranks_before(
                    (#[trigger] q[a]).0 as int,
                    q[a].1 as int,
                    (#[trigger] q[b]).0 as int,
                    q[b].1 as int,
                ) by {
                    if a < p && b > p {
                        assert(ranks_before(
                            old_p[a].0 as int,
                            old_p[a].1 as int,
                            old_p[b - 1].0 as int,
                            old_p[b - 1].1 as int,
                        ));
                    } else if a > p {
                        assert(ranks_before(
                            old_p[a - 1].0 as int,
                            old_p[a - 1].1 as int,
                            old_p[b - 1].0 as int,
                            old_p[b - 1].1 as int,
                        ));
                    } else if a < p {
                        assert(q[a] == old_p[a]);
                    }
                }
                if pool.len() > POOL_SIZE {
                    let _ = pool.pop();
                }
                let ghost r = pool@;
                assert(r.len() <= POOL_SIZE);
                assert forall|a: int, b: int| 0 <= a < b < r.len() implies ranks_before(
                    (#[trigger] r[a]).0 as int,
                    r[a].1 as int,
                    (#[trigger] r[b]).0 as int,
                    r[b].1 as int,
                ) by {
                    assert(r[a] == q[a] && r[b] == q[b]);
                }
                assert forall|j: int| 0 <= j < r.len() implies {
                    &&& (#[trigger] r[j]).1 < i + 1
                    &&& eligible(os, c, cv, off, r[j].1 as int)
                    &&& r[j].0 == slack_score(os, c, cv.total_demand, r[j].1 as int)
                } by {
                    if j < p {
                        assert(r[j] == old_p[j]);
                    } else if j > p {
                        assert(r[j] == old_p[j - 1]);
                    }
                }
                assert forall|x: int|
                    0 <= x < i + 1 && #[trigger] eligible(os, c, cv, off, x) && !pool_has(r, x)
                        implies r.len() == POOL_SIZE && ranks_before(
                    r[POOL_SIZE - 1].0 as int,
                    r[POOL_SIZE - 1].1 as int,
                    slack_score(os, c, cv.total_demand, x),
                    x,
                ) by {
                    if x == i {
                        assert(r[p as int].1 == i);
                    } else if pool_has(old_p, x) {
                        let w = choose|w: int| 0 <= w < old_p.len() && (#[trigger] old_p[w]).1 == x;
                        if w < p {
                            assert(r[w].1 == x);
                        } else if w + 1 < r.len() {
                            assert(r[w + 1].1 == x);
                        } else {
                            assert(q[w + 1] == old_p[w]);
                            assert(ranks_before(
                                q[POOL_SIZE - 1].0 as int,
                                q[POOL_SIZE - 1].1 as int,
                                q[w + 1].0 as int,
                                q[w + 1].1 as int,
                            ));
                        }
                    } else {
                        assert(old_p.len() == POOL_SIZE);
                        assert(q[POOL_SIZE as int] == old_p[POOL_SIZE - 1]);
                        assert(ranks_before(
                            q[POOL_SIZE - 1].0 as int,
                            q[POOL_SIZE - 1].1 as int,
                            q[POOL_SIZE as int].0 as int,
                            q[POOL_SIZE as int].1 as int,
                        ));
                    }
                }
            } else {
                assert forall|x: int|
                    0 <= x < i + 1 && #[trigger] eligible(os, c, cv, off, x) && !pool_has(
                        old_p,
                        x,
                    ) implies old_p.len() == POOL_SIZE && ranks_before(
                    old_p[POOL_SIZE - 1].0 as int,
                    old_p[POOL_SIZE - 1].1 as int,
                    slack_score(os, c, cv.total_demand, x),
                    x,
                ) by {
                    if x == i {
                        assert((old_p[POOL_SIZE - 1]).0 > score);
                    }
                }
            }
        }
        i = i + 1;
    }
    pool
}

/// Adding an order that fits, and is not chosen yet, to a feasible solution
/// keeps it feasible.
pub proof fn lemma_adding_fitting_order(
    orders: Seq<Order>,
    capacity: int,
    cur: SolutionView,
    j: int,
)
    requires
        orders_valid(orders),
        cur.wf(orders, capacity),
        cur.is_feasible,
        0 <= j < orders.len(),
        !cur.selected[j],
        fits_at(orders, capacity, cur.total_demand, j),
    ensures
        fits_capacity(orders, capacity, cur.flipped(j)),
{
    let n = orders.len() as int;
    assert forall|t: int| 1 <= t <= horizon(orders) implies #[trigger] load(
        orders,
        cur.flipped(j),
        t,
        n,
    ) <= capacity by {
        lemma_load_flip(orders, cur.selected, j, t, n);
        if active(orders[j], t) {
            assert(cur.total_demand[t - 1] == load(orders, cur.selected, (t - 1) + 1, n));
        } else {
            assert(load(orders, cur.selected, t, n) <= capacity);
        }
    }
}

} // verus!
