use vstd::prelude::*;

use crate::config::{dist_sq, Config, DRAW_SCALE};
use crate::energy::{spec_aggregation_cost, spec_receive_cost, spec_transmission_cost};
use crate::node::{node_wf, pop_wf, Node};

verus! {

// ---------------------------------------------------------------------------
// Election threshold
//
// The rotation threshold is the exact rational
//     T(r) = min(1, P / (1 - P * (r mod CycleLength)))
// with P = p_num / p_den. It is represented by a numerator/denominator
// pair; the cap applies as soon as the raw denominator p_den - p_num * m
// drops to p_num or below (which covers the degenerate non-positive case).
// ---------------------------------------------------------------------------

/// Whether the threshold is capped at 1 in round `r`.
pub open spec fn spec_t_capped(cfg: Config, r: int) -> bool {
    cfg.p_den - cfg.p_num * (r % (cfg.cycle_length as int)) <= cfg.p_num
}

/// Numerator of the threshold `T(r)`.
pub open spec fn spec_t_num(cfg: Config, r: int) -> int {
    if spec_t_capped(cfg, r) {
        1
    } else {
        cfg.p_num as int
    }
}

/// Denominator of the threshold `T(r)`.
pub open spec fn spec_t_den(cfg: Config, r: int) -> int {
    if spec_t_capped(cfg, r) {
        1
    } else {
        cfg.p_den - cfg.p_num * (r % (cfg.cycle_length as int))
    }
}

/// Whether a draw `u` (uniform in `[0, DRAW_SCALE)`, standing for the real
/// number `u / DRAW_SCALE`) elects a node in round `r`: exactly when
/// `u / DRAW_SCALE < T(r)`.
pub open spec fn spec_elected(cfg: Config, r: int, u: int) -> bool {
    u * spec_t_den(cfg, r) < spec_t_num(cfg, r) * DRAW_SCALE
}

proof fn lemma_pm_bound(p: int, m: int)
    by (nonlinear_arith)
    requires
        0 <= p < 1_000_000,
        0 <= m < 1_000_000,
    ensures
        0 <= p * m < 1_000_000_000_000,
{
}

proof fn lemma_mul_le_mono_left(k: int, a: int, b: int)
    by (nonlinear_arith)
    requires
        0 <= k,
        a <= b,
    ensures
        k * a <= k * b,
{
}

/// Computes the threshold `T(round)` as the pair (numerator, denominator).
pub fn threshold(cfg: &Config, round: u64) -> (t: (u64, u64))
    requires
        cfg.wf(),
    ensures
        t.0 == spec_t_num(*cfg, round as int),
        t.1 == spec_t_den(*cfg, round as int),
        1 <= t.0 <= t.1 <= cfg.p_den,
{
    proof {
        lemma_threshold_in_unit(*cfg, round as int);
    }
    let m = round % cfg.cycle_length;
    proof {
        lemma_pm_bound(cfg.p_num as int, m as int);
    }
    let pm = cfg.p_num * m;
    if cfg.p_den <= pm + cfg.p_num {
        (1, 1)
    } else {
        (cfg.p_num, cfg.p_den - pm)
    }
}

/// The threshold is a probability in `(0, 1]` in every round: its
/// numerator and denominator satisfy `1 <= num <= den`, so `0 < T(r) <= 1`.
pub proof fn lemma_threshold_in_unit(cfg: Config, r: int)
    requires
        cfg.wf(),
        r >= 0,
    ensures
        1 <= spec_t_num(cfg, r) <= spec_t_den(cfg, r) <= cfg.p_den,
{
    let c = cfg.cycle_length as int;
    let m = r % c;
    assert(0 <= m < c);
    lemma_pm_bound(cfg.p_num as int, m);
}

/// Within a cycle the threshold is non-decreasing: if the position of
/// `r1` in its cycle is at most that of `r2`, then `T(r1) <= T(r2)`,
/// stated by cross-multiplying the two rationals.
pub proof fn lemma_threshold_monotone(cfg: Config, r1: int, r2: int)
    requires
        cfg.wf(),
        r1 >= 0,
        r2 >= 0,
        r1 % (cfg.cycle_length as int) <= r2 % (cfg.cycle_length as int),
    ensures
        spec_t_num(cfg, r1) * spec_t_den(cfg, r2) <= spec_t_num(cfg, r2) * spec_t_den(cfg, r1),
{
    let c = cfg.cycle_length as int;
    let p = cfg.p_num as int;
    let q = cfg.p_den as int;
    let m1 = r1 % c;
    let m2 = r2 % c;
    assert(0 <= m1 && 0 <= m2);
    lemma_threshold_in_unit(cfg, r1);
    lemma_threshold_in_unit(cfg, r2);
    lemma_mul_le_mono_left(p, m1, m2);
    if spec_t_capped(cfg, r2) {
        if spec_t_capped(cfg, r1) {
        } else {
            // T(r2) = 1 and T(r1) = p / (q - p*m1) <= 1.
            assert(spec_t_num(cfg, r1) * spec_t_den(cfg, r2) == p);
            assert(spec_t_num(cfg, r2) * spec_t_den(cfg, r1) == q - p * m1);
        }
    } else {
        // p*m1 <= p*m2, so r1 is uncapped as well.
        assert(!spec_t_capped(cfg, r1));
        // p * (q - p*m2) <= p * (q - p*m1)
        lemma_mul_le_mono_left(p, q - p * m2, q - p * m1);
    }
}

/// The threshold depends only on the position of the round within its
/// cycle, so it resets at every cycle boundary.
pub proof fn lemma_threshold_periodic(cfg: Config, r1: int, r2: int)
    requires
        cfg.wf(),
        r1 % (cfg.cycle_length as int) == r2 % (cfg.cycle_length as int),
    ensures
        spec_t_num(cfg, r1) == spec_t_num(cfg, r2),
        spec_t_den(cfg, r1) == spec_t_den(cfg, r2),
{
}

// ---------------------------------------------------------------------------
// Round phases, as relations between the population before and after.
// ---------------------------------------------------------------------------

/// The fields no phase of a round ever changes.
pub open spec fn same_node_basics(a: Node, b: Node) -> bool {
    &&& b.id == a.id
    &&& b.position == a.position
    &&& b.dist_sq_to_sink == a.dist_sq_to_sink
    &&& b.transmission_range == a.transmission_range
    &&& b.neighbours == a.neighbours
}

/// The reset phase: cluster state is cleared for every node, and at a
/// cycle boundary (`new_cycle`) eligibility is restored for exactly the
/// alive nodes; energy and liveness are untouched.
pub open spec fn reset_rel(pre: Seq<Node>, post: Seq<Node>, new_cycle: bool) -> bool {
    &&& post.len() == pre.len()
    &&& forall|i: int|
        0 <= i < pre.len() ==> {
            let a = #[trigger] pre[i];
            let b = #[trigger] post[i];
            &&& same_node_basics(a, b)
            &&& b.energy == a.energy
            &&& b.is_alive == a.is_alive
            &&& !b.is_cluster_head
            &&& b.cluster_head_id is None
            &&& b.cluster_members@ == Seq::<usize>::empty()
            &&& b.eligible == if new_cycle {
                a.is_alive
            } else {
                a.eligible
            }
        }
}

/// Resets cluster state for all nodes at the beginning of a round, and
/// restores eligibility for alive nodes exactly at cycle boundaries.
pub fn reset(nodes: &mut Vec<Node>, round: u64, cfg: &Config)
    requires
        cfg.wf(),
    ensures
        reset_rel(old(nodes)@, final(nodes)@, round % cfg.cycle_length == 0),
{
    let new_cycle = round % cfg.cycle_length == 0;
    let n = nodes.len();
    let mut i: usize = 0;
    while i < n
        invariant
            nodes@.len() == n,
            n == old(nodes)@.len(),
            i <= n,
            forall|k: int| i <= k < n ==> nodes@[k] == old(nodes)@[k],
            forall|k: int|
                0 <= k < i ==> {
                    let a = #[trigger] old(nodes)@[k];
                    let b = #[trigger] nodes@[k];
                    &&& same_node_basics(a, b)
                    &&& b.energy == a.energy
                    &&& b.is_alive == a.is_alive
                    &&& !b.is_cluster_head
                    &&& b.cluster_head_id is None
                    &&& b.cluster_members@ == Seq::<usize>::empty()
                    &&& b.eligible == if new_cycle {
                        a.is_alive
                    } else {
                        a.eligible
                    }
                },
        decreases n - i,
    {
        crate::node::reset_node(&mut nodes[i]);
        if new_cycle {
            let alive = nodes[i].is_alive;
            nodes[i].eligible = alive;
        }
        i = i + 1;
    }
}

// ---------------------------------------------------------------------------
// Election (probability-threshold policy)
// ---------------------------------------------------------------------------

/// Ascending list of the head-flagged indices among the first `n` nodes.
pub open spec fn heads_upto(s: Seq<Node>, n: int) -> Seq<usize>
    decreases n,
{
    if n <= 0 {
        Seq::empty()
    } else {
        heads_upto(s, n - 1) + if s[n - 1].is_cluster_head {
            seq![(n - 1) as usize]
        } else {
            Seq::empty()
        }
    }
}

/// Ascending list of all head-flagged indices: the round's head set, in
/// the fixed iteration order cluster formation uses.
pub open spec fn spec_heads(s: Seq<Node>) -> Seq<usize> {
    heads_upto(s, s.len() as int)
}

/// `heads_upto` reads only the head flags of the first `n` nodes.
proof fn lemma_heads_upto_stable(s1: Seq<Node>, s2: Seq<Node>, n: int)
    requires
        n <= s1.len(),
        n <= s2.len(),
        forall|j: int| 0 <= j < n ==> s1[j].is_cluster_head == s2[j].is_cluster_head,
    ensures
        heads_upto(s1, n) == heads_upto(s2, n),
    decreases n,
{
    if n > 0 {
        lemma_heads_upto_stable(s1, s2, n - 1);
    }
}

/// The threshold election: every node that is alive and eligible draws
/// once, independently; it becomes a head exactly when its draw falls
/// below the threshold, and then loses its eligibility for the rest of
/// the cycle. Every other node, and every other field, is untouched.
pub open spec fn elect_threshold_rel(
    pre: Seq<Node>,
    post: Seq<Node>,
    cfg: Config,
    r: int,
    draws: Seq<int>,
) -> bool {
    &&& post.len() == pre.len()
    &&& draws.len() == pre.len()
    &&& forall|i: int| 0 <= i < pre.len() ==> 0 <= #[trigger] draws[i] < DRAW_SCALE
    &&& forall|i: int|
        0 <= i < pre.len() ==> {
            let a = #[trigger] pre[i];
            let b = #[trigger] post[i];
            &&& same_node_basics(a, b)
            &&& b.energy == a.energy
            &&& b.is_alive == a.is_alive
            &&& b.cluster_head_id == a.cluster_head_id
            &&& b.cluster_members@ == a.cluster_members@
            &&& if a.is_alive && a.eligible && spec_elected(cfg, r, draws[i]) {
                b.is_cluster_head && !b.eligible
            } else {
                b.is_cluster_head == a.is_cluster_head && b.eligible == a.eligible
            }
        }
}

proof fn lemma_draw_product(u: int, t: int)
    by (nonlinear_arith)
    requires
        0 <= u < 4_294_967_296,
        0 <= t < 1_000_000,
    ensures
        0 <= u * t < 4_294_967_296_000_000,
{
}

/// Selects this round's cluster heads by independent threshold draws and
/// returns the head list in ascending index order. The drawn values are
/// existentially quantified: every property proved downstream holds for
/// every possible outcome of the generator.
pub fn select_cluster_heads(
    nodes: &mut Vec<Node>,
    round: u64,
    cfg: &Config,
    rng: &mut rand::rngs::StdRng,
) -> (heads: Vec<usize>)
    requires
        cfg.wf(),
        forall|i: int| 0 <= i < old(nodes)@.len() ==> !(#[trigger] old(nodes)@[i]).is_cluster_head,
    ensures
        exists|draws: Seq<int>|
            elect_threshold_rel(old(nodes)@, final(nodes)@, *cfg, round as int, draws),
        heads@ == spec_heads(final(nodes)@),
{
    let t = threshold(cfg, round);
    let n = nodes.len();
    let mut heads: Vec<usize> = Vec::new();
    let ghost mut draws: Seq<int> = Seq::empty();
    let mut i: usize = 0;
    while i < n
        invariant
            cfg.wf(),
            t.0 == spec_t_num(*cfg, round as int),
            t.1 == spec_t_den(*cfg, round as int),
            1 <= t.0 <= t.1 <= cfg.p_den,
            nodes@.len() == n,
            n == old(nodes)@.len(),
            forall|k: int| 0 <= k < n ==> !(#[trigger] old(nodes)@[k]).is_cluster_head,
            i <= n,
            draws.len() == i,
            forall|j: int| 0 <= j < i ==> 0 <= #[trigger] draws[j] < DRAW_SCALE,
            forall|k: int| i <= k < n ==> nodes@[k] == old(nodes)@[k],
            forall|k: int|
                0 <= k < i ==> {
                    let a = #[trigger] old(nodes)@[k];
                    let b = #[trigger] nodes@[k];
                    &&& same_node_basics(a, b)
                    &&& b.energy == a.energy
                    &&& b.is_alive == a.is_alive
                    &&& b.cluster_head_id == a.cluster_head_id
                    &&& b.cluster_members@ == a.cluster_members@
                    &&& if a.is_alive && a.eligible && spec_elected(*cfg, round as int, draws[k]) {
                        b.is_cluster_head && !b.eligible
                    } else {
                        b.is_cluster_head == a.is_cluster_head && b.eligible == a.eligible
                    }
                },
            heads@ == heads_upto(nodes@, i as int),
        decreases n - i,
    {
        let ghost pre_loop = nodes@;
        if nodes[i].is_alive && nodes[i].eligible {
            let u = crate::rng::draw_u32(rng) as u64;
            proof {
                lemma_draw_product(u as int, t.1 as int);
                draws = draws.push(u as int);
            }
            if u * t.1 < t.0 * DRAW_SCALE {
                nodes[i].is_cluster_head = true;
                nodes[i].eligible = false;
                heads.push(i);
            }
        } else {
            proof {
                draws = draws.push(0);
            }
        }
        proof {
            lemma_heads_upto_stable(pre_loop, nodes@, i as int);
            assert(heads@ =~= heads_upto(nodes@, i as int + 1));
        }
        i = i + 1;
    }
    proof {
        assert(elect_threshold_rel(old(nodes)@, nodes@, *cfg, round as int, draws));
    }
    heads
}

/// Collects the current head set in ascending index order.
pub fn collect_heads(nodes: &Vec<Node>) -> (heads: Vec<usize>)
    ensures
        heads@ == spec_heads(nodes@),
{
    let n = nodes.len();
    let mut heads: Vec<usize> = Vec::new();
    let mut i: usize = 0;
    while i < n
        invariant
            nodes@.len() == n,
            i <= n,
            heads@ == heads_upto(nodes@, i as int),
        decreases n - i,
    {
        if nodes[i].is_cluster_head {
            heads.push(i);
        }
        proof {
            assert(heads@ =~= heads_upto(nodes@, i as int + 1));
        }
        i = i + 1;
    }
    heads
}

/// Every entry of the head list is a head-flagged index below `n`, and
/// the list is strictly ascending.
pub proof fn lemma_heads_upto_char(s: Seq<Node>, n: int)
    requires
        n <= s.len() <= crate::config::POP_LIMIT,
    ensures
        forall|t: int|
            0 <= t < heads_upto(s, n).len() ==> 0 <= #[trigger] heads_upto(s, n)[t] < n && s[
                heads_upto(s, n)[t] as int].is_cluster_head,
    decreases n,
{
    if n > 0 {
        lemma_heads_upto_char(s, n - 1);
        let hs = heads_upto(s, n);
        let prev = heads_upto(s, n - 1);
        assert forall|t: int|
            0 <= t < hs.len() implies 0 <= #[trigger] hs[t] < n && s[
            hs[t] as int].is_cluster_head by {
            if t < prev.len() {
                assert(hs[t] == prev[t]);
            } else {
                assert(s[n - 1].is_cluster_head);
                assert(hs[t] == (n - 1) as usize);
            }
        }
    }
}

// ---------------------------------------------------------------------------
// Cluster formation
// ---------------------------------------------------------------------------

/// The head in `heads` nearest to node `i`, scanning the list in order
/// and keeping the earlier head on ties: a later head wins only by a
/// strictly smaller squared distance. `None` exactly when `heads` is
/// empty.
pub open spec fn nearest_head(s: Seq<Node>, heads: Seq<usize>, i: int) -> Option<usize>
    decreases heads.len(),
{
    if heads.len() == 0 {
        None
    } else {
        let prev = nearest_head(s, heads.drop_last(), i);
        let h = heads.last();
        match prev {
            None => Some(h),
            Some(p) => if dist_sq(s[i].position, s[h as int].position) < dist_sq(s[i].position,
                s[p as int].position) {
                Some(h)
            } else {
                Some(p)
            },
        }
    }
}

/// The head node `i` reports to this round: the nearest head for alive
/// non-head nodes, nothing for heads and dead nodes.
pub open spec fn assigned_head(s: Seq<Node>, heads: Seq<usize>, i: int) -> Option<usize> {
    if s[i].is_alive && !s[i].is_cluster_head {
        nearest_head(s, heads, i)
    } else {
        None
    }
}

/// The members of head `h`: every node among the first `n` that is
/// assigned to `h`, in ascending id order.
pub open spec fn members_upto(s: Seq<Node>, heads: Seq<usize>, h: usize, n: int) -> Seq<usize>
    decreases n,
{
    if n <= 0 {
        Seq::empty()
    } else {
        members_upto(s, heads, h, n - 1) + if assigned_head(s, heads, n - 1) == Some(h) {
            seq![(n - 1) as usize]
        } else {
            Seq::empty()
        }
    }
}

/// The formation phase: every alive non-head node records its nearest
/// head (staying unassigned when there is none), every head's member list
/// becomes exactly the ascending list of the nodes assigned to it, and
/// nothing else changes.
pub open spec fn form_rel(pre: Seq<Node>, post: Seq<Node>, heads: Seq<usize>) -> bool {
    &&& post.len() == pre.len()
    &&& forall|i: int|
        0 <= i < pre.len() ==> {
            let a = #[trigger] pre[i];
            let b = #[trigger] post[i];
            &&& same_node_basics(a, b)
            &&& b.energy == a.energy
            &&& b.is_alive == a.is_alive
            &&& b.is_cluster_head == a.is_cluster_head
            &&& b.eligible == a.eligible
            &&& b.cluster_head_id == (if a.is_alive && !a.is_cluster_head {
                nearest_head(pre, heads, i)
            } else {
                a.cluster_head_id
            })
            &&& b.cluster_members@ == (if a.is_cluster_head {
                members_upto(pre, heads, i as usize, pre.len() as int)
            } else {
                a.cluster_members@
            })
        }
}

/// A nearest head is always one of the given heads.
pub proof fn lemma_nearest_in_heads(s: Seq<Node>, heads: Seq<usize>, i: int)
    ensures
        match nearest_head(s, heads, i) {
            Some(h) => heads.contains(h),
            None => heads.len() == 0,
        },
    decreases heads.len(),
{
    if heads.len() > 0 {
        lemma_nearest_in_heads(s, heads.drop_last(), i);
        assert(heads.last() == heads[heads.len() - 1]);
        match nearest_head(s, heads.drop_last(), i) {
            Some(p) => {
                let j = choose|j: int| 0 <= j < heads.drop_last().len() && heads.drop_last()[j]
                    == p;
                assert(heads[j] == p);
            },
            None => {},
        }
    }
}

/// Assigns every alive non-head node to its nearest cluster head and
/// fills each head's member list; ties go to the earlier head in the
/// list. With no heads, affected nodes simply stay unassigned.
pub fn form_clusters(nodes: &mut Vec<Node>, heads: &Vec<usize>)
    requires
        forall|i: int|
            0 <= i < old(nodes)@.len() ==> (#[trigger] old(nodes)@[i]).position.x
                < crate::config::COORD_LIMIT && old(nodes)@[i].position.y
                < crate::config::COORD_LIMIT,
        forall|t: int| 0 <= t < heads@.len() ==> #[trigger] heads@[t] < old(nodes)@.len(),
    ensures
        form_rel(old(nodes)@, final(nodes)@, heads@),
{
    let n = nodes.len();
    let k = heads.len();

    // First pass (read-only): the nearest head of every node.
    let mut assigned: Vec<Option<usize>> = Vec::new();
    let mut i: usize = 0;
    while i < n
        invariant
            nodes@ == old(nodes)@,
            nodes@.len() == n,
            heads@.len() == k,
            forall|t: int| 0 <= t < k ==> #[trigger] heads@[t] < n,
            forall|j: int|
                0 <= j < n ==> (#[trigger] nodes@[j]).position.x < crate::config::COORD_LIMIT
                    && nodes@[j].position.y < crate::config::COORD_LIMIT,
            i <= n,
            assigned@.len() == i,
            forall|j: int| 0 <= j < i ==> assigned@[j] == assigned_head(nodes@, heads@, j),
        decreases n - i,
    {
        if nodes[i].is_alive && !nodes[i].is_cluster_head {
            let pi = nodes[i].position;
            let mut best: Option<usize> = None;
            let mut best_d: u64 = 0;
            let mut t: usize = 0;
            while t < k
                invariant
                    nodes@ == old(nodes)@,
                    nodes@.len() == n,
                    heads@.len() == k,
                    forall|t2: int| 0 <= t2 < k ==> #[trigger] heads@[t2] < n,
                    forall|j: int|
                        0 <= j < n ==> (#[trigger] nodes@[j]).position.x
                            < crate::config::COORD_LIMIT && nodes@[j].position.y
                            < crate::config::COORD_LIMIT,
                    i < n,
                    pi == nodes@[i as int].position,
                    t <= k,
                    match nearest_head(nodes@, heads@.subrange(0, t as int), i as int) {
                        None => best is None,
                        Some(p) => best == Some(p) && best_d == dist_sq(nodes@[i as int].position,
                            nodes@[p as int].position),
                    },
                decreases k - t,
            {
                let h = heads[t];
                let d = crate::config::dist_sq_exec(&pi, &nodes[h].position);
                let improves = match best {
                    None => true,
                    Some(_) => d < best_d,
                };
                proof {
                    assert(heads@.subrange(0, t as int + 1).drop_last() =~= heads@.subrange(0,
                        t as int));
                    assert(heads@.subrange(0, t as int + 1).last() == heads@[t as int]);
                }
                if improves {
                    best = Some(h);
                    best_d = d;
                }
                t = t + 1;
            }
            proof {
                assert(heads@.subrange(0, k as int) =~= heads@);
            }
            assigned.push(best);
        } else {
            assigned.push(None);
        }
        i = i + 1;
    }

    // Second pass: write the assignments and the member lists.
    let mut j: usize = 0;
    while j < n
        invariant
            nodes@.len() == n,
            n == old(nodes)@.len(),
            heads@.len() == k,
            assigned@.len() == n,
            forall|m: int| 0 <= m < n ==> assigned@[m] == assigned_head(old(nodes)@, heads@, m),
            j <= n,
            forall|m: int| j <= m < n ==> nodes@[m] == old(nodes)@[m],
            forall|m: int|
                0 <= m < j ==> {
                    let a = #[trigger] old(nodes)@[m];
                    let b = #[trigger] nodes@[m];
                    &&& same_node_basics(a, b)
                    &&& b.energy == a.energy
                    &&& b.is_alive == a.is_alive
                    &&& b.is_cluster_head == a.is_cluster_head
                    &&& b.eligible == a.eligible
                    &&& b.cluster_head_id == (if a.is_alive && !a.is_cluster_head {
                        nearest_head(old(nodes)@, heads@, m)
                    } else {
                        a.cluster_head_id
                    })
                    &&& b.cluster_members@ == (if a.is_cluster_head {
                        members_upto(old(nodes)@, heads@, m as usize, n as int)
                    } else {
                        a.cluster_members@
                    })
                },
        decreases n - j,
    {
        if nodes[j].is_cluster_head {
            let mut mem: Vec<usize> = Vec::new();
            let mut i2: usize = 0;
            while i2 < n
                invariant
                    assigned@.len() == n,
                    forall|m: int| 0 <= m < n ==> assigned@[m] == assigned_head(old(nodes)@,
                        heads@, m),
                    i2 <= n,
                    mem@ == members_upto(old(nodes)@, heads@, j as usize, i2 as int),
                decreases n - i2,
            {
                let ghost mem_old = mem@;
                if let Some(a) = assigned[i2] {
                    if a == j {
                        mem.push(i2);
                    }
                }
                proof {
                    assert(mem@ =~= members_upto(old(nodes)@, heads@, j as usize, i2 as int + 1));
                }
                i2 = i2 + 1;
            }
            nodes[j].cluster_members = mem;
        } else if nodes[j].is_alive {
            let a = assigned[j];
            nodes[j].cluster_head_id = a;
        }
        j = j + 1;
    }
}

// ---------------------------------------------------------------------------
// Energy dissipation and death check
// ---------------------------------------------------------------------------

/// Subtraction that never goes below zero: energy is exhausted, not
/// negative.
pub open spec fn spec_sat_sub(e: int, c: int) -> int {
    if c >= e {
        0
    } else {
        e - c
    }
}

/// The energy one node spends this round: a head pays reception and
/// aggregation for each member plus one transmission to the sink; an
/// assigned member pays one transmission to its head; an unassigned node
/// pays nothing.
pub open spec fn spec_round_cost(s: Seq<Node>, cfg: Config, i: int) -> int {
    if s[i].is_cluster_head {
        s[i].cluster_members@.len() * (spec_receive_cost(cfg) + spec_aggregation_cost(cfg))
            + spec_transmission_cost(cfg, s[i].dist_sq_to_sink as int)
    } else {
        match s[i].cluster_head_id {
            Some(h) => spec_transmission_cost(cfg, dist_sq(s[i].position, s[h as int].position)),
            None => 0,
        }
    }
}

/// The dissipation phase: every alive node pays its round cost, saturating
/// at zero; dead nodes are untouched, and no other field changes.
pub open spec fn dissipate_rel(pre: Seq<Node>, post: Seq<Node>, cfg: Config) -> bool {
    &&& post.len() == pre.len()
    &&& forall|i: int|
        0 <= i < pre.len() ==> {
            let a = #[trigger] pre[i];
            let b = #[trigger] post[i];
            &&& same_node_basics(a, b)
            &&& b.is_alive == a.is_alive
            &&& b.is_cluster_head == a.is_cluster_head
            &&& b.eligible == a.eligible
            &&& b.cluster_head_id == a.cluster_head_id
            &&& b.cluster_members@ == a.cluster_members@
            &&& b.energy == (if a.is_alive {
                spec_sat_sub(a.energy as int, spec_round_cost(pre, cfg, i))
            } else {
                a.energy as int
            })
        }
}

proof fn lemma_member_cost(m: int, c: int)
    by (nonlinear_arith)
    requires
        0 <= m < 18_446_744_073_709_551_616,
        0 <= c < 2_000_000_000_000_000_000,
    ensures
        0 <= m * c < 40_000_000_000_000_000_000_000_000_000_000_000_000,
{
}

/// Applies this round's radio energy costs to every alive node, according
/// to the two-regime first-order model; dead nodes are skipped entirely.
pub fn dissipate_energy(nodes: &mut Vec<Node>, cfg: &Config)
    requires
        cfg.wf(),
        pop_wf(old(nodes)@, *cfg),
    ensures
        dissipate_rel(old(nodes)@, final(nodes)@, *cfg),
        pop_wf(final(nodes)@, *cfg),
{
    let n = nodes.len();
    let mut i: usize = 0;
    while i < n
        invariant
            cfg.wf(),
            pop_wf(old(nodes)@, *cfg),
            nodes@.len() == n,
            n == old(nodes)@.len(),
            i <= n,
            forall|k: int| i <= k < n ==> nodes@[k] == old(nodes)@[k],
            forall|k: int|
                0 <= k < i ==> {
                    let a = #[trigger] old(nodes)@[k];
                    let b = #[trigger] nodes@[k];
                    &&& same_node_basics(a, b)
                    &&& b.is_alive == a.is_alive
                    &&& b.is_cluster_head == a.is_cluster_head
                    &&& b.eligible == a.eligible
                    &&& b.cluster_head_id == a.cluster_head_id
                    &&& b.cluster_members@ == a.cluster_members@
                    &&& b.energy == (if a.is_alive {
                        spec_sat_sub(a.energy as int, spec_round_cost(old(nodes)@, *cfg, k))
                    } else {
                        a.energy as int
                    })
                },
        decreases n - i,
    {
        proof {
            assert(node_wf(old(nodes)@[i as int], *cfg, n as int));
        }
        if nodes[i].is_alive {
            let cost: u128 = if nodes[i].is_cluster_head {
                let mlen = nodes[i].cluster_members.len();
                let rc = crate::energy::receive_energy(cfg);
                let ac = crate::energy::aggregation_energy(cfg);
                proof {
                    lemma_member_cost(mlen as int, (rc + ac) as int);
                    crate::config::lemma_dist_sq_range(old(nodes)@[i as int].position, cfg.sink);
                }
                (mlen as u128) * ((rc + ac) as u128) + crate::energy::transmission_energy(cfg,
                    nodes[i].dist_sq_to_sink)
            } else {
                match nodes[i].cluster_head_id {
                    Some(h) => {
                        proof {
                            assert(node_wf(old(nodes)@[h as int], *cfg, n as int));
                        }
                        let pi = nodes[i].position;
                        let d = crate::config::dist_sq_exec(&pi, &nodes[h].position);
                        crate::energy::transmission_energy(cfg, d)
                    },
                    None => 0,
                }
            };
            let e = nodes[i].energy;
            let newe: u64 = if cost >= e as u128 {
                0
            } else {
                e - (cost as u64)
            };
            nodes[i].energy = newe;
        }
        i = i + 1;
    }
    proof {
        assert forall|k: int|
            0 <= k < nodes@.len() implies node_wf(#[trigger] nodes@[k], *cfg,
            nodes@.len() as int) && nodes@[k].id == k by {
            assert(node_wf(old(nodes)@[k], *cfg, n as int));
        }
    }
}

// ---------------------------------------------------------------------------
// Death check
// ---------------------------------------------------------------------------

/// The death check: a node survives the round exactly when it was alive
/// and still has energy; nothing else changes. Death is permanent by
/// construction, since a dead node can never satisfy the conjunction
/// again.
pub open spec fn death_rel(pre: Seq<Node>, post: Seq<Node>) -> bool {
    &&& post.len() == pre.len()
    &&& forall|i: int|
        0 <= i < pre.len() ==> {
            let a = #[trigger] pre[i];
            let b = #[trigger] post[i];
            &&& same_node_basics(a, b)
            &&& b.energy == a.energy
            &&& b.is_cluster_head == a.is_cluster_head
            &&& b.eligible == a.eligible
            &&& b.cluster_head_id == a.cluster_head_id
            &&& b.cluster_members@ == a.cluster_members@
            &&& b.is_alive == (a.is_alive && a.energy > 0)
        }
}

/// How many of the first `n` nodes are alive.
pub open spec fn count_alive_upto(s: Seq<Node>, n: int) -> int
    decreases n,
{
    if n <= 0 {
        0
    } else {
        count_alive_upto(s, n - 1) + if s[n - 1].is_alive {
            1int
        } else {
            0int
        }
    }
}

/// How many nodes of the population are alive.
pub open spec fn count_alive(s: Seq<Node>) -> int {
    count_alive_upto(s, s.len() as int)
}

proof fn lemma_count_alive_mono(s: Seq<Node>, a: int, b: int)
    requires
        a <= b,
    ensures
        count_alive_upto(s, a) <= count_alive_upto(s, b),
    decreases b - a,
{
    if a < b {
        lemma_count_alive_mono(s, a, b - 1);
    }
}

proof fn lemma_count_alive_nonneg(s: Seq<Node>, n: int)
    ensures
        count_alive_upto(s, n) >= 0,
    decreases n,
{
    if n > 0 {
        lemma_count_alive_nonneg(s, n - 1);
    }
}

/// `count_alive_upto` reads only the liveness of the first `n` nodes.
pub proof fn lemma_count_alive_stable(s1: Seq<Node>, s2: Seq<Node>, n: int)
    requires
        forall|j: int| 0 <= j < n ==> s1[j].is_alive == s2[j].is_alive,
    ensures
        count_alive_upto(s1, n) == count_alive_upto(s2, n),
    decreases n,
{
    if n > 0 {
        lemma_count_alive_stable(s1, s2, n - 1);
    }
}

proof fn lemma_count_upto_le(s: Seq<Node>, n: int)
    ensures
        count_alive_upto(s, n) <= if n <= 0 {
            0int
        } else {
            n
        },
    decreases n,
{
    if n > 0 {
        lemma_count_upto_le(s, n - 1);
    }
}

/// The alive count is between zero and the population size.
pub proof fn lemma_count_alive_le_len(s: Seq<Node>)
    ensures
        0 <= count_alive(s) <= s.len(),
{
    lemma_count_alive_nonneg(s, s.len() as int);
    lemma_count_upto_le(s, s.len() as int);
}

/// Marks every alive node whose energy is exhausted as dead, exactly
/// once, and keeps the shared alive counter in step with the population.
pub fn death_check(nodes: &mut Vec<Node>, alive_count: &mut usize)
    requires
        *old(alive_count) == count_alive(old(nodes)@),
    ensures
        death_rel(old(nodes)@, final(nodes)@),
        *final(alive_count) == count_alive(final(nodes)@),
{
    let n = nodes.len();
    let mut i: usize = 0;
    while i < n
        invariant
            nodes@.len() == n,
            n == old(nodes)@.len(),
            i <= n,
            *old(alive_count) == count_alive(old(nodes)@),
            *alive_count == *old(alive_count) + count_alive_upto(nodes@, i as int)
                - count_alive_upto(old(nodes)@, i as int),
            forall|k: int| i <= k < n ==> nodes@[k] == old(nodes)@[k],
            forall|k: int|
                0 <= k < i ==> {
                    let a = #[trigger] old(nodes)@[k];
                    let b = #[trigger] nodes@[k];
                    &&& same_node_basics(a, b)
                    &&& b.energy == a.energy
                    &&& b.is_cluster_head == a.is_cluster_head
                    &&& b.eligible == a.eligible
                    &&& b.cluster_head_id == a.cluster_head_id
                    &&& b.cluster_members@ == a.cluster_members@
                    &&& b.is_alive == (a.is_alive && a.energy > 0)
                },
        decreases n - i,
    {
        let ghost pre_loop = nodes@;
        if nodes[i].is_alive && nodes[i].energy == 0 {
            nodes[i].is_alive = false;
            proof {
                lemma_count_alive_nonneg(nodes@, i as int);
                lemma_count_alive_mono(old(nodes)@, i as int + 1, n as int);
                lemma_count_alive_stable(pre_loop, nodes@, i as int);
            }
            *alive_count = *alive_count - 1;
        }
        proof {
            lemma_count_alive_stable(pre_loop, nodes@, i as int);
        }
        i = i + 1;
    }
}

// ---------------------------------------------------------------------------
// The full round
// ---------------------------------------------------------------------------

/// Election under the configured policy.
pub open spec fn elect_rel(
    pre: Seq<Node>,
    post: Seq<Node>,
    cfg: Config,
    r: int,
    draws: Seq<int>,
) -> bool {
    match cfg.policy {
        crate::config::ElectionPolicy::Threshold => elect_threshold_rel(pre, post, cfg, r, draws),
        crate::config::ElectionPolicy::Fitness => crate::fitness::elect_fitness_rel(pre, post,
            cfg, draws),
    }
}

/// Everything `build` does to a freshly reset population in round `r`:
/// election, formation over the elected head set, dissipation and the
/// death check, chained through intermediate populations.
pub open spec fn build_rel(
    pre: Seq<Node>,
    post: Seq<Node>,
    cfg: Config,
    r: int,
    draws: Seq<int>,
) -> bool {
    exists|s1: Seq<Node>, s2: Seq<Node>, s3: Seq<Node>|
        #![trigger elect_rel(pre, s1, cfg, r, draws), dissipate_rel(s2, s3, cfg)]
        {
            &&& elect_rel(pre, s1, cfg, r, draws)
            &&& form_rel(s1, s2, spec_heads(s1))
            &&& dissipate_rel(s2, s3, cfg)
            &&& death_rel(s3, post)
        }
}

/// One complete round `r`: reset (with its boundary eligibility
/// restoration), then the `build` phases.
pub open spec fn round_rel(
    pre: Seq<Node>,
    post: Seq<Node>,
    cfg: Config,
    r: int,
    draws: Seq<int>,
) -> bool {
    exists|s0: Seq<Node>|
        {
            &&& reset_rel(pre, s0, r % (cfg.cycle_length as int) == 0)
            &&& #[trigger] build_rel(s0, post, cfg, r, draws)
        }
}

proof fn lemma_mul_nonneg(a: int, b: int)
    by (nonlinear_arith)
    requires
        0 <= a,
        0 <= b,
    ensures
        0 <= a * b,
{
}

proof fn lemma_dist_sq_nonneg(a: crate::config::Pos, b: crate::config::Pos)
    by (nonlinear_arith)
    ensures
        dist_sq(a, b) >= 0,
{
}

/// A round's radio cost is never negative.
pub proof fn lemma_round_cost_nonneg(s: Seq<Node>, cfg: Config, i: int)
    ensures
        spec_round_cost(s, cfg, i) >= 0,
{
    lemma_mul_nonneg(cfg.e_elec as int, cfg.packet_bits as int);
    lemma_mul_nonneg(cfg.e_da as int, cfg.packet_bits as int);
    lemma_mul_nonneg(s[i].cluster_members@.len() as int, spec_receive_cost(cfg)
        + spec_aggregation_cost(cfg));
    lemma_mul_nonneg(cfg.e_fs as int, cfg.packet_bits as int);
    lemma_mul_nonneg(cfg.e_mp as int, cfg.packet_bits as int);
    if s[i].is_cluster_head {
        let d = s[i].dist_sq_to_sink as int;
        lemma_mul_nonneg(cfg.e_fs * cfg.packet_bits, d);
        lemma_mul_nonneg(d, d);
        lemma_mul_nonneg(cfg.e_mp * cfg.packet_bits, d * d);
    } else {
        match s[i].cluster_head_id {
            Some(h) => {
                lemma_dist_sq_nonneg(s[i].position, s[h as int].position);
                let d = dist_sq(s[i].position, s[h as int].position);
                lemma_mul_nonneg(cfg.e_fs * cfg.packet_bits, d);
                lemma_mul_nonneg(d, d);
                lemma_mul_nonneg(cfg.e_mp * cfg.packet_bits, d * d);
            },
            None => {},
        }
    }
}

/// Executes the phases of one LEACH round on a freshly reset population:
/// head election under the configured policy, cluster formation, energy
/// dissipation, and the death check. The random draws are existentially
/// quantified, so every stated consequence holds for every outcome of the
/// generator. Death is permanent and energy never increases.
pub fn build(
    nodes: &mut Vec<Node>,
    round: u64,
    alive_count: &mut usize,
    cfg: &Config,
    rng: &mut rand::rngs::StdRng,
)
    requires
        cfg.wf(),
        pop_wf(old(nodes)@, *cfg),
        forall|i: int| 0 <= i < old(nodes)@.len() ==> !(#[trigger] old(nodes)@[i]).is_cluster_head,
        *old(alive_count) == count_alive(old(nodes)@),
    ensures
        final(nodes)@.len() == old(nodes)@.len(),
        pop_wf(final(nodes)@, *cfg),
        exists|draws: Seq<int>| build_rel(old(nodes)@, final(nodes)@, *cfg, round as int, draws),
        *final(alive_count) == count_alive(final(nodes)@),
        forall|i: int|
            0 <= i < old(nodes)@.len() ==> (!(#[trigger] old(nodes)@[i]).is_alive ==> !final(
            nodes)@[i].is_alive),
        forall|i: int|
            0 <= i < old(nodes)@.len() ==> final(nodes)@[i].energy <= (#[trigger] old(
            nodes)@[i]).energy,
{
    let ghost n = old(nodes)@.len() as int;
    let heads = match cfg.policy {
        crate::config::ElectionPolicy::Threshold => select_cluster_heads(nodes, round, cfg, rng),
        crate::config::ElectionPolicy::Fitness => {
            let ac: usize = *alive_count;
            crate::fitness::select_cluster_heads_fitness(nodes, cfg, ac, rng)
        },
    };
    let ghost s1 = nodes@;
    let ghost draws: Seq<int> = if cfg.policy == crate::config::ElectionPolicy::Threshold {
        choose|d: Seq<int>| elect_threshold_rel(old(nodes)@, s1, *cfg, round as int, d)
    } else {
        choose|d: Seq<int>| crate::fitness::elect_fitness_rel(old(nodes)@, s1, *cfg, d)
    };
    proof {
        assert(elect_rel(old(nodes)@, s1, *cfg, round as int, draws));
        assert forall|i: int|
            0 <= i < n implies node_wf(#[trigger] s1[i], *cfg, n) && s1[i].id == i && s1[
            i].position.x < crate::config::COORD_LIMIT && s1[i].position.y
            < crate::config::COORD_LIMIT by {
            assert(node_wf(old(nodes)@[i], *cfg, n));
        }
        lemma_heads_upto_char(s1, n);
    }
    form_clusters(nodes, &heads);
    let ghost s2 = nodes@;
    proof {
        assert(form_rel(s1, s2, spec_heads(s1)));
        assert forall|i: int|
            0 <= i < n implies node_wf(#[trigger] s2[i], *cfg, n) && s2[i].id == i by {
            assert(node_wf(s1[i], *cfg, n));
            if s1[i].is_alive && !s1[i].is_cluster_head {
                lemma_nearest_in_heads(s1, heads@, i);
                match nearest_head(s1, heads@, i) {
                    Some(h) => {
                        let t = choose|t: int| 0 <= t < heads@.len() && heads@[t] == h;
                        assert(heads@[t] < n);
                    },
                    None => {},
                }
            }
        }
        assert(pop_wf(s2, *cfg));
    }
    dissipate_energy(nodes, cfg);
    let ghost s3 = nodes@;
    proof {
        assert(dissipate_rel(s2, s3, *cfg));
        assert forall|j: int| 0 <= j < n implies old(nodes)@[j].is_alive == #[trigger] s3[
        j].is_alive by {
            assert(s1[j].is_alive == old(nodes)@[j].is_alive);
            assert(s2[j].is_alive == s1[j].is_alive);
            assert(s3[j].is_alive == s2[j].is_alive);
        }
        lemma_count_alive_stable(old(nodes)@, s3, n);
    }
    death_check(nodes, alive_count);
    proof {
        assert(death_rel(s3, nodes@));
        assert(build_rel(old(nodes)@, nodes@, *cfg, round as int, draws));
        assert forall|i: int|
            0 <= i < n implies node_wf(#[trigger] nodes@[i], *cfg, n) && nodes@[i].id == i by {
            assert(node_wf(s2[i], *cfg, n));
            assert(node_wf(s3[i], *cfg, n)) by {
                assert(same_node_basics(s2[i], s3[i]));
                assert(s3[i].cluster_head_id == s2[i].cluster_head_id);
            }
        }
        assert forall|i: int|
            0 <= i < n implies (!(#[trigger] old(nodes)@[i]).is_alive ==> !nodes@[i].is_alive)
            && nodes@[i].energy <= old(nodes)@[i].energy by {
            assert(s1[i].energy == old(nodes)@[i].energy);
            assert(s2[i].energy == s1[i].energy);
            lemma_round_cost_nonneg(s2, *cfg, i);
            assert(s3[i].is_alive == old(nodes)@[i].is_alive);
            assert(nodes@[i].energy == s3[i].energy);
        }
    }
}

// ---------------------------------------------------------------------------
// Round laws
// ---------------------------------------------------------------------------

/// One round never changes the population size.
pub proof fn lemma_round_len(pre: Seq<Node>, post: Seq<Node>, cfg: Config, r: int, draws: Seq<
    int,
>)
    requires
        round_rel(pre, post, cfg, r, draws),
    ensures
        post.len() == pre.len(),
{
    let boundary = r % (cfg.cycle_length as int) == 0;
    let s0 = choose|s0: Seq<Node>|
        {
            &&& reset_rel(pre, s0, boundary)
            &&& #[trigger] build_rel(s0, post, cfg, r, draws)
        };
    let (s1, s2, s3): (Seq<Node>, Seq<Node>, Seq<Node>) = choose|s1: Seq<Node>, s2: Seq<
        Node,
    >, s3: Seq<Node>|
        #![trigger elect_rel(s0, s1, cfg, r, draws), dissipate_rel(s2, s3, cfg)]
        {
            &&& elect_rel(s0, s1, cfg, r, draws)
            &&& form_rel(s1, s2, spec_heads(s1))
            &&& dissipate_rel(s2, s3, cfg)
            &&& death_rel(s3, post)
        };
    assert(elect_rel(s0, s1, cfg, r, draws));
    match cfg.policy {
        crate::config::ElectionPolicy::Threshold => {},
        crate::config::ElectionPolicy::Fitness => {},
    }
}

/// The per-node consequences of one full round `r`, for every possible
/// draw: death is permanent, energy never increases, a freshly elected
/// head has lost its eligibility, eligibility only ever appears at a
/// cycle boundary, and an ineligible node stays ineligible (and out of
/// the head set) through a non-boundary round.
pub proof fn lemma_round_facts(
    pre: Seq<Node>,
    post: Seq<Node>,
    cfg: Config,
    r: int,
    draws: Seq<int>,
    i: int,
)
    requires
        cfg.wf(),
        round_rel(pre, post, cfg, r, draws),
        0 <= i < pre.len(),
    ensures
        post.len() == pre.len(),
        !pre[i].is_alive ==> !post[i].is_alive,
        post[i].energy <= pre[i].energy,
        post[i].is_cluster_head ==> !post[i].eligible,
        post[i].eligible ==> (pre[i].eligible || r % (cfg.cycle_length as int) == 0),
        (!pre[i].eligible && r % (cfg.cycle_length as int) != 0) ==> (!post[i].eligible && !post[
        i].is_cluster_head),
{
    let boundary = r % (cfg.cycle_length as int) == 0;
    let s0 = choose|s0: Seq<Node>|
        {
            &&& reset_rel(pre, s0, boundary)
            &&& #[trigger] build_rel(s0, post, cfg, r, draws)
        };
    let (s1, s2, s3): (Seq<Node>, Seq<Node>, Seq<Node>) = choose|s1: Seq<Node>, s2: Seq<
        Node,
    >, s3: Seq<Node>|
        #![trigger elect_rel(s0, s1, cfg, r, draws), dissipate_rel(s2, s3, cfg)]
        {
            &&& elect_rel(s0, s1, cfg, r, draws)
            &&& form_rel(s1, s2, spec_heads(s1))
            &&& dissipate_rel(s2, s3, cfg)
            &&& death_rel(s3, post)
        };
    assert(reset_rel(pre, s0, boundary));
    assert(elect_rel(s0, s1, cfg, r, draws));
    // naming node i in every intermediate population instantiates each
    // phase relation's per-node clause
    let a0 = pre[i];
    let b0 = s0[i];
    let b1 = s1[i];
    let b2 = s2[i];
    let b3 = s3[i];
    let b4 = post[i];
    lemma_round_cost_nonneg(s2, cfg, i);
    match cfg.policy {
        crate::config::ElectionPolicy::Threshold => {},
        crate::config::ElectionPolicy::Fitness => {
            crate::fitness::lemma_top_k_candidates(crate::fitness::spec_scores(s0, cfg, draws),
                crate::fitness::spec_head_quota(cfg, count_alive(s0)));
        },
    }
}

/// A run: `states[0]` is the population before the first round, and
/// `states[j+1]` is `states[j]` after round `r0 + j + 1` with the draws
/// `draw_mat[j]`.
pub open spec fn run_rel(
    states: Seq<Seq<Node>>,
    cfg: Config,
    r0: int,
    draw_mat: Seq<Seq<int>>,
) -> bool {
    &&& states.len() == draw_mat.len() + 1
    &&& forall|j: int|
        0 <= j < draw_mat.len() ==> round_rel(states[j], states[j + 1], cfg, r0 + j + 1,
            #[trigger] draw_mat[j])
}

/// Along a run every state keeps the initial population size.
pub proof fn lemma_run_same_len(
    states: Seq<Seq<Node>>,
    cfg: Config,
    r0: int,
    draw_mat: Seq<Seq<int>>,
    j: int,
)
    requires
        cfg.wf(),
        run_rel(states, cfg, r0, draw_mat),
        0 <= j < states.len(),
    ensures
        states[j].len() == states[0].len(),
    decreases j,
{
    if j > 0 {
        lemma_run_same_len(states, cfg, r0, draw_mat, j - 1);
        lemma_round_len(states[j - 1], states[j], cfg, r0 + j, draw_mat[j - 1]);
    }
}

/// Death is permanent: a node dead at one point of a run is dead at every
/// later point, whatever the draws.
pub proof fn lemma_death_permanent(
    states: Seq<Seq<Node>>,
    cfg: Config,
    r0: int,
    draw_mat: Seq<Seq<int>>,
    i: int,
    j1: int,
    j2: int,
)
    requires
        cfg.wf(),
        run_rel(states, cfg, r0, draw_mat),
        0 <= j1 <= j2 < states.len(),
        0 <= i < states[0].len(),
        !states[j1][i].is_alive,
    ensures
        !states[j2][i].is_alive,
    decreases j2 - j1,
{
    if j1 < j2 {
        lemma_run_same_len(states, cfg, r0, draw_mat, j1);
        lemma_round_facts(states[j1], states[j1 + 1], cfg, r0 + j1 + 1, draw_mat[j1], i);
        lemma_death_permanent(states, cfg, r0, draw_mat, i, j1 + 1, j2);
    }
}

proof fn lemma_no_boundary_between(a: int, b: int, c: int, x: int)
    by (nonlinear_arith)
    requires
        0 < c,
        0 <= a < x <= b,
        a / c == b / c,
    ensures
        x % c != 0,
{
}

proof fn lemma_ineligible_stays(
    states: Seq<Seq<Node>>,
    cfg: Config,
    r0: int,
    draw_mat: Seq<Seq<int>>,
    i: int,
    j1: int,
    j2: int,
)
    requires
        cfg.wf(),
        run_rel(states, cfg, r0, draw_mat),
        0 <= j1 <= j2 < states.len(),
        0 <= i < states[0].len(),
        !states[j1][i].eligible,
        forall|j: int| j1 < j <= j2 ==> #[trigger] ((r0 + j) % (cfg.cycle_length as int)) != 0,
    ensures
        !states[j2][i].eligible,
        j1 < j2 ==> !states[j2][i].is_cluster_head,
    decreases j2 - j1,
{
    if j1 < j2 {
        lemma_run_same_len(states, cfg, r0, draw_mat, j1);
        assert((r0 + (j1 + 1)) % (cfg.cycle_length as int) != 0);
        lemma_round_facts(states[j1], states[j1 + 1], cfg, r0 + j1 + 1, draw_mat[j1], i);
        assert(!states[j1 + 1][i].eligible);
        assert(!states[j1 + 1][i].is_cluster_head);
        lemma_ineligible_stays(states, cfg, r0, draw_mat, i, j1 + 1, j2);
        if j1 + 1 == j2 {
            assert(!states[j2][i].is_cluster_head);
        }
    }
}

/// Rotation fairness: within one cycle no node is elected head twice.
/// If a node stands in the head set after round `r0 + j1`, and round
/// `r0 + j2` belongs to the same cycle (the rounds from one boundary
/// reset to the next share the quotient `round / CycleLength`), it cannot
/// stand in the head set after round `r0 + j2` again, whatever the draws.
/// Across a boundary this can fail: a node elected in the last round of a
/// cycle is eligible again once the boundary reset has run.
pub proof fn lemma_once_per_cycle(
    states: Seq<Seq<Node>>,
    cfg: Config,
    r0: int,
    draw_mat: Seq<Seq<int>>,
    i: int,
    j1: int,
    j2: int,
)
    requires
        cfg.wf(),
        run_rel(states, cfg, r0, draw_mat),
        r0 >= 0,
        1 <= j1 < j2 < states.len(),
        (r0 + j1) / (cfg.cycle_length as int) == (r0 + j2) / (cfg.cycle_length as int),
        0 <= i < states[0].len(),
        states[j1][i].is_cluster_head,
    ensures
        !states[j2][i].is_cluster_head,
{
    let c = cfg.cycle_length as int;
    lemma_run_same_len(states, cfg, r0, draw_mat, j1 - 1);
    lemma_round_facts(states[j1 - 1], states[j1], cfg, r0 + j1, draw_mat[j1 - 1], i);
    assert(!states[j1][i].eligible);
    assert forall|j: int| j1 < j <= j2 implies #[trigger] ((r0 + j) % c) != 0 by {
        lemma_no_boundary_between(r0 + j1, r0 + j2, c, r0 + j);
    }
    lemma_ineligible_stays(states, cfg, r0, draw_mat, i, j1, j2);
}

} // verus!
