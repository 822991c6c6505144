use vstd::prelude::*;

use crate::config::{Config, DRAW_SCALE};
use crate::leach::{same_node_basics, spec_heads};
use crate::node::Node;

verus! {

// ---------------------------------------------------------------------------
// Fitness-score election
//
// Instead of independent threshold draws, every eligible alive node gets
// a weighted score built from normalised quantities, and the top
// `ceil(P * aliveCount)` scorers become this round's heads. All
// normalised quantities live on the scale `[0, NORM_SCALE]`; the weights
// are fixed and sum to `WEIGHT_SUM`, so a score never exceeds
// `WEIGHT_SUM * NORM_SCALE`. Higher residual energy, proximity to the
// sink, neighbour density and transmission range all raise the score; a
// small random "freedom" term breaks the symmetry. Ties in the final
// ranking go to the lower node id.
// ---------------------------------------------------------------------------

/// Resolution of the normalised score components.
pub const NORM_SCALE: u64 = 1000;

/// Weight of the normalised residual energy.
pub const W_ENERGY: u64 = 40;

/// Weight of the normalised proximity to the sink.
pub const W_DIST: u64 = 20;

/// Weight of the normalised neighbour density.
pub const W_NEIGH: u64 = 15;

/// Weight of the normalised transmission range.
pub const W_RANGE: u64 = 15;

/// Weight of the random freedom term.
pub const W_FREE: u64 = 10;

/// The weights sum to this; scores live in `[0, WEIGHT_SUM * NORM_SCALE]`.
pub const WEIGHT_SUM: u64 = 100;

/// `min` for spec-level integers.
pub open spec fn spec_min(a: int, b: int) -> int {
    if a < b {
        a
    } else {
        b
    }
}

/// Squared diagonal of the deployment area, the normaliser for sink
/// distances.
pub open spec fn spec_diag_sq(cfg: Config) -> int {
    cfg.width * cfg.width + cfg.height * cfg.height
}

/// Normalised residual energy: `energy / initial_energy` on the norm scale.
pub open spec fn spec_energy_norm(cfg: Config, e: int) -> int {
    spec_min(NORM_SCALE as int, e * NORM_SCALE / cfg.initial_energy as int)
}

/// Normalised proximity to the sink: full scale at the sink, zero at the
/// far corner. Nodes closer to the sink score higher, since forwarding
/// from them is cheapest.
pub open spec fn spec_proximity_norm(cfg: Config, dsq: int) -> int {
    NORM_SCALE - spec_min(NORM_SCALE as int, dsq * NORM_SCALE / spec_diag_sq(cfg))
}

/// How many of the first `n` listed ids name an alive node.
pub open spec fn alive_listed_upto(s: Seq<Node>, nb: Seq<usize>, n: int) -> int
    decreases n,
{
    if n <= 0 {
        0
    } else {
        alive_listed_upto(s, nb, n - 1) + if nb[n - 1] < s.len() && s[
            nb[n - 1] as int].is_alive {
            1int
        } else {
            0int
        }
    }
}

/// How many of a node's recorded neighbours are still alive; dead
/// neighbours no longer count towards the local density.
pub open spec fn alive_neighbour_count(s: Seq<Node>, nb: Seq<usize>) -> int {
    alive_listed_upto(s, nb, nb.len() as int)
}

/// Normalised neighbour density: alive neighbour count over population
/// size.
pub open spec fn spec_neigh_norm(nc: int, pop: int) -> int {
    if pop > 0 {
        spec_min(NORM_SCALE as int, nc * NORM_SCALE / pop)
    } else {
        0
    }
}

/// Normalised transmission range, against the configured bound.
pub open spec fn spec_range_norm(cfg: Config, tr: int) -> int {
    spec_min(NORM_SCALE as int, tr * NORM_SCALE / cfg.tr_limit as int)
}

/// The random freedom term a draw stands for, on the norm scale.
pub open spec fn spec_freedom(u: int) -> int {
    u % (NORM_SCALE + 1)
}

/// The fitness score of node `i` given its freedom draw `u`.
pub open spec fn spec_score(s: Seq<Node>, cfg: Config, i: int, u: int) -> int {
    W_ENERGY * spec_energy_norm(cfg, s[i].energy as int) + W_DIST * spec_proximity_norm(cfg,
        s[i].dist_sq_to_sink as int) + W_NEIGH * spec_neigh_norm(alive_neighbour_count(s,
        s[i].neighbours@), s.len() as int) + W_RANGE * spec_range_norm(cfg,
        s[i].transmission_range as int) + W_FREE * spec_freedom(u)
}

/// The score table of a population: a score for every candidate (alive
/// and eligible), nothing for the rest.
pub open spec fn spec_scores(s: Seq<Node>, cfg: Config, draws: Seq<int>) -> Seq<Option<int>> {
    Seq::new(s.len(), |i: int|
        if s[i].is_alive && s[i].eligible {
            Some(spec_score(s, cfg, i, draws[i]))
        } else {
            None
        })
}

/// The index of the best score among the first `n` entries, earliest on
/// ties; `None` when no entry is scored.
pub open spec fn argmax_upto(scores: Seq<Option<int>>, n: int) -> Option<int>
    decreases n,
{
    if n <= 0 {
        None
    } else {
        let prev = argmax_upto(scores, n - 1);
        match scores[n - 1] {
            None => prev,
            Some(v) => match prev {
                None => Some(n - 1),
                Some(p) => match scores[p] {
                    Some(pv) => if v > pv {
                        Some(n - 1)
                    } else {
                        Some(p)
                    },
                    None => Some(n - 1),
                },
            },
        }
    }
}

/// The index of the best score, earliest on ties.
pub open spec fn spec_argmax(scores: Seq<Option<int>>) -> Option<int> {
    argmax_upto(scores, scores.len() as int)
}

/// The indices of the `k` best scores, chosen greedily: repeatedly take
/// the earliest maximum and retire its entry.
pub open spec fn spec_top_k(scores: Seq<Option<int>>, k: int) -> Set<int>
    decreases k,
{
    if k <= 0 {
        Set::empty()
    } else {
        match spec_argmax(scores) {
            None => Set::empty(),
            Some(m) => spec_top_k(scores.update(m, None), k - 1).insert(m),
        }
    }
}

/// The head quota of the fitness election: `ceil(P * aliveCount)`.
pub open spec fn spec_head_quota(cfg: Config, alive: int) -> int {
    (cfg.p_num * alive + cfg.p_den - 1) / cfg.p_den as int
}

/// The fitness election: the `ceil(P * aliveCount)` best-scoring
/// candidates (alive and eligible) become heads and lose their
/// eligibility; every other node, and every other field, is untouched.
pub open spec fn elect_fitness_rel(
    pre: Seq<Node>,
    post: Seq<Node>,
    cfg: Config,
    draws: Seq<int>,
) -> bool {
    let sel = spec_top_k(spec_scores(pre, cfg, draws), spec_head_quota(cfg,
        crate::leach::count_alive(pre)));
    &&& post.len() == pre.len()
    &&& draws.len() == pre.len()
    &&& forall|i: int| 0 <= i < pre.len() ==> 0 <= #[trigger] draws[i] < DRAW_SCALE
    &&& forall|i: int|
        0 <= i < pre.len() ==> {
            let a = #[trigger] pre[i];
            let b = #[trigger] post[i];
            &&& same_node_basics(a, b)
            &&& b.energy == a.energy
            &&& b.is_alive == a.is_alive
            &&& b.cluster_head_id == a.cluster_head_id
            &&& b.cluster_members@ == a.cluster_members@
            &&& if sel.contains(i) {
                b.is_cluster_head && !b.eligible
            } else {
                b.is_cluster_head == a.is_cluster_head && b.eligible == a.eligible
            }
        }
}

/// An argmax result always points at a scored entry.
proof fn lemma_argmax_is_candidate(scores: Seq<Option<int>>, n: int)
    requires
        n <= scores.len(),
    ensures
        match argmax_upto(scores, n) {
            Some(m) => 0 <= m < n && scores[m] is Some,
            None => true,
        },
    decreases n,
{
    if n > 0 {
        lemma_argmax_is_candidate(scores, n - 1);
    }
}

/// Every selected index points at a scored entry of the starting table.
pub proof fn lemma_top_k_candidates(scores: Seq<Option<int>>, k: int)
    ensures
        forall|i: int|
            spec_top_k(scores, k).contains(i) ==> 0 <= i < scores.len() && scores[i] is Some,
    decreases k,
{
    if k > 0 {
        match spec_argmax(scores) {
            None => {},
            Some(m) => {
                lemma_argmax_is_candidate(scores, scores.len() as int);
                let sub = scores.update(m, None);
                lemma_top_k_candidates(sub, k - 1);
                assert forall|i: int|
                    spec_top_k(scores, k).contains(i) implies 0 <= i < scores.len() && scores[i]
                    is Some by {
                    if i != m {
                        assert(spec_top_k(sub, k - 1).contains(i));
                        assert(sub[i] == scores[i]);
                    }
                }
            },
        }
    }
}

/// The integer view of an executable score table.
pub open spec fn scores_view(v: Seq<Option<u64>>) -> Seq<Option<int>> {
    Seq::new(v.len(), |i: int|
        match v[i] {
            Some(x) => Some(x as int),
            None => None,
        })
}

proof fn lemma_coord_sq(a: int)
    by (nonlinear_arith)
    requires
        0 <= a <= 1_000_000,
    ensures
        0 <= a * a <= 1_000_000_000_000,
        a >= 1 ==> a * a >= 1,
{
}

proof fn lemma_div_le(n: int, d: int)
    by (nonlinear_arith)
    requires
        n >= 0,
        d >= 1,
    ensures
        0 <= n / d <= n,
{
}

proof fn lemma_quota_le_alive(p: int, q: int, a: int)
    by (nonlinear_arith)
    requires
        1 <= p <= q,
        0 <= a,
    ensures
        0 <= (p * a + q - 1) / q <= a,
{
}

proof fn lemma_quota_product(p: int, a: int)
    by (nonlinear_arith)
    requires
        0 <= p < 1_000_000,
        0 <= a <= 1_000_000,
    ensures
        0 <= p * a <= 1_000_000_000_000,
{
}

/// Computes the fitness score of node `i` from its normalised residual
/// energy, proximity to the sink, neighbour density, transmission range
/// and the freedom draw `u`.
fn score_node(nodes: &Vec<Node>, i: usize, cfg: &Config, u: u64) -> (sc: u64)
    requires
        cfg.wf(),
        i < nodes@.len(),
    ensures
        sc == spec_score(nodes@, *cfg, i as int, u as int),
        sc <= 100_000,
{
    let n = nodes.len();
    proof {
        lemma_coord_sq(cfg.width as int);
        lemma_coord_sq(cfg.height as int);
    }
    let diag = cfg.width * cfg.width + cfg.height * cfg.height;

    proof {
        assert(NORM_SCALE == 1000);
        assert(W_ENERGY == 40 && W_DIST == 20 && W_NEIGH == 15 && W_RANGE == 15 && W_FREE == 10);
    }
    let ev = ((nodes[i].energy as u128) * 1000) / (cfg.initial_energy as u128);
    let en: u64 = if ev > 1000 {
        1000
    } else {
        ev as u64
    };

    let dv = ((nodes[i].dist_sq_to_sink as u128) * 1000) / (diag as u128);
    let dcap: u64 = if dv > 1000 {
        1000
    } else {
        dv as u64
    };
    let pn: u64 = 1000 - dcap;

    let nblen = nodes[i].neighbours.len();
    let mut nc: u64 = 0;
    let mut t: usize = 0;
    while t < nblen
        invariant
            i < nodes@.len(),
            n == nodes@.len(),
            nblen == nodes@[i as int].neighbours@.len(),
            t <= nblen,
            nc == alive_listed_upto(nodes@, nodes@[i as int].neighbours@, t as int),
            nc <= t,
        decreases nblen - t,
    {
        let nid = nodes[i].neighbours[t];
        if nid < n && nodes[nid].is_alive {
            nc = nc + 1;
        }
        t = t + 1;
    }
    let nv = ((nc as u128) * 1000) / (n as u128);
    let nn: u64 = if nv > 1000 {
        1000
    } else {
        nv as u64
    };

    let rv = ((nodes[i].transmission_range as u128) * 1000) / (cfg.tr_limit as u128);
    let rn: u64 = if rv > 1000 {
        1000
    } else {
        rv as u64
    };

    let f = u % 1001;

    40 * en + 20 * pn + 15 * nn + 15 * rn + 10 * f
}

/// Selects this round's heads by fitness score: every candidate draws a
/// freedom term, and the `ceil(P * aliveCount)` best scorers (ties to the
/// lower id) become heads and lose their eligibility. Returns the head
/// list in ascending index order. The freedom draws are existentially
/// quantified: everything proved downstream holds for every outcome.
pub fn select_cluster_heads_fitness(
    nodes: &mut Vec<Node>,
    cfg: &Config,
    alive_count: usize,
    rng: &mut rand::rngs::StdRng,
) -> (heads: Vec<usize>)
    requires
        cfg.wf(),
        old(nodes)@.len() <= crate::config::POP_LIMIT,
        forall|i: int| 0 <= i < old(nodes)@.len() ==> !(#[trigger] old(nodes)@[i]).is_cluster_head,
        alive_count == crate::leach::count_alive(old(nodes)@),
    ensures
        exists|draws: Seq<int>| elect_fitness_rel(old(nodes)@, final(nodes)@, *cfg, draws),
        heads@ == spec_heads(final(nodes)@),
{
    let n = nodes.len();

    // Score every candidate; draw one freedom term each.
    let mut scores: Vec<Option<u64>> = Vec::new();
    let ghost mut draws: Seq<int> = Seq::empty();
    let mut i: usize = 0;
    while i < n
        invariant
            cfg.wf(),
            nodes@.len() == n,
            nodes@ == old(nodes)@,
            i <= n,
            scores@.len() == i,
            draws.len() == i,
            forall|j: int| 0 <= j < i ==> 0 <= #[trigger] draws[j] < DRAW_SCALE,
            forall|j: int|
                0 <= j < i ==> #[trigger] scores_view(scores@)[j] == (
                if nodes@[j].is_alive && nodes@[j].eligible {
                    Some(spec_score(nodes@, *cfg, j, draws[j]))
                } else {
                    None
                }),
        decreases n - i,
    {
        let ghost prev_scores = scores@;
        let ghost prev_draws = draws;
        if nodes[i].is_alive && nodes[i].eligible {
            let u = crate::rng::draw_u32(rng) as u64;
            proof {
                draws = draws.push(u as int);
            }
            let sc = score_node(nodes, i, cfg, u);
            scores.push(Some(sc));
        } else {
            proof {
                draws = draws.push(0);
            }
            scores.push(None);
        }
        proof {
            assert forall|j: int|
                0 <= j < i + 1 implies #[trigger] scores_view(scores@)[j] == (
            if nodes@[j].is_alive && nodes@[j].eligible {
                Some(spec_score(nodes@, *cfg, j, draws[j]))
            } else {
                None
            }) by {
                if j < i {
                    assert(scores@[j] == prev_scores[j]);
                    assert(draws[j] == prev_draws[j]);
                    assert(scores_view(prev_scores)[j] == scores_view(scores@)[j]);
                }
            }
        }
        i = i + 1;
    }
    proof {
        assert(scores_view(scores@) =~= spec_scores(nodes@, *cfg, draws));
    }
    let ghost orig = nodes@;
    let ghost orig_scores = scores_view(scores@);

    // The head quota, ceil(P * aliveCount).
    proof {
        crate::leach::lemma_count_alive_le_len(nodes@);
        lemma_quota_product(cfg.p_num as int, alive_count as int);
    }
    let num = (cfg.p_num as u128) * (alive_count as u128) + ((cfg.p_den - 1) as u128);
    let kq = num / (cfg.p_den as u128);
    proof {
        lemma_div_le(num as int, cfg.p_den as int);
    }
    proof {
        lemma_quota_le_alive(cfg.p_num as int, cfg.p_den as int, alive_count as int);
    }
    let k = kq as usize;
    proof {
        assert(k as int == spec_head_quota(*cfg, crate::leach::count_alive(orig)));
    }

    // Greedy selection: repeatedly take the earliest maximum.
    let ghost mut sel: Set<int> = Set::empty();
    let mut done = false;
    let mut t: usize = 0;
    while t < k && !done
        invariant
            nodes@.len() == n,
            scores@.len() == n,
            orig.len() == n,
            t <= k,
            forall|j: int| 0 <= j < n ==> !(#[trigger] orig[j]).is_cluster_head,
            spec_top_k(orig_scores, k as int) == sel.union(spec_top_k(scores_view(scores@), k
                - t)),
            forall|j: int|
                0 <= j < n ==> #[trigger] scores_view(scores@)[j] == (if sel.contains(j) {
                    None
                } else {
                    orig_scores[j]
                }),
            forall|j: int| sel.contains(j) ==> 0 <= j < n,
            done ==> spec_argmax(scores_view(scores@)) is None,
            forall|j: int|
                0 <= j < n ==> {
                    let a = #[trigger] orig[j];
                    let b = #[trigger] nodes@[j];
                    &&& same_node_basics(a, b)
                    &&& b.energy == a.energy
                    &&& b.is_alive == a.is_alive
                    &&& b.cluster_head_id == a.cluster_head_id
                    &&& b.cluster_members@ == a.cluster_members@
                    &&& if sel.contains(j) {
                        b.is_cluster_head && !b.eligible
                    } else {
                        b.is_cluster_head == a.is_cluster_head && b.eligible == a.eligible
                    }
                },
        decreases k - t,
    {
        let ghost cur = scores_view(scores@);
        let mut best: Option<usize> = None;
        let mut best_v: u64 = 0;
        let mut t2: usize = 0;
        while t2 < n
            invariant
                scores@.len() == n,
                cur == scores_view(scores@),
                t2 <= n,
                match argmax_upto(cur, t2 as int) {
                    None => best is None,
                    Some(p) => best == Some(p as usize) && 0 <= p < n && cur[p] == Some(
                    best_v as int),
                },
            decreases n - t2,
        {
            if let Some(v) = scores[t2] {
                let better = match best {
                    None => true,
                    Some(_) => v > best_v,
                };
                if better {
                    best = Some(t2);
                    best_v = v;
                }
            }
            t2 = t2 + 1;
        }
        match best {
            None => {
                done = true;
            },
            Some(m) => {
                proof {
                    lemma_argmax_is_candidate(cur, n as int);
                }
                scores[m] = None;
                nodes[m].is_cluster_head = true;
                nodes[m].eligible = false;
                proof {
                    assert(scores_view(scores@) =~= cur.update(m as int, None));
                    assert(spec_top_k(cur, k - t) == spec_top_k(cur.update(m as int, None), k - t
                        - 1).insert(m as int));
                    sel = sel.insert(m as int);
                    assert(spec_top_k(orig_scores, k as int) =~= sel.union(spec_top_k(
                        scores_view(scores@), k - t - 1)));
                }
            },
        }
        t = t + 1;
    }
    proof {
        if done {
            assert(spec_top_k(scores_view(scores@), k - t) =~= Set::<int>::empty());
        } else {
            assert(t == k);
            assert(spec_top_k(scores_view(scores@), 0) =~= Set::<int>::empty());
        }
        assert(sel.union(Set::<int>::empty()) =~= sel);
        assert(spec_top_k(orig_scores, k as int) =~= sel);
        assert(elect_fitness_rel(old(nodes)@, nodes@, *cfg, draws));
    }
    crate::leach::collect_heads(nodes)
}

} // verus!
