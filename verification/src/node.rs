use vstd::prelude::*;

use crate::config::{dist_sq, dist_sq_exec, Config, Pos, COORD_LIMIT, POP_LIMIT};
use crate::rng::rand_below;

verus! {

/// One stationary sensor. Created once; afterwards mutated only by the
/// round engine (and, for the partitioner and tests, read). Dead nodes
/// stay in the population for reporting.
#[derive(Clone, Debug)]
pub struct Node {
    /// Stable index of this node in the population.
    pub id: usize,
    /// Position in the deployment area; immutable after creation.
    pub position: Pos,
    /// Remaining energy in energy units; non-increasing while alive.
    pub energy: u64,
    /// Latches from `true` to `false` when the energy is exhausted.
    pub is_alive: bool,
    /// Whether this node heads a cluster in the current round.
    pub is_cluster_head: bool,
    /// Rotation gate: cleared on election, restored only at cycle
    /// boundaries.
    pub eligible: bool,
    /// The head this node reports to this round; `None` for heads and
    /// unassigned nodes.
    pub cluster_head_id: Option<usize>,
    /// Ids reporting to this node this round; meaningful only for heads.
    pub cluster_members: Vec<usize>,
    /// Squared Euclidean distance to the sink, precomputed at creation.
    /// Only even powers of distances enter any formula, so the square is
    /// all that is ever needed.
    pub dist_sq_to_sink: u64,
    /// Radio range used by the fitness-score election.
    pub transmission_range: u64,
    /// Ids within transmission range, used by the fitness-score election.
    pub neighbours: Vec<usize>,
}

/// Per-node well-formedness relative to a configuration: the position lies
/// in the area, the stored sink distance is honest, a recorded head id is
/// a valid index, and the transmission range respects the configured bound.
pub open spec fn node_wf(n: Node, cfg: Config, pop: int) -> bool {
    &&& n.position.x < cfg.width
    &&& n.position.y < cfg.height
    &&& n.dist_sq_to_sink == dist_sq(n.position, cfg.sink)
    &&& match n.cluster_head_id {
        Some(h) => h < pop,
        None => true,
    }
    &&& 1 <= n.transmission_range <= cfg.tr_limit
}

/// Population well-formedness: a bounded count of well-formed nodes whose
/// ids are their indices.
pub open spec fn pop_wf(s: Seq<Node>, cfg: Config) -> bool {
    &&& s.len() <= POP_LIMIT
    &&& forall|i: int|
        0 <= i < s.len() ==> node_wf(#[trigger] s[i], cfg, s.len() as int) && s[i].id == i
}

impl Node {
    /// Creates a node at `position`: full energy, alive, eligible, not a
    /// head, with no cluster links and the sink distance precomputed.
    pub fn new(id: usize, position: Pos, transmission_range: u64, cfg: &Config) -> (n: Node)
        requires
            cfg.wf(),
            position.x < cfg.width,
            position.y < cfg.height,
            1 <= transmission_range <= cfg.tr_limit,
        ensures
            n.id == id,
            n.position == position,
            n.energy == cfg.initial_energy,
            n.is_alive,
            !n.is_cluster_head,
            n.eligible,
            n.cluster_head_id is None,
            n.cluster_members@ == Seq::<usize>::empty(),
            n.dist_sq_to_sink == dist_sq(position, cfg.sink),
            n.transmission_range == transmission_range,
            n.neighbours@ == Seq::<usize>::empty(),
    {
        let dist_sq_to_sink = dist_sq_exec(&position, &cfg.sink);
        Node {
            id,
            position,
            energy: cfg.initial_energy,
            is_alive: true,
            is_cluster_head: false,
            eligible: true,
            cluster_head_id: None,
            cluster_members: Vec::new(),
            dist_sq_to_sink,
            transmission_range,
            neighbours: Vec::new(),
        }
    }
}

/// Clears the cluster state left over from the previous round; every other
/// field keeps its value.
pub fn reset_node(node: &mut Node)
    ensures
        !final(node).is_cluster_head,
        final(node).cluster_head_id is None,
        final(node).cluster_members@ == Seq::<usize>::empty(),
        final(node).id == old(node).id,
        final(node).position == old(node).position,
        final(node).energy == old(node).energy,
        final(node).is_alive == old(node).is_alive,
        final(node).eligible == old(node).eligible,
        final(node).dist_sq_to_sink == old(node).dist_sq_to_sink,
        final(node).transmission_range == old(node).transmission_range,
        final(node).neighbours == old(node).neighbours,
{
    node.is_cluster_head = false;
    node.cluster_head_id = None;
    node.cluster_members.clear();
}

impl Node {
    /// Creates the node population: `count` nodes with uniformly random
    /// positions inside the area and uniformly random transmission ranges
    /// in `[1, tr_limit]`, each with full energy and empty cluster state.
    pub fn create_wsn(cfg: &Config, count: usize, rng: &mut rand::rngs::StdRng) -> (wsn: Vec<
        Node,
    >)
        requires
            cfg.wf(),
            count <= POP_LIMIT,
        ensures
            wsn@.len() == count,
            pop_wf(wsn@, *cfg),
            forall|i: int|
                0 <= i < count ==> {
                    let n = #[trigger] wsn@[i];
                    &&& n.energy == cfg.initial_energy
                    &&& n.is_alive
                    &&& !n.is_cluster_head
                    &&& n.eligible
                    &&& n.cluster_head_id is None
                    &&& n.cluster_members@ == Seq::<usize>::empty()
                    &&& n.neighbours@ == Seq::<usize>::empty()
                },
    {
        let mut wsn: Vec<Node> = Vec::new();
        let mut id: usize = 0;
        while id < count
            invariant
                cfg.wf(),
                count <= POP_LIMIT,
                id <= count,
                wsn@.len() == id,
                forall|i: int|
                    0 <= i < id ==> {
                        let n = #[trigger] wsn@[i];
                        &&& node_wf(n, *cfg, count as int)
                        &&& n.id == i
                        &&& n.energy == cfg.initial_energy
                        &&& n.is_alive
                        &&& !n.is_cluster_head
                        &&& n.eligible
                        &&& n.cluster_head_id is None
                        &&& n.cluster_members@ == Seq::<usize>::empty()
                        &&& n.neighbours@ == Seq::<usize>::empty()
                    },
            decreases count - id,
        {
            let x = rand_below(rng, cfg.width);
            let y = rand_below(rng, cfg.height);
            let tr = 1 + rand_below(rng, cfg.tr_limit);
            let node = Node::new(id, Pos { x, y }, tr, cfg);
            wsn.push(node);
            id = id + 1;
        }
        wsn
    }
}

/// The ids a node hears, in ascending order: every `j` other than `i`
/// whose squared distance to node `i` is at most the square of node `i`'s
/// transmission range, among the first `n` nodes.
pub open spec fn neighbours_upto(s: Seq<Node>, i: int, n: int) -> Seq<usize>
    decreases n,
{
    if n <= 0 {
        Seq::empty()
    } else {
        neighbours_upto(s, i, n - 1) + if n - 1 != i && dist_sq(s[i].position, s[n - 1].position)
            <= s[i].transmission_range * s[i].transmission_range {
            seq![(n - 1) as usize]
        } else {
            Seq::empty()
        }
    }
}

/// Fills every node's neighbour list: node `j` is a neighbour of node `i`
/// when `j != i` and the distance between them is at most node `i`'s
/// transmission range. Every other field keeps its value.
pub fn compute_neighbours(nodes: &mut Vec<Node>, cfg: &Config)
    requires
        cfg.wf(),
        pop_wf(old(nodes)@, *cfg),
    ensures
        final(nodes)@.len() == old(nodes)@.len(),
        pop_wf(final(nodes)@, *cfg),
        forall|i: int|
            0 <= i < old(nodes)@.len() ==> {
                let a = #[trigger] old(nodes)@[i];
                let b = final(nodes)@[i];
                &&& b.neighbours@ == neighbours_upto(old(nodes)@, i, old(nodes)@.len() as int)
                &&& b == (Node { neighbours: b.neighbours, ..a })
            },
{
    let n = nodes.len();
    let mut i: usize = 0;
    while i < n
        invariant
            cfg.wf(),
            nodes@.len() == n,
            n == old(nodes)@.len(),
            pop_wf(old(nodes)@, *cfg),
            i <= n,
            forall|k: int|
                i <= k < n ==> nodes@[k] == old(nodes)@[k],
            forall|k: int|
                0 <= k < i ==> {
                    let a = #[trigger] old(nodes)@[k];
                    let b = nodes@[k];
                    &&& b.neighbours@ == neighbours_upto(old(nodes)@, k, n as int)
                    &&& b == (Node { neighbours: b.neighbours, ..a })
                },
        decreases n - i,
    {
        let mut nb: Vec<usize> = Vec::new();
        let ri = nodes[i].transmission_range;
        let pi = nodes[i].position;
        proof {
            assert(node_wf(old(nodes)@[i as int], *cfg, n as int));
            crate::config::lemma_mul_le(ri as int, ri as int, COORD_LIMIT as int,
                COORD_LIMIT as int);
        }
        let mut j: usize = 0;
        while j < n
            invariant
                cfg.wf(),
                nodes@.len() == n,
                n == old(nodes)@.len(),
                pop_wf(old(nodes)@, *cfg),
                i < n,
                j <= n,
                ri == old(nodes)@[i as int].transmission_range,
                pi == old(nodes)@[i as int].position,
                forall|k: int|
                    i <= k < n ==> nodes@[k] == old(nodes)@[k],
                nb@ == neighbours_upto(old(nodes)@, i as int, j as int),
                forall|k: int|
                    0 <= k < i ==> {
                        let a = #[trigger] old(nodes)@[k];
                        let b = nodes@[k];
                        &&& b.neighbours@ == neighbours_upto(old(nodes)@, k, n as int)
                        &&& b == (Node { neighbours: b.neighbours, ..a })
                    },
            decreases n - j,
        {
            let pj = nodes[j].position;
            proof {
                assert(pj == old(nodes)@[j as int].position);
                assert(node_wf(old(nodes)@[i as int], *cfg, n as int));
                crate::config::lemma_mul_le(ri as int, ri as int, COORD_LIMIT as int,
                    COORD_LIMIT as int);
            }
            if j != i && dist_sq_exec(&pi, &pj) <= ri * ri {
                nb.push(j);
            }
            j = j + 1;
        }
        nodes[i].neighbours = nb;
        i = i + 1;
    }
    proof {
        assert forall|k: int|
            0 <= k < nodes@.len() implies node_wf(#[trigger] nodes@[k], *cfg,
            nodes@.len() as int) && nodes@[k].id == k by {
            assert(node_wf(old(nodes)@[k], *cfg, n as int));
        }
    }
}

} // verus!
