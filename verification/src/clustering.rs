use vstd::prelude::*;

use crate::config::{dist_sq, dist_sq_exec, Pos, COORD_LIMIT, POP_LIMIT};
use crate::node::Node;
use crate::rng::sample_indices;

verus! {

/// Iteration budget of the partitioner.
pub const MAX_ITER: usize = 100;

/// Convergence threshold on the squared centroid displacement. With
/// integer coordinates the default of 1 stops exactly when no centroid
/// moved at all.
pub const EPS_SQ: u64 = 1;

/// The positions of a population.
pub open spec fn positions(wsn: Seq<Node>) -> Seq<Pos> {
    Seq::new(wsn.len(), |i: int| wsn[i].position)
}

/// Index of the centroid nearest to `p` among the first `n`, lowest index
/// on ties (a later centroid wins only by a strictly smaller squared
/// distance). Meaningful for `n >= 1`.
pub open spec fn nearest_centroid_upto(cents: Seq<Pos>, p: Pos, n: int) -> int
    decreases n,
{
    if n <= 1 {
        0
    } else {
        let prev = nearest_centroid_upto(cents, p, n - 1);
        if dist_sq(p, cents[n - 1]) < dist_sq(p, cents[prev]) {
            n - 1
        } else {
            prev
        }
    }
}

/// Index of the nearest centroid, lowest index on ties.
pub open spec fn nearest_centroid(cents: Seq<Pos>, p: Pos) -> int {
    nearest_centroid_upto(cents, p, cents.len() as int)
}

/// The assignment step of Lloyd's algorithm: every point goes to its
/// nearest centroid.
pub open spec fn assign_spec(cents: Seq<Pos>, pts: Seq<Pos>) -> Seq<int> {
    Seq::new(pts.len(), |i: int| nearest_centroid(cents, pts[i]))
}

/// How many of the first `n` points are assigned to cluster `c`.
pub open spec fn cluster_count(assign: Seq<int>, c: int, n: int) -> int
    decreases n,
{
    if n <= 0 {
        0
    } else {
        cluster_count(assign, c, n - 1) + if assign[n - 1] == c {
            1int
        } else {
            0int
        }
    }
}

/// Sum of the x coordinates of the first `n` points assigned to cluster `c`.
pub open spec fn cluster_sum_x(pts: Seq<Pos>, assign: Seq<int>, c: int, n: int) -> int
    decreases n,
{
    if n <= 0 {
        0
    } else {
        cluster_sum_x(pts, assign, c, n - 1) + if assign[n - 1] == c {
            pts[n - 1].x as int
        } else {
            0int
        }
    }
}

/// Sum of the y coordinates of the first `n` points assigned to cluster `c`.
pub open spec fn cluster_sum_y(pts: Seq<Pos>, assign: Seq<int>, c: int, n: int) -> int
    decreases n,
{
    if n <= 0 {
        0
    } else {
        cluster_sum_y(pts, assign, c, n - 1) + if assign[n - 1] == c {
            pts[n - 1].y as int
        } else {
            0int
        }
    }
}

/// The update step of Lloyd's algorithm: every centroid with members
/// moves to their coordinate-wise mean (in floor division); a centroid
/// with no members stays where it is.
pub open spec fn update_spec(cents: Seq<Pos>, pts: Seq<Pos>, assign: Seq<int>) -> Seq<Pos> {
    Seq::new(cents.len(), |c: int|
        {
            let cnt = cluster_count(assign, c, pts.len() as int);
            if cnt > 0 {
                Pos {
                    x: (cluster_sum_x(pts, assign, c, pts.len() as int) / cnt) as u64,
                    y: (cluster_sum_y(pts, assign, c, pts.len() as int) / cnt) as u64,
                }
            } else {
                cents[c]
            }
        })
}

/// One full Lloyd iteration: assign, then update.
pub open spec fn iterate_spec(cents: Seq<Pos>, pts: Seq<Pos>) -> Seq<Pos> {
    update_spec(cents, pts, assign_spec(cents, pts))
}

/// The largest squared displacement between corresponding centroids of
/// the first `n` entries.
pub open spec fn max_disp_sq(a: Seq<Pos>, b: Seq<Pos>, n: int) -> int
    decreases n,
{
    if n <= 0 {
        0
    } else {
        let prev = max_disp_sq(a, b, n - 1);
        let d = dist_sq(a[n - 1], b[n - 1]);
        if d > prev {
            d
        } else {
            prev
        }
    }
}

/// What `fit` computes from initial centroids: iterate up to `iters`
/// times, stopping early once the largest centroid displacement falls
/// below `eps_sq`; the result is the final centroid list and the
/// assignment computed in the last iteration.
pub open spec fn fit_spec(cents: Seq<Pos>, pts: Seq<Pos>, iters: int, eps_sq: int) -> (Seq<Pos>,
    Seq<int>)
    decreases iters,
{
    let a = assign_spec(cents, pts);
    let c2 = update_spec(cents, pts, a);
    if iters <= 1 || max_disp_sq(cents, c2, cents.len() as int) < eps_sq {
        (c2, a)
    } else {
        fit_spec(c2, pts, iters - 1, eps_sq)
    }
}

/// Whether `fit` from these centroids stops by convergence (rather than
/// by exhausting its iteration budget).
pub open spec fn fit_converged(cents: Seq<Pos>, pts: Seq<Pos>, iters: int, eps_sq: int) -> bool
    decreases iters,
{
    let c2 = iterate_spec(cents, pts);
    if max_disp_sq(cents, c2, cents.len() as int) < eps_sq {
        true
    } else if iters <= 1 {
        false
    } else {
        fit_converged(c2, pts, iters - 1, eps_sq)
    }
}

/// The integer view of an executable assignment.
pub open spec fn assign_view(v: Seq<usize>) -> Seq<int> {
    Seq::new(v.len(), |i: int| v[i] as int)
}

/// Cluster sums and counts over bounded coordinates stay small.
proof fn lemma_cluster_sums_bounded(pts: Seq<Pos>, assign: Seq<int>, c: int, n: int)
    requires
        n <= pts.len(),
        forall|i: int|
            0 <= i < pts.len() ==> (#[trigger] pts[i]).x < COORD_LIMIT && pts[i].y < COORD_LIMIT,
    ensures
        0 <= cluster_count(assign, c, n) <= if n <= 0 {
            0int
        } else {
            n
        },
        0 <= cluster_sum_x(pts, assign, c, n) <= cluster_count(assign, c, n) * 999_999,
        0 <= cluster_sum_y(pts, assign, c, n) <= cluster_count(assign, c, n) * 999_999,
    decreases n,
{
    if n > 0 {
        lemma_cluster_sums_bounded(pts, assign, c, n - 1);
    }
}

proof fn lemma_div_bound(s: int, c: int, m: int)
    by (nonlinear_arith)
    requires
        0 <= s <= c * m,
        1 <= c,
        0 <= m,
    ensures
        0 <= s / c <= m,
{
}

/// An independent spatial partitioner over node positions: classic
/// Lloyd's algorithm, decoupled from the protocol's energy and election
/// state.
pub struct KMeans {
    n_clusters: usize,
    centroids: Vec<Pos>,
    clusters: Vec<usize>,
}

impl KMeans {
    /// The number of clusters this partitioner was built for.
    pub closed spec fn spec_k(&self) -> int {
        self.n_clusters as int
    }

    /// The current centroid list.
    pub closed spec fn spec_centroids(&self) -> Seq<Pos> {
        self.centroids@
    }

    /// The current per-node cluster assignment.
    pub closed spec fn spec_clusters(&self) -> Seq<usize> {
        self.clusters@
    }

    /// A partitioner for `n_clusters` clusters, with nothing fitted yet.
    pub fn new(n_clusters: usize) -> (km: KMeans)
        ensures
            km.spec_k() == n_clusters,
            km.spec_centroids() == Seq::<Pos>::empty(),
            km.spec_clusters() == Seq::<usize>::empty(),
    {
        KMeans { n_clusters, centroids: Vec::new(), clusters: Vec::new() }
    }

    /// The fitted centroid list.
    pub fn centroids(&self) -> (r: &Vec<Pos>)
        ensures
            r@ == self.spec_centroids(),
    {
        &self.centroids
    }

    /// The fitted per-node cluster indices.
    pub fn clusters(&self) -> (r: &Vec<usize>)
        ensures
            r@ == self.spec_clusters(),
    {
        &self.clusters
    }

    /// The update step: recomputes every centroid as the mean position of
    /// its currently assigned nodes, leaving centroids with no members
    /// unchanged, and returns the previous centroid list.
    fn update_centroids(&mut self, wsn: &Vec<Node>) -> (prev: Vec<Pos>)
        requires
            old(self).spec_clusters().len() == wsn@.len(),
            wsn@.len() <= POP_LIMIT,
            forall|i: int|
                0 <= i < wsn@.len() ==> (#[trigger] wsn@[i]).position.x < COORD_LIMIT
                    && wsn@[i].position.y < COORD_LIMIT,
            forall|i: int|
                0 <= i < old(self).spec_clusters().len() ==> (#[trigger] old(
                self).spec_clusters()[i]) < old(self).spec_centroids().len(),
            forall|c: int|
                0 <= c < old(self).spec_centroids().len() ==> (#[trigger] old(
                self).spec_centroids()[c]).x < COORD_LIMIT && old(self).spec_centroids()[c].y
                    < COORD_LIMIT,
        ensures
            prev@ == old(self).spec_centroids(),
            final(self).spec_centroids() == update_spec(old(self).spec_centroids(),
                positions(wsn@), assign_view(old(self).spec_clusters())),
            final(self).spec_clusters() == old(self).spec_clusters(),
            final(self).spec_k() == old(self).spec_k(),
            forall|c: int|
                0 <= c < final(self).spec_centroids().len() ==> (#[trigger] final(
                self).spec_centroids()[c]).x < COORD_LIMIT && final(self).spec_centroids()[c].y
                    < COORD_LIMIT,
    {
        let k = self.centroids.len();
        let n = wsn.len();
        let ghost pts = positions(wsn@);
        let ghost av = assign_view(self.clusters@);

        let mut sx: Vec<u64> = Vec::new();
        let mut sy: Vec<u64> = Vec::new();
        let mut cnt: Vec<u64> = Vec::new();
        let mut c0: usize = 0;
        while c0 < k
            invariant
                c0 <= k,
                sx@.len() == c0,
                sy@.len() == c0,
                cnt@.len() == c0,
                forall|c: int| 0 <= c < c0 ==> #[trigger] sx@[c] == 0,
                forall|c: int| 0 <= c < c0 ==> #[trigger] sy@[c] == 0,
                forall|c: int| 0 <= c < c0 ==> #[trigger] cnt@[c] == 0,
            decreases k - c0,
        {
            sx.push(0);
            sy.push(0);
            cnt.push(0);
            c0 = c0 + 1;
        }

        let mut i: usize = 0;
        while i < n
            invariant
                n == wsn@.len(),
                n <= POP_LIMIT,
                self.clusters@.len() == n,
                pts == positions(wsn@),
                av == assign_view(self.clusters@),
                self.centroids@ == old(self).spec_centroids(),
                forall|j: int|
                    0 <= j < pts.len() ==> (#[trigger] pts[j]).x < COORD_LIMIT && pts[j].y
                        < COORD_LIMIT,
                forall|j: int| 0 <= j < n ==> (#[trigger] self.clusters@[j]) < k,
                i <= n,
                sx@.len() == k,
                sy@.len() == k,
                cnt@.len() == k,
                forall|c: int| 0 <= c < k ==> #[trigger] sx@[c] == cluster_sum_x(pts, av, c,
                    i as int),
                forall|c: int| 0 <= c < k ==> #[trigger] sy@[c] == cluster_sum_y(pts, av, c,
                    i as int),
                forall|c: int| 0 <= c < k ==> #[trigger] cnt@[c] == cluster_count(av, c, i as int),
            decreases n - i,
        {
            let c = self.clusters[i];
            proof {
                lemma_cluster_sums_bounded(pts, av, c as int, i as int);
                assert(pts[i as int] == wsn@[i as int].position);
            }
            let px = wsn[i].position.x;
            let py = wsn[i].position.y;
            let sxc = sx[c];
            sx[c] = sxc + px;
            let syc = sy[c];
            sy[c] = syc + py;
            let cntc = cnt[c];
            cnt[c] = cntc + 1;
            i = i + 1;
        }

        let mut newc: Vec<Pos> = Vec::new();
        let mut c1: usize = 0;
        while c1 < k
            invariant
                k == self.centroids@.len(),
                n == wsn@.len(),
                n <= POP_LIMIT,
                pts == positions(wsn@),
                av == assign_view(self.clusters@),
                self.centroids@ == old(self).spec_centroids(),
                forall|j: int|
                    0 <= j < pts.len() ==> (#[trigger] pts[j]).x < COORD_LIMIT && pts[j].y
                        < COORD_LIMIT,
                forall|c: int|
                    0 <= c < k ==> (#[trigger] self.centroids@[c]).x < COORD_LIMIT
                        && self.centroids@[c].y < COORD_LIMIT,
                c1 <= k,
                sx@.len() == k,
                sy@.len() == k,
                cnt@.len() == k,
                forall|c: int| 0 <= c < k ==> #[trigger] sx@[c] == cluster_sum_x(pts, av, c,
                    n as int),
                forall|c: int| 0 <= c < k ==> #[trigger] sy@[c] == cluster_sum_y(pts, av, c,
                    n as int),
                forall|c: int| 0 <= c < k ==> #[trigger] cnt@[c] == cluster_count(av, c, n as int),
                newc@.len() == c1,
                forall|c: int|
                    0 <= c < c1 ==> #[trigger] newc@[c] == update_spec(self.centroids@, pts,
                        av)[c],
                forall|c: int|
                    0 <= c < c1 ==> (#[trigger] newc@[c]).x < COORD_LIMIT && newc@[c].y
                        < COORD_LIMIT,
            decreases k - c1,
        {
            proof {
                lemma_cluster_sums_bounded(pts, av, c1 as int, n as int);
                assert(POP_LIMIT == 1_000_000);
                if cnt@[c1 as int] > 0 {
                    lemma_div_bound(cluster_sum_x(pts, av, c1 as int, n as int), cluster_count(av,
                        c1 as int, n as int), 999_999);
                    lemma_div_bound(cluster_sum_y(pts, av, c1 as int, n as int), cluster_count(av,
                        c1 as int, n as int), 999_999);
                    crate::config::lemma_mul_le(cluster_count(av, c1 as int, n as int), 999_999,
                        1_000_000, 999_999);
                }
            }
            let p = if cnt[c1] > 0 {
                Pos { x: sx[c1] / cnt[c1], y: sy[c1] / cnt[c1] }
            } else {
                self.centroids[c1]
            };
            newc.push(p);
            c1 = c1 + 1;
        }
        proof {
            assert(newc@ =~= update_spec(self.centroids@, pts, av));
        }
        let mut prev = newc;
        core::mem::swap(&mut self.centroids, &mut prev);
        prev
    }

    /// Runs Lloyd's algorithm from the given initial centroids: up to
    /// `MAX_ITER` iterations of assign-then-update, stopping early once
    /// the largest squared centroid displacement falls below `EPS_SQ`.
    pub fn fit_from(&mut self, wsn: &Vec<Node>, initial: Vec<Pos>)
        requires
            initial@.len() == old(self).spec_k(),
            1 <= old(self).spec_k() <= wsn@.len(),
            wsn@.len() <= POP_LIMIT,
            forall|i: int|
                0 <= i < wsn@.len() ==> (#[trigger] wsn@[i]).position.x < COORD_LIMIT
                    && wsn@[i].position.y < COORD_LIMIT,
            forall|c: int|
                0 <= c < initial@.len() ==> (#[trigger] initial@[c]).x < COORD_LIMIT
                    && initial@[c].y < COORD_LIMIT,
        ensures
            final(self).spec_k() == old(self).spec_k(),
            final(self).spec_centroids() == fit_spec(initial@, positions(wsn@),
                MAX_ITER as int, EPS_SQ as int).0,
            assign_view(final(self).spec_clusters()) == fit_spec(initial@, positions(wsn@),
                MAX_ITER as int, EPS_SQ as int).1,
    {
        let n = wsn.len();
        let k = self.n_clusters;
        let ghost pts = positions(wsn@);
        let ghost init = initial@;
        self.centroids = initial;
        let mut it: usize = 0;
        let mut done = false;
        while it < MAX_ITER && !done
            invariant
                self.spec_k() == k,
                1 <= k <= n,
                n == wsn@.len(),
                n <= POP_LIMIT,
                pts == positions(wsn@),
                forall|j: int|
                    0 <= j < pts.len() ==> (#[trigger] pts[j]).x < COORD_LIMIT && pts[j].y
                        < COORD_LIMIT,
                self.spec_centroids().len() == k,
                forall|c: int|
                    0 <= c < k ==> (#[trigger] self.spec_centroids()[c]).x < COORD_LIMIT
                        && self.spec_centroids()[c].y < COORD_LIMIT,
                it <= MAX_ITER,
                !done ==> it < MAX_ITER,
                !done ==> fit_spec(self.spec_centroids(), pts, MAX_ITER - it, EPS_SQ as int)
                    == fit_spec(init, pts, MAX_ITER as int, EPS_SQ as int),
                done ==> self.spec_centroids() == fit_spec(init, pts, MAX_ITER as int,
                    EPS_SQ as int).0,
                done ==> assign_view(self.spec_clusters()) == fit_spec(init, pts, MAX_ITER as int,
                    EPS_SQ as int).1,
            decreases MAX_ITER - it,
        {
            let ghost prev_cents = self.spec_centroids();

            // Assignment: every node to its nearest centroid.
            let mut asg: Vec<usize> = Vec::new();
            let mut i: usize = 0;
            while i < n
                invariant
                    self.spec_k() == k,
                    1 <= k <= n,
                    n == wsn@.len(),
                    pts == positions(wsn@),
                    prev_cents == self.spec_centroids(),
                    self.spec_centroids().len() == k,
                    forall|j: int|
                        0 <= j < pts.len() ==> (#[trigger] pts[j]).x < COORD_LIMIT && pts[j].y
                            < COORD_LIMIT,
                    forall|c: int|
                        0 <= c < k ==> (#[trigger] self.spec_centroids()[c]).x < COORD_LIMIT
                            && self.spec_centroids()[c].y < COORD_LIMIT,
                    i <= n,
                    asg@.len() == i,
                    forall|j: int|
                        0 <= j < i ==> #[trigger] asg@[j] < k && asg@[j] == nearest_centroid(
                            self.spec_centroids(), pts[j]),
                decreases n - i,
            {
                let p = wsn[i].position;
                proof {
                    assert(p == pts[i as int]);
                }
                let c0 = self.centroids[0];
                let mut best: usize = 0;
                let mut bd: u64 = dist_sq_exec(&p, &c0);
                let mut t: usize = 1;
                while t < k
                    invariant
                        self.spec_k() == k,
                        self.spec_centroids().len() == k,
                        pts == positions(wsn@),
                        i < n,
                        n == wsn@.len(),
                        p == pts[i as int],
                        p.x < COORD_LIMIT,
                        p.y < COORD_LIMIT,
                        forall|c: int|
                            0 <= c < k ==> (#[trigger] self.spec_centroids()[c]).x < COORD_LIMIT
                                && self.spec_centroids()[c].y < COORD_LIMIT,
                        1 <= t <= k,
                        best < k,
                        best == nearest_centroid_upto(self.spec_centroids(), p, t as int),
                        bd == dist_sq(p, self.spec_centroids()[best as int]),
                    decreases k - t,
                {
                    let ct = self.centroids[t];
                    let d = dist_sq_exec(&p, &ct);
                    if d < bd {
                        best = t;
                        bd = d;
                    }
                    t = t + 1;
                }
                asg.push(best);
                i = i + 1;
            }
            proof {
                assert(assign_view(asg@) =~= assign_spec(self.spec_centroids(), pts));
            }
            self.clusters = asg;

            // Update: move every centroid to the mean of its members.
            proof {
                assert forall|j: int|
                    0 <= j < wsn@.len() implies (#[trigger] wsn@[j]).position.x < COORD_LIMIT
                    && wsn@[j].position.y < COORD_LIMIT by {
                    assert(pts[j] == wsn@[j].position);
                }
            }
            let prev = self.update_centroids(wsn);

            // Largest squared centroid displacement of this iteration.
            let mut disp: u64 = 0;
            let mut c2: usize = 0;
            while c2 < k
                invariant
                    prev@.len() == k,
                    self.spec_centroids().len() == k,
                    forall|c: int|
                        0 <= c < k ==> (#[trigger] prev@[c]).x < COORD_LIMIT && prev@[c].y
                            < COORD_LIMIT,
                    forall|c: int|
                        0 <= c < k ==> (#[trigger] self.spec_centroids()[c]).x < COORD_LIMIT
                            && self.spec_centroids()[c].y < COORD_LIMIT,
                    c2 <= k,
                    disp == max_disp_sq(prev@, self.spec_centroids(), c2 as int),
                decreases k - c2,
            {
                let a = prev[c2];
                let b = self.centroids[c2];
                let d = dist_sq_exec(&a, &b);
                if d > disp {
                    disp = d;
                }
                c2 = c2 + 1;
            }

            let stop = disp < EPS_SQ || it + 1 == MAX_ITER;
            proof {
                assert(fit_spec(prev_cents, pts, MAX_ITER - it, EPS_SQ as int) == (if stop {
                    (self.spec_centroids(), assign_view(self.spec_clusters()))
                } else {
                    fit_spec(self.spec_centroids(), pts, MAX_ITER - it - 1, EPS_SQ as int)
                }));
            }
            if stop {
                done = true;
            }
            it = it + 1;
        }
    }

    /// Fits the partitioner to the population: `n_clusters` initial
    /// centroids are drawn uniformly without replacement from the node
    /// positions, then Lloyd's algorithm runs as in `fit_from`. The
    /// sampled start is existentially quantified, so everything proved
    /// downstream holds for every outcome of the generator.
    pub fn fit(&mut self, wsn: &Vec<Node>, rng: &mut rand::rngs::StdRng)
        requires
            1 <= old(self).spec_k() <= wsn@.len(),
            wsn@.len() <= POP_LIMIT,
            forall|i: int|
                0 <= i < wsn@.len() ==> (#[trigger] wsn@[i]).position.x < COORD_LIMIT
                    && wsn@[i].position.y < COORD_LIMIT,
        ensures
            final(self).spec_k() == old(self).spec_k(),
            exists|idxs: Seq<usize>|
                {
                    &&& #[trigger] idxs.len() == old(self).spec_k()
                    &&& (forall|t: int| 0 <= t < idxs.len() ==> #[trigger] idxs[t] < wsn@.len())
                    &&& (forall|t1: int, t2: int|
                        0 <= t1 < t2 < idxs.len() ==> idxs[t1] != idxs[t2])
                    &&& final(self).spec_centroids() == fit_spec(
                        Seq::new(idxs.len(), |c: int| wsn@[idxs[c] as int].position),
                        positions(wsn@), MAX_ITER as int, EPS_SQ as int).0
                    &&& assign_view(final(self).spec_clusters()) == fit_spec(
                        Seq::new(idxs.len(), |c: int| wsn@[idxs[c] as int].position),
                        positions(wsn@), MAX_ITER as int, EPS_SQ as int).1
                },
    {
        let k = self.n_clusters;
        let idxs = sample_indices(rng, wsn.len(), k);
        let mut initial: Vec<Pos> = Vec::new();
        let mut c: usize = 0;
        while c < k
            invariant
                idxs@.len() == k,
                forall|t: int| 0 <= t < k ==> #[trigger] idxs@[t] < wsn@.len(),
                forall|i: int|
                    0 <= i < wsn@.len() ==> (#[trigger] wsn@[i]).position.x < COORD_LIMIT
                        && wsn@[i].position.y < COORD_LIMIT,
                c <= k,
                initial@.len() == c,
                forall|t: int|
                    0 <= t < c ==> #[trigger] initial@[t] == wsn@[idxs@[t] as int].position,
            decreases k - c,
        {
            let j = idxs[c];
            let p = wsn[j].position;
            initial.push(p);
            c = c + 1;
        }
        let ghost init = initial@;
        self.fit_from(wsn, initial);
        proof {
            assert(init =~= Seq::new(idxs@.len(), |c: int| wsn@[idxs@[c] as int].position));
        }
    }
}

// ---------------------------------------------------------------------------
// Partitioner laws
// ---------------------------------------------------------------------------

/// Sum of the x coordinates of the first `n` points.
pub open spec fn sum_xs(pts: Seq<Pos>, n: int) -> int
    decreases n,
{
    if n <= 0 {
        0
    } else {
        sum_xs(pts, n - 1) + pts[n - 1].x
    }
}

/// Sum of the y coordinates of the first `n` points.
pub open spec fn sum_ys(pts: Seq<Pos>, n: int) -> int
    decreases n,
{
    if n <= 0 {
        0
    } else {
        sum_ys(pts, n - 1) + pts[n - 1].y
    }
}

/// The coordinate-wise arithmetic mean of all points, in floor division.
pub open spec fn mean_pos(pts: Seq<Pos>) -> Pos {
    Pos {
        x: (sum_xs(pts, pts.len() as int) / pts.len() as int) as u64,
        y: (sum_ys(pts, pts.len() as int) / pts.len() as int) as u64,
    }
}

proof fn lemma_uniform_cluster(pts: Seq<Pos>, assign: Seq<int>, n: int)
    requires
        forall|j: int| 0 <= j < n ==> #[trigger] assign[j] == 0,
    ensures
        cluster_count(assign, 0, n) == if n <= 0 {
            0int
        } else {
            n
        },
        cluster_sum_x(pts, assign, 0, n) == sum_xs(pts, n),
        cluster_sum_y(pts, assign, 0, n) == sum_ys(pts, n),
    decreases n,
{
    if n > 0 {
        lemma_uniform_cluster(pts, assign, n - 1);
    }
}

/// With a single centroid, one Lloyd iteration lands exactly on the
/// arithmetic mean of all node positions, wherever the centroid started.
pub proof fn lemma_single_centroid_mean(cents: Seq<Pos>, pts: Seq<Pos>)
    requires
        cents.len() == 1,
        pts.len() >= 1,
    ensures
        iterate_spec(cents, pts) == seq![mean_pos(pts)],
{
    let a = assign_spec(cents, pts);
    assert forall|j: int| 0 <= j < pts.len() implies #[trigger] a[j] == 0 by {
        assert(nearest_centroid_upto(cents, pts[j], 1) == 0);
    }
    lemma_uniform_cluster(pts, a, pts.len() as int);
    assert(iterate_spec(cents, pts) =~= seq![mean_pos(pts)]);
}

proof fn lemma_dist_sq_zero(a: Pos, b: Pos)
    by (nonlinear_arith)
    requires
        dist_sq(a, b) < 1,
    ensures
        a.x == b.x,
        a.y == b.y,
{
}

proof fn lemma_max_disp_ge(a: Seq<Pos>, b: Seq<Pos>, n: int, c: int)
    requires
        0 <= c < n,
    ensures
        dist_sq(a[c], b[c]) <= max_disp_sq(a, b, n),
    decreases n,
{
    if c < n - 1 {
        lemma_max_disp_ge(a, b, n - 1, c);
    }
}

/// A displacement below 1 is, with integer coordinates, no displacement
/// at all: the two centroid lists are equal.
proof fn lemma_small_disp_equal(a: Seq<Pos>, b: Seq<Pos>, n: int)
    requires
        a.len() == n,
        b.len() == n,
        max_disp_sq(a, b, n) < 1,
    ensures
        a == b,
{
    assert forall|c: int| 0 <= c < n implies a[c] == b[c] by {
        lemma_max_disp_ge(a, b, n, c);
        crate::config::lemma_dist_sq_range_free(a[c], b[c]);
        lemma_dist_sq_zero(a[c], b[c]);
    }
    assert(a =~= b);
}

proof fn lemma_max_disp_self(c: Seq<Pos>, n: int)
    ensures
        max_disp_sq(c, c, n) == 0,
    decreases n,
{
    if n > 0 {
        lemma_max_disp_self(c, n - 1);
        assert(dist_sq(c[n - 1], c[n - 1]) == 0) by (nonlinear_arith);
    }
}

/// A fixed point of the Lloyd iteration makes `fit` stop immediately,
/// with zero displacement, returning the centroids unchanged.
pub proof fn lemma_fixed_point_immediate(cents: Seq<Pos>, pts: Seq<Pos>, iters: int)
    requires
        iterate_spec(cents, pts) == cents,
        iters >= 1,
    ensures
        fit_spec(cents, pts, iters, 1) == (cents, assign_spec(cents, pts)),
        fit_converged(cents, pts, iters, 1),
{
    lemma_max_disp_self(cents, cents.len() as int);
}

/// When `fit` stops by convergence (threshold 1), its result is a fixed
/// point of the Lloyd iteration: running the algorithm again from the
/// converged centroids moves nothing, immediately.
pub proof fn lemma_converged_is_fixed_point(cents: Seq<Pos>, pts: Seq<Pos>, iters: int)
    requires
        fit_converged(cents, pts, iters, 1),
    ensures
        iterate_spec(fit_spec(cents, pts, iters, 1).0, pts) == fit_spec(cents, pts, iters, 1).0,
    decreases iters,
{
    let c2 = iterate_spec(cents, pts);
    if max_disp_sq(cents, c2, cents.len() as int) < 1 {
        lemma_small_disp_equal(cents, c2, cents.len() as int);
        assert(fit_spec(cents, pts, iters, 1).0 == c2);
    } else {
        lemma_converged_is_fixed_point(c2, pts, iters - 1);
    }
}

/// With a single cluster the algorithm converges after one effective
/// iteration: from any start, the fitted centroid list is exactly the
/// arithmetic mean of all node positions.
pub proof fn lemma_single_cluster_fit(cents: Seq<Pos>, pts: Seq<Pos>, iters: int)
    requires
        cents.len() == 1,
        pts.len() >= 1,
        iters >= 2,
    ensures
        fit_spec(cents, pts, iters, 1).0 == seq![mean_pos(pts)],
{
    let m = seq![mean_pos(pts)];
    lemma_single_centroid_mean(cents, pts);
    lemma_single_centroid_mean(m, pts);
    if max_disp_sq(cents, iterate_spec(cents, pts), 1) < 1 {
    } else {
        lemma_fixed_point_immediate(m, pts, iters - 1);
    }
}

} // verus!
