use vstd::prelude::*;

use crate::config::Config;
use crate::leach;
use crate::node::{pop_wf, Node};

verus! {

/// The simulation driver: it owns the population, the round counter and
/// the alive count, advances the simulation one full round at a time, and
/// exposes its state read-only to renderers and loggers. The population
/// is mutated only inside `update`.
pub struct SIMULATOR {
    /// The node population; dead nodes persist for reporting.
    pub wsn: Vec<Node>,
    /// Completed rounds.
    pub round: u64,
    /// Number of alive nodes, kept in step with the population.
    pub alive_count: usize,
}

impl SIMULATOR {
    /// The driver invariant relative to a configuration: the population
    /// is well-formed and the alive counter is honest.
    pub open spec fn wf(&self, cfg: Config) -> bool {
        &&& cfg.wf()
        &&& pop_wf(self.wsn@, cfg)
        &&& self.alive_count == leach::count_alive(self.wsn@)
    }

    /// The simulation is over when nothing lives or the round budget is
    /// spent; `update` must not be called after this holds.
    pub open spec fn finished(&self, cfg: Config) -> bool {
        self.alive_count == 0 || self.round >= cfg.max_rounds
    }

    /// A driver over the given population, at round zero.
    pub fn new(wsn: Vec<Node>, cfg: &Config) -> (sim: SIMULATOR)
        requires
            cfg.wf(),
            pop_wf(wsn@, *cfg),
        ensures
            sim.wf(*cfg),
            sim.round == 0,
            sim.wsn@ == wsn@,
            sim.alive_count == leach::count_alive(wsn@),
    {
        let n = wsn.len();
        let mut alive_count: usize = 0;
        let mut i: usize = 0;
        while i < n
            invariant
                n == wsn@.len(),
                i <= n,
                alive_count == leach::count_alive_upto(wsn@, i as int),
                alive_count <= i,
            decreases n - i,
        {
            if wsn[i].is_alive {
                alive_count = alive_count + 1;
            }
            i = i + 1;
        }
        SIMULATOR { wsn, round: 0, alive_count }
    }

    /// Advances the simulation by one full round under the given
    /// protocol: the round counter increments, then the protocol runs all
    /// its phases. Must not be called on a finished simulation.
    pub fn update<P: Protocol>(&mut self, protocol: &mut P)
        requires
            old(self).wf(old(protocol).pcfg()),
            !old(self).finished(old(protocol).pcfg()),
        ensures
            final(protocol).pcfg() == old(protocol).pcfg(),
            final(self).wf(old(protocol).pcfg()),
            final(self).round == old(self).round + 1,
            final(self).wsn@.len() == old(self).wsn@.len(),
            forall|i: int|
                0 <= i < old(self).wsn@.len() ==> (!(#[trigger] old(self).wsn@[i]).is_alive
                    ==> !final(self).wsn@[i].is_alive),
            forall|i: int|
                0 <= i < old(self).wsn@.len() ==> final(self).wsn@[i].energy <= (#[trigger] old(
                self).wsn@[i]).energy,
    {
        self.round = self.round + 1;
        protocol.run_round(self);
    }

    /// Advances the simulation one full round under the LEACH protocol,
    /// with the exact round relation in the contract: whatever the draws,
    /// the new population is one reset-elect-form-dissipate-check step of
    /// the old one.
    pub fn advance_round(&mut self, protocol: &mut LeachProtocol)
        requires
            old(self).wf(old(protocol).spec_cfg()),
            !old(self).finished(old(protocol).spec_cfg()),
        ensures
            final(protocol).spec_cfg() == old(protocol).spec_cfg(),
            final(self).wf(old(protocol).spec_cfg()),
            final(self).round == old(self).round + 1,
            exists|draws: Seq<int>|
                #[trigger] leach::round_rel(old(self).wsn@, final(self).wsn@,
                    old(protocol).spec_cfg(), final(self).round as int, draws),
    {
        self.round = self.round + 1;
        protocol.run_round(self);
    }

    /// Whether the simulation has terminated under this configuration.
    pub fn is_finished(&self, cfg: &Config) -> (r: bool)
        ensures
            r == self.finished(*cfg),
    {
        self.alive_count == 0 || self.round >= cfg.max_rounds
    }

    /// Read-only view of the population for renderers and loggers.
    pub fn nodes(&self) -> (r: &Vec<Node>)
        ensures
            r@ == self.wsn@,
    {
        &self.wsn
    }
}

/// A pluggable per-round protocol. Running a round must preserve the
/// driver invariant, never resurrect a dead node, never increase any
/// node's energy, and leave the round counter alone.
pub trait Protocol: Sized {
    /// The configuration this protocol instance runs under.
    spec fn pcfg(&self) -> Config;

    /// Executes all phases of one round on the driver's population.
    fn run_round(&mut self, sim: &mut SIMULATOR)
        requires
            old(sim).wf(old(self).pcfg()),
        ensures
            final(self).pcfg() == old(self).pcfg(),
            final(sim).wf(old(self).pcfg()),
            final(sim).round == old(sim).round,
            final(sim).wsn@.len() == old(sim).wsn@.len(),
            forall|i: int|
                0 <= i < old(sim).wsn@.len() ==> (!(#[trigger] old(sim).wsn@[i]).is_alive
                    ==> !final(sim).wsn@[i].is_alive),
            forall|i: int|
                0 <= i < old(sim).wsn@.len() ==> final(sim).wsn@[i].energy <= (#[trigger] old(
                sim).wsn@[i]).energy,
    ;

    /// A short human-readable name for reporting.
    fn name(&self) -> &'static str;
}

/// The LEACH protocol as a pluggable strategy: reset, election under the
/// configured policy, formation, dissipation and death check, with its
/// own seeded random source.
pub struct LeachProtocol {
    cfg: Config,
    rng: rand::rngs::StdRng,
}

impl LeachProtocol {
    /// The configuration this instance was built with.
    pub closed spec fn spec_cfg(&self) -> Config {
        self.cfg
    }

    /// A LEACH protocol instance under `cfg`, with a reproducible random
    /// source seeded by `seed`.
    pub fn new(cfg: Config, seed: u64) -> (p: LeachProtocol)
        ensures
            p.spec_cfg() == cfg,
    {
        LeachProtocol { cfg, rng: crate::rng::rng_from_seed(seed) }
    }
}

impl Protocol for LeachProtocol {
    open spec fn pcfg(&self) -> Config {
        self.spec_cfg()
    }

    fn run_round(&mut self, sim: &mut SIMULATOR)
        ensures
            exists|draws: Seq<int>|
                leach::round_rel(old(sim).wsn@, final(sim).wsn@, old(self).spec_cfg(),
                    old(sim).round as int, draws),
    {
        let ghost pre = sim.wsn@;
        let round = sim.round;
        leach::reset(&mut sim.wsn, round, &self.cfg);
        let ghost s0 = sim.wsn@;
        proof {
            assert forall|i: int|
                0 <= i < s0.len() implies crate::node::node_wf(#[trigger] s0[i], self.cfg,
                s0.len() as int) && s0[i].id == i && !s0[i].is_cluster_head && s0[i].is_alive
                == pre[i].is_alive && s0[i].energy == pre[i].energy by {
                assert(crate::node::node_wf(pre[i], self.cfg, pre.len() as int));
            }
            leach::lemma_count_alive_stable(pre, s0, s0.len() as int);
        }
        leach::build(&mut sim.wsn, round, &mut sim.alive_count, &self.cfg, &mut self.rng);
        proof {
            let draws = choose|d: Seq<int>|
                leach::build_rel(s0, sim.wsn@, self.cfg, round as int, d);
            assert(leach::round_rel(pre, sim.wsn@, self.cfg, round as int, draws));
            assert forall|i: int|
                0 <= i < pre.len() implies (!(#[trigger] pre[i]).is_alive
                ==> !sim.wsn@[i].is_alive) && sim.wsn@[i].energy <= pre[i].energy by {
                assert(!s0[i].is_alive ==> !sim.wsn@[i].is_alive);
                assert(sim.wsn@[i].energy <= s0[i].energy);
            }
        }
    }

    fn name(&self) -> &'static str {
        "leach"
    }
}

} // verus!
