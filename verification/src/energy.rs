use vstd::prelude::*;

use crate::config::{dist_sq_bound, Config};

verus! {

/// Cost of receiving one packet: the electronics cost per bit times the
/// packet size.
pub open spec fn spec_receive_cost(cfg: Config) -> int {
    cfg.e_elec * cfg.packet_bits
}

/// Cost of aggregating one received signal into the packet a head forwards.
pub open spec fn spec_aggregation_cost(cfg: Config) -> int {
    cfg.e_da * cfg.packet_bits
}

/// Amplifier cost of transmitting one packet over squared distance `dsq`:
/// the free-space term (quadratic in distance) strictly below the
/// threshold, the multipath term (quartic in distance) at or above it.
pub open spec fn spec_amplification_cost(cfg: Config, dsq: int) -> int {
    if dsq < cfg.d0_sq {
        cfg.e_fs * cfg.packet_bits * dsq
    } else {
        cfg.e_mp * cfg.packet_bits * (dsq * dsq)
    }
}

/// Full cost of transmitting one packet over squared distance `dsq`:
/// electronics plus amplifier.
pub open spec fn spec_transmission_cost(cfg: Config, dsq: int) -> int {
    cfg.e_elec * cfg.packet_bits + spec_amplification_cost(cfg, dsq)
}

/// Every transmission cost for an in-area distance stays below this, with
/// room to spare: it bounds `e_elec * bits + e_mp * bits * dsq * dsq` for
/// the largest admissible coefficients and squared distance.
pub const TRANS_COST_CAP: u128 = 10_000_000_000_000_000_000_000_000_000_000_000_000;

/// Energy a node spends receiving one packet.
pub fn receive_energy(cfg: &Config) -> (r: u64)
    requires
        cfg.wf(),
    ensures
        r == spec_receive_cost(*cfg),
        r < 1_000_000_000_000_000_000,
{
    proof {
        lemma_elec_products(cfg.e_elec as int, cfg.packet_bits as int);
    }
    cfg.e_elec * cfg.packet_bits
}

/// Energy a head spends aggregating one received signal.
pub fn aggregation_energy(cfg: &Config) -> (r: u64)
    requires
        cfg.wf(),
    ensures
        r == spec_aggregation_cost(*cfg),
        r < 1_000_000_000_000_000_000,
{
    proof {
        lemma_elec_products(cfg.e_da as int, cfg.packet_bits as int);
    }
    cfg.e_da * cfg.packet_bits
}

/// Energy the transmitter amplifier spends over squared distance `dsq`,
/// in the regime the threshold distance selects.
pub fn amplification_energy(cfg: &Config, dsq: u64) -> (r: u128)
    requires
        cfg.wf(),
        dsq <= dist_sq_bound(),
    ensures
        r == spec_amplification_cost(*cfg, dsq as int),
        r < TRANS_COST_CAP / 2,
{
    proof {
        assert(dist_sq_bound() <= 2_000_000_000_000);
    }
    if dsq < cfg.d0_sq {
        proof {
            lemma_amp_products(cfg.e_fs as int, cfg.packet_bits as int, dsq as int);
        }
        (cfg.e_fs as u128) * (cfg.packet_bits as u128) * (dsq as u128)
    } else {
        proof {
            lemma_amp_products(cfg.e_mp as int, cfg.packet_bits as int, dsq as int);
        }
        (cfg.e_mp as u128) * (cfg.packet_bits as u128) * ((dsq as u128) * (dsq as u128))
    }
}

proof fn lemma_elec_products(e: int, b: int)
    by (nonlinear_arith)
    requires
        0 <= e < 1_000_000_000_000,
        0 <= b < 1_000_000,
    ensures
        0 <= e * b < 1_000_000_000_000_000_000,
{
}

proof fn lemma_amp_products(e: int, b: int, d: int)
    by (nonlinear_arith)
    requires
        0 <= e < 1_000_000,
        0 <= b < 1_000_000,
        0 <= d <= 2_000_000_000_000,
    ensures
        0 <= e * b < 1_000_000_000_000,
        0 <= d * d <= 4_000_000_000_000_000_000_000_000,
        0 <= e * b * d < 2_000_000_000_000_000_000_000_000,
        0 <= e * b * (d * d) < 4_000_000_000_000_000_000_000_000_000_000_000_000,
{
}

/// Energy a node spends transmitting one packet over squared distance
/// `dsq`: electronics plus amplifier.
pub fn transmission_energy(cfg: &Config, dsq: u64) -> (r: u128)
    requires
        cfg.wf(),
        dsq <= dist_sq_bound(),
    ensures
        r == spec_transmission_cost(*cfg, dsq as int),
        r < TRANS_COST_CAP,
{
    let elec = receive_energy(cfg);
    let amp = amplification_energy(cfg, dsq);
    (elec as u128) + amp
}

} // verus!
