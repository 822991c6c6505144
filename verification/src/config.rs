use vstd::prelude::*;

verus! {

/// Upper bound (inclusive for the area bounds, exclusive for coordinates)
/// on positions in the deployment area. Keeping coordinates below this
/// makes every squared distance fit easily in a `u64` and every radio-cost
/// product fit in a `u128`.
pub const COORD_LIMIT: u64 = 1_000_000;

/// Exclusive upper bound on the denominator (and hence the numerator) of
/// the target head probability `P = p_num / p_den`.
pub const PROB_LIMIT: u64 = 1_000_000;

/// Exclusive upper bound on the packet size in bits.
pub const BITS_LIMIT: u64 = 1_000_000;

/// Exclusive upper bound on the electronics and aggregation energy
/// coefficients (energy units per bit).
pub const ELEC_COEFF_LIMIT: u64 = 1_000_000_000_000;

/// Exclusive upper bound on the two amplifier energy coefficients
/// (energy units per bit per squared, or squared-squared, distance unit).
pub const AMP_COEFF_LIMIT: u64 = 1_000_000;

/// Inclusive upper bound on the population size accepted by the round
/// engine and the partitioner.
pub const POP_LIMIT: usize = 1_000_000;

/// Number of distinct values an election draw can take: each draw is
/// uniform in `[0, DRAW_SCALE)`, and a draw `u` stands for the real number
/// `u / DRAW_SCALE` in `[0, 1)`.
pub const DRAW_SCALE: u64 = 4_294_967_296;

/// A point of the deployment area, in integer position units.
#[derive(Clone, Copy, PartialEq, Eq, Structural, Debug)]
pub struct Pos {
    pub x: u64,
    pub y: u64,
}

/// The squared Euclidean distance between two points.
pub open spec fn dist_sq(a: Pos, b: Pos) -> int {
    (a.x - b.x) * (a.x - b.x) + (a.y - b.y) * (a.y - b.y)
}

/// Largest value `dist_sq` can take when both points lie below `COORD_LIMIT`.
pub open spec fn dist_sq_bound() -> int {
    2 * (COORD_LIMIT - 1) * (COORD_LIMIT - 1)
}

proof fn lemma_abs_diff_sq(x: int, y: int, d: int)
    by (nonlinear_arith)
    requires
        d == if x >= y { x - y } else { y - x },
    ensures
        d * d == (x - y) * (x - y),
{
}

/// Products of nonnegative factors grow with each factor.
pub proof fn lemma_mul_le(a: int, b: int, c: int, d: int)
    by (nonlinear_arith)
    requires
        0 <= a <= c,
        0 <= b <= d,
    ensures
        a * b <= c * d,
{
}

proof fn lemma_sq_mono(a: int, b: int)
    by (nonlinear_arith)
    requires
        0 <= a < b,
    ensures
        a * a < b * b,
{
}

/// The two cluster-head election strategies; one is selected at
/// configuration time and plugs into the round engine without altering
/// the reset, formation or dissipation phases.
#[derive(Clone, Copy, PartialEq, Eq, Structural, Debug)]
pub enum ElectionPolicy {
    /// Independent probability draws against the rotation threshold.
    Threshold,
    /// Weighted fitness scores; the top `ceil(P * aliveCount)` eligible
    /// nodes become heads.
    Fitness,
}

/// The reason a configuration was rejected at construction.
#[derive(Clone, Copy, PartialEq, Eq, Structural, Debug)]
pub enum ConfigError {
    /// The head probability is not in `(0, 1]` or its denominator is too large.
    InvalidProbability,
    /// The packet size is zero or too large.
    InvalidPacketSize,
    /// An energy coefficient or the squared threshold distance is zero or too large.
    InvalidCoefficient,
    /// An area bound is zero or exceeds `COORD_LIMIT`.
    InvalidArea,
    /// The sink does not lie inside the deployment area.
    InvalidSink,
    /// The initial node energy is zero.
    InvalidInitialEnergy,
    /// The transmission-range bound is zero or exceeds `COORD_LIMIT`.
    InvalidTransmissionRange,
}

/// The immutable per-run configuration. All fields are fixed before the
/// first round; `Config::new` is the only intended constructor and
/// establishes `wf()`.
///
/// Units are abstract but consistent: positions in position units,
/// energies in energy units, the coefficients in energy units per bit
/// (times the appropriate power of the distance unit).
#[derive(Clone, Copy, Debug)]
pub struct Config {
    /// Numerator of the target head probability `P`.
    pub p_num: u64,
    /// Denominator of the target head probability `P`; `P = p_num / p_den`.
    pub p_den: u64,
    /// Rounds per rotation cycle, `round(1 / P)`; derived by `Config::new`.
    pub cycle_length: u64,
    /// Packet size in bits.
    pub packet_bits: u64,
    /// Radio electronics cost per bit (both transmit and receive).
    pub e_elec: u64,
    /// Free-space amplifier cost per bit per squared distance.
    pub e_fs: u64,
    /// Multipath amplifier cost per bit per fourth power of distance.
    pub e_mp: u64,
    /// Aggregation cost per bit per received signal.
    pub e_da: u64,
    /// Squared threshold distance: below it the free-space regime applies,
    /// at or above it the multipath regime.
    pub d0_sq: u64,
    /// Energy every node starts with.
    pub initial_energy: u64,
    /// Width of the deployment area; positions satisfy `x < width`.
    pub width: u64,
    /// Height of the deployment area; positions satisfy `y < height`.
    pub height: u64,
    /// Position of the base station all heads report to.
    pub sink: Pos,
    /// Inclusive upper bound used to normalise transmission ranges in the
    /// fitness-score election.
    pub tr_limit: u64,
    /// The active cluster-head election strategy.
    pub policy: ElectionPolicy,
    /// Rounds after which the simulation driver reports itself finished.
    pub max_rounds: u64,
}

/// `1/P` rounded to the nearest integer (halves round up), as a function
/// of the probability `p_num / p_den`.
pub open spec fn rounded_inverse(p_num: int, p_den: int) -> int {
    (2 * p_den + p_num) / (2 * p_num)
}

impl Config {
    /// Everything the round engine relies on: the probability is in
    /// `(0, 1]`, every coefficient is positive, all magnitudes respect the
    /// machine limits, the sink lies in the area, and the cycle length is
    /// the rounded inverse of the probability (hence between 1 and `p_den`).
    pub open spec fn wf(&self) -> bool {
        &&& 1 <= self.p_num <= self.p_den < PROB_LIMIT
        &&& self.cycle_length == rounded_inverse(self.p_num as int, self.p_den as int)
        &&& 1 <= self.cycle_length <= self.p_den
        &&& 1 <= self.packet_bits < BITS_LIMIT
        &&& 1 <= self.e_elec < ELEC_COEFF_LIMIT
        &&& 1 <= self.e_da < ELEC_COEFF_LIMIT
        &&& 1 <= self.e_fs < AMP_COEFF_LIMIT
        &&& 1 <= self.e_mp < AMP_COEFF_LIMIT
        &&& 1 <= self.d0_sq
        &&& 1 <= self.width <= COORD_LIMIT
        &&& 1 <= self.height <= COORD_LIMIT
        &&& self.sink.x < self.width
        &&& self.sink.y < self.height
        &&& 1 <= self.initial_energy
        &&& 1 <= self.tr_limit <= COORD_LIMIT
    }

    /// The first reason, in the documented checking order, why these
    /// parameters are rejected; `None` when they are all acceptable.
    pub open spec fn first_error(
        p_num: u64,
        p_den: u64,
        packet_bits: u64,
        e_elec: u64,
        e_fs: u64,
        e_mp: u64,
        e_da: u64,
        d0_sq: u64,
        initial_energy: u64,
        width: u64,
        height: u64,
        sink: Pos,
        tr_limit: u64,
    ) -> Option<ConfigError> {
        if !(1 <= p_num <= p_den < PROB_LIMIT) {
            Some(ConfigError::InvalidProbability)
        } else if !(1 <= packet_bits < BITS_LIMIT) {
            Some(ConfigError::InvalidPacketSize)
        } else if !(1 <= e_elec < ELEC_COEFF_LIMIT && 1 <= e_da < ELEC_COEFF_LIMIT
            && 1 <= e_fs < AMP_COEFF_LIMIT && 1 <= e_mp < AMP_COEFF_LIMIT && 1 <= d0_sq) {
            Some(ConfigError::InvalidCoefficient)
        } else if !(1 <= width <= COORD_LIMIT && 1 <= height <= COORD_LIMIT) {
            Some(ConfigError::InvalidArea)
        } else if !(sink.x < width && sink.y < height) {
            Some(ConfigError::InvalidSink)
        } else if initial_energy == 0 {
            Some(ConfigError::InvalidInitialEnergy)
        } else if !(1 <= tr_limit <= COORD_LIMIT) {
            Some(ConfigError::InvalidTransmissionRange)
        } else {
            None
        }
    }

    /// Validates the parameters and derives the cycle length. Fails, with
    /// the first applicable reason, before any round can execute; a
    /// returned configuration is well-formed.
    pub fn new(
        p_num: u64,
        p_den: u64,
        packet_bits: u64,
        e_elec: u64,
        e_fs: u64,
        e_mp: u64,
        e_da: u64,
        d0_sq: u64,
        initial_energy: u64,
        width: u64,
        height: u64,
        sink: Pos,
        tr_limit: u64,
        policy: ElectionPolicy,
        max_rounds: u64,
    ) -> (r: Result<Config, ConfigError>)
        ensures
            match r {
                Ok(c) => {
                    &&& Self::first_error(p_num, p_den, packet_bits, e_elec, e_fs, e_mp, e_da,
                        d0_sq, initial_energy, width, height, sink, tr_limit) is None
                    &&& c.wf()
                    &&& c.p_num == p_num
                    &&& c.p_den == p_den
                    &&& c.packet_bits == packet_bits
                    &&& c.e_elec == e_elec
                    &&& c.e_fs == e_fs
                    &&& c.e_mp == e_mp
                    &&& c.e_da == e_da
                    &&& c.d0_sq == d0_sq
                    &&& c.initial_energy == initial_energy
                    &&& c.width == width
                    &&& c.height == height
                    &&& c.sink == sink
                    &&& c.tr_limit == tr_limit
                    &&& c.policy == policy
                    &&& c.max_rounds == max_rounds
                },
                Err(e) => Some(e) == Self::first_error(p_num, p_den, packet_bits, e_elec, e_fs,
                    e_mp, e_da, d0_sq, initial_energy, width, height, sink, tr_limit),
            },
    {
        if !(1 <= p_num && p_num <= p_den && p_den < PROB_LIMIT) {
            return Err(ConfigError::InvalidProbability);
        }
        if !(1 <= packet_bits && packet_bits < BITS_LIMIT) {
            return Err(ConfigError::InvalidPacketSize);
        }
        if !(1 <= e_elec && e_elec < ELEC_COEFF_LIMIT && 1 <= e_da && e_da < ELEC_COEFF_LIMIT
            && 1 <= e_fs && e_fs < AMP_COEFF_LIMIT && 1 <= e_mp && e_mp < AMP_COEFF_LIMIT
            && 1 <= d0_sq) {
            return Err(ConfigError::InvalidCoefficient);
        }
        if !(1 <= width && width <= COORD_LIMIT && 1 <= height && height <= COORD_LIMIT) {
            return Err(ConfigError::InvalidArea);
        }
        if !(sink.x < width && sink.y < height) {
            return Err(ConfigError::InvalidSink);
        }
        if initial_energy == 0 {
            return Err(ConfigError::InvalidInitialEnergy);
        }
        if !(1 <= tr_limit && tr_limit <= COORD_LIMIT) {
            return Err(ConfigError::InvalidTransmissionRange);
        }
        let cycle_length: u64 = (2 * p_den + p_num) / (2 * p_num);
        proof {
            lemma_rounded_inverse_range(p_num as int, p_den as int);
        }
        Ok(Config {
            p_num,
            p_den,
            cycle_length,
            packet_bits,
            e_elec,
            e_fs,
            e_mp,
            e_da,
            d0_sq,
            initial_energy,
            width,
            height,
            sink,
            tr_limit,
            policy,
            max_rounds,
        })
    }
}

proof fn lemma_rounded_inverse_range(p_num: int, p_den: int)
    by (nonlinear_arith)
    requires
        1 <= p_num <= p_den,
    ensures
        1 <= rounded_inverse(p_num, p_den) <= p_den,
{
}

/// Squared distances between in-area points are nonnegative and bounded.
pub proof fn lemma_dist_sq_range(a: Pos, b: Pos)
    by (nonlinear_arith)
    requires
        a.x < COORD_LIMIT,
        a.y < COORD_LIMIT,
        b.x < COORD_LIMIT,
        b.y < COORD_LIMIT,
    ensures
        0 <= dist_sq(a, b) <= dist_sq_bound(),
{
}

/// A squared distance is never negative.
pub proof fn lemma_dist_sq_range_free(a: Pos, b: Pos)
    by (nonlinear_arith)
    ensures
        dist_sq(a, b) >= 0,
{
}

/// Computes the squared Euclidean distance between two points.
pub fn dist_sq_exec(a: &Pos, b: &Pos) -> (r: u64)
    requires
        a.x < COORD_LIMIT,
        a.y < COORD_LIMIT,
        b.x < COORD_LIMIT,
        b.y < COORD_LIMIT,
    ensures
        r == dist_sq(*a, *b),
        r <= dist_sq_bound(),
{
    let dx: u64 = if a.x >= b.x { a.x - b.x } else { b.x - a.x };
    let dy: u64 = if a.y >= b.y { a.y - b.y } else { b.y - a.y };
    proof {
        lemma_abs_diff_sq(a.x as int, b.x as int, dx as int);
        lemma_abs_diff_sq(a.y as int, b.y as int, dy as int);
        if dx < COORD_LIMIT - 1 {
            lemma_sq_mono(dx as int, COORD_LIMIT - 1);
        }
        if dy < COORD_LIMIT - 1 {
            lemma_sq_mono(dy as int, COORD_LIMIT - 1);
        }
    }
    dx * dx + dy * dy
}

} // verus!
