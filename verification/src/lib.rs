//! A verified engine for energy-aware clustering in a wireless sensor
//! network, in the style of the LEACH protocol family: a population of
//! stationary nodes repeatedly elects rotating cluster heads, the other
//! nodes attach to the nearest head, and every transmitting node pays a
//! distance-dependent radio energy cost each round until its energy is
//! exhausted.
//!
//! All quantities are integers so that every formula is exact: positions
//! are integer coordinates, energies are integer units, and every cost
//! formula uses only even powers of the Euclidean distance, so squared
//! distances suffice throughout and no square root is ever taken.

pub mod clustering;
pub mod config;
pub mod energy;
pub mod fitness;
pub mod leach;
pub mod node;
pub mod rng;
pub mod simulator;
