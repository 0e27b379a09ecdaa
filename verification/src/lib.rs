//! Simulated-annealing search for short travelling-salesman tours on dense,
//! symmetrically weighted graphs.
//!
//! The graph model stores an (n+1) x (n+1) weight matrix in one flat,
//! row-major buffer; the optimizer walks the permutation space of tours
//! with a temperature-driven acceptance rule and a geometric cooling
//! schedule.  Temperatures are fixed-point integers (thousandths), and the
//! Metropolis probability is evaluated in fixed point as well, so every
//! decision the optimizer takes is verified exactly.

pub mod anneal;
pub mod codec;
pub mod graph;
pub mod rng;
