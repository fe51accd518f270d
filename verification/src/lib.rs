//! Evolution of layered feed-forward networks whose topology may change.
//!
//! A genome is a flat list of weighted connections. Every connection carries
//! the layer and the two neurons it joins, so that a genome can be read as a
//! layered network, edited there and written back. Weights and fitness travel
//! through this crate as the bit patterns of single-precision numbers:
//! nothing here computes with them, they are only carried, copied and
//! replaced. What needs their value, such as the choice of parents by fitness
//! or the change of a weight, is left to the caller.
//!
//! - [`chromosome`]: the genome, and its reading as a network and back.
//! - [`canon`]: what that round trip keeps.
//! - [`crossover`]: recombination of two genomes of different topology.
//! - [`numbering`]: the ids that a population shares for new neurons.
//! - [`network`]: neurons and layers added to and removed from a network.
//! - [`mutation`]: the same edits on genomes, and what a pass decides.
//! - [`individual`]: a genome with its life time and mutation force.
//! - [`genetic_flex_algorithm`]: ageing and replacement by life time.
//! - [`statistics`]: the shapes and ids that a generation reports.
//! - [`random`]: the draws from the random source.

pub mod canon;
pub mod chromosome;
pub mod crossover;
pub mod genetic_flex_algorithm;
pub mod individual;
pub mod mutation;
pub mod network;
pub mod numbering;
pub mod random;
pub mod statistics;
