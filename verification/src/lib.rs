//! A discrete-time SIR (Susceptible-Infected-Removed) contagion model over a
//! contact network.
//!
//! The [`graph::Unweighted`] adjacency-list graph supports directed and
//! undirected edges with multiplicity, and a circulant ring-lattice
//! generator.  The simulation engine in [`sim`] advances per-vertex health
//! state synchronously until the epidemic burns out, and reports peak
//! prevalence, duration and total infections.  Per-contact transmission is
//! drawn from a seeded random generator in [`trans`].

pub mod graph;
pub mod sim;
pub mod trans;
