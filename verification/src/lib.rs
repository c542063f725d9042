//! An artificial-life ecosystem on a toroidal 2-D grid: evolvable bytecode
//! agents move, reproduce, and trade on a shared grid of food and money,
//! cleared by a double-auction market against a conserved central reserve.
//!
//! The crate is laid out leaves first: [`scalar`] is the interpreter's
//! numeric domain, [`direction`] the eight-way grid geometry, [`codon`]
//! the instruction vocabulary, [`dna`] the genome with its bounded
//! interpreter, mutation and crossover, and [`brain`] the per-agent
//! controller. [`sim`] holds the cellular-automaton engine and the
//! simulation container, [`market`] the double-auction order matching,
//! [`gridgen`] the one-time wall carving, and [`rng`] the seeded random
//! stream everything draws from. [`style`] carries the palette the
//! rendering shell paints with.
pub mod brain;
pub mod codon;
pub mod direction;
pub mod dna;
pub mod gridgen;
pub mod market;
pub mod rng;
pub mod scalar;
pub mod sim;
pub mod style;
