pub mod aln;
pub mod bits;
pub mod bonds;
pub mod cluster;
pub mod combined;
pub mod dp;
pub mod dsu;
pub mod error;
pub mod exact_solver;
pub mod frames;
pub mod kept;
pub mod grid;
pub mod hydration;
pub mod maps;
pub mod merge;
pub mod naive_upgma;
pub mod optimal;
pub mod progressive;
pub mod queue;
pub mod rng;
pub mod roundtrip;
pub mod scorer;
pub mod settle;
pub mod sims;
pub mod slice;
pub mod state;
pub mod sums;
pub mod utils;
pub mod weave;
