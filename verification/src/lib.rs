//! Fibonacci growth: Fibonacci sequences with saturating arithmetic, Zeckendorf
//! representations, Fibonacci (Penrose) substitution chains, and the integer
//! parts of the boundary-roughness, graph-coarsening and phyllotaxis analyses.

pub mod coarsening;
pub mod fib;
pub mod penrose;
pub mod phyllotaxis;
pub mod roughness;
pub mod zeckendorf;

pub use coarsening::{block_ranges, coarsening_block_sizes};
pub use fib::{fibonacci_sequence, standard_fibonacci};
pub use penrose::{edge_counts, penrose_inflate};
pub use phyllotaxis::bin_histogram;
pub use roughness::{box_count, boundary_cells, Cell};
pub use zeckendorf::zeckendorf;
