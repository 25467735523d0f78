//! Solvers for two text-grid puzzles: an engine **schematic** (numbers on a
//! 2-D character grid scored by adjacency to symbols) and a stack of
//! **scratchcards** (lines of winning and attempted numbers scored by match
//! count and by forward copy propagation).
//!
//! Both pipelines share one shape: a parser turns the raw bytes of the input
//! text into an in-memory model, and two solver functions reduce that model
//! to one integer each. Every function states exactly what it returns for
//! every input; `None` results appear if and only if the input is malformed
//! or an answer does not fit in `u64`.

pub mod cards;
pub mod digits;
pub mod schematic;
pub mod sums;
