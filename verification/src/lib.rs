//! Building blocks of a fast shell prompt renderer: style parsing and ANSI
//! rendering, per-render memoisation, and the data-shaping logic of the
//! prompt modules (git, json, path, bun, elixir).
use vstd::prelude::*;

pub mod error;
pub mod executor;
pub mod memo;
pub mod modules;
pub mod style;
pub mod text;

verus! {
} // verus!
