//! The prompt modules.
pub mod git;
pub mod json;
pub mod path;
pub mod bun;
pub mod elixir;
pub mod version;
