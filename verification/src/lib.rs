//! Checks and fixes the layout conventions of Rust source files: the order and spacing
//! of `use` and `mod` items, and the order and spacing of error enum variants.
pub mod check;
pub mod cli;
pub mod config;
pub mod diagnostic;
pub mod edit;
pub mod fix;
pub mod git;
pub mod order;
pub mod project;
pub mod rules;
pub mod source;
pub mod syntax;
pub mod text;
