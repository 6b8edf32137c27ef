//! Expression-structure core of the EML symbolic-regression engine.

pub mod assemble;
pub mod bfs;
pub mod builder;
pub mod dictionary;
pub mod expression;
pub mod fable;
pub mod feature;
pub mod optimizer;
pub mod pareto;
pub mod powerlaw;
pub mod pure_eml;
pub mod realbits;
pub mod registry;
pub mod seen;
pub mod render;
pub mod supports;
pub mod text;
