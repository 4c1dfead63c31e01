//! Merges a package and the libraries it depends on into one source file: the
//! dependency traversal and section plan, module and inclusion expansion, and
//! the optimizer's rewrites, each with a verified contract.

pub mod bundler;
pub mod modules;
pub mod optimizer;
pub mod plan;
pub mod tokens;
