//! DjQlint — a linter for inefficient Django ORM queries in Python source.
//!
//! The library holds the analysis itself: a plain model of the Python syntax
//! tree, the QuerySet data-flow model, the three built-in rules, inline
//! suppression directives and the aggregate report data. Every function here
//! is verified by Verus against its contract, except the thin wrappers around
//! calls into `tree-sitter`, `regex` and `std`, whose contracts are trusted and
//! say so in their documentation.

pub mod text;
pub mod cli;
pub mod config;
pub mod diagnostic;
pub mod engine;
pub mod reporters;
pub mod rules;
