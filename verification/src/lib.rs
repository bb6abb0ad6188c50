//! Schema-aware rewriting support for JSONPath queries: document automata,
//! their determinisation and minimisation, a product construction that
//! decides whether two query automata disagree on documents of a given shape,
//! and the choice of the candidate rewrites that agree with a query.

pub mod arith;
pub mod automaton;
pub mod product;
pub mod tooling;
pub mod rewrite_benchmark;
pub mod generators;
pub mod json;
pub mod preprocessor;
pub mod extraction;
pub mod json_schema_parser;
pub mod order;
pub mod nfa_minimizer;
pub mod optimizer;
pub mod subsets;
pub mod shape;
