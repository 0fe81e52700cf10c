//! Weighted finite-state transducers: label reachability, composition filters,
//! lazy-expansion caches and graph transforms, with verified contracts.

pub mod arc;
pub mod cache;
pub mod closure;
pub mod compose;
pub mod compose_filters;
pub mod error;
pub mod factor_weight;
pub mod fst;
pub mod interval_set;
pub mod label_reachable;
pub mod label_transform;
pub mod lookahead_filter;
pub mod lookahead_matcher;
pub mod matchers;
pub mod reweight;
pub mod semiring;
pub mod state_reachable;
pub mod weight_convert;
