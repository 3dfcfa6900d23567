//! A generational search that recombines the posteriors of belief propagation.

pub mod adapt;
pub mod biased;
pub mod config;
pub mod decode;
pub mod evaluate;
pub mod ga_ops;
pub mod generation;
pub mod init_population;
pub mod observe;
pub mod phase;
pub mod search;
pub mod solutions;
pub mod trace;
