//! What the decoders promise, stated of their inputs and results alone.

pub mod adaptive;
pub mod breeding;
pub mod clip;
pub mod clusters;
pub mod code;
pub mod disordered;
pub mod dual;
pub mod ensemble;
pub mod flipping;
pub mod iteration;
pub mod legs;
pub mod lrbp;
pub mod metrics;
pub mod observables;
pub mod records;
pub mod rejection;
pub mod relay;
pub mod search;
pub mod search_leg;
pub mod setup;
pub mod supply;
pub mod told;
