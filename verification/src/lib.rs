//! Belief-propagation decoders for sparse parity-check codes, in fixed-point arithmetic.

pub mod adaptive_relay;
pub mod arith;
pub mod clip_bp;
pub mod decoder;
pub mod disordered_bp;
pub mod draws;
pub mod dual_relay;
pub mod ensemble_decoder;
pub mod ensemble_members;
pub mod gf2;
pub mod laws;
pub mod lbf;
pub mod logistic;
pub mod lrbp;
pub mod lsd;
pub mod matrix;
pub mod min_sum;
pub mod names;
pub mod observable_decoder;
pub mod options;
pub mod order;
pub mod rejection_decoder;
pub mod relay;
pub mod slg_mbp;
pub mod step1;
pub mod table;
pub mod text;
pub mod union_find;
