//! The host side of MiniMax H3 inference.
//!
//! Every GPU kernel of the pipeline is launched from a plan: which rows a sequence has, which bytes of
//! a checkpoint a weight is made of, which kernels a transformer block runs and what each of them may
//! touch. This crate computes those plans. What it does not do is talk to a device, a file or the
//! network, and it holds no floating point: those stand in the program around it.
pub mod bytes;
pub mod capi;
pub mod charsmap;
pub mod checkpoint;
pub mod compile;
pub mod conditioning;
pub mod dispatch;
pub mod dit;
pub mod error;
pub mod hrx;
pub mod json;
pub mod layout;
pub mod model;
pub mod models;
pub mod names;
pub mod noise;
pub mod radix;
pub mod rope;
pub mod sampler;
pub mod session;
pub mod stack;
pub mod text;
pub mod tiles;
pub mod tokenizer;
pub mod vision;
pub mod vocabulary;
pub mod vvae;
pub mod weights;
