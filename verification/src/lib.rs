//! ewm-cortex: the HLLSet cortex pipeline, its K-storage and the integer
//! parts of the reproduction harness, with verified contracts.

pub mod byte_map;
pub mod bridge;
pub mod bytes_order;
pub mod corpus;
pub mod context_vocab;
pub mod data;
pub mod encoding;
pub mod fpga;
pub mod galois;
pub mod gate;
pub mod hashing;
pub mod hllset;
pub mod ingest;
pub mod kstorage;
pub mod lut;
pub mod materialize;
pub mod model;
pub mod moe;
pub mod phase1;
pub mod phase2;
pub mod phase3;
pub mod pipeline;
pub mod rng;
pub mod setkey;
pub mod text;
pub mod token_mask;

