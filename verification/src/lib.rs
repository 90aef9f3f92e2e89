use vstd::prelude::*;

pub mod chars;
pub mod text;
pub mod code;
pub mod tokenizer;
pub mod bpe_training;
pub mod wordpiece_training;
pub mod config;
pub mod evaluation;
pub mod commands;
pub mod benchmark;
pub mod mmap;
pub mod pretrained;
pub mod backend;
pub mod transfer;
pub mod training;
pub mod export;

verus! {

} // verus!
