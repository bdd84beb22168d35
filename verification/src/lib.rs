use vstd::prelude::*;

pub mod gguf;
pub mod kv_cache;
pub mod model;
pub mod ranking;
pub mod serving;
pub mod text;
pub mod tokenizer;
pub mod tensor;
