//! What the HTTP front end reads off a model file and how it picks a
//! generation strategy for a request.
use vstd::prelude::*;

use crate::gguf::{GgufFile, GgufValue, SpecGgufFile, SpecValue, metadata_lookup};
use crate::model::{tensor_index, try_find_tensor};
use crate::tensor::dtype_name;

verus! {

/// The generation strategy a request asks for.
#[derive(Debug, Clone, Copy, PartialEq, Eq, Structural)]
pub enum GenerationMode {
    /// Every step reruns the whole sequence through the model.
    Naive,
    /// Every step feeds one token and reuses the KV-cache.
    Cached,
}

impl GenerationMode {
    /// `"naive"` selects naive generation; any other name the cached one.
    pub fn from_name(name: &str) -> (r: Self)
        ensures
            r == (if name@ == "naive"@ {
                GenerationMode::Naive
            } else {
                GenerationMode::Cached
            }),
    {
        let given: String = name.to_owned();
        let naive: String = "naive".to_owned();
        if given == naive {
            GenerationMode::Naive
        } else {
            GenerationMode::Cached
        }
    }
}

/// The model's display name: the first `general.name` entry when it is a
/// string, `"unknown"` otherwise.
pub open spec fn spec_model_name(f: SpecGgufFile) -> Seq<char> {
    match metadata_lookup(f.metadata, "general.name"@) {
        Some(SpecValue::Str(s)) => s,
        _ => "unknown"@,
    }
}

/// The name of the model's quantization, read off one representative weight
/// tensor (`blk.0.attn_q.weight`): its type's name, `"unknown"` when the
/// tensor is missing.
pub open spec fn spec_quantization(f: SpecGgufFile) -> Seq<char> {
    match tensor_index(f.tensors, "blk.0.attn_q.weight"@) {
        Some(i) => {
            let t = f.tensors[i].dtype;
            if t == 0 {
                "F32"@
            } else if t == 1 {
                "F16"@
            } else if t == 8 {
                "Q8_0"@
            } else {
                "unknown"@
            }
        },
        None => "unknown"@,
    }
}

/// The model's display name ([`spec_model_name`]).
pub fn model_name(file: &GgufFile) -> (r: String)
    ensures
        r@ == spec_model_name(file@),
{
    match file.find_metadata("general.name") {
        Some(GgufValue::String(s)) => s.clone(),
        _ => "unknown".to_owned(),
    }
}

/// The model's quantization name ([`spec_quantization`]).
pub fn quantization_name(file: &GgufFile) -> (r: &'static str)
    ensures
        r@ == spec_quantization(file@),
{
    match try_find_tensor(file, "blk.0.attn_q.weight") {
        Some(t) => dtype_name(t.dtype),
        None => "unknown",
    }
}

} // verus!
