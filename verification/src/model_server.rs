//! The value types a model-serving endpoint exchanges: plain success or
//! failure, the inference answer, and a summary of the loaded model. The
//! server itself drives trait-object models against host storage and lives
//! outside the verified core.

use vstd::prelude::*;

verus! {

use crate::candle::ModelMetadata;
use crate::text_generation::GenerationResponse;

/// The answer to one inference request.
pub struct InferenceResponse {
    pub generated_text: String,
    pub tokens_generated: usize,
    pub instructions_used: u64,
    pub success: bool,
    pub error: Option<String>,
}

/// A summary of what is loaded and how far generation has come.
pub struct ModelInfo {
    pub loaded: bool,
    pub current_tokens: usize,
    pub metadata: Option<ModelMetadata>,
}

impl From<GenerationResponse> for InferenceResponse {
    /// A successful generation run as an inference answer.
    fn from(resp: GenerationResponse) -> (r: Self) {
        InferenceResponse {
            generated_text: resp.text,
            tokens_generated: resp.tokens_generated,
            instructions_used: resp.instructions_used,
            success: true,
            error: None,
        }
    }
}

impl vstd::std_specs::convert::FromSpecImpl<GenerationResponse> for InferenceResponse {
    open spec fn obeys_from_spec() -> bool {
        true
    }

    open spec fn from_spec(resp: GenerationResponse) -> Self {
        InferenceResponse {
            generated_text: resp.text,
            tokens_generated: resp.tokens_generated,
            instructions_used: resp.instructions_used,
            success: true,
            error: None,
        }
    }
}

} // verus!
