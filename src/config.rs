//! Where the language model and its tokenizer come from.
use vstd::prelude::*;

verus! {

/// Model location and loading options.
#[derive(Debug, Clone)]
pub struct ModelConfig {
    /// Address of the model weights.
    pub model_url: String,
    /// Address of the tokenizer description.
    pub tokenizer_url: String,
    /// Name that identifies the model.
    pub model_id: String,
    /// Whether to run on the GPU when one is available.
    pub use_webgpu: bool,
    /// Quantization of the weights, such as `Q4` or `Q8`.
    pub quantization: String,
}

/// Why a configuration is unusable.
pub open spec fn config_problem(model_url: Seq<char>, tokenizer_url: Seq<char>) -> Option<Seq<char>> {
    if model_url.len() == 0 {
        Some("Model URL cannot be empty"@)
    } else if tokenizer_url.len() == 0 {
        Some("Tokenizer URL cannot be empty"@)
    } else {
        None
    }
}

impl Default for ModelConfig {
    fn default() -> (c: Self)
        ensures
            c.model_url@ == "https://huggingface.co/microsoft/Phi-3-mini-4k-instruct-gguf/resolve/main/Phi-3-mini-4k-instruct-q4.gguf"@,
            c.tokenizer_url@ == "https://huggingface.co/microsoft/Phi-3-mini-4k-instruct/resolve/main/tokenizer.json"@,
            c.model_id@ == "Phi-3-mini-4k-instruct-q4"@,
            c.use_webgpu,
            c.quantization@ == "Q4"@,
    {
        ModelConfig {
            model_url: "https://huggingface.co/microsoft/Phi-3-mini-4k-instruct-gguf/resolve/main/Phi-3-mini-4k-instruct-q4.gguf".to_owned(),
            tokenizer_url: "https://huggingface.co/microsoft/Phi-3-mini-4k-instruct/resolve/main/tokenizer.json".to_owned(),
            model_id: "Phi-3-mini-4k-instruct-q4".to_owned(),
            use_webgpu: true,
            quantization: "Q4".to_owned(),
        }
    }
}

impl ModelConfig {
    /// A configuration for the given addresses, with the default identity and options.
    pub fn new(model_url: String, tokenizer_url: String) -> (c: Self)
        ensures
            c.model_url == model_url,
            c.tokenizer_url == tokenizer_url,
            c.model_id@ == "Phi-3-mini-4k-instruct-q4"@,
            c.use_webgpu,
            c.quantization@ == "Q4"@,
    {
        let d = ModelConfig::default();
        ModelConfig {
            model_url,
            tokenizer_url,
            model_id: d.model_id,
            use_webgpu: d.use_webgpu,
            quantization: d.quantization,
        }
    }

    /// Accepts the configuration when both addresses are given.
    pub fn validate(&self) -> (r: Result<(), String>)
        ensures
            match config_problem(self.model_url@, self.tokenizer_url@) {
                None => r is Ok,
                Some(msg) => r matches Err(e) && e@ == msg,
            },
    {
        if self.model_url.as_str().is_empty() {
            return Err("Model URL cannot be empty".to_owned());
        }
        if self.tokenizer_url.as_str().is_empty() {
            return Err("Tokenizer URL cannot be empty".to_owned());
        }
        Ok(())
    }
}

} // verus!
