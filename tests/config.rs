use rag_llm::config::ModelConfig;
use rag_llm::embeddings::EmbeddingModel;
use rag_llm::storage::IndexedDbStorage;

#[test]
fn model_config_new_keeps_urls_and_defaults() {
    let c = ModelConfig::new("m".to_string(), "t".to_string());
    assert_eq!(c.model_url, "m");
    assert_eq!(c.tokenizer_url, "t");
    assert_eq!(c.model_id, "Phi-3-mini-4k-instruct-q4");
    assert!(c.use_webgpu);
    assert_eq!(c.quantization, "Q4");
    assert_eq!(c.validate(), Ok(()));
}

#[test]
fn model_config_validate_reports_missing_urls() {
    let c = ModelConfig::new(String::new(), "t".to_string());
    assert_eq!(c.validate(), Err("Model URL cannot be empty".to_string()));
    let c = ModelConfig::new("m".to_string(), String::new());
    assert_eq!(c.validate(), Err("Tokenizer URL cannot be empty".to_string()));
    let c = ModelConfig::new(String::new(), String::new());
    assert_eq!(c.validate(), Err("Model URL cannot be empty".to_string()));
}

#[test]
fn model_config_default_is_valid() {
    let c = ModelConfig::default();
    assert!(c.model_url.ends_with("Phi-3-mini-4k-instruct-q4.gguf"));
    assert!(c.tokenizer_url.ends_with("tokenizer.json"));
    assert_eq!(c.validate(), Ok(()));
}

#[test]
fn embedding_model_defaults() {
    let m = EmbeddingModel::new("test".to_string());
    assert_eq!(m.dimension(), 384);
    assert!(!m.is_loaded());
    assert_eq!(m.model_name(), "test");
}

#[test]
fn storage_keeps_its_name() {
    let s = IndexedDbStorage::new("rag".to_string());
    assert_eq!(s.db_name(), "rag");
}
