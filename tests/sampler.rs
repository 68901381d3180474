use rag_llm::error::EngineError;
use rag_llm::sampler::Sampler;

#[test]
fn history_records_in_order_and_counts() {
    let mut s = Sampler::new();
    assert!(s.generated_tokens().is_empty());
    s.record(3);
    s.record(1);
    s.record(3);
    assert_eq!(s.generated_tokens(), &[3, 1, 3]);
    assert_eq!(s.token_count(3), 2);
    assert_eq!(s.token_count(1), 1);
    assert_eq!(s.token_count(0), 0);
    assert_eq!(s.repeat_counts(5), vec![0, 1, 0, 2, 0]);
}

#[test]
fn reset_behaves_like_new() {
    let mut a = Sampler::new();
    a.record(2);
    a.record(2);
    a.reset();
    let mut b = Sampler::new();
    assert_eq!(a.generated_tokens(), b.generated_tokens());
    assert_eq!(a.repeat_counts(4), b.repeat_counts(4));
    a.record(1);
    b.record(1);
    assert_eq!(a.generated_tokens(), b.generated_tokens());
    assert_eq!(a.repeat_counts(4), vec![0, 1, 0, 0]);
}

#[test]
fn repeat_counts_ignore_tokens_outside_vocabulary() {
    let mut s = Sampler::new();
    s.record(10);
    assert_eq!(s.repeat_counts(3), vec![0, 0, 0]);
    assert_eq!(s.repeat_counts(0), Vec::<usize>::new());
}

#[test]
fn finish_selection_records_only_on_success() {
    let mut s = Sampler::new();
    assert_eq!(s.finish_selection(0, None), Err(EngineError::EmptyInput));
    assert_eq!(s.finish_selection(4, None), Err(EngineError::DegenerateDistribution));
    assert!(s.generated_tokens().is_empty());
    assert_eq!(s.finish_selection(4, Some(3)), Ok(3));
    assert_eq!(s.finish_selection(4, Some(3)), Ok(3));
    assert_eq!(s.generated_tokens(), &[3, 3]);
    assert_eq!(s.token_count(3), 2);
}
