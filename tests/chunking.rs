use rag_llm::chunking::chunk_fixed_size;
use rag_llm::rag::{Chunk, Document, DocumentMetadata};

fn document(id: &str, content: String) -> Document {
    Document {
        id: id.to_string(),
        name: "Test Document".to_string(),
        content,
        metadata: DocumentMetadata {
            file_type: "txt".to_string(),
            size_bytes: 1000,
            uploaded_at: "2025-01-01".to_string(),
            num_chunks: 0,
        },
    }
}

#[test]
fn test_fixed_size_chunking() {
    let doc = document("test_doc", "a".repeat(1000));
    let chunks: Vec<Chunk<Vec<f32>>> = chunk_fixed_size(&doc, 100, 10);
    assert!(!chunks.is_empty());
    assert!(chunks[0].content.len() <= 100);
}

#[test]
fn fixed_size_spans_overlap() {
    let doc = document("d", "abcdefghij".to_string());
    let chunks: Vec<Chunk<Vec<f32>>> = chunk_fixed_size(&doc, 4, 1);
    let spans: Vec<(usize, usize)> =
        chunks.iter().map(|c| (c.metadata.start_char, c.metadata.end_char)).collect();
    assert_eq!(spans, vec![(0, 4), (3, 7), (6, 10)]);
    let contents: Vec<&str> = chunks.iter().map(|c| c.content.as_str()).collect();
    assert_eq!(contents, vec!["abcd", "defg", "ghij"]);
    let ids: Vec<&str> = chunks.iter().map(|c| c.id.as_str()).collect();
    assert_eq!(ids, vec!["d_0", "d_1", "d_2"]);
    assert_eq!(chunks[2].metadata.chunk_index, 2);
    assert_eq!(chunks[0].metadata.created_at, "2025-01-01T00:00:00Z");
    assert!(chunks.iter().all(|c| c.embedding.is_none()));
}

#[test]
fn chunking_counts_and_empty_text() {
    let doc = document("big", "a".repeat(1000));
    let chunks: Vec<Chunk<Vec<f32>>> = chunk_fixed_size(&doc, 100, 10);
    assert_eq!(chunks.len(), 11);
    assert_eq!(chunks[10].id, "big_10");
    assert_eq!((chunks[10].metadata.start_char, chunks[10].metadata.end_char), (900, 1000));
    let empty = document("e", String::new());
    let none: Vec<Chunk<Vec<f32>>> = chunk_fixed_size(&empty, 5, 0);
    assert!(none.is_empty());
    let short = document("s", "xy".to_string());
    let one: Vec<Chunk<Vec<f32>>> = chunk_fixed_size(&short, 5, 2);
    assert_eq!(one.len(), 1);
    assert_eq!(one[0].content, "xy");
}
