use rag_llm::rag::{format_context, Chunk, ChunkMetadata, VectorDatabase};
use rag_llm::ranking::{order_key, top_k_indices};

fn chunk(id: &str, doc: &str, embedding: Option<Vec<f32>>) -> Chunk<Vec<f32>> {
    Chunk {
        id: id.to_string(),
        content: format!("content of {}", id),
        embedding,
        metadata: ChunkMetadata {
            document_id: doc.to_string(),
            document_name: doc.to_uppercase(),
            chunk_index: 0,
            start_char: 0,
            end_char: 11,
            created_at: "2025-01-01".to_string(),
        },
    }
}

#[test]
fn test_add_and_search() {
    let mut db = VectorDatabase::new();
    db.add_chunk(chunk("1", "doc1", Some(vec![1.0, 0.0, 0.0])));
    db.add_chunk(chunk("2", "doc1", Some(vec![0.0, 1.0, 0.0])));
    assert_eq!(db.count(), 2);

    // Cosine similarities of the query [1, 0, 0] with the two embeddings.
    let scores = [1.0f32, 0.0];
    let keys: Vec<u32> = scores.iter().map(|s| order_key(s.to_bits())).collect();
    let top = top_k_indices(&keys, 1);
    assert_eq!(top.len(), 1);
    assert_eq!(db.chunks()[top[0]].id, "1");
}

#[test]
fn delete_by_document_keeps_others_in_order() {
    let mut db: VectorDatabase<Vec<f32>> = VectorDatabase::new();
    db.add_chunk(chunk("a", "x", None));
    db.add_chunk(chunk("b", "y", None));
    db.add_chunk(chunk("c", "x", None));
    db.add_chunk(chunk("d", "z", None));
    assert_eq!(db.count_by_document(&"x".to_string()), 2);
    assert_eq!(db.delete_by_document(&"x".to_string()), 2);
    let ids: Vec<&str> = db.chunks().iter().map(|c| c.id.as_str()).collect();
    assert_eq!(ids, vec!["b", "d"]);
    assert_eq!(db.delete_by_document(&"missing".to_string()), 0);
    assert_eq!(db.count(), 2);
    assert_eq!(db.count_by_document(&"x".to_string()), 0);
}

#[test]
fn add_chunks_appends_and_clear_empties() {
    let mut db: VectorDatabase<Vec<f32>> = VectorDatabase::new();
    db.add_chunk(chunk("a", "x", None));
    db.add_chunks(vec![chunk("b", "x", None), chunk("c", "y", Some(vec![1.0]))]);
    let ids: Vec<&str> = db.chunks().iter().map(|c| c.id.as_str()).collect();
    assert_eq!(ids, vec!["a", "b", "c"]);
    db.clear();
    assert_eq!(db.count(), 0);
}

#[test]
fn search_on_empty_store_or_zero_k_is_empty() {
    let keys: Vec<u32> = Vec::new();
    assert!(top_k_indices(&keys, 5).is_empty());
    let keys = vec![order_key(0.5f32.to_bits()), order_key((-0.5f32).to_bits())];
    assert!(top_k_indices(&keys, 0).is_empty());
    assert_eq!(top_k_indices(&keys, 5), vec![0, 1]);
}

#[test]
fn document_ids_sorted_and_unique() {
    let mut db: VectorDatabase<Vec<f32>> = VectorDatabase::new();
    for (id, doc) in [("1", "b"), ("2", "abc"), ("3", "b"), ("4", "B"), ("5", "ab"), ("6", "abc")] {
        db.add_chunk(chunk(id, doc, None));
    }
    assert_eq!(db.get_document_ids(), vec!["B", "ab", "abc", "b"]);
    let empty: VectorDatabase<Vec<f32>> = VectorDatabase::new();
    assert!(empty.get_document_ids().is_empty());
}

#[test]
fn embedded_positions_skip_chunks_without_embedding() {
    let mut db: VectorDatabase<Vec<f32>> = VectorDatabase::new();
    db.add_chunk(chunk("a", "x", None));
    db.add_chunk(chunk("b", "x", Some(vec![1.0])));
    db.add_chunk(chunk("c", "y", None));
    db.add_chunk(chunk("d", "y", Some(vec![0.5])));
    assert_eq!(db.embedded_positions(), vec![1, 3]);
    let empty: VectorDatabase<Vec<f32>> = VectorDatabase::new();
    assert!(empty.embedded_positions().is_empty());
}

#[test]
fn context_lists_results_numbered_from_one() {
    let results = vec![chunk("1", "alpha", None), chunk("2", "beta", None)];
    let text = format_context(&results);
    assert_eq!(
        text,
        "Relevant context:\n\nDocument 1: ALPHA\nContent: content of 1\n\nDocument 2: BETA\nContent: content of 2\n\n"
    );
    let none: Vec<Chunk<Vec<f32>>> = Vec::new();
    assert_eq!(format_context(&none), "Relevant context:\n\n");
}
