use agent_memory::Embedding;
use agent_memory::EmbeddingProvider;
use agent_memory::Fact;
use agent_memory::HashEmbeddingProvider;
use agent_memory::MemoryStore;
use agent_memory::MemoryValue;
use agent_memory::SemanticMemory;

#[test]
fn test_semantic_memory_store_and_retrieve() {
    let mut store = MemoryStore::new();
    let semantic = SemanticMemory::new("test-agent");

    let fact = Fact::new("user:alice", "prefers", MemoryValue::Str("dark_mode".to_string()))
        .with_confidence(900);
    let fact_id = fact.id.clone();
    semantic.store_fact(&mut store, fact).unwrap();

    let retrieved = semantic.get_fact(&store, fact_id.as_str()).unwrap().unwrap();
    assert_eq!(retrieved.subject.as_str(), "user:alice");
    assert_eq!(retrieved.predicate.as_str(), "prefers");
    assert_eq!(retrieved.object.as_str().map(|s| s.as_str()), Some("dark_mode"));
    assert_eq!(retrieved.confidence, 900);
}

#[test]
fn test_semantic_memory_find_by_subject() {
    let mut store = MemoryStore::new();
    let semantic = SemanticMemory::new("test-agent");

    semantic.store_fact(&mut store, Fact::new("user:alice", "prefers", MemoryValue::Str("dark_mode".to_string()))).unwrap();
    semantic.store_fact(&mut store, Fact::new("user:alice", "likes", MemoryValue::Str("coffee".to_string()))).unwrap();
    semantic.store_fact(&mut store, Fact::new("user:bob", "prefers", MemoryValue::Str("light_mode".to_string()))).unwrap();

    assert_eq!(semantic.find_by_subject(&store, "user:alice").unwrap().len(), 2);
    assert_eq!(semantic.find_by_subject(&store, "user:bob").unwrap().len(), 1);
}

#[test]
fn test_semantic_memory_find_by_predicate() {
    let mut store = MemoryStore::new();
    let semantic = SemanticMemory::new("test-agent");

    semantic.store_fact(&mut store, Fact::new("user:alice", "prefers", MemoryValue::Str("dark_mode".to_string()))).unwrap();
    semantic.store_fact(&mut store, Fact::new("user:bob", "prefers", MemoryValue::Str("light_mode".to_string()))).unwrap();
    semantic.store_fact(&mut store, Fact::new("user:alice", "likes", MemoryValue::Str("coffee".to_string()))).unwrap();

    assert_eq!(semantic.find_by_predicate(&store, "prefers").unwrap().len(), 2);
    assert_eq!(semantic.find_by_predicate(&store, "likes").unwrap().len(), 1);
}

#[test]
fn test_semantic_memory_delete() {
    let mut store = MemoryStore::new();
    let semantic = SemanticMemory::new("test-agent");

    let fact = Fact::new("user:alice", "prefers", MemoryValue::Str("dark_mode".to_string()));
    let fact_id = fact.id.clone();
    semantic.store_fact(&mut store, fact).unwrap();
    assert_eq!(semantic.count(&store).unwrap(), 1);

    semantic.delete_fact(&mut store, fact_id.as_str()).unwrap();
    assert_eq!(semantic.count(&store).unwrap(), 0);
}

#[test]
fn fixed_point_cosine_on_axis_vectors() {
    let e1 = Embedding::new(vec![1000, 0, 0], "test");
    let e2 = Embedding::new(vec![1000, 0, 0], "test");
    let e3 = Embedding::new(vec![0, 1000, 0], "test");

    // identical unit vectors: exactly one, in thousandths
    assert_eq!(e1.cosine_similarity(&e2).unwrap(), 1000);
    // orthogonal vectors: exactly zero
    assert_eq!(e1.cosine_similarity(&e3).unwrap(), 0);
    // a dimensionality mismatch is rejected
    let short = Embedding::new(vec![1000], "test");
    assert!(e1.cosine_similarity(&short).is_err());
}

#[test]
fn fixed_point_euclidean_distance() {
    let e1 = Embedding::new(vec![1000, 0, 0], "test");
    let e2 = Embedding::new(vec![1000, 0, 0], "test");
    let e3 = Embedding::new(vec![0, 1000, 0], "test");

    assert_eq!(e1.euclidean_distance(&e2).unwrap(), 0);
    // sqrt(2) in thousandths, floored
    assert_eq!(e1.euclidean_distance(&e3).unwrap(), 1414);
}

#[test]
fn test_hash_embedding_provider() {
    let provider = HashEmbeddingProvider::new(128);

    let emb1 = provider.embed("Hello world").unwrap();
    let emb2 = provider.embed("Hello world").unwrap();
    let emb3 = provider.embed("Different text").unwrap();

    assert_eq!(emb1.dimensions(), 128);
    assert_eq!(emb1.model_name(), "hash");
    // the same text always embeds identically: cosine similarity exactly one
    assert_eq!(emb1.coordinates(), emb2.coordinates());
    assert_eq!(emb1.cosine_similarity(&emb2).unwrap(), 1000);
    // different text embeds differently
    assert_ne!(emb1.coordinates(), emb3.coordinates());
    assert!(emb1.cosine_similarity(&emb3).unwrap() < 1000);
}

#[test]
fn cosine_of_a_vector_with_itself_is_one() {
    // small coordinates, where a floored per-norm root would overshoot
    let tiny = Embedding::new(vec![1, 1], "test");
    assert_eq!(tiny.cosine_similarity(&tiny).unwrap(), 1000);
    let mixed = Embedding::new(vec![3, -7, 20], "test");
    assert_eq!(mixed.cosine_similarity(&mixed).unwrap(), 1000);
    // orthogonal vectors score exactly zero
    let a = Embedding::new(vec![3, 0], "test");
    let b = Embedding::new(vec![0, 9], "test");
    assert_eq!(a.cosine_similarity(&b).unwrap(), 0);
}

#[test]
fn vector_search_ranks_by_similarity() {
    let mut store = MemoryStore::new();
    let semantic = SemanticMemory::new("test-agent");

    let close = Fact::new("a", "is", MemoryValue::Int(1))
        .with_embedding(Embedding::new(vec![1000, 0], "test"));
    let far = Fact::new("b", "is", MemoryValue::Int(2))
        .with_embedding(Embedding::new(vec![0, 1000], "test"));
    let close_id = close.id.clone();
    semantic.store_fact(&mut store, close).unwrap();
    semantic.store_fact(&mut store, far).unwrap();

    let query = Embedding::new(vec![1000, 0], "test");
    let results = semantic.vector_search(&store, &query, 10, 500).unwrap();
    assert_eq!(results.len(), 1);
    assert_eq!(results[0].item.id, close_id);
    assert_eq!(results[0].score, 1000);

    let all = semantic.vector_search(&store, &query, 10, -1000).unwrap();
    assert_eq!(all.len(), 2);
    assert!(all[0].score >= all[1].score);
}

#[test]
fn store_fact_with_embedding_attaches_one() {
    let mut store = MemoryStore::new();
    let semantic = SemanticMemory::new("test-agent");
    let provider = HashEmbeddingProvider::new(16);

    let fact = Fact::new("user:alice", "prefers", MemoryValue::Str("tea".to_string()));
    let fact_id = fact.id.clone();
    semantic.store_fact_with_embedding(&mut store, fact, &provider).unwrap();

    let stored = semantic.get_fact(&store, fact_id.as_str()).unwrap().unwrap();
    assert!(stored.embedding.is_some());
    assert_eq!(stored.embedding.as_ref().unwrap().dimensions(), 16);

    let similar = semantic.find_similar(&store, "user:alice prefers tea", &provider, 5, -1000).unwrap();
    assert_eq!(similar.len(), 1);
}
