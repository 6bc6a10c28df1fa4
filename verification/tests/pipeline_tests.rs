use localdb::backfill::backfill_embeddings;
use localdb::backfill::EmbedProvider;
use localdb::embedder::FakeEmbedder;
use localdb::error::Error;
use localdb::hashing::hash_content;
use localdb::index_build::build_ivfpq_index;
use localdb::index_build::count_ready_vectors;
use localdb::index_build::flip_active_index;
use localdb::index_build::get_active_index_id;
use localdb::index_build::make_index_name;
use localdb::index_build::require_active_index;
use localdb::index_build::sync_serving_vectors_from_embeddings;
use localdb::index_build::validate_index;
use localdb::params::compute_ivfpq_params;
use localdb::store::CacheEntry;
use localdb::store::Store;
use localdb::types::DocumentChunk;
use localdb::types::EmbeddingStatus;

/// The floating-point half of the deterministic test embedder.
fn fake_embed_bits(fe: &FakeEmbedder, text: &str) -> Vec<u32> {
    let mut v = vec![0f32; fe.dim];
    for (idx, hi, ord) in fe.token_buckets(text) {
        let val = (hi as f32) / (u32::MAX as f32);
        v[idx] += val + (ord as f32) * 0.01;
    }
    let norm = v.iter().map(|x| x * x).sum::<f32>().sqrt().max(1e-6);
    v.iter().map(|x| (x / norm).to_bits()).collect()
}

struct FoldedFakeProvider {
    fe: FakeEmbedder,
}

impl EmbedProvider for FoldedFakeProvider {
    fn embedder_id(&self) -> String {
        format!("local:fake:d{}", self.fe.dim)
    }

    fn dim(&self) -> usize {
        self.fe.dim
    }

    fn max_len(&self) -> usize {
        256
    }

    fn embed_batch(&self, texts: &Vec<String>) -> Result<Vec<Vec<u32>>, String> {
        Ok(texts.iter().map(|t| fake_embed_bits(&self.fe, t)).collect())
    }
}

struct FailingProvider;

impl EmbedProvider for FailingProvider {
    fn embedder_id(&self) -> String {
        "local:failing:d8".to_string()
    }

    fn dim(&self) -> usize {
        8
    }

    fn max_len(&self) -> usize {
        256
    }

    fn embed_batch(&self, _texts: &Vec<String>) -> Result<Vec<Vec<u32>>, String> {
        Err("boom".to_string())
    }
}

fn chunk(i: usize, n: usize) -> DocumentChunk {
    DocumentChunk {
        id: format!("doc:{}", i),
        doc_id: format!("doc:{}", i),
        doc_path: format!("/tmp/doc{}.txt", i),
        category: "/test".to_string(),
        category_text: "/test".to_string(),
        content: format!("hello world {}", i),
        chunk_index: i,
        total_chunks: n,
    }
}

fn seeded_store(n: usize, dim: usize) -> Store {
    let mut store = Store::new(dim);
    let chunks: Vec<DocumentChunk> = (0..n).map(|i| chunk(i, n)).collect();
    let vectors: Vec<Option<Vec<u32>>> = (0..n).map(|_| None).collect();
    store.append_documents(&chunks, &vectors, 1_700_000_000_000).unwrap();
    store
}

#[test]
fn backfill_and_sync_in_memory_fast() {
    let n = 32usize;
    let mut store = seeded_store(n, 64);
    let provider = FoldedFakeProvider { fe: FakeEmbedder::new(64) };
    let pid = provider.embedder_id();

    let processed = backfill_embeddings(&mut store, &provider, &pid, 16, None, 1_700_000_000_001);
    assert_eq!(processed, n);

    // Every row is ready, with a vector-backed cache entry per distinct
    // content.
    for i in 0..store.docs_len() {
        let row = store.doc_ref(i);
        assert_eq!(row.embedding_status, EmbeddingStatus::Ready);
        assert_eq!(row.embedding_version, 1);
        assert!(row.embedding_error.is_none());
    }
    assert_eq!(store.cache_len(), n);
    assert_eq!(store.embs_len(), n);

    let updated = sync_serving_vectors_from_embeddings(&mut store, &pid);
    assert!(updated >= n);
    assert_eq!(count_ready_vectors(&store), n);
}

#[test]
fn ready_rows_hit_the_cache_with_their_latest_embedding() {
    let n = 8usize;
    let mut store = seeded_store(n, 16);
    let provider = FoldedFakeProvider { fe: FakeEmbedder::new(16) };
    let pid = provider.embedder_id();
    backfill_embeddings(&mut store, &provider, &pid, 3, None, 7);

    for i in 0..store.docs_len() {
        let (status, hash, id) = {
            let row = store.doc_ref(i);
            (row.embedding_status, row.content_hash.clone(), row.id.clone())
        };
        assert_eq!(status, EmbeddingStatus::Ready);
        assert_eq!(hash, hash_content(&store.doc_ref(i).content));
        // The cache answers the row's hash...
        let cached = store.get_many(&pid, &vec![hash.clone()]);
        assert_eq!(cached.len(), 1);
        // ...with the vector of the latest embeddings row for the id.
        let mut latest: Option<Vec<u32>> = None;
        for e in 0..store.embs_len() {
            let emb = store.emb_ref(e);
            if emb.id == id && emb.embedder_id == pid {
                assert_eq!(emb.content_hash, hash);
                latest = Some(emb.vector.clone());
            }
        }
        assert_eq!(cached[0].1, latest.expect("a ready row has an embeddings row"));
    }
}

#[test]
fn backfill_is_restartable_after_a_provider_failure() {
    let n = 6usize;
    let mut store = seeded_store(n, 16);
    let bad = FailingProvider;
    let pid = "local:fake:d16".to_string();

    let processed = backfill_embeddings(&mut store, &bad, &pid, 4, None, 9);
    assert_eq!(processed, 0);
    for i in 0..store.docs_len() {
        let row = store.doc_ref(i);
        assert_eq!(row.embedding_status, EmbeddingStatus::Error);
        assert_eq!(row.embedding_error, Some("boom".to_string()));
    }

    // Error rows are back on the frontier: a working provider finishes the
    // job.
    let good = FoldedFakeProvider { fe: FakeEmbedder::new(16) };
    let processed = backfill_embeddings(&mut store, &good, &pid, 4, None, 10);
    assert_eq!(processed, n);
    for i in 0..store.docs_len() {
        let row = store.doc_ref(i);
        assert_eq!(row.embedding_status, EmbeddingStatus::Ready);
        assert!(row.embedding_error.is_none());
    }
}

#[test]
fn stale_reservations_can_be_reclaimed() {
    // Two rows share a content, a third is fresh. Backfilling only the first
    // row caches the shared content.
    let mut store = Store::new(16);
    let contents = ["shared words", "shared words", "only here"];
    let chunks: Vec<DocumentChunk> = contents
        .iter()
        .enumerate()
        .map(|(i, c)| {
            let mut ch = chunk(i, 3);
            ch.content = c.to_string();
            ch
        })
        .collect();
    store.append_documents(&chunks, &vec![None, None, None], 40).unwrap();
    let good = FoldedFakeProvider { fe: FakeEmbedder::new(16) };
    let pid = good.embedder_id();
    backfill_embeddings(&mut store, &good, &pid, 1, Some(1), 41);
    assert_eq!(store.doc_ref(0).embedding_status, EmbeddingStatus::Ready);

    // A provider failure on the remaining batch sends only the miss to
    // error; the cache hit stays reserved, as a crashed worker would leave
    // it.
    let bad = FailingProvider;
    backfill_embeddings(&mut store, &bad, &pid, 2, None, 42);
    assert_eq!(store.doc_ref(1).embedding_status, EmbeddingStatus::InProgress);
    assert_eq!(store.doc_ref(2).embedding_status, EmbeddingStatus::Error);

    // Reclaim returns the reserved row to new; the next run finishes it.
    store.reclaim_in_progress(&vec![1]);
    assert_eq!(store.doc_ref(1).embedding_status, EmbeddingStatus::New);
    backfill_embeddings(&mut store, &good, &pid, 4, None, 43);
    for i in 0..store.docs_len() {
        assert_eq!(store.doc_ref(i).embedding_status, EmbeddingStatus::Ready);
    }
}

#[test]
fn a_cached_frontier_needs_no_provider() {
    // Two rows share one content. Backfilling the first caches that content,
    // so the second row's whole frontier is answered by the cache: the run
    // must succeed even though the provider fails every call.
    let mut store = Store::new(16);
    let chunks: Vec<DocumentChunk> = (0..2)
        .map(|i| {
            let mut ch = chunk(i, 2);
            ch.content = "same words".to_string();
            ch
        })
        .collect();
    store.append_documents(&chunks, &vec![None, None], 50).unwrap();
    let good = FoldedFakeProvider { fe: FakeEmbedder::new(16) };
    let pid = good.embedder_id();
    assert_eq!(backfill_embeddings(&mut store, &good, &pid, 1, Some(1), 51), 1);

    let bad = FailingProvider;
    let processed = backfill_embeddings(&mut store, &bad, &pid, 4, None, 52);
    assert_eq!(processed, 1);
    for i in 0..store.docs_len() {
        assert_eq!(store.doc_ref(i).embedding_status, EmbeddingStatus::Ready);
    }
}

#[test]
fn backfill_respects_the_limit() {
    let n = 10usize;
    let mut store = seeded_store(n, 16);
    let provider = FoldedFakeProvider { fe: FakeEmbedder::new(16) };
    let pid = provider.embedder_id();
    let processed = backfill_embeddings(&mut store, &provider, &pid, 4, Some(3), 11);
    assert_eq!(processed, 3);
    let ready = (0..store.docs_len()).filter(|&i| {
        store.doc_ref(i).embedding_status == EmbeddingStatus::Ready
    }).count();
    assert_eq!(ready, 3);
}

#[test]
fn backfill_and_build_index_in_memory_slow() {
    let n = 300usize;
    let mut store = seeded_store(n, 1024);
    let provider = FoldedFakeProvider { fe: FakeEmbedder::new(1024) };
    let pid = provider.embedder_id();

    let processed = backfill_embeddings(&mut store, &provider, &pid, 64, None, 12);
    assert_eq!(processed, n);
    let updated = sync_serving_vectors_from_embeddings(&mut store, &pid);
    assert!(updated >= n);

    let ready = count_ready_vectors(&store);
    assert_eq!(ready, n);
    let params = compute_ivfpq_params(ready, provider.dim());
    assert!(params.nlist <= 299);
    assert_eq!(params.m, 32);
    assert_eq!(params.nbits, 8);

    let index_name = make_index_name("20240101-120000", &pid);
    build_ivfpq_index(&mut store, &index_name, &params).unwrap();
    assert!(validate_index(&store, 5, 5));
    flip_active_index(&mut store, "documents", &index_name, 13);
    let active = get_active_index_id(&store, "documents");
    assert_eq!(active.as_deref(), Some(index_name.as_str()));
}

#[test]
fn the_flip_is_the_only_meta_write_of_a_build() {
    let mut store = seeded_store(4, 16);
    let provider = FoldedFakeProvider { fe: FakeEmbedder::new(16) };
    let pid = provider.embedder_id();
    backfill_embeddings(&mut store, &provider, &pid, 4, None, 20);
    sync_serving_vectors_from_embeddings(&mut store, &pid);

    let first = make_index_name("20240101-000000", &pid);
    let params = compute_ivfpq_params(4, 16);
    build_ivfpq_index(&mut store, &first, &params).unwrap();
    flip_active_index(&mut store, "documents", &first, 21);
    assert_eq!(get_active_index_id(&store, "documents").as_deref(), Some(first.as_str()));

    // A second build leaves the pointer on the old name until its own flip.
    let second = make_index_name("20240101-000001", &pid);
    build_ivfpq_index(&mut store, &second, &params).unwrap();
    assert!(validate_index(&store, 5, 5));
    assert_eq!(get_active_index_id(&store, "documents").as_deref(), Some(first.as_str()));
    flip_active_index(&mut store, "documents", &second, 22);
    assert_eq!(get_active_index_id(&store, "documents").as_deref(), Some(second.as_str()));
}

#[test]
fn cache_put_many_is_idempotent() {
    let mut store = Store::new(4);
    let entries = vec![
        CacheEntry {
            content_hash: "h1".to_string(),
            embedder_id: "p".to_string(),
            vector: vec![1, 2, 3, 4],
        },
        CacheEntry {
            content_hash: "h2".to_string(),
            embedder_id: "p".to_string(),
            vector: vec![5, 6, 7, 8],
        },
    ];
    let hashes = vec!["h1".to_string(), "h2".to_string()];
    store.put_many(&entries, 1);
    let mut once = store.get_many("p", &hashes);
    store.put_many(&entries, 2);
    let mut twice = store.get_many("p", &hashes);
    once.sort_by(|a, b| a.0.cmp(&b.0));
    twice.sort_by(|a, b| a.0.cmp(&b.0));
    assert_eq!(once, twice);
    assert_eq!(once.len(), 2);
    assert_eq!(once[0].1, vec![1, 2, 3, 4]);
}

#[test]
fn cache_get_many_misses_are_absent() {
    let mut store = Store::new(2);
    store.put_many(
        &vec![CacheEntry {
            content_hash: "h1".to_string(),
            embedder_id: "p".to_string(),
            vector: vec![1, 2],
        }],
        1,
    );
    let found = store.get_many("p", &vec!["h1".to_string(), "h2".to_string()]);
    assert_eq!(found.len(), 1);
    assert_eq!(found[0].0, "h1");
    // Another provider id sees nothing.
    assert!(store.get_many("q", &vec!["h1".to_string()]).is_empty());
}

#[test]
fn every_stored_vector_has_the_configured_dimensionality() {
    let n = 5usize;
    let mut store = seeded_store(n, 16);
    let provider = FoldedFakeProvider { fe: FakeEmbedder::new(16) };
    let pid = provider.embedder_id();
    backfill_embeddings(&mut store, &provider, &pid, 2, None, 30);
    sync_serving_vectors_from_embeddings(&mut store, &pid);
    for e in 0..store.embs_len() {
        assert_eq!(store.emb_ref(e).vector.len(), store.dim());
    }
    for i in 0..store.docs_len() {
        let row = store.doc_ref(i);
        assert_eq!(row.vector.as_ref().expect("synced").len(), store.dim());
    }
}

#[test]
fn wrong_dimension_vectors_are_rejected_at_ingest() {
    let mut store = Store::new(4);
    let chunks = vec![chunk(0, 1)];
    let vectors = vec![Some(vec![1u32, 2])];
    let r = store.append_documents(&chunks, &vectors, 1);
    assert!(matches!(r, Err(Error::Operation(_))));
    assert_eq!(store.docs_len(), 0);
}

#[test]
fn duplicate_index_names_are_refused() {
    let mut store = Store::new(4);
    let params = compute_ivfpq_params(0, 4);
    assert!(build_ivfpq_index(&mut store, "ivfpq-x", &params).is_ok());
    let again = build_ivfpq_index(&mut store, "ivfpq-x", &params);
    assert!(matches!(again, Err(Error::Operation(_))));
}

#[test]
fn index_names_are_sanitized() {
    assert_eq!(
        make_index_name("20240101-120000", "local:fake:d1024"),
        "ivfpq-20240101-120000-local-fake-d1024"
    );
}

#[test]
fn error_messages_name_their_kind() {
    assert_eq!(
        Error::InvalidConfig("bad".to_string()).message(),
        "Invalid configuration: bad"
    );
    assert_eq!(Error::NotFound("index".to_string()).message(), "Not found: index");
    assert_eq!(Error::Operation("late".to_string()).message(), "Operation failed: late");
}

#[test]
fn missing_active_index_reads_as_none() {
    let store = Store::new(4);
    assert!(get_active_index_id(&store, "documents").is_none());
    assert!(!validate_index(&store, 5, 5));
    match require_active_index(&store, "documents") {
        Err(Error::NotFound(msg)) => assert_eq!(msg, "vector index unavailable"),
        other => panic!("expected the unavailable-index error, got {:?}", other),
    }
}
