use std::hash::Hash;
use std::hash::Hasher;

use localdb::embedder::FakeEmbedder;
use localdb::hashing::hash_content;
use localdb::EMBEDDING_DIM;

/// The floating-point half of the deterministic test embedder: accumulate
/// the verified bucket contributions and L2-normalize.
fn fake_embed(fe: &FakeEmbedder, text: &str) -> Vec<f32> {
    let mut v = vec![0f32; fe.dim];
    for (idx, hi, ord) in fe.token_buckets(text) {
        let val = (hi as f32) / (u32::MAX as f32);
        v[idx] += val + (ord as f32) * 0.01;
    }
    let norm = v.iter().map(|x| x * x).sum::<f32>().sqrt().max(1e-6);
    for x in &mut v {
        *x /= norm;
    }
    v
}

#[test]
fn fake_embedder_shapes_and_determinism() {
    let embedder = FakeEmbedder::new(EMBEDDING_DIM);
    let v1 = fake_embed(&embedder, "hello world");
    let v2 = fake_embed(&embedder, "hello world");

    assert_eq!(v1.len(), 1024, "embedding dim is 1024");

    // Norm approximately 1.0.
    let norm: f32 = v1.iter().map(|x| x * x).sum::<f32>().sqrt();
    assert!((norm - 1.0).abs() <= 1e-3, "vector is L2-normalized (norm={norm})");

    // Deterministic for same input.
    for (a, b) in v1.iter().zip(v2.iter()) {
        assert!((a - b).abs() <= 1e-6);
    }
}

#[test]
fn fake_embedder_buckets_follow_the_token_hash() {
    let embedder = FakeEmbedder::new(1024);
    let buckets = embedder.token_buckets("hello world");
    assert_eq!(buckets.len(), 2);

    // The bucketing must agree with the stable 64-bit hash computed directly.
    let mut hasher = twox_hash::XxHash64::with_seed(0);
    "hello".hash(&mut hasher);
    let h = hasher.finish();
    assert_eq!(buckets[0].0, (h % 1024) as usize);
    assert_eq!(buckets[0].1, (h >> 32) as u32);
    assert_eq!(buckets[0].2, 0);

    let mut hasher = twox_hash::XxHash64::with_seed(0);
    "world".hash(&mut hasher);
    let h2 = hasher.finish();
    assert_eq!(buckets[1].0, (h2 % 1024) as usize);
    assert_eq!(buckets[1].1, (h2 >> 32) as u32);
    assert_eq!(buckets[1].2, 1);
}

#[test]
fn fake_embedder_batch_matches_single_calls() {
    let embedder = FakeEmbedder::new(64);
    let texts = vec!["alpha bravo".to_string(), "charlie".to_string()];
    let batch = embedder.token_buckets_batch(&texts);
    assert_eq!(batch.len(), 2);
    assert_eq!(batch[0], embedder.token_buckets("alpha bravo"));
    assert_eq!(batch[1], embedder.token_buckets("charlie"));
}

#[test]
fn different_texts_get_different_vectors() {
    let embedder = FakeEmbedder::new(1024);
    let a = fake_embed(&embedder, "hello world");
    let b = fake_embed(&embedder, "goodbye moon");
    assert!(a.iter().zip(b.iter()).any(|(x, y)| (x - y).abs() > 1e-6));
}

#[test]
fn content_hash_is_the_hex_digest() {
    // Must agree with the digest computed directly; a wrapper that handed
    // its input back would fail both checks.
    let h = hash_content("hello world");
    assert_eq!(h.len(), 64);
    assert_eq!(h, blake3::hash("hello world".as_bytes()).to_hex().to_string());
    assert_ne!(hash_content("a"), hash_content("b"));
}
