use localdb::config::join_if_relative;
use localdb::config::resolve_with_base;
use localdb::config::Config;
use localdb::error::Error;
use localdb::hybrid::fuse_hits;
use localdb::hybrid::Embedder;
use localdb::hybrid::HybridSearchEngine;
use localdb::hybrid::SearchEngine;
use localdb::hybrid::TextIndexer;
use localdb::hybrid::VectorIndexer;
use localdb::numfmt::usize_to_string;
use localdb::params::compute_ivfpq_params;
use localdb::params::isqrt;
use localdb::search::ann_prelimit;
use localdb::search::clamp_unit_score;
use localdb::search::top_k_hits;
use localdb::types::DocumentChunk;
use localdb::types::SearchHit;
use localdb::types::SourceKind;

fn hit(id: &str, score: f32) -> SearchHit {
    SearchHit { id: id.to_string(), score: score.to_bits(), source: SourceKind::Vector }
}

#[test]
fn hybrid_fusion_tie_break() {
    // Lex returns x at 1.0, vec returns x at 0.9: the higher score wins, so
    // the single fused hit is the lexical one at 1.0.
    let dense = vec![hit("x", 0.9)];
    let lex = vec![hit("x", 1.0)];
    let fused = fuse_hits(dense, lex, 5);
    assert_eq!(fused.len(), 1);
    assert_eq!(fused[0].id, "x");
    assert_eq!(fused[0].score, 1.0f32.to_bits());
    assert_eq!(fused[0].source, SourceKind::Text);

    // On an exact tie the vector hit wins.
    let fused = fuse_hits(vec![hit("x", 1.0)], vec![hit("x", 1.0)], 5);
    assert_eq!(fused.len(), 1);
    assert_eq!(fused[0].source, SourceKind::Vector);
    assert_eq!(fused[0].score, 1.0f32.to_bits());
}

#[test]
fn fusion_ranks_and_deduplicates() {
    let dense = vec![hit("a", 0.9), hit("b", 0.5)];
    let lex = vec![hit("b", 0.8), hit("c", 0.7), hit("a", 0.1)];
    let fused = fuse_hits(dense, lex, 10);
    assert_eq!(fused.len(), 3);
    assert_eq!(fused[0].id, "a");
    assert_eq!(fused[0].score, 0.9f32.to_bits());
    assert_eq!(fused[0].source, SourceKind::Vector);
    assert_eq!(fused[1].id, "b");
    assert_eq!(fused[1].score, 0.8f32.to_bits());
    assert_eq!(fused[1].source, SourceKind::Text);
    assert_eq!(fused[2].id, "c");
    assert_eq!(fused[2].source, SourceKind::Text);
}

#[test]
fn fusion_truncates_to_k() {
    let dense = vec![hit("a", 0.9), hit("b", 0.8), hit("c", 0.7)];
    let fused = fuse_hits(dense, vec![], 2);
    assert_eq!(fused.len(), 2);
    assert_eq!(fused[0].id, "a");
    assert_eq!(fused[1].id, "b");
}

#[test]
fn removing_a_hit_cannot_raise_any_fused_score() {
    // The fused scores over the full streams dominate, rank by rank, the
    // fused scores after removing any one hit from either stream.
    let dense = vec![hit("a", 0.6), hit("b", 0.4)];
    let lex = vec![hit("c", 0.5), hit("a", 0.3)];
    let full = fuse_hits(dense.clone(), lex.clone(), 2);

    for drop in 0..dense.len() {
        let mut thinned = dense.clone();
        thinned.remove(drop);
        let r = fuse_hits(thinned, lex.clone(), 2);
        for rank in 0..r.len() {
            assert!(r[rank].score <= full[rank].score);
        }
    }
    for drop in 0..lex.len() {
        let mut thinned = lex.clone();
        thinned.remove(drop);
        let r = fuse_hits(dense.clone(), thinned, 2);
        for rank in 0..r.len() {
            assert!(r[rank].score <= full[rank].score);
        }
    }
}

#[test]
fn vector_similarities_are_clamped_into_the_unit_range() {
    assert_eq!(clamp_unit_score((-0.5f32).to_bits()), 0.0f32.to_bits());
    assert_eq!(clamp_unit_score(1.5f32.to_bits()), 1.0f32.to_bits());
    assert_eq!(clamp_unit_score(0.25f32.to_bits()), 0.25f32.to_bits());

    let raw = vec![
        ("a".to_string(), (-0.5f32).to_bits()),
        ("b".to_string(), 1.5f32.to_bits()),
        ("c".to_string(), 0.3f32.to_bits()),
    ];
    let hits = top_k_hits(raw, 3);
    assert_eq!(hits.len(), 3);
    assert_eq!(hits[0].id, "b");
    assert_eq!(hits[0].score, 1.0f32.to_bits());
    assert_eq!(hits[1].id, "c");
    assert_eq!(hits[1].score, 0.3f32.to_bits());
    assert_eq!(hits[2].id, "a");
    assert_eq!(hits[2].score, 0.0f32.to_bits());
    for h in &hits {
        let s = f32::from_bits(h.score);
        assert!((0.0..=1.0).contains(&s));
        assert_eq!(h.source, SourceKind::Vector);
    }
}

#[test]
fn the_ann_prelimit_widens_but_never_narrows() {
    assert_eq!(ann_prelimit(5, 10), 50);
    assert_eq!(ann_prelimit(5, 0), 5);
    assert_eq!(ann_prelimit(0, 10), 0);
}

#[test]
fn top_k_truncates_to_k() {
    let raw = vec![
        ("a".to_string(), 0.1f32.to_bits()),
        ("b".to_string(), 0.9f32.to_bits()),
        ("c".to_string(), 0.5f32.to_bits()),
    ];
    let hits = top_k_hits(raw, 2);
    assert_eq!(hits.len(), 2);
    assert_eq!(hits[0].id, "b");
    assert_eq!(hits[1].id, "c");
}

struct StubText {
    hits: Vec<SearchHit>,
}

impl TextIndexer for StubText {
    fn index(&self, _chunks: &Vec<DocumentChunk>) -> Result<(), Error> {
        Ok(())
    }

    fn search(&self, _query: &str, _k: usize) -> Result<Vec<SearchHit>, Error> {
        Ok(self.hits.clone())
    }
}

struct StubVector {
    hits: Vec<SearchHit>,
}

impl VectorIndexer for StubVector {
    fn index(&self, _chunks: &Vec<DocumentChunk>, _embeddings: &Vec<Vec<u32>>) -> Result<
        (),
        Error,
    > {
        Ok(())
    }

    fn search_vec(&self, _query_vec: &Vec<u32>, _k: usize) -> Result<Vec<SearchHit>, Error> {
        Ok(self.hits.clone())
    }
}

struct StubEmbedder {
    dim: usize,
}

impl Embedder for StubEmbedder {
    fn dim(&self) -> usize {
        self.dim
    }

    fn max_len(&self) -> usize {
        256
    }

    fn embed_batch(&self, texts: &Vec<String>) -> Result<Vec<Vec<u32>>, String> {
        Ok(texts.iter().map(|_| vec![0u32; self.dim]).collect())
    }
}

#[test]
fn hybrid_engine_fuses_both_streams() {
    let engine = HybridSearchEngine::new(
        StubText { hits: vec![hit("x", 1.0), hit("y", 0.2)] },
        StubVector { hits: vec![hit("x", 0.9), hit("z", 0.4)] },
        StubEmbedder { dim: 8 },
    );
    let hits = engine.query("anything", 10).unwrap();
    assert_eq!(hits.len(), 3);
    assert_eq!(hits[0].id, "x");
    assert_eq!(hits[0].source, SourceKind::Text);
    assert_eq!(hits[1].id, "z");
    assert_eq!(hits[1].source, SourceKind::Vector);
    assert_eq!(hits[2].id, "y");
    assert_eq!(hits[2].source, SourceKind::Text);

    let chunks = vec![DocumentChunk {
        id: "x:0".to_string(),
        doc_id: "x".to_string(),
        doc_path: "/d/x.txt".to_string(),
        category: "/misc".to_string(),
        category_text: "/misc".to_string(),
        content: "hello".to_string(),
        chunk_index: 0,
        total_chunks: 1,
    }];
    assert!(SearchEngine::index(&engine, &chunks).is_ok());
}

#[test]
fn config_defaults_are_the_documented_ones() {
    let c = Config::default();
    assert_eq!(c.get_raw_txt_dir(), "data/raw/txt");
    assert_eq!(c.get_tantivy_index_dir(), "data/tantivy_index");
    assert_eq!(c.get_lancedb_index_dir(), "data/lancedb_index");
    assert_eq!(c.search.default_limit, 5);
    assert_eq!(c.search.max_limit, 100);
    assert_eq!(c.search.fuzzy_max_distance, 4);
    assert_eq!(c.get_facet_categories().len(), 4);
    assert_eq!(c.get_facet_categories()[0], "tech/math");
    assert_eq!(c.embedding.dimension, 1536);
    assert_eq!(c.server.port, 8080);
}

#[test]
fn paths_resolve_against_the_base() {
    assert_eq!(join_if_relative("/base", "rel/x"), "/base/rel/x");
    assert_eq!(join_if_relative("/base", "/abs/x"), "/abs/x");
    assert_eq!(resolve_with_base("/base", "rel/x"), "/base/rel/x");
    assert_eq!(resolve_with_base("/base", "/abs/x"), "/abs/x");
}

#[test]
fn numbers_render_in_decimal() {
    assert_eq!(usize_to_string(0), "0");
    assert_eq!(usize_to_string(7), "7");
    assert_eq!(usize_to_string(12345), "12345");
}

#[test]
fn ivfpq_parameters_follow_the_sizing_rules() {
    assert_eq!(isqrt(0), 0);
    assert_eq!(isqrt(1), 1);
    assert_eq!(isqrt(300), 17);

    let p = compute_ivfpq_params(300, 1024);
    assert_eq!(p.nlist, 299);
    assert_eq!(p.m, 32);
    assert_eq!(p.nbits, 8);

    let p = compute_ivfpq_params(0, 512);
    assert_eq!(p.nlist, 1);
    assert_eq!(p.m, 16);

    // A huge corpus is capped, and the sub-vector count must divide the
    // dimensionality.
    let p = compute_ivfpq_params(10_000_000, 1024);
    assert_eq!(p.nlist, 6324);
    let p = compute_ivfpq_params(100, 20);
    assert_eq!(p.m, 10);
}
