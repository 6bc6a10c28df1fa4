//! Hybrid fusion of a lexical and a vector score stream.
//!
//! Hits from the two engines are merged by id: for each id the hit with the
//! higher score survives, a tie going to the vector hit; the merged hits are
//! ranked by score and cut to the best `k`.

use crate::error::Error;
use crate::search::sorted_desc;
use crate::textops::str_eq;
use crate::types::DocumentChunk;
use crate::types::SearchHit;
use crate::types::SourceKind;
use vstd::prelude::*;

verus! {

/// The hits of one stream, labeled with their source engine.
pub open spec fn tagged(s: Seq<SearchHit>, src: SourceKind) -> Seq<SearchHit> {
    Seq::new(s.len(), |i: int| SearchHit { source: src, ..s[i] })
}

/// Both streams, vector hits first, each labeled with its source.
pub open spec fn fusion_input(dense: Seq<SearchHit>, text: Seq<SearchHit>) -> Seq<SearchHit> {
    tagged(dense, SourceKind::Vector) + tagged(text, SourceKind::Text)
}

/// `h` is one of the first `c` input hits.
pub open spec fn elem_upto(ins: Seq<SearchHit>, c: int, h: SearchHit) -> bool {
    exists|j: int| 0 <= j < c && j < ins.len() && (#[trigger] ins[j]) == h
}

/// No input hit among the first `c` with `h`'s id beats `h`'s score.
pub open spec fn max_upto(ins: Seq<SearchHit>, c: int, h: SearchHit) -> bool {
    forall|j: int|
        0 <= j < c && j < ins.len() && (#[trigger] ins[j]).id@ == h.id@ ==> ins[j].score <= h.score
}

/// Some input hit among the first `c` carries this id, score and source.
pub open spec fn id_score_upto(
    ins: Seq<SearchHit>,
    c: int,
    id: Seq<char>,
    score: u32,
    src: SourceKind,
) -> bool {
    exists|j: int|
        0 <= j < c && j < ins.len() && (#[trigger] ins[j]).id@ == id && ins[j].score == score
            && ins[j].source == src
}

/// Some hit of `s` carries this id.
pub open spec fn id_present(s: Seq<SearchHit>, id: Seq<char>) -> bool {
    exists|i: int| 0 <= i < s.len() && (#[trigger] s[i]).id@ == id
}

/// All ids pairwise distinct.
pub open spec fn distinct_ids(s: Seq<SearchHit>) -> bool {
    forall|i: int, j: int| 0 <= i < j < s.len() ==> s[i].id@ != s[j].id@
}

/// Find the position of a hit with this id.
fn find_by_id(hits: &Vec<SearchHit>, id: &str) -> (r: Option<usize>)
    ensures
        match r {
            Some(t) => t < hits@.len() && hits@[t as int].id@ == id@,
            None => !id_present(hits@, id@),
        },
{
    let mut t: usize = 0;
    while t < hits.len()
        invariant
            0 <= t <= hits@.len(),
            forall|u: int| 0 <= u < t ==> (#[trigger] hits@[u]).id@ != id@,
        decreases hits@.len() - t,
    {
        if str_eq(hits[t].id.as_str(), id) {
            return Some(t);
        }
        t = t + 1;
    }
    proof {
        assert(!id_present(hits@, id@));
    }
    None
}

/// Merge the two tagged streams by id and rank the winners: per id the
/// highest score survives, ties between the streams going to the vector hit
/// (all vector hits precede all text hits, and a later hit replaces an
/// earlier one only on a strictly higher score); the merged hits are ordered
/// by score, best first, and cut to `k`.
pub fn fuse_hits(dense: Vec<SearchHit>, text: Vec<SearchHit>, k: usize) -> (r: Vec<SearchHit>)
    ensures
        r@.len() <= k,
        sorted_desc(r@),
        distinct_ids(r@),
        forall|i: int|
            0 <= i < r@.len() ==> elem_upto(
                fusion_input(dense@, text@),
                fusion_input(dense@, text@).len() as int,
                #[trigger] r@[i],
            ),
        forall|i: int|
            0 <= i < r@.len() ==> max_upto(
                fusion_input(dense@, text@),
                fusion_input(dense@, text@).len() as int,
                #[trigger] r@[i],
            ),
        forall|i: int|
            0 <= i < r@.len() ==> ((#[trigger] r@[i]).source == SourceKind::Vector
                <==> id_score_upto(
                fusion_input(dense@, text@),
                fusion_input(dense@, text@).len() as int,
                r@[i].id@,
                r@[i].score,
                SourceKind::Vector,
            )),
        forall|j: int|
            0 <= j < fusion_input(dense@, text@).len() && k >= 1 ==> id_present(
                r@,
                (#[trigger] fusion_input(dense@, text@)[j]).id@,
            ) || (r@.len() == k && fusion_input(dense@, text@)[j].score <= r@[r@.len() - 1].score),
{
    let ghost dense0 = dense@;
    let ghost text0 = text@;
    let ghost ins = fusion_input(dense0, text0);
    let ghost dlen = dense0.len() as int;

    // Label both streams.
    let mut dense = dense;
    let mut i: usize = 0;
    while i < dense.len()
        invariant
            0 <= i <= dense@.len(),
            dense@.len() == dense0.len(),
            forall|t: int| 0 <= t < i ==> dense@[t] == tagged(dense0, SourceKind::Vector)[t],
            forall|t: int| i <= t < dense@.len() ==> dense@[t] == dense0[t],
        decreases dense@.len() - i,
    {
        dense[i].source = SourceKind::Vector;
        i = i + 1;
    }
    let mut text = text;
    let mut i: usize = 0;
    while i < text.len()
        invariant
            0 <= i <= text@.len(),
            text@.len() == text0.len(),
            forall|t: int| 0 <= t < i ==> text@[t] == tagged(text0, SourceKind::Text)[t],
            forall|t: int| i <= t < text@.len() ==> text@[t] == text0[t],
        decreases text@.len() - i,
    {
        text[i].source = SourceKind::Text;
        i = i + 1;
    }
    let mut all = dense;
    let mut text = text;
    all.append(&mut text);
    proof {
        assert(all@ =~= ins);
        // Region fact: the input's vector hits are exactly its first part.
        assert forall|j: int|
            0 <= j < ins.len() implies ((#[trigger] ins[j]).source == SourceKind::Vector <==> j
            < dlen) by {
            if j < dlen {
                assert(ins[j] == tagged(dense0, SourceKind::Vector)[j]);
            } else {
                assert(ins[j] == tagged(text0, SourceKind::Text)[j - dlen]);
            }
        }
    }

    // Merge by id: per id keep the first hit attaining the maximum.
    let mut merged: Vec<SearchHit> = Vec::new();
    let mut rest = all;
    let ghost mut c: int = 0;
    while rest.len() > 0
        invariant
            0 <= c,
            c + rest@.len() == ins.len(),
            forall|t: int| 0 <= t < rest@.len() ==> (#[trigger] rest@[t]) == ins[c + t],
            forall|j: int|
                0 <= j < ins.len() ==> ((#[trigger] ins[j]).source == SourceKind::Vector <==> j
                    < dlen),
            distinct_ids(merged@),
            forall|t: int| 0 <= t < merged@.len() ==> elem_upto(ins, c, #[trigger] merged@[t]),
            forall|t: int| 0 <= t < merged@.len() ==> max_upto(ins, c, #[trigger] merged@[t]),
            forall|j: int| 0 <= j < c ==> id_present(merged@, (#[trigger] ins[j]).id@),
            forall|t: int|
                0 <= t < merged@.len() ==> ((#[trigger] merged@[t]).source == SourceKind::Vector
                    <==> id_score_upto(ins, c, merged@[t].id@, merged@[t].score,
                SourceKind::Vector)),
        decreases rest@.len(),
    {
        let h = rest.remove(0);
        proof {
            assert(h == ins[c]);
        }
        let ghost pre = merged@;
        let pos = find_by_id(&merged, h.id.as_str());
        match pos {
            Some(t) => {
                if h.score > merged[t].score {
                    merged[t] = h;
                    proof {
                        lemma_merge_replace(ins, c, dlen, pre, merged@, t as int);
                    }
                } else {
                    proof {
                        lemma_merge_keep(ins, c, dlen, merged@, t as int, h);
                    }
                }
            },
            None => {
                merged.push(h);
                proof {
                    lemma_merge_push(ins, c, dlen, pre, merged@);
                }
            },
        }
        proof {
            c = c + 1;
        }
    }
    proof {
        assert(c == ins.len());
    }

    // Rank the winners and keep the best k, preserving every merge fact.
    let mut out: Vec<SearchHit> = Vec::new();
    let mut pool = merged;
    while pool.len() > 0
        invariant
            forall|j: int|
                0 <= j < ins.len() ==> ((#[trigger] ins[j]).source == SourceKind::Vector <==> j
                    < dlen),
            sorted_desc(out@),
            forall|t: int, u: int|
                0 <= t < out@.len() && 0 <= u < pool@.len() ==> out@[t].score >= pool@[u].score,
            forall|t: int, u: int| 0 <= t < out@.len() && 0 <= u < pool@.len() ==> out@[t].id@
                != pool@[u].id@,
            distinct_ids(out@),
            distinct_ids(pool@),
            forall|t: int|
                0 <= t < out@.len() ==> elem_upto(ins, ins.len() as int, #[trigger] out@[t]),
            forall|t: int|
                0 <= t < pool@.len() ==> elem_upto(ins, ins.len() as int, #[trigger] pool@[t]),
            forall|t: int|
                0 <= t < out@.len() ==> max_upto(ins, ins.len() as int, #[trigger] out@[t]),
            forall|t: int|
                0 <= t < pool@.len() ==> max_upto(ins, ins.len() as int, #[trigger] pool@[t]),
            forall|t: int|
                0 <= t < out@.len() ==> ((#[trigger] out@[t]).source == SourceKind::Vector
                    <==> id_score_upto(ins, ins.len() as int, out@[t].id@, out@[t].score,
                SourceKind::Vector)),
            forall|t: int|
                0 <= t < pool@.len() ==> ((#[trigger] pool@[t]).source == SourceKind::Vector
                    <==> id_score_upto(ins, ins.len() as int, pool@[t].id@, pool@[t].score,
                SourceKind::Vector)),
            forall|j: int|
                0 <= j < ins.len() ==> id_present(out@, (#[trigger] ins[j]).id@) || id_present(
                    pool@,
                    ins[j].id@,
                ),
        decreases pool@.len(),
    {
        let mut best: usize = 0;
        let mut p: usize = 1;
        while p < pool.len()
            invariant
                0 <= best < pool@.len(),
                best < p <= pool@.len(),
                forall|u: int| 0 <= u < p ==> pool@[u].score <= pool@[best as int].score,
            decreases pool@.len() - p,
        {
            if pool[p].score > pool[best].score {
                best = p;
            }
            p = p + 1;
        }
        let ghost pre_out = out@;
        let ghost pre_pool = pool@;
        let picked = pool.remove(best);
        out.push(picked);
        proof {
            assert(pre_pool[best as int] == picked);
            assert forall|u: int| 0 <= u < pool@.len() implies (#[trigger] pool@[u])
                == (if u < best {
                pre_pool[u]
            } else {
                pre_pool[u + 1]
            }) by {}
            assert forall|j: int|
                0 <= j < ins.len() implies id_present(out@, (#[trigger] ins[j]).id@) || id_present(
                pool@,
                ins[j].id@,
            ) by {
                if id_present(pre_pool, ins[j].id@) {
                    let u0 = choose|u: int|
                        0 <= u < pre_pool.len() && (#[trigger] pre_pool[u]).id@ == ins[j].id@;
                    if u0 == best {
                        assert(out@[out@.len() - 1].id@ == ins[j].id@);
                    } else if u0 < best {
                        assert(pool@[u0].id@ == ins[j].id@);
                    } else {
                        assert(pool@[u0 - 1].id@ == ins[j].id@);
                    }
                } else {
                    let i0 = choose|i0: int|
                        0 <= i0 < pre_out.len() && (#[trigger] pre_out[i0]).id@ == ins[j].id@;
                    assert(out@[i0].id@ == ins[j].id@);
                }
            }
        }
    }

    // Cut to the best k.
    let keep: usize = if k <= out.len() {
        k
    } else {
        out.len()
    };
    let ghost full = out@;
    out.truncate(keep);
    proof {
        assert(out@ == full.take(keep as int));
        assert forall|j: int|
            0 <= j < ins.len() && k >= 1 implies id_present(out@, (#[trigger] ins[j]).id@) || (
        out@.len() == k && ins[j].score <= out@[out@.len() - 1].score) by {
            let i0 = choose|i0: int|
                0 <= i0 < full.len() && (#[trigger] full[i0]).id@ == ins[j].id@;
            if i0 < keep {
                assert(out@[i0].id@ == ins[j].id@);
            } else {
                // Dropped: its hit held the maximum for this id, and ranks at
                // or below the cut.
                assert(keep >= 1);
                assert(max_upto(ins, ins.len() as int, full[i0]));
                assert(ins[j].score <= full[i0].score);
                assert(full[i0].score <= full[keep - 1].score);
                assert(out@[out@.len() - 1] == full[keep - 1]);
            }
        }
    }
    out
}

/// Removing one hit from either stream cannot raise any fused score:
/// rank by rank, the ranking over the thinned input scores at most what the
/// ranking over the full input scores.
///
/// Stated over the flattened fusion input: `ins2` is `ins` with one hit
/// removed, and `r` and `r2` are any rankings satisfying `fuse_hits`'s
/// contract for `ins` and `ins2`.
pub proof fn lemma_fusion_monotone(
    ins: Seq<SearchHit>,
    ins2: Seq<SearchHit>,
    r: Seq<SearchHit>,
    r2: Seq<SearchHit>,
    k: usize,
    x: int,
)
    requires
        k >= 1,
        0 <= x < ins.len(),
        ins2 == ins.remove(x),
        sorted_desc(r),
        r.len() <= k,
        distinct_ids(r),
        forall|i: int| 0 <= i < r.len() ==> max_upto(ins, ins.len() as int, #[trigger] r[i]),
        forall|j: int|
            0 <= j < ins.len() ==> id_present(r, (#[trigger] ins[j]).id@) || (r.len() == k
                && ins[j].score <= r[r.len() - 1].score),
        sorted_desc(r2),
        r2.len() <= k,
        distinct_ids(r2),
        forall|i: int| 0 <= i < r2.len() ==> elem_upto(ins2, ins2.len() as int, #[trigger] r2[i]),
    ensures
        forall|rank: int|
            0 <= rank < r2.len() ==> rank < r.len() && (#[trigger] r2[rank]).score
                <= r[rank].score,
{
    assert forall|rank: int|
        0 <= rank < r2.len() implies rank < r.len() && (#[trigger] r2[rank]).score
        <= r[rank].score by {
        if !(rank < r.len() && r2[rank].score <= r[rank].score) {
            let thresh = r2[rank].score;
            let m: int = if rank < r.len() {
                rank
            } else {
                r.len() as int
            };
            // Each of the rank + 1 best thinned hits has its id in the full
            // ranking, strictly above the failing position.
            assert forall|t: int| 0 <= t <= rank implies {
                &&& id_present(r, (#[trigger] r2[t]).id@)
                &&& 0 <= pos_of_id(r, r2[t].id@) < m
                &&& r[pos_of_id(r, r2[t].id@)].id@ == r2[t].id@
            } by {
                assert(r2[t].score >= thresh);
                let j2 = choose|j: int|
                    0 <= j < ins2.len() && (#[trigger] ins2[j]) == r2[t];
                let j = if j2 < x {
                    j2
                } else {
                    j2 + 1
                };
                assert(ins[j] == ins2[j2]);
                if !id_present(r, ins[j].id@) {
                    assert(r.len() == k && ins[j].score <= r[r.len() - 1].score);
                    if rank >= r.len() {
                        // The full ranking is saturated at k, yet shorter
                        // than a rank below the thinned length, itself at
                        // most k.
                        assert(rank < r2.len() <= k);
                        assert(false);
                    } else {
                        assert(r[r.len() - 1].score <= r[rank].score);
                        assert(ins[j].score >= thresh);
                        assert(thresh > r[rank].score);
                        assert(false);
                    }
                }
                assert(id_present(r, r2[t].id@));
                let p = pos_of_id(r, r2[t].id@);
                assert(0 <= p < r.len() && r[p].id@ == r2[t].id@);
                assert(max_upto(ins, ins.len() as int, r[p]));
                assert(ins[j].score <= r[p].score);
                assert(r[p].score >= thresh);
                if rank < r.len() {
                    if p >= rank {
                        assert(r[p].score <= r[rank].score);
                        assert(false);
                    }
                }
            }
            let ps = Seq::new((rank + 1) as nat, |t: int| pos_of_id(r, r2[t].id@));
            assert forall|t: int, u: int| 0 <= t < u < ps.len() implies ps[t] != ps[u] by {
                assert(r2[t].id@ != r2[u].id@);
                assert(r[pos_of_id(r, r2[t].id@)].id@ == r2[t].id@);
                assert(r[pos_of_id(r, r2[u].id@)].id@ == r2[u].id@);
            }
            assert forall|t: int| 0 <= t < ps.len() implies 0 <= #[trigger] ps[t] < m by {
                assert(0 <= pos_of_id(r, r2[t].id@) < m);
            }
            lemma_pigeonhole(ps, m);
            let (t0, u0) = choose|t0: int, u0: int|
                0 <= t0 < u0 < ps.len() && ps[t0] == ps[u0];
            assert(ps[t0] != ps[u0]);
            assert(false);
        }
    }
}

/// The position of some hit of `r` carrying this id.
pub open spec fn pos_of_id(r: Seq<SearchHit>, id: Seq<char>) -> int {
    choose|p: int| 0 <= p < r.len() && (#[trigger] r[p]).id@ == id
}

/// More integers than the size of the range they lie in: two of them
/// coincide.
proof fn lemma_pigeonhole(ps: Seq<int>, m: int)
    requires
        m >= 0,
        ps.len() > m,
        forall|t: int| 0 <= t < ps.len() ==> 0 <= #[trigger] ps[t] < m,
    ensures
        exists|t: int, u: int| 0 <= t < u < ps.len() && ps[t] == ps[u],
{
    broadcast use vstd::set_lib::group_set_lib_default;

    if ps.no_duplicates() {
        ps.unique_seq_to_set();
        vstd::set_lib::lemma_int_range(0, m);
        assert(ps.to_set().subset_of(vstd::set_lib::set_int_range(0, m))) by {
            assert forall|v: int| ps.to_set().contains(v) implies vstd::set_lib::set_int_range(
                0,
                m,
            ).contains(v) by {
                assert(ps.contains(v));
                let t = choose|t: int| 0 <= t < ps.len() && ps[t] == v;
                assert(0 <= ps[t] < m);
            }
        }
        vstd::set_lib::lemma_len_subset(ps.to_set(), vstd::set_lib::set_int_range(0, m));
        assert(false);
    }
    let (i0, j0) = choose|i0: int, j0: int|
        0 <= i0 < ps.len() && 0 <= j0 < ps.len() && i0 != j0 && ps[i0] == ps[j0];
    if i0 < j0 {
        assert(0 <= i0 < j0 < ps.len() && ps[i0] == ps[j0]);
    } else {
        assert(0 <= j0 < i0 < ps.len() && ps[j0] == ps[i0]);
    }
}

/// Produces embedding vectors for input text. Implementations load a local
/// model or call a remote service; nothing is assumed of their output, so
/// callers validate counts and dimensions themselves.
pub trait Embedder {
    /// Embedding dimensionality `D`.
    fn dim(&self) -> usize;

    /// Maximum input token length.
    fn max_len(&self) -> usize;

    /// Embed a batch of texts; each returned vector holds the words of one
    /// embedding (bit patterns for float-valued implementations).
    fn embed_batch(&self, texts: &Vec<String>) -> Result<Vec<Vec<u32>>, String>;
}

/// Indexes and searches the text corpus (a BM25-style engine).
pub trait TextIndexer {
    fn index(&self, chunks: &Vec<DocumentChunk>) -> Result<(), Error>;

    fn search(&self, query: &str, k: usize) -> Result<Vec<SearchHit>, Error>;
}

/// Indexes and searches vector embeddings (an ANN engine).
pub trait VectorIndexer {
    fn index(&self, chunks: &Vec<DocumentChunk>, embeddings: &Vec<Vec<u32>>) -> Result<
        (),
        Error,
    >;

    fn search_vec(&self, query_vec: &Vec<u32>, k: usize) -> Result<Vec<SearchHit>, Error>;
}

/// A combined engine behind one interface.
pub trait SearchEngine {
    fn index(&self, chunks: &Vec<DocumentChunk>) -> Result<(), Error>;

    fn query(&self, query: &str, k: usize) -> Result<Vec<SearchHit>, Error>;
}

/// The texts to embed for a batch of chunks: each chunk's content, in chunk
/// order.
pub fn chunk_contents_of(chunks: &Vec<DocumentChunk>) -> (r: Vec<String>)
    ensures
        r@.len() == chunks@.len(),
        forall|i: int| 0 <= i < r@.len() ==> (#[trigger] r@[i])@ == chunks@[i].content@,
{
    let mut texts: Vec<String> = Vec::new();
    let mut i: usize = 0;
    while i < chunks.len()
        invariant
            0 <= i <= chunks@.len(),
            texts@.len() == i,
            forall|t: int| 0 <= t < i ==> (#[trigger] texts@[t])@ == chunks@[t].content@,
        decreases chunks@.len() - i,
    {
        texts.push(chunks[i].content.clone());
        i = i + 1;
    }
    texts
}

/// An embedder's output is well-shaped for a request of `expected` texts at
/// dimensionality `dim`: exactly one vector per text, each of length `dim`.
pub open spec fn well_shaped(embeddings: Seq<Vec<u32>>, expected: nat, dim: nat) -> bool {
    &&& embeddings.len() == expected
    &&& forall|j: int| 0 <= j < embeddings.len() ==> (#[trigger] embeddings[j])@.len() == dim
}

/// Validate an embedder's output against the request: succeeds exactly on
/// well-shaped output, and names which shape check failed otherwise.
pub fn check_embedding_shape(embeddings: &Vec<Vec<u32>>, expected: usize, dim: usize) -> (r:
    Result<(), Error>)
    ensures
        (r is Ok) == well_shaped(embeddings@, expected as nat, dim as nat),
        r matches Err(e) ==> e is Operation,
{
    if embeddings.len() != expected {
        return Err(Error::Operation(String::from_str("embedder returned a wrong vector count")));
    }
    let mut j: usize = 0;
    while j < embeddings.len()
        invariant
            0 <= j <= embeddings@.len(),
            forall|t: int| 0 <= t < j ==> (#[trigger] embeddings@[t])@.len() == dim as nat,
        decreases embeddings@.len() - j,
    {
        if embeddings[j].len() != dim {
            return Err(Error::Operation(String::from_str("embedding dimension mismatch")));
        }
        j = j + 1;
    }
    Ok(())
}

/// The hybrid engine: a text indexer, a vector indexer, and the embedder
/// that produces query and document vectors.
pub struct HybridSearchEngine<TI, VI, E> {
    pub text: TI,
    pub vector: VI,
    pub embedder: E,
}

impl<TI: TextIndexer, VI: VectorIndexer, E: Embedder> HybridSearchEngine<TI, VI, E> {
    pub fn new(text: TI, vector: VI, embedder: E) -> (r: HybridSearchEngine<TI, VI, E>) {
        HybridSearchEngine { text, vector, embedder }
    }

    /// Index chunks in both engines: embed every content (the texts handed
    /// to the embedder are exactly the chunk contents, in order, per
    /// `chunk_contents_of`), validate the returned shape per
    /// `check_embedding_shape`, hand chunks and vectors to the vector engine,
    /// then the chunks to the text engine. Fails without indexing either
    /// engine on a provider error or ill-shaped output.
    pub fn index(&self, chunks: &Vec<DocumentChunk>) -> (r: Result<(), Error>) {
        let texts = chunk_contents_of(chunks);
        match self.embedder.embed_batch(&texts) {
            Err(m) => Err(Error::Operation(m)),
            Ok(embeddings) => {
                match check_embedding_shape(&embeddings, chunks.len(), self.embedder.dim()) {
                    Err(e) => Err(e),
                    Ok(()) => match self.vector.index(chunks, &embeddings) {
                        Err(e) => Err(e),
                        Ok(()) => self.text.index(chunks),
                    },
                }
            },
        }
    }

    /// Answer a query: embed it, run the vector and the text search, and
    /// fuse the two streams (higher score per id wins, ties to the vector
    /// hit) into one ranked, deduplicated top-`k`. Whatever the engines
    /// returned, the fused result is ranked, holds each id once, and has at
    /// most `k` hits.
    pub fn query(&self, query: &str, k: usize) -> (r: Result<Vec<SearchHit>, Error>)
        ensures
            r matches Ok(hits) ==> hits@.len() <= k && sorted_desc(hits@) && distinct_ids(hits@),
    {
        let mut texts: Vec<String> = Vec::new();
        texts.push(query.to_owned());
        let q_vec = match self.embedder.embed_batch(&texts) {
            Err(m) => {
                return Err(Error::Operation(m));
            },
            Ok(mut vs) => {
                if vs.len() < 1 {
                    return Err(
                        Error::Operation(String::from_str("embedder returned a wrong vector count")),
                    );
                }
                vs.remove(0)
            },
        };
        let dense = match self.vector.search_vec(&q_vec, k) {
            Err(e) => {
                return Err(e);
            },
            Ok(hits) => hits,
        };
        let text_hits = match self.text.search(query, k) {
            Err(e) => {
                return Err(e);
            },
            Ok(hits) => hits,
        };
        Ok(fuse_hits(dense, text_hits, k))
    }
}

impl<TI: TextIndexer, VI: VectorIndexer, E: Embedder> SearchEngine for HybridSearchEngine<
    TI,
    VI,
    E,
> {
    fn index(&self, chunks: &Vec<DocumentChunk>) -> Result<(), Error> {
        HybridSearchEngine::index(self, chunks)
    }

    fn query(&self, query: &str, k: usize) -> Result<Vec<SearchHit>, Error> {
        HybridSearchEngine::query(self, query, k)
    }
}

/// Replacing the current best for an id with a strictly better, later hit
/// keeps every merge invariant.
proof fn lemma_merge_replace(
    ins: Seq<SearchHit>,
    c: int,
    dlen: int,
    pre: Seq<SearchHit>,
    merged: Seq<SearchHit>,
    t: int,
)
    requires
        0 <= c < ins.len(),
        0 <= t < pre.len(),
        merged == pre.update(t, ins[c]),
        pre[t].id@ == ins[c].id@,
        pre[t].score < ins[c].score,
        forall|j: int| 0 <= j < ins.len() ==> ((#[trigger] ins[j]).source == SourceKind::Vector <==> j < dlen),
        distinct_ids(pre),
        forall|u: int| 0 <= u < pre.len() ==> elem_upto(ins, c, #[trigger] pre[u]),
        forall|u: int| 0 <= u < pre.len() ==> max_upto(ins, c, #[trigger] pre[u]),
        forall|j: int| 0 <= j < c ==> id_present(pre, (#[trigger] ins[j]).id@),
        forall|u: int|
            0 <= u < pre.len() ==> ((#[trigger] pre[u]).source == SourceKind::Vector
                <==> id_score_upto(ins, c, pre[u].id@, pre[u].score, SourceKind::Vector)),
    ensures
        distinct_ids(merged),
        forall|u: int| 0 <= u < merged.len() ==> elem_upto(ins, c + 1, #[trigger] merged[u]),
        forall|u: int| 0 <= u < merged.len() ==> max_upto(ins, c + 1, #[trigger] merged[u]),
        forall|j: int| 0 <= j < c + 1 ==> id_present(merged, (#[trigger] ins[j]).id@),
        forall|u: int|
            0 <= u < merged.len() ==> ((#[trigger] merged[u]).source == SourceKind::Vector
                <==> id_score_upto(ins, c + 1, merged[u].id@, merged[u].score,
            SourceKind::Vector)),
{
    let h = ins[c];
    assert(merged[t] == h);
    assert forall|u: int| 0 <= u < merged.len() implies elem_upto(ins, c + 1, #[trigger] merged[u]) by {
        if u != t {
            assert(merged[u] == pre[u]);
            let j0 = choose|j: int| 0 <= j < c && j < ins.len() && (#[trigger] ins[j]) == pre[u];
            assert(ins[j0] == merged[u]);
        } else {
            assert(ins[c] == merged[t]);
        }
    }
    assert forall|u: int| 0 <= u < merged.len() implies max_upto(ins, c + 1, #[trigger] merged[u]) by {
        if u != t {
            assert(merged[u] == pre[u]);
            assert forall|j: int|
                0 <= j < c + 1 && j < ins.len() && (#[trigger] ins[j]).id@ == merged[u].id@
                implies ins[j].score <= merged[u].score by {
                if j == c {
                    // The new hit's id sits at slot t, not u.
                    assert(pre[t].id@ != pre[u].id@);
                    assert(false);
                }
            }
        }
    }
    assert forall|j: int| 0 <= j < c + 1 implies id_present(merged, (#[trigger] ins[j]).id@) by {
        if j < c {
            let u0 = choose|u: int| 0 <= u < pre.len() && (#[trigger] pre[u]).id@ == ins[j].id@;
            if u0 == t {
                assert(merged[t].id@ == ins[j].id@);
            } else {
                assert(merged[u0].id@ == ins[j].id@);
            }
        } else {
            assert(merged[t].id@ == ins[j].id@);
        }
    }
    assert forall|u: int|
        0 <= u < merged.len() implies ((#[trigger] merged[u]).source == SourceKind::Vector
        <==> id_score_upto(ins, c + 1, merged[u].id@, merged[u].score, SourceKind::Vector)) by {
        if u != t {
            assert(merged[u] == pre[u]);
            if merged[u].source == SourceKind::Vector {
                let j0 = choose|j: int|
                    0 <= j < c && j < ins.len() && (#[trigger] ins[j]).id@ == pre[u].id@
                        && ins[j].score == pre[u].score && ins[j].source == SourceKind::Vector;
                assert(0 <= j0 < c + 1 && ins[j0].id@ == merged[u].id@ && ins[j0].score
                    == merged[u].score && ins[j0].source == SourceKind::Vector);
            } else {
                if id_score_upto(ins, c + 1, merged[u].id@, merged[u].score, SourceKind::Vector) {
                    let j0 = choose|j: int|
                        0 <= j < c + 1 && j < ins.len() && (#[trigger] ins[j]).id@ == merged[u].id@
                            && ins[j].score == merged[u].score && ins[j].source
                            == SourceKind::Vector;
                    if j0 == c {
                        assert(pre[t].id@ != pre[u].id@);
                        assert(false);
                    }
                    assert(id_score_upto(ins, c, pre[u].id@, pre[u].score, SourceKind::Vector));
                    assert(false);
                }
            }
        } else {
            if merged[t].source == SourceKind::Vector {
                assert(0 <= c < c + 1 && ins[c].id@ == merged[t].id@ && ins[c].score
                    == merged[t].score && ins[c].source == SourceKind::Vector);
            } else {
                // A vector hit attaining the new maximum cannot exist: all
                // vector hits precede the text hit that set it.
                if id_score_upto(ins, c + 1, merged[t].id@, merged[t].score, SourceKind::Vector) {
                    let j0 = choose|j: int|
                        0 <= j < c + 1 && j < ins.len() && (#[trigger] ins[j]).id@ == merged[t].id@
                            && ins[j].score == merged[t].score && ins[j].source
                            == SourceKind::Vector;
                    assert(j0 != c);
                    // Earlier hits with this id score at most the old best.
                    assert(max_upto(ins, c, pre[t]));
                    assert(ins[j0].score <= pre[t].score);
                    assert(false);
                }
            }
        }
    }
}

/// Keeping the current best for an id against a later hit that does not beat
/// it keeps every merge invariant.
proof fn lemma_merge_keep(ins: Seq<SearchHit>, c: int, dlen: int, merged: Seq<SearchHit>, t: int, h: SearchHit)
    requires
        0 <= c < ins.len(),
        0 <= t < merged.len(),
        h == ins[c],
        merged[t].id@ == h.id@,
        h.score <= merged[t].score,
        forall|j: int| 0 <= j < ins.len() ==> ((#[trigger] ins[j]).source == SourceKind::Vector <==> j < dlen),
        distinct_ids(merged),
        forall|u: int| 0 <= u < merged.len() ==> elem_upto(ins, c, #[trigger] merged[u]),
        forall|u: int| 0 <= u < merged.len() ==> max_upto(ins, c, #[trigger] merged[u]),
        forall|j: int| 0 <= j < c ==> id_present(merged, (#[trigger] ins[j]).id@),
        forall|u: int|
            0 <= u < merged.len() ==> ((#[trigger] merged[u]).source == SourceKind::Vector
                <==> id_score_upto(ins, c, merged[u].id@, merged[u].score, SourceKind::Vector)),
    ensures
        forall|u: int| 0 <= u < merged.len() ==> elem_upto(ins, c + 1, #[trigger] merged[u]),
        forall|u: int| 0 <= u < merged.len() ==> max_upto(ins, c + 1, #[trigger] merged[u]),
        forall|j: int| 0 <= j < c + 1 ==> id_present(merged, (#[trigger] ins[j]).id@),
        forall|u: int|
            0 <= u < merged.len() ==> ((#[trigger] merged[u]).source == SourceKind::Vector
                <==> id_score_upto(ins, c + 1, merged[u].id@, merged[u].score,
            SourceKind::Vector)),
{
    assert forall|u: int| 0 <= u < merged.len() implies elem_upto(ins, c + 1, #[trigger] merged[u]) by {
        let j0 = choose|j: int| 0 <= j < c && j < ins.len() && (#[trigger] ins[j]) == merged[u];
        assert(ins[j0] == merged[u]);
    }
    assert forall|j: int| 0 <= j < c + 1 implies id_present(merged, (#[trigger] ins[j]).id@) by {
        if j == c {
            assert(merged[t].id@ == ins[c].id@);
        }
    }
    assert forall|u: int|
        0 <= u < merged.len() implies ((#[trigger] merged[u]).source == SourceKind::Vector
        <==> id_score_upto(ins, c + 1, merged[u].id@, merged[u].score, SourceKind::Vector)) by {
        if merged[u].source == SourceKind::Vector {
            let j0 = choose|j: int|
                0 <= j < c && j < ins.len() && (#[trigger] ins[j]).id@ == merged[u].id@
                    && ins[j].score == merged[u].score && ins[j].source == SourceKind::Vector;
            assert(0 <= j0 < c + 1 && ins[j0].id@ == merged[u].id@ && ins[j0].score
                == merged[u].score && ins[j0].source == SourceKind::Vector);
        } else {
            if id_score_upto(ins, c + 1, merged[u].id@, merged[u].score, SourceKind::Vector) {
                let j0 = choose|j: int|
                    0 <= j < c + 1 && j < ins.len() && (#[trigger] ins[j]).id@ == merged[u].id@
                        && ins[j].score == merged[u].score && ins[j].source == SourceKind::Vector;
                if j0 == c {
                    // The later hit ties the kept text hit and is a vector
                    // hit: then the kept hit came from the vector region and
                    // would itself be a vector hit.
                    assert(u == t || merged[u].id@ != h.id@);
                    assert(u == t);
                    assert(h.source == SourceKind::Vector);
                    assert(c < dlen);
                    assert(h.score == merged[t].score);
                    let j1 = choose|j: int|
                        0 <= j < c && j < ins.len() && (#[trigger] ins[j]) == merged[t];
                    assert(j1 < c < dlen);
                    assert(ins[j1].source == SourceKind::Vector);
                    assert(merged[t].source == SourceKind::Vector);
                    assert(false);
                }
                assert(id_score_upto(ins, c, merged[u].id@, merged[u].score, SourceKind::Vector));
                assert(false);
            }
        }
    }
}

/// Inserting the first hit of a fresh id keeps every merge invariant.
proof fn lemma_merge_push(
    ins: Seq<SearchHit>,
    c: int,
    dlen: int,
    pre: Seq<SearchHit>,
    merged: Seq<SearchHit>,
)
    requires
        0 <= c < ins.len(),
        merged == pre.push(ins[c]),
        !id_present(pre, ins[c].id@),
        forall|j: int| 0 <= j < ins.len() ==> ((#[trigger] ins[j]).source == SourceKind::Vector <==> j < dlen),
        distinct_ids(pre),
        forall|u: int| 0 <= u < pre.len() ==> elem_upto(ins, c, #[trigger] pre[u]),
        forall|u: int| 0 <= u < pre.len() ==> max_upto(ins, c, #[trigger] pre[u]),
        forall|j: int| 0 <= j < c ==> id_present(pre, (#[trigger] ins[j]).id@),
        forall|u: int|
            0 <= u < pre.len() ==> ((#[trigger] pre[u]).source == SourceKind::Vector
                <==> id_score_upto(ins, c, pre[u].id@, pre[u].score, SourceKind::Vector)),
    ensures
        distinct_ids(merged),
        forall|u: int| 0 <= u < merged.len() ==> elem_upto(ins, c + 1, #[trigger] merged[u]),
        forall|u: int| 0 <= u < merged.len() ==> max_upto(ins, c + 1, #[trigger] merged[u]),
        forall|j: int| 0 <= j < c + 1 ==> id_present(merged, (#[trigger] ins[j]).id@),
        forall|u: int|
            0 <= u < merged.len() ==> ((#[trigger] merged[u]).source == SourceKind::Vector
                <==> id_score_upto(ins, c + 1, merged[u].id@, merged[u].score,
            SourceKind::Vector)),
{
    let h = ins[c];
    let newpos = pre.len() as int;
    assert(merged[newpos] == h);
    assert forall|u: int| 0 <= u < merged.len() implies elem_upto(ins, c + 1, #[trigger] merged[u]) by {
        if u < pre.len() {
            assert(merged[u] == pre[u]);
            let j0 = choose|j: int| 0 <= j < c && j < ins.len() && (#[trigger] ins[j]) == pre[u];
            assert(ins[j0] == merged[u]);
        } else {
            assert(ins[c] == merged[u]);
        }
    }
    assert forall|u: int| 0 <= u < merged.len() implies max_upto(ins, c + 1, #[trigger] merged[u]) by {
        if u < pre.len() {
            assert(merged[u] == pre[u]);
            assert forall|j: int|
                0 <= j < c + 1 && j < ins.len() && (#[trigger] ins[j]).id@ == merged[u].id@
                implies ins[j].score <= merged[u].score by {
                if j == c {
                    assert(pre[u].id@ == ins[c].id@);
                    assert(id_present(pre, ins[c].id@));
                    assert(false);
                }
            }
        } else {
            assert forall|j: int|
                0 <= j < c + 1 && j < ins.len() && (#[trigger] ins[j]).id@ == merged[u].id@
                implies ins[j].score <= merged[u].score by {
                if j < c {
                    // An earlier hit with this id would have created an entry.
                    assert(id_present(pre, ins[j].id@));
                    assert(false);
                }
            }
        }
    }
    assert forall|j: int| 0 <= j < c + 1 implies id_present(merged, (#[trigger] ins[j]).id@) by {
        if j < c {
            let u0 = choose|u: int| 0 <= u < pre.len() && (#[trigger] pre[u]).id@ == ins[j].id@;
            assert(merged[u0].id@ == ins[j].id@);
        } else {
            assert(merged[newpos].id@ == ins[j].id@);
        }
    }
    assert forall|u: int|
        0 <= u < merged.len() implies ((#[trigger] merged[u]).source == SourceKind::Vector
        <==> id_score_upto(ins, c + 1, merged[u].id@, merged[u].score, SourceKind::Vector)) by {
        if u < pre.len() {
            assert(merged[u] == pre[u]);
            if merged[u].source == SourceKind::Vector {
                let j0 = choose|j: int|
                    0 <= j < c && j < ins.len() && (#[trigger] ins[j]).id@ == pre[u].id@
                        && ins[j].score == pre[u].score && ins[j].source == SourceKind::Vector;
                assert(0 <= j0 < c + 1 && ins[j0].id@ == merged[u].id@ && ins[j0].score
                    == merged[u].score && ins[j0].source == SourceKind::Vector);
            } else {
                if id_score_upto(ins, c + 1, merged[u].id@, merged[u].score, SourceKind::Vector) {
                    let j0 = choose|j: int|
                        0 <= j < c + 1 && j < ins.len() && (#[trigger] ins[j]).id@ == merged[u].id@
                            && ins[j].score == merged[u].score && ins[j].source
                            == SourceKind::Vector;
                    if j0 == c {
                        assert(id_present(pre, ins[c].id@));
                        assert(false);
                    }
                    assert(id_score_upto(ins, c, merged[u].id@, merged[u].score,
                    SourceKind::Vector));
                    assert(false);
                }
            }
        } else {
            if merged[u].source == SourceKind::Vector {
                assert(0 <= c < c + 1 && ins[c].id@ == merged[u].id@ && ins[c].score
                    == merged[u].score && ins[c].source == SourceKind::Vector);
            } else {
                if id_score_upto(ins, c + 1, merged[u].id@, merged[u].score, SourceKind::Vector) {
                    let j0 = choose|j: int|
                        0 <= j < c + 1 && j < ins.len() && (#[trigger] ins[j]).id@ == merged[u].id@
                            && ins[j].score == merged[u].score && ins[j].source
                            == SourceKind::Vector;
                    if j0 == c {
                        assert(ins[c].source != SourceKind::Vector);
                        assert(false);
                    } else {
                        assert(id_present(pre, ins[j0].id@));
                        assert(false);
                    }
                }
            }
        }
    }
}

} // verus!
