//! Paragraph-centric chunking of plain-text documents.
//!
//! Content is split on blank-line boundaries; short paragraphs become one
//! chunk each, long paragraphs are split into word windows with a fixed
//! overlap. Every chunk of one document carries a contiguous `chunk_index`
//! starting at zero and the document's final chunk count in `total_chunks`.

use crate::numfmt::dec_of;
use crate::numfmt::usize_to_string;
use crate::paths::extract_doc_id;
use crate::paths::facet_of;
use crate::paths::get_facet_from_path;
use crate::paths::stem_of;
use crate::textops::is_space_char;
use crate::textops::join_range;
use crate::textops::join_words;
use crate::textops::split_paragraphs;
use crate::textops::split_words;
use crate::textops::trim;
use crate::textops::trim_of;
use crate::textops::paras_of;
use crate::textops::views_of;
use crate::textops::words_of;
use crate::types::DocumentChunk;
use vstd::prelude::*;
use vstd::string::StrSliceExecFns;
use vstd::string::StringExecFns;

verus! {

/// Chunking policy: paragraphs whose token estimate stays within
/// `max_tokens` are kept whole; longer ones are split into windows of
/// `words_per_chunk` words overlapping by `overlap_words`.
#[derive(Debug, Clone, Copy, PartialEq, Eq, Structural)]
pub struct ChunkingConfig {
    pub max_tokens: usize,
    pub words_per_chunk: usize,
    pub overlap_words: usize,
}

impl ChunkingConfig {
    /// The overlap must stay below the window so every window advances.
    pub open spec fn wf(&self) -> bool {
        0 < self.words_per_chunk && self.overlap_words < self.words_per_chunk
    }
}

impl Default for ChunkingConfig {
    /// 500-token paragraphs kept whole; 300-word windows with a 20% (60-word)
    /// overlap otherwise.
    fn default() -> (r: Self)
        ensures
            r.max_tokens == 500,
            r.words_per_chunk == 300,
            r.overlap_words == 60,
            r.wf(),
    {
        ChunkingConfig { max_tokens: 500, words_per_chunk: 300, overlap_words: 60 }
    }
}

/// Estimated token count for `word_count` words: the ceiling of
/// `word_count / 0.75`.
pub open spec fn token_estimate(word_count: nat) -> nat {
    (4 * word_count + 2) / 3
}

/// The word-window sub-chunks of `ws` from window start `start` on, each
/// window `wpc` words long and overlapping the next by `ov` words; the final
/// window may be short.
pub open spec fn window_chunks(ws: Seq<Seq<char>>, start: int, wpc: int, ov: int) -> Seq<Seq<char>>
    decreases ws.len() - start,
    when 0 <= start && 0 <= ov < wpc
{
    if start >= ws.len() {
        Seq::empty()
    } else if start + wpc >= ws.len() {
        seq![join_words(ws.subrange(start, ws.len() as int))]
    } else {
        seq![join_words(ws.subrange(start, start + wpc))] + window_chunks(
            ws,
            start + wpc - ov,
            wpc,
            ov,
        )
    }
}

/// The chunk contents produced for one already-trimmed, non-empty paragraph.
pub open spec fn para_chunks(p: Seq<char>, cfg: ChunkingConfig) -> Seq<Seq<char>> {
    if token_estimate(words_of(p).len()) <= cfg.max_tokens {
        seq![p]
    } else {
        window_chunks(words_of(p), 0, cfg.words_per_chunk as int, cfg.overlap_words as int)
    }
}

/// The chunk contents produced for a sequence of raw paragraphs: each is
/// trimmed, empties are dropped, the rest contribute their `para_chunks`.
pub open spec fn chunks_of_paras(ps: Seq<Seq<char>>, cfg: ChunkingConfig) -> Seq<Seq<char>>
    decreases ps.len(),
{
    if ps.len() == 0 {
        Seq::empty()
    } else {
        let t = trim_of(ps[0]);
        (if t.len() == 0 {
            Seq::empty()
        } else {
            para_chunks(t, cfg)
        }) + chunks_of_paras(ps.drop_first(), cfg)
    }
}

/// The chunk contents of one document.
pub open spec fn chunks_of(content: Seq<char>, cfg: ChunkingConfig) -> Seq<Seq<char>> {
    chunks_of_paras(paras_of(content), cfg)
}

/// One text file handed to the processor: its path and its (possibly lossily
/// decoded) content.
#[derive(Debug, Clone)]
pub struct SourceFile {
    pub path: String,
    pub content: String,
}

/// Number of chunks that file `f` contributes.
pub open spec fn file_chunk_count(cfg: ChunkingConfig, f: SourceFile) -> nat {
    chunks_of(f.content@, cfg).len()
}

/// Number of chunks contributed by the first `k` files together.
pub open spec fn chunk_offset(cfg: ChunkingConfig, files: Seq<SourceFile>, k: int) -> nat
    decreases k,
    when k <= files.len()
{
    if k <= 0 {
        0
    } else {
        chunk_offset(cfg, files, k - 1) + file_chunk_count(cfg, files[k - 1])
    }
}

proof fn lemma_chunk_offset_mono(cfg: ChunkingConfig, files: Seq<SourceFile>, a: int, b: int)
    requires
        0 <= a <= b <= files.len(),
    ensures
        chunk_offset(cfg, files, a) <= chunk_offset(cfg, files, b),
    decreases b,
{
    if a < b {
        lemma_chunk_offset_mono(cfg, files, a, b - 1);
    }
}

/// Every output position falls inside exactly one file's range.
proof fn lemma_chunk_position(cfg: ChunkingConfig, files: Seq<SourceFile>, n: int, p: int)
    requires
        0 <= n <= files.len(),
        0 <= p < chunk_offset(cfg, files, n),
    ensures
        exists|k: int|
            0 <= k < n && #[trigger] chunk_offset(cfg, files, k) <= p && p < chunk_offset(
                cfg,
                files,
                k,
            ) + file_chunk_count(cfg, files[k]),
    decreases n,
{
    if p >= chunk_offset(cfg, files, n - 1) {
        assert(chunk_offset(cfg, files, n - 1) <= p && p < chunk_offset(cfg, files, n - 1)
            + file_chunk_count(cfg, files[n - 1]));
    } else {
        lemma_chunk_position(cfg, files, n - 1, p);
    }
}

/// Chunk `j` of file `f`, expected at position `off + j` of the output: the
/// right content, position, identifiers and facet.
pub open spec fn chunk_ok(
    c: DocumentChunk,
    cfg: ChunkingConfig,
    data_dir: Seq<char>,
    f: SourceFile,
    j: int,
) -> bool {
    let cs = chunks_of(f.content@, cfg);
    &&& c.content@ == cs[j]
    &&& c.chunk_index == j
    &&& c.total_chunks == cs.len()
    &&& c.doc_id@ == stem_of(f.path@)
    &&& c.doc_path@ == f.path@
    &&& c.category@ == facet_of(f.path@, data_dir)
    &&& c.category_text@ == facet_of(f.path@, data_dir)
    &&& c.id@ == stem_of(f.path@) + seq![':'] + dec_of(j as nat)
}

/// All chunks of `f` stand in `r` starting at `off`, each as `chunk_ok` says.
pub open spec fn file_chunks_ok(
    r: Seq<DocumentChunk>,
    cfg: ChunkingConfig,
    data_dir: Seq<char>,
    f: SourceFile,
    off: int,
) -> bool {
    forall|j: int|
        0 <= j < chunks_of(f.content@, cfg).len() ==> chunk_ok(
            #[trigger] r[off + j],
            cfg,
            data_dir,
            f,
            j,
        )
}

/// Turns a directory of text files into indexable chunks.
#[derive(Debug, Clone, Copy, PartialEq, Eq, Structural)]
pub struct DataProcessor {
    pub chunking_config: ChunkingConfig,
}

impl Default for DataProcessor {
    fn default() -> (r: Self)
        ensures
            r.chunking_config.max_tokens == 500,
            r.chunking_config.words_per_chunk == 300,
            r.chunking_config.overlap_words == 60,
            r.chunking_config.wf(),
    {
        DataProcessor { chunking_config: ChunkingConfig::default() }
    }
}

impl DataProcessor {
    pub fn new() -> (r: Self)
        ensures
            r.chunking_config.max_tokens == 500,
            r.chunking_config.words_per_chunk == 300,
            r.chunking_config.overlap_words == 60,
            r.chunking_config.wf(),
    {
        DataProcessor::default()
    }

    /// Estimate the token count of `text` and compare it with the budget:
    /// about one token per 0.75 words, rounded up.
    pub fn count_tokens_within(&self, word_count: usize) -> (r: bool)
        ensures
            r == (token_estimate(word_count as nat) <= self.chunking_config.max_tokens as nat),
    {
        let est: u128 = (4 * (word_count as u128) + 2) / 3;
        est <= self.chunking_config.max_tokens as u128
    }

    /// Split one over-long paragraph, given as its word list, into overlapping
    /// word windows.
    fn split_paragraph_with_overlap(&self, words: &Vec<String>) -> (r: Vec<String>)
        requires
            self.chunking_config.wf(),
        ensures
            views_of(r@) == window_chunks(
                views_of(words@),
                0,
                self.chunking_config.words_per_chunk as int,
                self.chunking_config.overlap_words as int,
            ),
    {
        let ghost ws = views_of(words@);
        let ghost wpc = self.chunking_config.words_per_chunk as int;
        let ghost ov = self.chunking_config.overlap_words as int;
        let mut r: Vec<String> = Vec::new();
        let len = words.len();
        if len == 0 {
            proof {
                assert(views_of(r@) =~= window_chunks(ws, 0, wpc, ov));
            }
            return r;
        }
        let mut start: usize = 0;
        while start < len
            invariant
                0 <= start <= len,
                len == words@.len(),
                ws == views_of(words@),
                wpc == self.chunking_config.words_per_chunk as int,
                ov == self.chunking_config.overlap_words as int,
                self.chunking_config.wf(),
                window_chunks(ws, 0, wpc, ov) == views_of(r@) + window_chunks(
                    ws,
                    start as int,
                    wpc,
                    ov,
                ),
            decreases len - start,
        {
            let wpc_x = self.chunking_config.words_per_chunk;
            let ov_x = self.chunking_config.overlap_words;
            let ghost old_r = r@;
            if len - start > wpc_x {
                let end = start + wpc_x;
                let joined = join_range(words, start, end);
                r.push(joined);
                proof {
                    assert(views_of(r@) =~= views_of(old_r).push(
                        join_words(ws.subrange(start as int, end as int)),
                    ));
                    assert(views_of(r@) + window_chunks(ws, end - ov, wpc, ov) =~= views_of(old_r)
                        + window_chunks(ws, start as int, wpc, ov));
                }
                start = end - ov_x;
            } else {
                let joined = join_range(words, start, len);
                r.push(joined);
                proof {
                    assert(views_of(r@) =~= views_of(old_r).push(
                        join_words(ws.subrange(start as int, len as int)),
                    ));
                    assert(window_chunks(ws, start as int, wpc, ov) =~= seq![
                        join_words(ws.subrange(start as int, len as int)),
                    ]);
                    assert(views_of(r@) + window_chunks(ws, len as int, wpc, ov) =~= views_of(
                        old_r,
                    ) + window_chunks(ws, start as int, wpc, ov));
                }
                start = len;
            }
        }
        proof {
            assert(views_of(r@) =~= window_chunks(ws, 0, wpc, ov));
        }
        r
    }

    /// The chunk contents of one document, in order.
    fn chunk_contents(&self, content: &str) -> (r: Vec<String>)
        requires
            self.chunking_config.wf(),
        ensures
            views_of(r@) == chunks_of(content@, self.chunking_config),
    {
        let ghost cfg = self.chunking_config;
        let paras = split_paragraphs(content);
        let ghost pv = views_of(paras@);
        let mut r: Vec<String> = Vec::new();
        let mut k: usize = 0;
        proof {
            assert(pv.skip(0) =~= pv);
        }
        while k < paras.len()
            invariant
                0 <= k <= paras@.len(),
                pv == views_of(paras@),
                pv == paras_of(content@),
                cfg == self.chunking_config,
                cfg.wf(),
                chunks_of(content@, cfg) == views_of(r@) + chunks_of_paras(pv.skip(k as int), cfg),
            decreases paras@.len() - k,
        {
            let t = trim(paras[k].as_str());
            let ghost old_r = r@;
            proof {
                assert(pv.skip(k as int).drop_first() =~= pv.skip(k as int + 1));
                assert(pv.skip(k as int)[0] == paras@[k as int]@);
            }
            if !t.as_str().is_empty() {
                let words = split_words(t.as_str());
                if self.count_tokens_within(words.len()) {
                    proof {
                        assert(para_chunks(t@, cfg) =~= seq![t@]);
                    }
                    r.push(t);
                    proof {
                        assert(views_of(r@) =~= views_of(old_r).push(
                            trim_of(paras@[k as int]@),
                        ));
                    }
                } else {
                    let mut subs = self.split_paragraph_with_overlap(&words);
                    let ghost subs_v = views_of(subs@);
                    r.append(&mut subs);
                    proof {
                        assert(views_of(r@) =~= views_of(old_r) + subs_v);
                        assert(subs_v == para_chunks(trim_of(paras@[k as int]@), cfg));
                    }
                }
            }
            proof {
                assert(chunks_of(content@, cfg) =~= views_of(r@) + chunks_of_paras(
                    pv.skip(k as int + 1),
                    cfg,
                ));
            }
            k = k + 1;
        }
        proof {
            assert(pv.skip(k as int) =~= Seq::<Seq<char>>::empty());
            assert(views_of(r@) =~= chunks_of(content@, cfg));
        }
        r
    }

    /// Chunk one document's content. Every emitted chunk has a contiguous
    /// `chunk_index` below `total_chunks`, which equals the document's final
    /// chunk count on all of them, and an id of the form
    /// `"{doc_id}:{chunk_index}"`.
    pub fn chunk_content(
        &self,
        content: &str,
        doc_id: &str,
        doc_path: &str,
        category: &str,
    ) -> (r: Vec<DocumentChunk>)
        requires
            self.chunking_config.wf(),
        ensures
            r@.len() == chunks_of(content@, self.chunking_config).len(),
            forall|i: int|
                0 <= i < r@.len() ==> (#[trigger] r@[i]).content@ == chunks_of(
                    content@,
                    self.chunking_config,
                )[i],
            forall|i: int| 0 <= i < r@.len() ==> (#[trigger] r@[i]).chunk_index == i,
            forall|i: int| 0 <= i < r@.len() ==> (#[trigger] r@[i]).total_chunks == r@.len(),
            forall|i: int|
                0 <= i < r@.len() ==> (#[trigger] r@[i]).id@ == doc_id@ + seq![':'] + dec_of(
                    i as nat,
                ),
            forall|i: int| 0 <= i < r@.len() ==> (#[trigger] r@[i]).doc_id@ == doc_id@,
            forall|i: int| 0 <= i < r@.len() ==> (#[trigger] r@[i]).doc_path@ == doc_path@,
            forall|i: int| 0 <= i < r@.len() ==> (#[trigger] r@[i]).category@ == category@,
            forall|i: int| 0 <= i < r@.len() ==> (#[trigger] r@[i]).category_text@ == category@,
    {
        let contents = self.chunk_contents(content);
        let total = contents.len();
        let mut r: Vec<DocumentChunk> = Vec::new();
        let mut i: usize = 0;
        while i < total
            invariant
                0 <= i <= total,
                total == contents@.len(),
                views_of(contents@) == chunks_of(content@, self.chunking_config),
                r@.len() == i,
                forall|j: int|
                    0 <= j < i ==> (#[trigger] r@[j]).content@ == views_of(contents@)[j],
                forall|j: int| 0 <= j < i ==> (#[trigger] r@[j]).chunk_index == j,
                forall|j: int| 0 <= j < i ==> (#[trigger] r@[j]).total_chunks == total,
                forall|j: int|
                    0 <= j < i ==> (#[trigger] r@[j]).id@ == doc_id@ + seq![':'] + dec_of(j as nat),
                forall|j: int| 0 <= j < i ==> (#[trigger] r@[j]).doc_id@ == doc_id@,
                forall|j: int| 0 <= j < i ==> (#[trigger] r@[j]).doc_path@ == doc_path@,
                forall|j: int| 0 <= j < i ==> (#[trigger] r@[j]).category@ == category@,
                forall|j: int| 0 <= j < i ==> (#[trigger] r@[j]).category_text@ == category@,
            decreases total - i,
        {
            let mut id = doc_id.to_owned();
            id.append(":");
            let idx_str = usize_to_string(i);
            id.append(idx_str.as_str());
            proof {
                reveal_strlit(":");
                assert(":"@ =~= seq![':']);
                assert(id@ =~= doc_id@ + seq![':'] + dec_of(i as nat));
            }
            let chunk = DocumentChunk {
                id,
                doc_id: doc_id.to_owned(),
                doc_path: doc_path.to_owned(),
                category: category.to_owned(),
                category_text: category.to_owned(),
                content: contents[i].clone(),
                chunk_index: i,
                total_chunks: total,
            };
            r.push(chunk);
            i = i + 1;
        }
        r
    }

    /// Chunk the first `n = min(bound, files.len())` files, in order.
    fn process_upto(&self, data_dir: &str, files: &Vec<SourceFile>, bound: usize) -> (r: Vec<
        DocumentChunk,
    >)
        requires
            self.chunking_config.wf(),
        ensures
            ({
                let n = if bound <= files@.len() {
                    bound as int
                } else {
                    files@.len() as int
                };
                &&& r@.len() == chunk_offset(self.chunking_config, files@, n)
                &&& forall|k: int|
                    0 <= k < n ==> file_chunks_ok(
                        r@,
                        self.chunking_config,
                        data_dir@,
                        files@[k],
                        #[trigger] chunk_offset(self.chunking_config, files@, k) as int,
                    )
                &&& (forall|k1: int, k2: int|
                    0 <= k1 < k2 < n ==> stem_of(files@[k1].path@) != stem_of(files@[k2].path@))
                    ==> forall|a: int, b: int|
                    0 <= a < r@.len() && 0 <= b < r@.len() && r@[a].doc_id@ == r@[b].doc_id@
                        ==> r@[a].total_chunks == r@[b].total_chunks
            }),
    {
        let ghost cfg = self.chunking_config;
        let n = if bound <= files.len() {
            bound
        } else {
            files.len()
        };
        let mut r: Vec<DocumentChunk> = Vec::new();
        let mut k: usize = 0;
        while k < n
            invariant
                0 <= k <= n <= files@.len(),
                cfg == self.chunking_config,
                cfg.wf(),
                r@.len() == chunk_offset(cfg, files@, k as int),
                forall|q: int|
                    0 <= q < k ==> file_chunks_ok(
                        r@,
                        cfg,
                        data_dir@,
                        files@[q],
                        #[trigger] chunk_offset(cfg, files@, q) as int,
                    ),
            decreases n - k,
        {
            let f = &files[k];
            let doc_id = extract_doc_id(f.path.as_str());
            let category = get_facet_from_path(f.path.as_str(), data_dir);
            let mut chunks = self.chunk_content(
                f.content.as_str(),
                doc_id.as_str(),
                f.path.as_str(),
                category.as_str(),
            );
            let ghost old_r = r@;
            let ghost new_chunks = chunks@;
            r.append(&mut chunks);
            proof {
                assert(r@ =~= old_r + new_chunks);
                let off = chunk_offset(cfg, files@, k as int) as int;
                let cs = chunks_of(files@[k as int].content@, cfg);
                assert forall|j: int| 0 <= j < cs.len() implies chunk_ok(
                    #[trigger] r@[off + j],
                    cfg,
                    data_dir@,
                    files@[k as int],
                    j,
                ) by {
                    assert(r@[off + j] == new_chunks[j]);
                    assert(new_chunks[j].content@ == cs[j]);
                    assert(new_chunks[j].chunk_index == j);
                }
                assert(file_chunks_ok(
                    r@,
                    cfg,
                    data_dir@,
                    files@[k as int],
                    chunk_offset(cfg, files@, k as int) as int,
                ));
                assert forall|q: int| 0 <= q < k implies file_chunks_ok(
                    r@,
                    cfg,
                    data_dir@,
                    files@[q],
                    #[trigger] chunk_offset(cfg, files@, q) as int,
                ) by {
                    lemma_chunk_offset_mono(cfg, files@, q + 1, k as int);
                    let off_q = chunk_offset(cfg, files@, q) as int;
                    let cs_q = chunks_of(files@[q].content@, cfg);
                    assert forall|j: int| 0 <= j < cs_q.len() implies chunk_ok(
                        #[trigger] r@[off_q + j],
                        cfg,
                        data_dir@,
                        files@[q],
                        j,
                    ) by {
                        assert(off_q + j < old_r.len());
                        assert(r@[off_q + j] == old_r[off_q + j]);
                        assert(chunk_ok(old_r[off_q + j], cfg, data_dir@, files@[q], j));
                    }
                }
            }
            k = k + 1;
        }
        proof {
            // Distinct file stems give one total per document id across the
            // whole output: each position belongs to one file, whose stem is
            // the chunk's document id and whose chunk count is its total.
            if forall|k1: int, k2: int|
                0 <= k1 < k2 < n ==> stem_of(files@[k1].path@) != stem_of(files@[k2].path@) {
                assert forall|a: int, b: int|
                    0 <= a < r@.len() && 0 <= b < r@.len() && r@[a].doc_id@ == r@[b].doc_id@
                    implies r@[a].total_chunks == r@[b].total_chunks by {
                    lemma_chunk_position(cfg, files@, n as int, a);
                    let k1 = choose|k1: int|
                        0 <= k1 < n && #[trigger] chunk_offset(cfg, files@, k1) <= a && a
                            < chunk_offset(cfg, files@, k1) + file_chunk_count(cfg, files@[k1]);
                    lemma_chunk_position(cfg, files@, n as int, b);
                    let k2 = choose|k2: int|
                        0 <= k2 < n && #[trigger] chunk_offset(cfg, files@, k2) <= b && b
                            < chunk_offset(cfg, files@, k2) + file_chunk_count(cfg, files@[k2]);
                    let j1 = a - chunk_offset(cfg, files@, k1);
                    let j2 = b - chunk_offset(cfg, files@, k2);
                    assert(chunk_ok(
                        r@[chunk_offset(cfg, files@, k1) as int + j1],
                        cfg,
                        data_dir@,
                        files@[k1],
                        j1,
                    ));
                    assert(chunk_ok(
                        r@[chunk_offset(cfg, files@, k2) as int + j2],
                        cfg,
                        data_dir@,
                        files@[k2],
                        j2,
                    ));
                    assert(r@[a].doc_id@ == stem_of(files@[k1].path@));
                    assert(r@[b].doc_id@ == stem_of(files@[k2].path@));
                    if k1 != k2 {
                        assert(stem_of(files@[k1].path@) != stem_of(files@[k2].path@));
                        assert(false);
                    }
                    assert(r@[a].total_chunks == file_chunk_count(cfg, files@[k1]) as int);
                }
            }
        }
        r
    }

    /// Chunk every file of the walk, in walk order.
    pub fn process_files(&self, data_dir: &str, files: &Vec<SourceFile>) -> (r: Vec<DocumentChunk>)
        requires
            self.chunking_config.wf(),
        ensures
            r@.len() == chunk_offset(self.chunking_config, files@, files@.len() as int),
            forall|k: int|
                0 <= k < files@.len() ==> file_chunks_ok(
                    r@,
                    self.chunking_config,
                    data_dir@,
                    files@[k],
                    #[trigger] chunk_offset(self.chunking_config, files@, k) as int,
                ),
            (forall|k1: int, k2: int|
                0 <= k1 < k2 < files@.len() ==> stem_of(files@[k1].path@) != stem_of(
                    files@[k2].path@,
                )) ==> forall|a: int, b: int|
                0 <= a < r@.len() && 0 <= b < r@.len() && r@[a].doc_id@ == r@[b].doc_id@
                    ==> r@[a].total_chunks == r@[b].total_chunks,
    {
        self.process_upto(data_dir, files, files.len())
    }

    /// Chunk only the first `limit` files of the walk.
    pub fn process_files_limited(
        &self,
        data_dir: &str,
        files: &Vec<SourceFile>,
        limit: usize,
    ) -> (r: Vec<DocumentChunk>)
        requires
            self.chunking_config.wf(),
        ensures
            ({
                let n = if limit <= files@.len() {
                    limit as int
                } else {
                    files@.len() as int
                };
                &&& r@.len() == chunk_offset(self.chunking_config, files@, n)
                &&& forall|k: int|
                    0 <= k < n ==> file_chunks_ok(
                        r@,
                        self.chunking_config,
                        data_dir@,
                        files@[k],
                        #[trigger] chunk_offset(self.chunking_config, files@, k) as int,
                    )
                &&& (forall|k1: int, k2: int|
                    0 <= k1 < k2 < files@.len() ==> stem_of(files@[k1].path@) != stem_of(
                        files@[k2].path@,
                    )) ==> forall|a: int, b: int|
                    0 <= a < r@.len() && 0 <= b < r@.len() && r@[a].doc_id@ == r@[b].doc_id@
                        ==> r@[a].total_chunks == r@[b].total_chunks
            }),
    {
        self.process_upto(data_dir, files, limit)
    }
}

} // verus!
