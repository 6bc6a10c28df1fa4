//! Status-driven, restartable embedding backfill.
//!
//! The frontier is every `documents` row that is not `ready`. Each batch is
//! reserved (`in_progress`), re-hashed, looked up in the cache, and the cache
//! misses — deduplicated by content hash — are sent to the provider. On
//! success the fresh vectors are written through the cache, one embeddings
//! row is appended per batch row, and the batch is marked `ready` with the
//! recomputed hash. On a provider failure only the miss rows move to
//! `error`; cache hits stay reserved for the next run.

use crate::hashing::blake3_hex_of;
use crate::hashing::hash_content;
use crate::store::bump;
use crate::store::contains_str;
use crate::store::count_not_ready_in;
use crate::store::has_idx;
use crate::store::is_marked_error;
use crate::store::is_status_set;
use crate::store::valid_idxs;
use crate::store::CacheEntry;
use crate::store::DocRow;
use crate::store::EmbRow;
use crate::store::Store;
use crate::textops::str_eq;
use crate::types::EmbeddingStatus;
use vstd::prelude::*;

verus! {

/// A producer of embedding vectors. Implementations load a local model or
/// call a remote service; nothing is assumed of their output, so the backfill
/// validates counts and dimensions itself.
pub trait EmbedProvider {
    /// Stable identifier of the provider and model (e.g. `local:...:d1024`).
    fn embedder_id(&self) -> String;

    /// Embedding dimensionality `D`.
    fn dim(&self) -> usize;

    /// Maximum input token length; longer inputs are truncated by the
    /// provider.
    fn max_len(&self) -> usize;

    /// Embed a batch of texts; each returned vector holds the words of one
    /// embedding (bit patterns for float-valued providers).
    fn embed_batch(&self, texts: &Vec<String>) -> Result<Vec<Vec<u32>>, String>;
}

/// The latest `embeddings` row for `(id, embedder_id)`: the last one
/// appended, which carries the greatest embed time.
pub open spec fn last_emb(embs: Seq<EmbRow>, id: Seq<char>, pid: Seq<char>) -> Option<EmbRow>
    decreases embs.len(),
{
    if embs.len() == 0 {
        None
    } else if embs.last().id@ == id && embs.last().embedder_id@ == pid {
        Some(embs.last())
    } else {
        last_emb(embs.drop_last(), id, pid)
    }
}

/// Row `i` of `documents` is backed by the pipeline for provider `pid`: the
/// cache answers its content hash, and the latest embeddings row for its id
/// carries the same hash and the cached vector.
pub open spec fn doc_covered(s: &Store, pid: Seq<char>, i: int) -> bool {
    &&& s.cache_view().contains_key((s.docs_seq()[i].content_hash@, pid))
    &&& last_emb(s.embs_seq(), s.docs_seq()[i].id@, pid) matches Some(e) && e.content_hash@
        == s.docs_seq()[i].content_hash@ && s.cache_view()[(s.docs_seq()[i].content_hash@, pid)]
        == e.vector@
}

/// Every `ready` row is backed by the pipeline for provider `pid`.
pub open spec fn ready_inv(s: &Store, pid: Seq<char>) -> bool {
    forall|i: int|
        0 <= i < s.docs_seq().len() && (#[trigger] s.docs_seq()[i]).embedding_status
            == EmbeddingStatus::Ready ==> doc_covered(s, pid, i)
}

/// In a well-formed store the backing invariant reads over current content:
/// the cache answers every ready row's current content digest with the
/// vector of that row's latest embeddings row.
pub proof fn lemma_ready_backed_by_current_content(s: &Store, pid: Seq<char>, i: int)
    requires
        s.wf(),
        ready_inv(s, pid),
        0 <= i < s.docs_seq().len(),
        s.docs_seq()[i].embedding_status == EmbeddingStatus::Ready,
    ensures
        s.cache_view().contains_key((blake3_hex_of(s.docs_seq()[i].content@), pid)),
        last_emb(s.embs_seq(), s.docs_seq()[i].id@, pid) matches Some(e) && e.content_hash@
            == blake3_hex_of(s.docs_seq()[i].content@) && s.cache_view()[(blake3_hex_of(
            s.docs_seq()[i].content@,
        ), pid)] == e.vector@,
{
    assert(doc_covered(s, pid, i));
    assert(s.docs_seq()[i].content_hash@ == blake3_hex_of(s.docs_seq()[i].content@));
}

/// The cache already answers the current content digest of every not-ready
/// row for provider `pid`: a run over such a store needs no provider call.
pub open spec fn all_frontier_cached(s: &Store, pid: Seq<char>) -> bool {
    forall|i: int|
        0 <= i < s.docs_seq().len() && (#[trigger] s.docs_seq()[i]).embedding_status
            != EmbeddingStatus::Ready ==> s.cache_view().contains_key(
            (blake3_hex_of(s.docs_seq()[i].content@), pid),
        )
}

/// How many rows a run over `s` selects: the whole not-ready frontier, or
/// the cap when one is given.
pub open spec fn frontier_target(s: &Store, limit: Option<usize>) -> nat {
    let cnt = count_not_ready_in(s.docs_seq());
    match limit {
        Some(l) => if l as nat <= cnt {
            l as nat
        } else {
            cnt
        },
        None => cnt,
    }
}

/// Row `i` lies on the frontier a run with this `limit` selects: not ready,
/// and not cut off by the cap.
pub open spec fn on_frontier(s: &Store, limit: Option<usize>, i: int) -> bool {
    &&& s.docs_seq()[i].embedding_status != EmbeddingStatus::Ready
    &&& match limit {
        Some(l) => count_not_ready_in(s.docs_seq().take(i)) < l as nat,
        None => true,
    }
}

/// `row` is `o` driven to ready at time `now`: error cleared, version
/// bumped, embed time set, the recomputed content digest recorded, and every
/// other column kept.
pub open spec fn row_completed(o: DocRow, row: DocRow, now: u64) -> bool {
    &&& row.embedding_status == EmbeddingStatus::Ready
    &&& row.embedding_error is None
    &&& row.embedding_version == bump(o.embedding_version)
    &&& row.embedded_at == Some(now)
    &&& row.content_hash@ == blake3_hex_of(o.content@)
    &&& row.id == o.id
    &&& row.doc_id == o.doc_id
    &&& row.doc_path == o.doc_path
    &&& row.category == o.category
    &&& row.category_text == o.category_text
    &&& row.content == o.content
    &&& row.chunk_index == o.chunk_index
    &&& row.total_chunks == o.total_chunks
    &&& row.vector == o.vector
    &&& row.index_status == o.index_status
    &&& row.index_version == o.index_version
}

/// `row` is `o` marked failed with some provider message.
pub open spec fn row_failed(o: DocRow, row: DocRow) -> bool {
    exists|m: Seq<char>| is_marked_error(o, row, m)
}

/// What a run may leave of a row: untouched, driven to ready, still
/// reserved, or failed with a message — never anything else.
pub open spec fn row_outcome(o: DocRow, row: DocRow, now: u64) -> bool {
    ||| row == o
    ||| row_completed(o, row, now)
    ||| is_status_set(o, row, EmbeddingStatus::InProgress)
    ||| row_failed(o, row)
}

/// `h` is the current content digest of some not-ready document of `s`.
pub open spec fn digest_of_frontier_row(s: &Store, h: Seq<char>) -> bool {
    exists|i: int|
        0 <= i < s.docs_seq().len() && (#[trigger] s.docs_seq()[i]).embedding_status
            != EmbeddingStatus::Ready && h == blake3_hex_of(s.docs_seq()[i].content@)
}

/// Whatever a run leaves of a row, its id and its content survive.
proof fn lemma_outcome_keeps_identity(o: DocRow, rowp: DocRow, now: u64)
    requires
        row_outcome(o, rowp, now),
    ensures
        rowp.id == o.id,
        rowp.content == o.content,
{
    if rowp == o {
    } else if row_completed(o, rowp, now) {
    } else if is_status_set(o, rowp, EmbeddingStatus::InProgress) {
    } else {
        let m = choose|m: Seq<char>| is_marked_error(o, rowp, m);
        assert(is_marked_error(o, rowp, m));
    }
}

/// A row the run appended to the embeddings table: it belongs to a not-ready
/// document of `s_old`, carries that document's current content digest and
/// this provider's id, and its vector is the one the cache of `s_new`
/// answers for that key.
pub open spec fn fresh_emb_row(e: EmbRow, s_old: &Store, s_new: &Store, pid: Seq<char>, now: u64) -> bool {
    &&& e.embedder_id@ == pid
    &&& e.embedded_at == now
    &&& s_new.cache_view().contains_key((e.content_hash@, pid))
    &&& s_new.cache_view()[(e.content_hash@, pid)] == e.vector@
    &&& exists|i: int|
        0 <= i < s_old.docs_seq().len() && (#[trigger] s_old.docs_seq()[i]).embedding_status
            != EmbeddingStatus::Ready && e.id@ == s_old.docs_seq()[i].id@ && e.content_hash@
            == blake3_hex_of(s_old.docs_seq()[i].content@)
}

/// Appending rows for other ids (or another provider) does not change the
/// latest row for `(id, pid)`.
proof fn lemma_last_emb_append_other(e: Seq<EmbRow>, rows: Seq<EmbRow>, id: Seq<char>, pid: Seq<char>)
    requires
        forall|x: int|
            0 <= x < rows.len() ==> !((#[trigger] rows[x]).id@ == id && rows[x].embedder_id@
                == pid),
    ensures
        last_emb(e + rows, id, pid) == last_emb(e, id, pid),
    decreases rows.len(),
{
    if rows.len() == 0 {
        assert(e + rows =~= e);
    } else {
        assert((e + rows).drop_last() =~= e + rows.drop_last());
        assert((e + rows).last() == rows.last());
        lemma_last_emb_append_other(e, rows.drop_last(), id, pid);
    }
}

/// The latest row for `(id, pid)` after an append is the last appended row
/// that carries that key.
proof fn lemma_last_emb_append_hit(
    e: Seq<EmbRow>,
    rows: Seq<EmbRow>,
    x: int,
    id: Seq<char>,
    pid: Seq<char>,
)
    requires
        0 <= x < rows.len(),
        rows[x].id@ == id,
        rows[x].embedder_id@ == pid,
        forall|y: int|
            x < y < rows.len() ==> !((#[trigger] rows[y]).id@ == id && rows[y].embedder_id@
                == pid),
    ensures
        last_emb(e + rows, id, pid) == Some(rows[x]),
    decreases rows.len(),
{
    assert((e + rows).last() == rows.last());
    if x == rows.len() - 1 {
    } else {
        assert((e + rows).drop_last() =~= e + rows.drop_last());
        assert(rows.drop_last()[x] == rows[x]);
        lemma_last_emb_append_hit(e, rows.drop_last(), x, id, pid);
    }
}

/// Entries none of which carry key `k` leave `k` unwritten.
proof fn lemma_last_entry_absent(es: Seq<CacheEntry>, k: (Seq<char>, Seq<char>))
    requires
        forall|x: int|
            0 <= x < es.len() ==> !((#[trigger] es[x]).content_hash@ == k.0 && es[x].embedder_id@
                == k.1),
    ensures
        crate::store::last_entry_val(es, k) is None,
    decreases es.len(),
{
    if es.len() > 0 {
        lemma_last_entry_absent(es.drop_last(), k);
    }
}

/// Entries one of which carries key `k` leave `k` written.
proof fn lemma_last_entry_present(es: Seq<CacheEntry>, x: int, k: (Seq<char>, Seq<char>))
    requires
        0 <= x < es.len(),
        es[x].content_hash@ == k.0,
        es[x].embedder_id@ == k.1,
    ensures
        crate::store::last_entry_val(es, k) is Some,
    decreases es.len(),
{
    if x < es.len() - 1 && !(es.last().content_hash@ == k.0 && es.last().embedder_id@ == k.1) {
        assert(es.drop_last()[x] == es[x]);
        lemma_last_entry_present(es.drop_last(), x, k);
    }
}

/// A written key is carried by one of the entries.
proof fn lemma_last_entry_some_key(es: Seq<CacheEntry>, k: (Seq<char>, Seq<char>))
    requires
        crate::store::last_entry_val(es, k) is Some,
    ensures
        exists|x: int|
            0 <= x < es.len() && (#[trigger] es[x]).content_hash@ == k.0 && es[x].embedder_id@
                == k.1,
    decreases es.len(),
{
    if es.len() > 0 {
        if !(es.last().content_hash@ == k.0 && es.last().embedder_id@ == k.1) {
            lemma_last_entry_some_key(es.drop_last(), k);
            let x = choose|x: int|
                0 <= x < es.drop_last().len() && (#[trigger] es.drop_last()[x]).content_hash@
                    == k.0 && es.drop_last()[x].embedder_id@ == k.1;
            assert(es[x].content_hash@ == k.0 && es[x].embedder_id@ == k.1);
        } else {
            assert(es[es.len() - 1].content_hash@ == k.0 && es[es.len() - 1].embedder_id@ == k.1);
        }
    }
}

/// Every value of the cache view of dimension-`d` rows has length `d`.
proof fn lemma_cache_view_dims(rows: Seq<crate::store::CacheRow>, d: nat, k: (Seq<char>, Seq<char>))
    requires
        forall|i: int| 0 <= i < rows.len() ==> (#[trigger] rows[i]).vector@.len() == d,
        crate::store::cache_view_of(rows).contains_key(k),
    ensures
        crate::store::cache_view_of(rows)[k].len() == d,
    decreases rows.len(),
{
    if rows.len() > 0 {
        if !(rows.last().content_hash@ == k.0 && rows.last().embedder_id@ == k.1) {
            lemma_cache_view_dims(rows.drop_last(), d, k);
        }
    }
}

/// Rows that only change documents outside the ready set, leaving the cache
/// and the embeddings table alone, preserve the pipeline invariant.
proof fn lemma_inv_frame(s0: Store, s1: Store, pid: Seq<char>, touched: Seq<usize>)
    requires
        ready_inv(&s0, pid),
        s1.docs_seq().len() == s0.docs_seq().len(),
        forall|p: int|
            0 <= p < s0.docs_seq().len() && !has_idx(touched, p) ==> s1.docs_seq()[p]
                == s0.docs_seq()[p],
        forall|b: int|
            0 <= b < touched.len() ==> (#[trigger] touched[b]) < s1.docs_seq().len()
                && s1.docs_seq()[touched[b] as int].embedding_status != EmbeddingStatus::Ready,
        s1.cache_view() == s0.cache_view(),
        s1.embs_seq() == s0.embs_seq(),
    ensures
        ready_inv(&s1, pid),
{
    assert forall|i: int|
        0 <= i < s1.docs_seq().len() && (#[trigger] s1.docs_seq()[i]).embedding_status
            == EmbeddingStatus::Ready implies doc_covered(&s1, pid, i) by {
        if has_idx(touched, i) {
            let b = choose|b: int| 0 <= b < touched.len() && touched[b] == i;
            assert(s1.docs_seq()[touched[b] as int].embedding_status != EmbeddingStatus::Ready);
            assert(false);
        } else {
            assert(s1.docs_seq()[i] == s0.docs_seq()[i]);
            assert(doc_covered(&s0, pid, i));
        }
    }
}

/// Cache writes under keys the cache does not yet hold preserve the pipeline
/// invariant.
proof fn lemma_inv_cache_put(s0: Store, s1: Store, pid: Seq<char>, entries: Seq<CacheEntry>)
    requires
        ready_inv(&s0, pid),
        s1.docs_seq() == s0.docs_seq(),
        s1.embs_seq() == s0.embs_seq(),
        s1.cache_view() == crate::store::puts(s0.cache_view(), entries),
        forall|x: int|
            0 <= x < entries.len() ==> !s0.cache_view().contains_key(
                ((#[trigger] entries[x]).content_hash@, entries[x].embedder_id@),
            ),
    ensures
        ready_inv(&s1, pid),
{
    assert forall|i: int|
        0 <= i < s1.docs_seq().len() && (#[trigger] s1.docs_seq()[i]).embedding_status
            == EmbeddingStatus::Ready implies doc_covered(&s1, pid, i) by {
        assert(doc_covered(&s0, pid, i));
        let k = (s0.docs_seq()[i].content_hash@, pid);
        assert forall|x: int|
            0 <= x < entries.len() implies !((#[trigger] entries[x]).content_hash@ == k.0
            && entries[x].embedder_id@ == k.1) by {
            if entries[x].content_hash@ == k.0 && entries[x].embedder_id@ == k.1 {
                assert(s0.cache_view().contains_key(
                    (entries[x].content_hash@, entries[x].embedder_id@),
                ));
            }
        }
        lemma_last_entry_absent(entries, k);
        crate::store::lemma_puts_lookup(s0.cache_view(), entries, k);
    }
}

/// Appending embeddings rows whose ids belong to no ready document preserves
/// the pipeline invariant.
proof fn lemma_inv_emb_append(s0: Store, s1: Store, pid: Seq<char>, rows: Seq<EmbRow>)
    requires
        ready_inv(&s0, pid),
        s1.docs_seq() == s0.docs_seq(),
        s1.cache_view() == s0.cache_view(),
        s1.embs_seq() == s0.embs_seq() + rows,
        forall|i: int, x: int|
            0 <= i < s0.docs_seq().len() && (#[trigger] s0.docs_seq()[i]).embedding_status
                == EmbeddingStatus::Ready && 0 <= x < rows.len() ==> (#[trigger] rows[x]).id@
                != s0.docs_seq()[i].id@,
    ensures
        ready_inv(&s1, pid),
{
    assert forall|i: int|
        0 <= i < s1.docs_seq().len() && (#[trigger] s1.docs_seq()[i]).embedding_status
            == EmbeddingStatus::Ready implies doc_covered(&s1, pid, i) by {
        assert(doc_covered(&s0, pid, i));
        assert forall|x: int|
            0 <= x < rows.len() implies !((#[trigger] rows[x]).id@ == s0.docs_seq()[i].id@
            && rows[x].embedder_id@ == pid) by {
            assert(rows[x].id@ != s0.docs_seq()[i].id@);
        }
        lemma_last_emb_append_other(s0.embs_seq(), rows, s0.docs_seq()[i].id@, pid);
    }
}

/// Find the position answering hash `h` in a cache read result.
fn lookup_pair(pairs: &Vec<(String, Vec<u32>)>, h: &str) -> (r: Option<usize>)
    ensures
        match r {
            Some(x) => x < pairs@.len() && pairs@[x as int].0@ == h@,
            None => forall|i: int| 0 <= i < pairs@.len() ==> (#[trigger] pairs@[i]).0@ != h@,
        },
{
    let mut i: usize = 0;
    while i < pairs.len()
        invariant
            0 <= i <= pairs@.len(),
            forall|t: int| 0 <= t < i ==> (#[trigger] pairs@[t]).0@ != h@,
        decreases pairs@.len() - i,
    {
        if str_eq(pairs[i].0.as_str(), h) {
            return Some(i);
        }
        i = i + 1;
    }
    None
}

/// Whether `s` occurs among the strings of `v`.
fn contains_string(v: &Vec<String>, s: &str) -> (r: bool)
    ensures
        r == contains_str(v@, s@),
{
    let mut i: usize = 0;
    while i < v.len()
        invariant
            0 <= i <= v@.len(),
            forall|t: int| 0 <= t < i ==> (#[trigger] v@[t])@ != s@,
        decreases v@.len() - i,
    {
        if str_eq(v[i].as_str(), s) {
            proof {
                assert(v@[i as int]@ == s@);
            }
            return true;
        }
        i = i + 1;
    }
    proof {
        assert(!contains_str(v@, s@));
    }
    false
}

/// Process one reserved batch end to end. Returns whether the whole batch
/// reached `ready`; on a provider failure only the cache-miss rows move to
/// `error` and the rest of the batch stays reserved.
#[verifier::rlimit(100)]
#[verifier::spinoff_prover]
fn backfill_batch<P: EmbedProvider>(
    store: &mut Store,
    provider: &P,
    embedder_id: &str,
    batch: &Vec<usize>,
    now_ms: u64,
) -> (ok: bool)
    requires
        old(store).wf(),
        valid_idxs(batch@, old(store).docs_seq().len()),
        forall|b: int|
            0 <= b < batch@.len() ==> old(store).docs_seq()[#[trigger] batch@[b] as int].embedding_status
                != EmbeddingStatus::Ready,
    ensures
        final(store).wf(),
        final(store).dim_spec() == old(store).dim_spec(),
        final(store).meta_seq() == old(store).meta_seq(),
        final(store).indexes_seq() == old(store).indexes_seq(),
        final(store).docs_seq().len() == old(store).docs_seq().len(),
        forall|p: int|
            0 <= p < old(store).docs_seq().len() && !has_idx(batch@, p) ==> final(store).docs_seq()[p]
                == old(store).docs_seq()[p],
        ok ==> forall|b: int|
            0 <= b < batch@.len() ==> row_completed(
                old(store).docs_seq()[#[trigger] batch@[b] as int],
                final(store).docs_seq()[batch@[b] as int],
                now_ms,
            ),
        !ok ==> forall|b: int|
            0 <= b < batch@.len() ==> final(store).docs_seq()[#[trigger] batch@[b] as int].embedding_status
                != EmbeddingStatus::Ready,
        forall|b: int|
            0 <= b < batch@.len() ==> row_outcome(
                old(store).docs_seq()[#[trigger] batch@[b] as int],
                final(store).docs_seq()[batch@[b] as int],
                now_ms,
            ),
        forall|i: int|
            0 <= i < old(store).embs_seq().len() ==> final(store).embs_seq()[i] == old(store).embs_seq()[i],
        final(store).embs_seq().len() >= old(store).embs_seq().len(),
        forall|x: int|
            old(store).embs_seq().len() <= x < final(store).embs_seq().len() ==> fresh_emb_row(
                #[trigger] final(store).embs_seq()[x],
                old(store),
                final(store),
                embedder_id@,
                now_ms,
            ),
        forall|kk: (Seq<char>, Seq<char>)|
            #[trigger] old(store).cache_view().contains_key(kk) ==> final(store).cache_view().contains_key(kk)
                && final(store).cache_view()[kk] == old(store).cache_view()[kk],
        forall|kk: (Seq<char>, Seq<char>)|
            #[trigger] final(store).cache_view().contains_key(kk) && !old(store).cache_view().contains_key(kk)
                ==> kk.1 == embedder_id@ && digest_of_frontier_row(old(store), kk.0),
        (forall|b: int|
            0 <= b < batch@.len() ==> old(store).cache_view().contains_key(
                (blake3_hex_of(old(store).docs_seq()[#[trigger] batch@[b] as int].content@), embedder_id@),
            )) ==> ok,
        ready_inv(old(store), embedder_id@) ==> ready_inv(final(store), embedder_id@),
{
    let ghost pid = embedder_id@;
    let ghost s0 = *old(store);

    // Step 1: reserve the batch.
    store.mark_in_progress(batch);
    let ghost s1 = *store;
    proof {
        if ready_inv(&s0, pid) {
            assert forall|b: int|
                0 <= b < batch@.len() implies (#[trigger] batch@[b]) < s1.docs_seq().len()
                && s1.docs_seq()[batch@[b] as int].embedding_status != EmbeddingStatus::Ready by {
                assert(crate::store::is_status_set(
                    s0.docs_seq()[batch@[b] as int],
                    s1.docs_seq()[batch@[b] as int],
                    EmbeddingStatus::InProgress,
                ));
            }
            lemma_inv_frame(s0, s1, pid, batch@);
        }
    }

    // Step 2: recompute each row's content hash.
    let mut hashes: Vec<String> = Vec::new();
    let mut contents: Vec<String> = Vec::new();
    let mut b: usize = 0;
    while b < batch.len()
        invariant
            0 <= b <= batch@.len(),
            *store == s1,
            s1.wf(),
            valid_idxs(batch@, s1.docs_seq().len()),
            hashes@.len() == b,
            contents@.len() == b,
            forall|t: int|
                0 <= t < b ==> (#[trigger] hashes@[t])@ == blake3_hex_of(
                    s1.docs_seq()[batch@[t] as int].content@,
                ),
            forall|t: int|
                0 <= t < b ==> (#[trigger] contents@[t])@
                    == s1.docs_seq()[batch@[t] as int].content@,
        decreases batch@.len() - b,
    {
        let row = store.doc_ref(batch[b]);
        let h = hash_content(row.content.as_str());
        let c = row.content.clone();
        hashes.push(h);
        contents.push(c);
        b = b + 1;
    }

    // Step 3: consult the cache.
    let hits = store.get_many(embedder_id, &hashes);

    // Step 4: collect the miss set, deduplicated by hash.
    let mut miss_texts: Vec<String> = Vec::new();
    let mut miss_hashes: Vec<String> = Vec::new();
    let mut miss_doc_idxs: Vec<usize> = Vec::new();
    let ghost mut miss_positions: Seq<int> = Seq::empty();
    let mut b: usize = 0;
    while b < batch.len()
        invariant
            0 <= b <= batch@.len(),
            *store == s1,
            s1.wf(),
            pid == embedder_id@,
            valid_idxs(batch@, s1.docs_seq().len()),
            hashes@.len() == batch@.len(),
            contents@.len() == batch@.len(),
            forall|i: int|
                0 <= i < hits@.len() ==> {
                    &&& s1.cache_view().contains_key(((#[trigger] hits@[i]).0@, pid))
                    &&& s1.cache_view()[(hits@[i].0@, pid)] == hits@[i].1@
                },
            forall|j: int|
                0 <= j < hashes@.len() && s1.cache_view().contains_key(
                    ((#[trigger] hashes@[j])@, pid),
                ) ==> exists|i: int| 0 <= i < hits@.len() && (#[trigger] hits@[i]).0@
                    == hashes@[j]@,
            miss_texts@.len() == miss_hashes@.len(),
            forall|x: int, y: int|
                0 <= x < y < miss_hashes@.len() ==> miss_hashes@[x]@ != miss_hashes@[y]@,
            forall|x: int|
                0 <= x < miss_hashes@.len() ==> !s1.cache_view().contains_key(
                    ((#[trigger] miss_hashes@[x])@, pid),
                ),
            forall|x: int|
                0 <= x < miss_hashes@.len() ==> contains_str(
                    hashes@,
                    (#[trigger] miss_hashes@[x])@,
                ),
            miss_positions.len() == miss_doc_idxs@.len(),
            forall|x: int|
                0 <= x < miss_doc_idxs@.len() ==> 0 <= #[trigger] miss_positions[x] < b
                    && miss_doc_idxs@[x] == batch@[miss_positions[x]],
            forall|x: int, y: int|
                0 <= x < y < miss_positions.len() ==> miss_positions[x] < miss_positions[y],
            forall|t: int|
                0 <= t < b ==> s1.cache_view().contains_key(((#[trigger] hashes@[t])@, pid))
                    || contains_str(miss_hashes@, hashes@[t]@),
        decreases batch@.len() - b,
    {
        let hit = lookup_pair(&hits, hashes[b].as_str());
        match hit {
            Some(x) => {
                proof {
                    assert(hits@[x as int].0@ == hashes@[b as int]@);
                    assert(s1.cache_view().contains_key((hits@[x as int].0@, pid)));
                }
            },
            None => {
                proof {
                    // Completeness of the read: an unanswered hash is uncached.
                    if s1.cache_view().contains_key((hashes@[b as int]@, pid)) {
                        let i0 = choose|i: int|
                            0 <= i < hits@.len() && (#[trigger] hits@[i]).0@
                                == hashes@[b as int]@;
                        assert(hits@[i0].0@ == hashes@[b as int]@);
                        assert(false);
                    }
                }
                miss_doc_idxs.push(batch[b]);
                proof {
                    miss_positions = miss_positions.push(b as int);
                }
                let ghost old_miss = miss_hashes@;
                if !contains_string(&miss_hashes, hashes[b].as_str()) {
                    miss_hashes.push(hashes[b].clone());
                    miss_texts.push(contents[b].clone());
                    proof {
                        assert(contains_str(hashes@, miss_hashes@.last()@));
                    }
                }
                proof {
                    if miss_hashes@.len() > old_miss.len() {
                        assert(miss_hashes@.last()@ == hashes@[b as int]@);
                    }
                    assert(contains_str(miss_hashes@, hashes@[b as int]@));
                    assert forall|t: int|
                        0 <= t < b && contains_str(old_miss, (#[trigger] hashes@[t])@)
                        implies contains_str(miss_hashes@, hashes@[t]@) by {
                        let x = choose|x: int|
                            0 <= x < old_miss.len() && (#[trigger] old_miss[x])@ == hashes@[t]@;
                        assert(miss_hashes@[x]@ == hashes@[t]@);
                    }
                }
            },
        }
        b = b + 1;
    }
    proof {
        // The miss rows form a valid index set.
        assert forall|x: int, y: int|
            0 <= x < y < miss_doc_idxs@.len() implies miss_doc_idxs@[x] != miss_doc_idxs@[y] by {
            assert(miss_positions[x] < miss_positions[y]);
            assert(batch@[miss_positions[x]] != batch@[miss_positions[y]]);
        }
        assert forall|x: int|
            0 <= x < miss_doc_idxs@.len() implies (#[trigger] miss_doc_idxs@[x])
            < s1.docs_seq().len() by {
            assert(batch@[miss_positions[x]] < s1.docs_seq().len());
        }
        assert(valid_idxs(miss_doc_idxs@, s1.docs_seq().len()));
        assert forall|x: int|
            0 <= x < miss_doc_idxs@.len() implies has_idx(batch@, #[trigger] miss_doc_idxs@[x] as int) by {
            assert(batch@[miss_positions[x]] == miss_doc_idxs@[x]);
        }
    }

    // Step 5: embed the misses, validating count and dimensionality.
    let dim = store.dim();
    let mut entries: Vec<CacheEntry> = Vec::new();
    if miss_texts.len() > 0 {
        let embedded = provider.embed_batch(&miss_texts);
        match embedded {
            Err(m) => {
                store.mark_error(&miss_doc_idxs, m.as_str());
                proof {
                    lemma_after_error(s0, s1, *store, pid, batch@, miss_doc_idxs@, m@, now_ms);
                    lemma_batch_not_all_cached(s0, s1, pid, batch@, hashes@, miss_hashes@);
                }
                return false;
            },
            Ok(vecs) => {
                if vecs.len() != miss_texts.len() {
                    store.mark_error(&miss_doc_idxs, "provider returned a wrong vector count");
                    proof {
                        lemma_after_error(
                            s0,
                            s1,
                            *store,
                            pid,
                            batch@,
                            miss_doc_idxs@,
                            "provider returned a wrong vector count"@,
                            now_ms,
                        );
                        lemma_batch_not_all_cached(s0, s1, pid, batch@, hashes@, miss_hashes@);
                    }
                    return false;
                }
                let mut k: usize = 0;
                let mut bad = false;
                while k < vecs.len()
                    invariant
                        0 <= k <= vecs@.len(),
                        !bad ==> forall|t: int|
                            0 <= t < k ==> (#[trigger] vecs@[t])@.len() == dim,
                        bad ==> k == vecs@.len(),
                    decreases vecs@.len() - k,
                {
                    if vecs[k].len() != dim {
                        bad = true;
                        k = vecs.len();
                    } else {
                        k = k + 1;
                    }
                }
                if bad {
                    store.mark_error(&miss_doc_idxs, "embedding dimension mismatch");
                    proof {
                        lemma_after_error(
                            s0,
                            s1,
                            *store,
                            pid,
                            batch@,
                            miss_doc_idxs@,
                            "embedding dimension mismatch"@,
                            now_ms,
                        );
                        lemma_batch_not_all_cached(s0, s1, pid, batch@, hashes@, miss_hashes@);
                    }
                    return false;
                }
                // Step 6: write the fresh vectors through the cache.
                let mut x: usize = 0;
                while x < miss_hashes.len()
                    invariant
                        0 <= x <= miss_hashes@.len(),
                        pid == embedder_id@,
                        miss_hashes@.len() == vecs@.len(),
                        forall|t: int| 0 <= t < vecs@.len() ==> (#[trigger] vecs@[t])@.len() == dim,
                        dim as nat == s1.dim_spec(),
                        entries@.len() == x,
                        forall|t: int|
                            0 <= t < x ==> {
                                &&& (#[trigger] entries@[t]).content_hash@ == miss_hashes@[t]@
                                &&& entries@[t].embedder_id@ == pid
                                &&& entries@[t].vector@ == vecs@[t]@
                                &&& entries@[t].vector@.len() == s1.dim_spec()
                            },
                    decreases miss_hashes@.len() - x,
                {
                    let e = CacheEntry {
                        content_hash: miss_hashes[x].clone(),
                        embedder_id: embedder_id.to_owned(),
                        vector: crate::store::copy_u32_vec(&vecs[x]),
                    };
                    entries.push(e);
                    x = x + 1;
                }
                store.put_many(&entries, now_ms);
                proof {
                    if ready_inv(&s0, pid) {
                        assert forall|t: int|
                            0 <= t < entries@.len() implies !s1.cache_view().contains_key(
                            ((#[trigger] entries@[t]).content_hash@, entries@[t].embedder_id@),
                        ) by {
                            assert(entries@[t].content_hash@ == miss_hashes@[t]@);
                        }
                        lemma_inv_cache_put(s1, *store, pid, entries@);
                    }
                }
            },
        }
    }
    let ghost s2 = *store;
    proof {
        if miss_texts@.len() == 0 {
            assert(s2 == s1);
        }
        // Every hash of the batch is now cached.
        assert forall|t: int|
            0 <= t < hashes@.len() implies s2.cache_view().contains_key(
            ((#[trigger] hashes@[t])@, pid),
        ) by {
            if s1.cache_view().contains_key((hashes@[t]@, pid)) {
                if miss_texts@.len() > 0 {
                    lemma_last_entry_absent_for_key(entries@, (hashes@[t]@, pid), s1);
                    crate::store::lemma_puts_lookup(s1.cache_view(), entries@, (hashes@[t]@, pid));
                }
            } else {
                assert(contains_str(miss_hashes@, hashes@[t]@));
                let x = choose|x: int|
                    0 <= x < miss_hashes@.len() && (#[trigger] miss_hashes@[x])@ == hashes@[t]@;
                assert(entries@[x].content_hash@ == hashes@[t]@);
                lemma_last_entry_present(entries@, x, (hashes@[t]@, pid));
                crate::store::lemma_puts_lookup(s1.cache_view(), entries@, (hashes@[t]@, pid));
            }
        }
    }

    // Step 7: one embeddings row per batch row, vectors read back from the
    // cache so hits and misses are treated alike.
    let fresh = store.get_many(embedder_id, &hashes);
    let mut emb_rows: Vec<EmbRow> = Vec::new();
    let mut b: usize = 0;
    while b < batch.len()
        invariant
            0 <= b <= batch@.len(),
            *store == s2,
            s2.wf(),
            pid == embedder_id@,
            s2.docs_seq() == s1.docs_seq(),
            s1.wf(),
            valid_idxs(batch@, s2.docs_seq().len()),
            hashes@.len() == batch@.len(),
            forall|t: int|
                0 <= t < batch@.len() ==> s2.cache_view().contains_key(
                    ((#[trigger] hashes@[t])@, pid),
                ),
            forall|i: int|
                0 <= i < fresh@.len() ==> {
                    &&& s2.cache_view().contains_key(((#[trigger] fresh@[i]).0@, pid))
                    &&& s2.cache_view()[(fresh@[i].0@, pid)] == fresh@[i].1@
                },
            forall|j: int|
                0 <= j < hashes@.len() && s2.cache_view().contains_key(
                    ((#[trigger] hashes@[j])@, pid),
                ) ==> exists|i: int| 0 <= i < fresh@.len() && (#[trigger] fresh@[i]).0@
                    == hashes@[j]@,
            emb_rows@.len() == b,
            forall|t: int|
                0 <= t < b ==> {
                    &&& (#[trigger] emb_rows@[t]).id@ == s2.docs_seq()[batch@[t] as int].id@
                    &&& emb_rows@[t].embedder_id@ == pid
                    &&& emb_rows@[t].content_hash@ == hashes@[t]@
                    &&& emb_rows@[t].embedded_at == now_ms
                    &&& emb_rows@[t].vector@ == s2.cache_view()[(hashes@[t]@, pid)]
                    &&& emb_rows@[t].vector@.len() == s2.dim_spec()
                },
        decreases batch@.len() - b,
    {
        let hit = lookup_pair(&fresh, hashes[b].as_str());
        match hit {
            Some(x) => {
                let row_id = store.doc_ref(batch[b]).id.clone();
                let e = EmbRow {
                    id: row_id,
                    embedder_id: embedder_id.to_owned(),
                    content_hash: hashes[b].clone(),
                    embedded_at: now_ms,
                    vector: crate::store::copy_u32_vec(&fresh[x].1),
                };
                proof {
                    assert(fresh@[x as int].0@ == hashes@[b as int]@);
                    lemma_cache_view_dims_store(s2, (hashes@[b as int]@, pid));
                }
                emb_rows.push(e);
            },
            None => {
                proof {
                    let i0 = choose|i: int|
                        0 <= i < fresh@.len() && (#[trigger] fresh@[i]).0@ == hashes@[b as int]@;
                    assert(fresh@[i0].0@ == hashes@[b as int]@);
                    assert(false);
                }
                return vstd::pervasive::unreached();
            },
        }
        b = b + 1;
    }
    let ghost rows_ghost = emb_rows@;
    store.append_embeddings(emb_rows);
    let ghost s3 = *store;
    proof {
        if ready_inv(&s0, pid) {
            assert forall|i: int, x: int|
                0 <= i < s2.docs_seq().len() && (#[trigger] s2.docs_seq()[i]).embedding_status
                    == EmbeddingStatus::Ready && 0 <= x < rows_ghost.len() implies (
            #[trigger] rows_ghost[x]).id@ != s2.docs_seq()[i].id@ by {
                // A ready row is outside the batch, and document ids are unique.
                if has_idx(batch@, i) {
                    let b0 = choose|b0: int| 0 <= b0 < batch@.len() && batch@[b0] == i;
                    assert(crate::store::is_status_set(
                        s0.docs_seq()[batch@[b0] as int],
                        s1.docs_seq()[batch@[b0] as int],
                        EmbeddingStatus::InProgress,
                    ));
                    assert(false);
                }
                assert(rows_ghost[x].id@ == s2.docs_seq()[batch@[x] as int].id@);
                assert(batch@[x] as int != i);
            }
            lemma_inv_emb_append(s2, s3, pid, rows_ghost);
        }
    }

    // Step 8: the whole batch is ready under its recomputed hashes.
    store.mark_ready(batch, &hashes, now_ms);
    proof {
        let s4 = *store;
        if ready_inv(&s0, pid) {
            assert forall|i: int|
                0 <= i < s4.docs_seq().len() && (#[trigger] s4.docs_seq()[i]).embedding_status
                    == EmbeddingStatus::Ready implies doc_covered(&s4, pid, i) by {
                if has_idx(batch@, i) {
                    let b0 = choose|b0: int| 0 <= b0 < batch@.len() && batch@[b0] == i;
                    assert(crate::store::is_marked_ready(
                        s3.docs_seq()[batch@[b0] as int],
                        s4.docs_seq()[batch@[b0] as int],
                        hashes@[b0]@,
                        now_ms,
                    ));
                    // The appended row for this batch position is the latest.
                    assert forall|y: int|
                        b0 < y < rows_ghost.len() implies !((#[trigger] rows_ghost[y]).id@
                        == s4.docs_seq()[i].id@ && rows_ghost[y].embedder_id@ == pid) by {
                        assert(rows_ghost[y].id@ == s2.docs_seq()[batch@[y] as int].id@);
                        assert(batch@[y] != batch@[b0]);
                        assert(s4.docs_seq()[i].id == s3.docs_seq()[i].id);
                    }
                    assert(rows_ghost[b0].id@ == s2.docs_seq()[batch@[b0] as int].id@);
                    assert(s4.docs_seq()[i].id == s3.docs_seq()[i].id);
                    lemma_last_emb_append_hit(
                        s2.embs_seq(),
                        rows_ghost,
                        b0,
                        s4.docs_seq()[i].id@,
                        pid,
                    );
                    assert(s4.docs_seq()[i].content_hash@ == hashes@[b0]@);
                    assert(s4.cache_view() == s2.cache_view());
                    assert(doc_covered(&s4, pid, i));
                } else {
                    assert(s4.docs_seq()[i] == s3.docs_seq()[i]);
                    assert(doc_covered(&s3, pid, i));
                    assert(doc_covered(&s4, pid, i));
                }
            }
        }
        assert forall|p: int|
            0 <= p < s0.docs_seq().len() && !has_idx(batch@, p) implies s4.docs_seq()[p]
            == s0.docs_seq()[p] by {
            assert(s1.docs_seq()[p] == s0.docs_seq()[p]);
            assert(s2.docs_seq()[p] == s1.docs_seq()[p]);
            assert(s4.docs_seq()[p] == s3.docs_seq()[p]);
        }
        // Every batch row went to ready with its recomputed digest; all other
        // columns survive the reservation and the ready mark.
        assert forall|b: int| 0 <= b < batch@.len() implies row_completed(
            s0.docs_seq()[#[trigger] batch@[b] as int],
            s4.docs_seq()[batch@[b] as int],
            now_ms,
        ) by {
            assert(crate::store::is_marked_ready(
                s3.docs_seq()[batch@[b] as int],
                s4.docs_seq()[batch@[b] as int],
                hashes@[b]@,
                now_ms,
            ));
            assert(is_status_set(
                s0.docs_seq()[batch@[b] as int],
                s1.docs_seq()[batch@[b] as int],
                EmbeddingStatus::InProgress,
            ));
            assert(s3.docs_seq()[batch@[b] as int] == s1.docs_seq()[batch@[b] as int]);
            assert(hashes@[b]@ == blake3_hex_of(s1.docs_seq()[batch@[b] as int].content@));
        }
        // The cache only gained keys of this provider, and kept every prior
        // vector.
        assert(s2.cache_view() =~= crate::store::puts(s1.cache_view(), entries@));
        assert forall|kk: (Seq<char>, Seq<char>)| #[trigger] s0.cache_view().contains_key(kk)
            implies s4.cache_view().contains_key(kk) && s4.cache_view()[kk]
            == s0.cache_view()[kk] by {
            lemma_last_entry_absent_for_key(entries@, kk, s1);
            crate::store::lemma_puts_lookup(s1.cache_view(), entries@, kk);
        }
        assert forall|kk: (Seq<char>, Seq<char>)| s4.cache_view().contains_key(kk)
            && !s0.cache_view().contains_key(kk) implies kk.1 == pid && digest_of_frontier_row(
            &s0,
            kk.0,
        ) by {
            crate::store::lemma_puts_lookup(s1.cache_view(), entries@, kk);
            if crate::store::last_entry_val(entries@, kk) is Some {
                lemma_last_entry_some_key(entries@, kk);
                let x = choose|x: int|
                    0 <= x < entries@.len() && (#[trigger] entries@[x]).content_hash@ == kk.0
                        && entries@[x].embedder_id@ == kk.1;
                assert(entries@[x].embedder_id@ == pid);
                // The written key is a batch row's recomputed digest.
                assert(entries@[x].content_hash@ == miss_hashes@[x]@);
                assert(contains_str(hashes@, miss_hashes@[x]@));
                let t = choose|t: int|
                    0 <= t < hashes@.len() && (#[trigger] hashes@[t])@ == miss_hashes@[x]@;
                assert(hashes@[t]@ == blake3_hex_of(s1.docs_seq()[batch@[t] as int].content@));
                assert(is_status_set(
                    s0.docs_seq()[batch@[t] as int],
                    s1.docs_seq()[batch@[t] as int],
                    EmbeddingStatus::InProgress,
                ));
                let i0 = batch@[t] as int;
                assert(0 <= i0 < s0.docs_seq().len() && s0.docs_seq()[i0].embedding_status
                    != EmbeddingStatus::Ready && kk.0 == blake3_hex_of(s0.docs_seq()[i0].content@));
            }
        }
        // The embeddings table only grew, by fully accounted rows.
        assert(s4.embs_seq() =~= s0.embs_seq() + rows_ghost);
        assert forall|i: int| 0 <= i < s0.embs_seq().len() implies s4.embs_seq()[i]
            == s0.embs_seq()[i] by {
            assert(s4.embs_seq()[i] == (s0.embs_seq() + rows_ghost)[i]);
        }
        assert forall|x: int|
            s0.embs_seq().len() <= x < s4.embs_seq().len() implies fresh_emb_row(
            #[trigger] s4.embs_seq()[x],
            &s0,
            &s4,
            pid,
            now_ms,
        ) by {
            let t = x - s0.embs_seq().len();
            assert(s4.embs_seq()[x] == (s0.embs_seq() + rows_ghost)[x]);
            assert(s4.embs_seq()[x] == rows_ghost[t]);
            assert(rows_ghost[t].id@ == s2.docs_seq()[batch@[t] as int].id@);
            assert(rows_ghost[t].content_hash@ == hashes@[t]@);
            assert(rows_ghost[t].vector@ == s2.cache_view()[(hashes@[t]@, pid)]);
            assert(is_status_set(
                s0.docs_seq()[batch@[t] as int],
                s1.docs_seq()[batch@[t] as int],
                EmbeddingStatus::InProgress,
            ));
            assert(s4.cache_view() == s2.cache_view());
            let i0 = batch@[t] as int;
            assert(0 <= i0 < s0.docs_seq().len() && s0.docs_seq()[i0].embedding_status
                != EmbeddingStatus::Ready && s4.embs_seq()[x].id@ == s0.docs_seq()[i0].id@
                && s4.embs_seq()[x].content_hash@ == blake3_hex_of(s0.docs_seq()[i0].content@));
        }
    }
    true
}

proof fn lemma_count_le_len(docs: Seq<crate::store::DocRow>)
    ensures
        count_not_ready_in(docs) <= docs.len(),
    decreases docs.len(),
{
    if docs.len() > 0 {
        lemma_count_le_len(docs.drop_last());
    }
}

proof fn lemma_count_take_step(docs: Seq<crate::store::DocRow>, i: int)
    requires
        0 <= i < docs.len(),
    ensures
        count_not_ready_in(docs.take(i + 1)) == count_not_ready_in(docs.take(i)) + (
        if docs[i].embedding_status != EmbeddingStatus::Ready {
            1nat
        } else {
            0nat
        }),
{
    assert(docs.take(i + 1).drop_last() =~= docs.take(i));
    assert(docs.take(i + 1).last() == docs[i]);
}

proof fn lemma_count_take_le(docs: Seq<crate::store::DocRow>, i: int, j: int)
    requires
        0 <= i <= j <= docs.len(),
    ensures
        count_not_ready_in(docs.take(i)) <= count_not_ready_in(docs.take(j)),
    decreases j - i,
{
    if i < j {
        lemma_count_take_step(docs, j - 1);
        lemma_count_take_le(docs, i, j - 1);
    }
}

/// Drive every `documents` row that is not `ready` through the pipeline, in
/// batches of `batch_size`, for the provider identified by `embedder_id`; an
/// optional `limit` caps the frontier. Returns how many rows reached `ready`.
///
/// Every run preserves the pipeline backing invariant: if before the run
/// every ready row's hash was answered by the cache with the vector of its
/// latest embeddings row, the same holds of every ready row after the run —
/// including the rows this run made ready. And success is owed wherever no
/// provider call decides: when the cache already answers the whole frontier,
/// the run processes exactly its target.
#[verifier::rlimit(100)]
#[verifier::spinoff_prover]
pub fn backfill_embeddings<P: EmbedProvider>(
    store: &mut Store,
    provider: &P,
    embedder_id: &str,
    batch_size: usize,
    limit: Option<usize>,
    now_ms: u64,
) -> (r: usize)
    requires
        old(store).wf(),
        batch_size >= 1,
    ensures
        final(store).wf(),
        final(store).dim_spec() == old(store).dim_spec(),
        final(store).meta_seq() == old(store).meta_seq(),
        final(store).indexes_seq() == old(store).indexes_seq(),
        final(store).docs_seq().len() == old(store).docs_seq().len(),
        forall|i: int|
            0 <= i < old(store).docs_seq().len() && (#[trigger] old(store).docs_seq()[i]).embedding_status
                == EmbeddingStatus::Ready ==> final(store).docs_seq()[i] == old(store).docs_seq()[i],
        ready_inv(old(store), embedder_id@) ==> ready_inv(final(store), embedder_id@),
        r as nat <= count_not_ready_in(old(store).docs_seq()),
        limit is None && r as nat == count_not_ready_in(old(store).docs_seq()) ==> forall|i: int|
            0 <= i < final(store).docs_seq().len() ==> (#[trigger] final(store).docs_seq()[i]).embedding_status
                == EmbeddingStatus::Ready,
        forall|i: int|
            0 <= i < old(store).docs_seq().len() && !on_frontier(old(store), limit, i) ==> final(store).docs_seq()[i]
                == old(store).docs_seq()[i],
        forall|i: int|
            0 <= i < old(store).docs_seq().len() ==> row_outcome(
                old(store).docs_seq()[i],
                #[trigger] final(store).docs_seq()[i],
                now_ms,
            ),
        forall|i: int|
            0 <= i < old(store).embs_seq().len() ==> final(store).embs_seq()[i] == old(store).embs_seq()[i],
        final(store).embs_seq().len() >= old(store).embs_seq().len(),
        forall|x: int|
            old(store).embs_seq().len() <= x < final(store).embs_seq().len() ==> fresh_emb_row(
                #[trigger] final(store).embs_seq()[x],
                old(store),
                final(store),
                embedder_id@,
                now_ms,
            ),
        forall|kk: (Seq<char>, Seq<char>)|
            #[trigger] old(store).cache_view().contains_key(kk) ==> final(store).cache_view().contains_key(kk)
                && final(store).cache_view()[kk] == old(store).cache_view()[kk],
        forall|kk: (Seq<char>, Seq<char>)|
            #[trigger] final(store).cache_view().contains_key(kk) && !old(store).cache_view().contains_key(kk)
                ==> kk.1 == embedder_id@ && digest_of_frontier_row(old(store), kk.0),
        all_frontier_cached(old(store), embedder_id@) ==> r as nat == frontier_target(
            old(store),
            limit,
        ),
{
    let ghost pid = embedder_id@;
    let ghost s0 = *old(store);
    let docs_len = store.docs_len();
    let bound: usize = match limit {
        Some(l) => l,
        None => docs_len,
    };

    // Frontier scan: every row that is not ready, in table order, capped.
    let mut frontier: Vec<usize> = Vec::new();
    let mut i: usize = 0;
    while i < docs_len && frontier.len() < bound
        invariant
            0 <= i <= docs_len,
            *store == s0,
            s0.wf(),
            docs_len == s0.docs_seq().len(),
            frontier@.len() <= bound,
            forall|x: int, y: int| 0 <= x < y < frontier@.len() ==> frontier@[x] < frontier@[y],
            forall|x: int|
                0 <= x < frontier@.len() ==> (#[trigger] frontier@[x]) < i
                    && s0.docs_seq()[frontier@[x] as int].embedding_status
                    != EmbeddingStatus::Ready,
            frontier@.len() as nat == count_not_ready_in(s0.docs_seq().take(i as int)),
            forall|x: int|
                0 <= x < frontier@.len() ==> count_not_ready_in(
                    s0.docs_seq().take(#[trigger] frontier@[x] as int),
                ) == x as nat,
            forall|p: int|
                0 <= p < i && s0.docs_seq()[p].embedding_status != EmbeddingStatus::Ready
                    ==> has_idx(frontier@, p),
        decreases docs_len - i,
    {
        proof {
            lemma_count_take_step(s0.docs_seq(), i as int);
        }
        let ghost old_frontier = frontier@;
        if !matches!(store.doc_ref(i).embedding_status, EmbeddingStatus::Ready) {
            frontier.push(i);
        }
        proof {
            assert forall|p: int|
                0 <= p < i + 1 && s0.docs_seq()[p].embedding_status != EmbeddingStatus::Ready
                implies has_idx(frontier@, p) by {
                if p < i {
                    assert(has_idx(old_frontier, p));
                    let x = choose|x: int|
                        0 <= x < old_frontier.len() && old_frontier[x] == p;
                    assert(frontier@[x] == p);
                } else {
                    assert(frontier@.last() == i);
                }
            }
        }
        i = i + 1;
    }
    proof {
        lemma_count_take_le(s0.docs_seq(), i as int, s0.docs_seq().len() as int);
        assert(s0.docs_seq().take(s0.docs_seq().len() as int) =~= s0.docs_seq());
        if limit is None || frontier@.len() < bound {
            // The cap did not bind, so the scan ran to the end.
            lemma_count_le_len(s0.docs_seq().take(i as int));
            assert(s0.docs_seq().take(i as int).len() == i as int);
            assert(i == docs_len);
        }
        // The collected indices are exactly the frontier the limit selects.
        assert forall|p: int| 0 <= p < docs_len implies (has_idx(frontier@, p) <==> on_frontier(
            &s0,
            limit,
            p,
        )) by {
            if has_idx(frontier@, p) {
                let x = choose|x: int| 0 <= x < frontier@.len() && frontier@[x] == p;
                assert(count_not_ready_in(s0.docs_seq().take(frontier@[x] as int)) == x as nat);
                assert(x < bound);
            } else if on_frontier(&s0, limit, p) {
                if p < i {
                    assert(has_idx(frontier@, p));
                } else {
                    // The scan stopped at the cap, which the count at p
                    // already reaches.
                    assert(frontier@.len() == bound);
                    lemma_count_take_le(s0.docs_seq(), i as int, p);
                    assert(count_not_ready_in(s0.docs_seq().take(p)) >= bound as nat);
                }
                assert(false);
            }
        }
        // And their number is the run's target.
        match limit {
            Some(l) => {
                if frontier@.len() < l {
                    assert(i == docs_len);
                    assert(frontier@.len() as nat == count_not_ready_in(s0.docs_seq()));
                } else {
                    lemma_count_take_le(s0.docs_seq(), i as int, docs_len as int);
                    assert(count_not_ready_in(s0.docs_seq()) >= l as nat);
                }
            },
            None => {},
        }
        assert(frontier@.len() as nat == frontier_target(&s0, limit));
    }

    // Batch loop.
    let n = frontier.len();
    let mut processed: usize = 0;
    let mut start: usize = 0;
    while start < n
        invariant
            0 <= start <= n,
            n == frontier@.len(),
            pid == embedder_id@,
            batch_size >= 1,
            s0 == *old(store),
            s0.wf(),
            store.wf(),
            store.dim_spec() == s0.dim_spec(),
            store.meta_seq() == s0.meta_seq(),
            store.indexes_seq() == s0.indexes_seq(),
            store.docs_seq().len() == s0.docs_seq().len(),
            forall|x: int, y: int| 0 <= x < y < frontier@.len() ==> frontier@[x] < frontier@[y],
            forall|x: int|
                0 <= x < frontier@.len() ==> (#[trigger] frontier@[x]) < s0.docs_seq().len()
                    && s0.docs_seq()[frontier@[x] as int].embedding_status
                    != EmbeddingStatus::Ready,
            forall|p: int|
                0 <= p < s0.docs_seq().len() && !has_idx(frontier@, p) ==> store.docs_seq()[p]
                    == s0.docs_seq()[p],
            forall|f: int|
                start <= f < n ==> store.docs_seq()[#[trigger] frontier@[f] as int]
                    == s0.docs_seq()[frontier@[f] as int],
            ready_inv(&s0, pid) ==> ready_inv(store, pid),
            forall|i2: int|
                0 <= i2 < s0.docs_seq().len() ==> row_outcome(
                    s0.docs_seq()[i2],
                    #[trigger] store.docs_seq()[i2],
                    now_ms,
                ),
            forall|i2: int|
                0 <= i2 < s0.embs_seq().len() ==> store.embs_seq()[i2] == s0.embs_seq()[i2],
            store.embs_seq().len() >= s0.embs_seq().len(),
            forall|x: int|
                s0.embs_seq().len() <= x < store.embs_seq().len() ==> fresh_emb_row(
                    #[trigger] store.embs_seq()[x],
                    &s0,
                    store,
                    pid,
                    now_ms,
                ),
            forall|kk: (Seq<char>, Seq<char>)|
                #[trigger] s0.cache_view().contains_key(kk) ==> store.cache_view().contains_key(kk)
                    && store.cache_view()[kk] == s0.cache_view()[kk],
            forall|kk: (Seq<char>, Seq<char>)|
                #[trigger] store.cache_view().contains_key(kk) && !s0.cache_view().contains_key(kk)
                    ==> kk.1 == pid && digest_of_frontier_row(&s0, kk.0),
            all_frontier_cached(&s0, pid) ==> processed == start,
            processed <= start,
            processed == start ==> forall|f: int|
                0 <= f < start ==> store.docs_seq()[#[trigger] frontier@[f] as int].embedding_status
                    == EmbeddingStatus::Ready,
        decreases n - start,
    {
        let end: usize = if n - start > batch_size {
            start + batch_size
        } else {
            n
        };
        let mut batch: Vec<usize> = Vec::new();
        let mut f: usize = start;
        while f < end
            invariant
                start <= f <= end <= n,
                n == frontier@.len(),
                batch@.len() == f - start,
                forall|t: int| 0 <= t < batch@.len() ==> batch@[t] == frontier@[start + t],
            decreases end - f,
        {
            batch.push(frontier[f]);
            f = f + 1;
        }
        let ghost pre = *store;
        proof {
            assert forall|a: int, b: int|
                0 <= a < b < batch@.len() implies batch@[a] != batch@[b] by {
                assert(frontier@[start + a] < frontier@[start + b]);
            }
            assert forall|b: int|
                0 <= b < batch@.len() implies (#[trigger] batch@[b]) < pre.docs_seq().len()
                && pre.docs_seq()[batch@[b] as int].embedding_status != EmbeddingStatus::Ready by {
                assert(batch@[b] == frontier@[start + b]);
                assert(pre.docs_seq()[frontier@[start + b] as int] == s0.docs_seq()[frontier@[start
                    + b] as int]);
            }
            if all_frontier_cached(&s0, pid) {
                // Every batch row's digest is already answered, so the batch
                // is owed success.
                assert forall|b: int|
                    0 <= b < batch@.len() implies pre.cache_view().contains_key(
                    (blake3_hex_of(pre.docs_seq()[#[trigger] batch@[b] as int].content@), pid),
                ) by {
                    assert(pre.docs_seq()[batch@[b] as int] == s0.docs_seq()[batch@[b] as int]);
                    assert(s0.cache_view().contains_key(
                        (blake3_hex_of(s0.docs_seq()[batch@[b] as int].content@), pid),
                    ));
                }
            }
        }
        let ok = backfill_batch(store, provider, embedder_id, &batch, now_ms);
        proof {
            // Rows outside the frontier, and frontier rows of later batches,
            // are untouched by this batch.
            assert forall|p: int|
                0 <= p < s0.docs_seq().len() && !has_idx(frontier@, p) implies store.docs_seq()[p]
                == s0.docs_seq()[p] by {
                if has_idx(batch@, p) {
                    let t = choose|t: int| 0 <= t < batch@.len() && batch@[t] == p;
                    assert(batch@[t] == frontier@[start + t]);
                    assert(has_idx(frontier@, p));
                    assert(false);
                }
                assert(store.docs_seq()[p] == pre.docs_seq()[p]);
            }
            assert forall|f2: int|
                end <= f2 < n implies store.docs_seq()[#[trigger] frontier@[f2] as int]
                == s0.docs_seq()[frontier@[f2] as int] by {
                if has_idx(batch@, frontier@[f2] as int) {
                    let t = choose|t: int|
                        0 <= t < batch@.len() && batch@[t] == frontier@[f2] as int;
                    assert(frontier@[start + t] < frontier@[f2]);
                    assert(false);
                }
                assert(store.docs_seq()[frontier@[f2] as int] == pre.docs_seq()[frontier@[f2] as int]);
            }
            // Rows of earlier batches are untouched too.
            assert forall|f2: int|
                0 <= f2 < start implies store.docs_seq()[#[trigger] frontier@[f2] as int]
                == pre.docs_seq()[frontier@[f2] as int] by {
                if has_idx(batch@, frontier@[f2] as int) {
                    let t = choose|t: int|
                        0 <= t < batch@.len() && batch@[t] == frontier@[f2] as int;
                    assert(frontier@[f2] < frontier@[start + t]);
                    assert(false);
                }
            }
            // Outcomes, the embeddings table and the cache chain through the
            // batch.
            assert forall|i2: int|
                0 <= i2 < s0.docs_seq().len() implies row_outcome(
                s0.docs_seq()[i2],
                #[trigger] store.docs_seq()[i2],
                now_ms,
            ) by {
                if has_idx(batch@, i2) {
                    let t = choose|t: int| 0 <= t < batch@.len() && batch@[t] == i2;
                    assert(pre.docs_seq()[batch@[t] as int] == s0.docs_seq()[batch@[t] as int]);
                    assert(row_outcome(
                        pre.docs_seq()[batch@[t] as int],
                        store.docs_seq()[batch@[t] as int],
                        now_ms,
                    ));
                } else {
                    assert(store.docs_seq()[i2] == pre.docs_seq()[i2]);
                    assert(row_outcome(s0.docs_seq()[i2], pre.docs_seq()[i2], now_ms));
                }
            }
            assert forall|i2: int|
                0 <= i2 < s0.embs_seq().len() implies store.embs_seq()[i2] == s0.embs_seq()[i2] by {
                assert(store.embs_seq()[i2] == pre.embs_seq()[i2]);
            }
            assert forall|x: int|
                s0.embs_seq().len() <= x < store.embs_seq().len() implies fresh_emb_row(
                #[trigger] store.embs_seq()[x],
                &s0,
                store,
                pid,
                now_ms,
            ) by {
                if x < pre.embs_seq().len() {
                    assert(store.embs_seq()[x] == pre.embs_seq()[x]);
                    assert(fresh_emb_row(pre.embs_seq()[x], &s0, &pre, pid, now_ms));
                    assert(pre.cache_view().contains_key(
                        (pre.embs_seq()[x].content_hash@, pid),
                    ));
                } else {
                    assert(fresh_emb_row(store.embs_seq()[x], &pre, store, pid, now_ms));
                    // Map the backing document of the batch's store to the
                    // run's: the marks keep ids, contents and non-readiness.
                    let e = store.embs_seq()[x];
                    let i1 = choose|i1: int|
                        0 <= i1 < pre.docs_seq().len()
                            && (#[trigger] pre.docs_seq()[i1]).embedding_status
                            != EmbeddingStatus::Ready && e.id@ == pre.docs_seq()[i1].id@
                            && e.content_hash@ == blake3_hex_of(pre.docs_seq()[i1].content@);
                    let o = s0.docs_seq()[i1];
                    let rowp = pre.docs_seq()[i1];
                    assert(row_outcome(o, rowp, now_ms));
                    lemma_outcome_keeps_identity(o, rowp, now_ms);
                    if o.embedding_status == EmbeddingStatus::Ready {
                        if has_idx(frontier@, i1) {
                            let x2 = choose|x2: int|
                                0 <= x2 < frontier@.len() && frontier@[x2] == i1;
                            assert(s0.docs_seq()[frontier@[x2] as int].embedding_status
                                != EmbeddingStatus::Ready);
                            assert(false);
                        }
                        assert(rowp == o);
                        assert(false);
                    }
                    assert(0 <= i1 < s0.docs_seq().len() && o.embedding_status
                        != EmbeddingStatus::Ready && e.id@ == o.id@ && e.content_hash@
                        == blake3_hex_of(o.content@));
                }
            }
            assert forall|kk: (Seq<char>, Seq<char>)| #[trigger] s0.cache_view().contains_key(kk)
                implies store.cache_view().contains_key(kk) && store.cache_view()[kk]
                == s0.cache_view()[kk] by {
                assert(pre.cache_view().contains_key(kk) && pre.cache_view()[kk]
                    == s0.cache_view()[kk]);
            }
            assert forall|kk: (Seq<char>, Seq<char>)| #[trigger] store.cache_view().contains_key(kk)
                && !s0.cache_view().contains_key(kk) implies kk.1 == pid && digest_of_frontier_row(
                &s0,
                kk.0,
            ) by {
                if pre.cache_view().contains_key(kk) {
                    assert(kk.1 == pid && digest_of_frontier_row(&s0, kk.0));
                } else {
                    // The batch pinned the key to one of its rows; map that
                    // row back to the run's start.
                    assert(digest_of_frontier_row(&pre, kk.0));
                    let i1 = choose|i1: int|
                        0 <= i1 < pre.docs_seq().len()
                            && (#[trigger] pre.docs_seq()[i1]).embedding_status
                            != EmbeddingStatus::Ready && kk.0 == blake3_hex_of(
                            pre.docs_seq()[i1].content@,
                        );
                    let o = s0.docs_seq()[i1];
                    let rowp = pre.docs_seq()[i1];
                    assert(row_outcome(o, rowp, now_ms));
                    lemma_outcome_keeps_identity(o, rowp, now_ms);
                    if o.embedding_status == EmbeddingStatus::Ready {
                        if has_idx(frontier@, i1) {
                            let x2 = choose|x2: int|
                                0 <= x2 < frontier@.len() && frontier@[x2] == i1;
                            assert(s0.docs_seq()[frontier@[x2] as int].embedding_status
                                != EmbeddingStatus::Ready);
                            assert(false);
                        }
                        assert(rowp == o);
                        assert(false);
                    }
                    assert(0 <= i1 < s0.docs_seq().len() && o.embedding_status
                        != EmbeddingStatus::Ready && kk.0 == blake3_hex_of(o.content@));
                }
            }
        }
        if ok {
            processed = processed + (end - start);
        }
        proof {
            if processed == end {
                assert forall|f2: int|
                    0 <= f2 < end implies store.docs_seq()[#[trigger] frontier@[f2] as int].embedding_status
                    == EmbeddingStatus::Ready by {
                    if f2 >= start {
                        assert(batch@[f2 - start] == frontier@[start + (f2 - start)]);
                        assert(store.docs_seq()[batch@[f2 - start] as int].embedding_status
                            == EmbeddingStatus::Ready);
                    } else {
                        assert(pre.docs_seq()[frontier@[f2] as int].embedding_status
                            == EmbeddingStatus::Ready);
                    }
                }
            }
        }
        start = end;
    }

    // Ready rows of the input were never on the frontier, so they stand
    // untouched.
    proof {
        assert forall|i2: int|
            0 <= i2 < s0.docs_seq().len() && (#[trigger] s0.docs_seq()[i2]).embedding_status
                == EmbeddingStatus::Ready implies store.docs_seq()[i2] == s0.docs_seq()[i2] by {
            if has_idx(frontier@, i2) {
                let x = choose|x: int| 0 <= x < frontier@.len() && frontier@[x] == i2;
                assert(s0.docs_seq()[frontier@[x] as int].embedding_status
                    != EmbeddingStatus::Ready);
                assert(false);
            }
        }
        assert forall|i2: int|
            0 <= i2 < s0.docs_seq().len() && !on_frontier(&s0, limit, i2) implies store.docs_seq()[i2]
            == s0.docs_seq()[i2] by {
            assert(!has_idx(frontier@, i2));
        }
        if all_frontier_cached(&s0, pid) {
            assert(processed == n);
            assert(processed as nat == frontier_target(&s0, limit));
        }
        if limit is None && processed as nat == count_not_ready_in(s0.docs_seq()) {
            assert(processed == n);
            assert forall|i2: int|
                0 <= i2 < store.docs_seq().len() implies (#[trigger] store.docs_seq()[i2]).embedding_status
                == EmbeddingStatus::Ready by {
                if has_idx(frontier@, i2) {
                    let x = choose|x: int| 0 <= x < frontier@.len() && frontier@[x] == i2;
                    assert(store.docs_seq()[frontier@[x] as int].embedding_status
                        == EmbeddingStatus::Ready);
                } else {
                    assert(store.docs_seq()[i2] == s0.docs_seq()[i2]);
                    assert(s0.docs_seq()[i2].embedding_status == EmbeddingStatus::Ready);
                }
            }
        }
    }
    processed
}

/// The miss rows carry the provider's error; nothing else of the batch
/// changed, and the pipeline invariant survives.
proof fn lemma_after_error(
    s0: Store,
    s1: Store,
    s2: Store,
    pid: Seq<char>,
    batch: Seq<usize>,
    miss: Seq<usize>,
    msg: Seq<char>,
    now: u64,
)
    requires
        s0.docs_seq().len() == s1.docs_seq().len(),
        s1.docs_seq().len() == s2.docs_seq().len(),
        valid_idxs(batch, s0.docs_seq().len()),
        valid_idxs(miss, s1.docs_seq().len()),
        forall|p: int|
            0 <= p < s0.docs_seq().len() && !has_idx(batch, p) ==> s1.docs_seq()[p]
                == s0.docs_seq()[p],
        forall|b: int|
            0 <= b < batch.len() ==> crate::store::is_status_set(
                s0.docs_seq()[#[trigger] batch[b] as int],
                s1.docs_seq()[batch[b] as int],
                EmbeddingStatus::InProgress,
            ),
        forall|p: int|
            0 <= p < s1.docs_seq().len() && !has_idx(miss, p) ==> s2.docs_seq()[p]
                == s1.docs_seq()[p],
        forall|x: int|
            0 <= x < miss.len() ==> is_marked_error(
                s1.docs_seq()[#[trigger] miss[x] as int],
                s2.docs_seq()[miss[x] as int],
                msg,
            ),
        forall|x: int| 0 <= x < miss.len() ==> has_idx(batch, #[trigger] miss[x] as int),
        s2.cache_view() == s1.cache_view(),
        s2.embs_seq() == s1.embs_seq(),
        s1.cache_view() == s0.cache_view(),
        s1.embs_seq() == s0.embs_seq(),
    ensures
        forall|p: int|
            0 <= p < s0.docs_seq().len() && !has_idx(batch, p) ==> s2.docs_seq()[p]
                == s0.docs_seq()[p],
        forall|b: int|
            0 <= b < batch.len() ==> s2.docs_seq()[#[trigger] batch[b] as int].embedding_status
                != EmbeddingStatus::Ready,
        forall|b: int|
            0 <= b < batch.len() ==> row_outcome(
                s0.docs_seq()[#[trigger] batch[b] as int],
                s2.docs_seq()[batch[b] as int],
                now,
            ),
        s2.embs_seq() == s0.embs_seq(),
        s2.cache_view() == s0.cache_view(),
        ready_inv(&s0, pid) ==> ready_inv(&s2, pid),
{
    assert forall|b: int|
        0 <= b < batch.len() implies row_outcome(
        s0.docs_seq()[#[trigger] batch[b] as int],
        s2.docs_seq()[batch[b] as int],
        now,
    ) by {
        let o = s0.docs_seq()[batch[b] as int];
        let mid = s1.docs_seq()[batch[b] as int];
        let row = s2.docs_seq()[batch[b] as int];
        assert(is_status_set(o, mid, EmbeddingStatus::InProgress));
        if has_idx(miss, batch[b] as int) {
            let x = choose|x: int| 0 <= x < miss.len() && miss[x] == batch[b];
            assert(is_marked_error(s1.docs_seq()[miss[x] as int], s2.docs_seq()[miss[x] as int], msg));
            // The reservation kept every column but the status, so the
            // failure relates to the original row as well.
            assert(is_marked_error(o, row, msg));
            assert(row_failed(o, row));
        } else {
            assert(row == mid);
        }
    }
    assert forall|p: int|
        0 <= p < s0.docs_seq().len() && !has_idx(batch, p) implies s2.docs_seq()[p]
        == s0.docs_seq()[p] by {
        if has_idx(miss, p) {
            let x = choose|x: int| 0 <= x < miss.len() && miss[x] == p;
            assert(has_idx(batch, miss[x] as int));
            assert(false);
        }
        assert(s2.docs_seq()[p] == s1.docs_seq()[p]);
    }
    assert forall|b: int|
        0 <= b < batch.len() implies s2.docs_seq()[#[trigger] batch[b] as int].embedding_status
        != EmbeddingStatus::Ready by {
        if has_idx(miss, batch[b] as int) {
            let x = choose|x: int| 0 <= x < miss.len() && miss[x] == batch[b];
            assert(s2.docs_seq()[miss[x] as int].embedding_status == EmbeddingStatus::Error);
        } else {
            assert(s2.docs_seq()[batch[b] as int] == s1.docs_seq()[batch[b] as int]);
        }
    }
    if ready_inv(&s0, pid) {
        assert forall|i: int|
            0 <= i < s2.docs_seq().len() && (#[trigger] s2.docs_seq()[i]).embedding_status
                == EmbeddingStatus::Ready implies doc_covered(&s2, pid, i) by {
            if has_idx(batch, i) {
                let b0 = choose|b0: int| 0 <= b0 < batch.len() && batch[b0] == i;
                assert(s2.docs_seq()[batch[b0] as int].embedding_status != EmbeddingStatus::Ready);
                assert(false);
            } else {
                if has_idx(miss, i) {
                    let x = choose|x: int| 0 <= x < miss.len() && miss[x] == i;
                    assert(s2.docs_seq()[miss[x] as int].embedding_status
                        == EmbeddingStatus::Error);
                    assert(false);
                }
                assert(s2.docs_seq()[i] == s0.docs_seq()[i]);
                assert(doc_covered(&s0, pid, i));
            }
        }
    }
}

/// A nonempty miss set shows some batch row's content digest was uncached.
proof fn lemma_batch_not_all_cached(
    s0: Store,
    s1: Store,
    pid: Seq<char>,
    batch: Seq<usize>,
    hashes: Seq<String>,
    miss_hashes: Seq<String>,
)
    requires
        miss_hashes.len() > 0,
        hashes.len() == batch.len(),
        valid_idxs(batch, s0.docs_seq().len()),
        s1.cache_view() == s0.cache_view(),
        s1.docs_seq().len() == s0.docs_seq().len(),
        forall|b: int|
            0 <= b < batch.len() ==> is_status_set(
                s0.docs_seq()[#[trigger] batch[b] as int],
                s1.docs_seq()[batch[b] as int],
                EmbeddingStatus::InProgress,
            ),
        forall|t: int|
            0 <= t < batch.len() ==> (#[trigger] hashes[t])@ == blake3_hex_of(
                s1.docs_seq()[batch[t] as int].content@,
            ),
        forall|x: int|
            0 <= x < miss_hashes.len() ==> !s1.cache_view().contains_key(
                ((#[trigger] miss_hashes[x])@, pid),
            ),
        forall|x: int|
            0 <= x < miss_hashes.len() ==> contains_str(hashes, (#[trigger] miss_hashes[x])@),
    ensures
        !(forall|b: int|
            0 <= b < batch.len() ==> s0.cache_view().contains_key(
                (blake3_hex_of(s0.docs_seq()[#[trigger] batch[b] as int].content@), pid),
            )),
{
    assert(contains_str(hashes, miss_hashes[0]@));
    let t = choose|t: int| 0 <= t < hashes.len() && (#[trigger] hashes[t])@ == miss_hashes[0]@;
    assert(!s1.cache_view().contains_key((hashes[t]@, pid)));
    assert(s1.docs_seq()[batch[t] as int].content == s0.docs_seq()[batch[t] as int].content);
    assert(!s0.cache_view().contains_key(
        (blake3_hex_of(s0.docs_seq()[batch[t] as int].content@), pid),
    ));
}

/// A key already present in the cache is carried by none of the entries of a
/// miss-only write.
proof fn lemma_last_entry_absent_for_key(
    entries: Seq<CacheEntry>,
    k: (Seq<char>, Seq<char>),
    s1: Store,
)
    requires
        s1.cache_view().contains_key(k),
        forall|t: int|
            0 <= t < entries.len() ==> !s1.cache_view().contains_key(
                ((#[trigger] entries[t]).content_hash@, entries[t].embedder_id@),
            ),
    ensures
        crate::store::last_entry_val(entries, k) is None,
{
    assert forall|t: int|
        0 <= t < entries.len() implies !((#[trigger] entries[t]).content_hash@ == k.0
        && entries[t].embedder_id@ == k.1) by {
        if entries[t].content_hash@ == k.0 && entries[t].embedder_id@ == k.1 {
            assert(s1.cache_view().contains_key(
                (entries[t].content_hash@, entries[t].embedder_id@),
            ));
        }
    }
    lemma_last_entry_absent(entries, k);
}

/// The cache view of a well-formed store answers with vectors of length
/// `dim`.
proof fn lemma_cache_view_dims_store(s: Store, k: (Seq<char>, Seq<char>))
    requires
        s.wf(),
        s.cache_view().contains_key(k),
    ensures
        s.cache_view()[k].len() == s.dim_spec(),
{
    lemma_cache_view_dims(s.cache_seq(), s.dim_spec(), k);
}

} // verus!
