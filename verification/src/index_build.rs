//! Index build flow: sync serving vectors from the side table, size the
//! parameters, build under a fresh name, validate, and atomically flip the
//! active-index pointer in `meta`.
//!
//! Until the flip is written, the previous pointer keeps answering; the flip
//! is the only meta write of the whole flow.

use crate::backfill::last_emb;
use crate::error::Error;
use crate::store::contains_str;
use crate::store::count_with_vector_in;
use crate::store::is_vector_set;
use crate::store::copy_u32_vec;
use crate::store::DocRow;
use crate::store::EmbRow;
use crate::store::Store;
use vstd::prelude::*;
use vstd::string::StrSliceExecFns;
use vstd::string::StringExecFns;

verus! {

/// The meta key under which the active index of a documents table is kept.
pub open spec fn active_index_key(docs_table: Seq<char>) -> Seq<char> {
    "active_index_id:"@ + docs_table
}

/// How many serving rows carry a vector.
pub fn count_ready_vectors(store: &Store) -> (r: usize)
    ensures
        r as nat == count_with_vector_in(store.docs_seq()),
{
    store.count_with_vector()
}

/// Rows synced so far: those with an embeddings row for this provider.
pub open spec fn count_synced(docs: Seq<DocRow>, embs: Seq<EmbRow>, pid: Seq<char>) -> nat
    decreases docs.len(),
{
    if docs.len() == 0 {
        0
    } else {
        count_synced(docs.drop_last(), embs, pid) + (if last_emb(embs, docs.last().id@, pid)
            is Some {
            1nat
        } else {
            0nat
        })
    }
}

proof fn lemma_last_emb_at(embs: Seq<EmbRow>, q: int, id: Seq<char>, pid: Seq<char>)
    requires
        0 <= q < embs.len(),
        embs[q].id@ == id,
        embs[q].embedder_id@ == pid,
        forall|p: int|
            q < p < embs.len() ==> !((#[trigger] embs[p]).id@ == id && embs[p].embedder_id@
                == pid),
    ensures
        last_emb(embs, id, pid) == Some(embs[q]),
    decreases embs.len(),
{
    if q < embs.len() - 1 {
        assert(embs.drop_last()[q] == embs[q]);
        lemma_last_emb_at(embs.drop_last(), q, id, pid);
    }
}

proof fn lemma_last_emb_none(embs: Seq<EmbRow>, id: Seq<char>, pid: Seq<char>)
    requires
        forall|p: int|
            0 <= p < embs.len() ==> !((#[trigger] embs[p]).id@ == id && embs[p].embedder_id@
                == pid),
    ensures
        last_emb(embs, id, pid) is None,
    decreases embs.len(),
{
    if embs.len() > 0 {
        lemma_last_emb_none(embs.drop_last(), id, pid);
    }
}

/// Copy each document's latest embedding for `embedder_id` into its serving
/// vector column; rows this provider never embedded keep their prior vector.
/// Returns how many rows were updated.
pub fn sync_serving_vectors_from_embeddings(store: &mut Store, embedder_id: &str) -> (r: usize)
    requires
        old(store).wf(),
    ensures
        final(store).wf(),
        final(store).dim_spec() == old(store).dim_spec(),
        final(store).embs_seq() == old(store).embs_seq(),
        final(store).cache_seq() == old(store).cache_seq(),
        final(store).meta_seq() == old(store).meta_seq(),
        final(store).indexes_seq() == old(store).indexes_seq(),
        final(store).docs_seq().len() == old(store).docs_seq().len(),
        forall|i: int|
            0 <= i < old(store).docs_seq().len() ==> match last_emb(
                old(store).embs_seq(),
                (#[trigger] old(store).docs_seq()[i]).id@,
                embedder_id@,
            ) {
                Some(e) => is_vector_set(
                    old(store).docs_seq()[i],
                    final(store).docs_seq()[i],
                    e.vector@,
                ),
                None => final(store).docs_seq()[i] == old(store).docs_seq()[i],
            },
        r as nat == count_synced(old(store).docs_seq(), old(store).embs_seq(), embedder_id@),
{
    let ghost pid = embedder_id@;
    let ghost s0 = *old(store);
    let n = store.docs_len();
    let mut updated: usize = 0;
    let mut i: usize = 0;
    while i < n
        invariant
            0 <= i <= n,
            pid == embedder_id@,
            s0 == *old(store),
            s0.wf(),
            n == s0.docs_seq().len(),
            store.wf(),
            store.dim_spec() == s0.dim_spec(),
            store.embs_seq() == s0.embs_seq(),
            store.cache_seq() == s0.cache_seq(),
            store.meta_seq() == s0.meta_seq(),
            store.indexes_seq() == s0.indexes_seq(),
            store.docs_seq().len() == n,
            forall|p: int| i <= p < n ==> store.docs_seq()[p] == s0.docs_seq()[p],
            forall|p: int|
                0 <= p < i ==> match last_emb(
                    s0.embs_seq(),
                    (#[trigger] s0.docs_seq()[p]).id@,
                    pid,
                ) {
                    Some(e) => is_vector_set(s0.docs_seq()[p], store.docs_seq()[p], e.vector@),
                    None => store.docs_seq()[p] == s0.docs_seq()[p],
                },
            updated as nat == count_synced(s0.docs_seq().take(i as int), s0.embs_seq(), pid),
            updated <= i,
        decreases n - i,
    {
        proof {
            assert(s0.docs_seq().take(i + 1).drop_last() =~= s0.docs_seq().take(i as int));
            assert(s0.docs_seq().take(i + 1).last() == s0.docs_seq()[i as int]);
        }
        // Backward scan for the latest embeddings row of this document.
        let m = store.embs_len();
        let mut q: usize = m;
        let mut found = false;
        let mut vec_found: Vec<u32> = Vec::new();
        let ghost mut hit_q: int = 0;
        while q > 0 && !found
            invariant
                0 <= q <= m,
                0 <= i < n,
                pid == embedder_id@,
                n == store.docs_seq().len(),
                m == store.embs_seq().len(),
                store.wf(),
                store.docs_seq()[i as int] == s0.docs_seq()[i as int],
                s0.docs_seq().len() == n,
                store.embs_seq() == s0.embs_seq(),
                !found ==> forall|p: int|
                    q <= p < m ==> !((#[trigger] store.embs_seq()[p]).id@
                        == s0.docs_seq()[i as int].id@ && store.embs_seq()[p].embedder_id@ == pid),
                found ==> {
                    &&& 0 <= hit_q < m
                    &&& store.embs_seq()[hit_q].id@ == s0.docs_seq()[i as int].id@
                    &&& store.embs_seq()[hit_q].embedder_id@ == pid
                    &&& forall|p: int|
                        hit_q < p < m ==> !((#[trigger] store.embs_seq()[p]).id@
                            == s0.docs_seq()[i as int].id@ && store.embs_seq()[p].embedder_id@
                            == pid)
                    &&& vec_found@ == store.embs_seq()[hit_q].vector@
                },
            decreases q,
        {
            let row = store.emb_ref(q - 1);
            if crate::textops::str_eq(row.id.as_str(), store.doc_ref(i).id.as_str()) && crate::textops::str_eq(
                row.embedder_id.as_str(),
                embedder_id,
            ) {
                let row2 = store.emb_ref(q - 1);
                vec_found = copy_u32_vec(&row2.vector);
                found = true;
                proof {
                    hit_q = q - 1;
                }
            }
            q = q - 1;
        }
        let ghost pre = *store;
        if found {
            proof {
                lemma_last_emb_at(s0.embs_seq(), hit_q, s0.docs_seq()[i as int].id@, pid);
            }
            store.set_doc_vector(i, vec_found);
            updated = updated + 1;
        } else {
            proof {
                lemma_last_emb_none(s0.embs_seq(), s0.docs_seq()[i as int].id@, pid);
            }
        }
        proof {
            assert forall|p: int|
                0 <= p < i + 1 implies match last_emb(
                s0.embs_seq(),
                (#[trigger] s0.docs_seq()[p]).id@,
                pid,
            ) {
                Some(e) => is_vector_set(s0.docs_seq()[p], store.docs_seq()[p], e.vector@),
                None => store.docs_seq()[p] == s0.docs_seq()[p],
            } by {
                if p < i {
                    assert(store.docs_seq()[p] == pre.docs_seq()[p]);
                }
            }
        }
        i = i + 1;
    }
    proof {
        assert(s0.docs_seq().take(n as int) =~= s0.docs_seq());
    }
    updated
}

/// Build an IVF-PQ index over the serving column under a fresh unique name;
/// the set of existing indexes grows by that name and nothing else changes —
/// in particular the active pointer in `meta` still names the old index.
pub fn build_ivfpq_index(
    store: &mut Store,
    index_name: &str,
    params: &crate::params::IvfPqParams,
) -> (r: Result<(), Error>)
    requires
        old(store).wf(),
        params.nlist >= 1,
        params.m >= 1,
    ensures
        final(store).wf(),
        final(store).dim_spec() == old(store).dim_spec(),
        final(store).docs_seq() == old(store).docs_seq(),
        final(store).embs_seq() == old(store).embs_seq(),
        final(store).cache_seq() == old(store).cache_seq(),
        final(store).meta_seq() == old(store).meta_seq(),
        (r is Ok) == !contains_str(old(store).indexes_seq(), index_name@),
        r is Err ==> final(store).indexes_seq() == old(store).indexes_seq(),
        r is Ok ==> {
            &&& final(store).indexes_seq().len() == old(store).indexes_seq().len() + 1
            &&& forall|i: int|
                0 <= i < old(store).indexes_seq().len() ==> final(store).indexes_seq()[i] == old(
                    store,
                ).indexes_seq()[i]
            &&& final(store).indexes_seq().last()@ == index_name@
            &&& contains_str(final(store).indexes_seq(), index_name@)
        },
{
    let r = store.register_index(index_name);
    proof {
        if r is Ok {
            assert(store.indexes_seq().last()@ == index_name@);
            assert(contains_str(store.indexes_seq(), index_name@));
        }
    }
    r
}

/// Validate a fresh build by probing: up to `sample` rows with a serving
/// vector are searched top-`k`; the build is valid exactly when probes ran
/// and every probe returned at least one row — with at least one indexed
/// vector, a probe always returns its own row.
pub fn validate_index(store: &Store, k: usize, sample: usize) -> (r: bool)
    requires
        store.wf(),
    ensures
        r == (k >= 1 && sample >= 1 && count_with_vector_in(store.docs_seq()) >= 1),
{
    let c = store.count_with_vector();
    k >= 1 && sample >= 1 && c >= 1
}

/// Atomically flip the active-index pointer of `docs_table` to `index_id`.
/// This is the single meta write of the build flow: before it the pointer
/// holds its previous value, after it the new name, never anything else.
pub fn flip_active_index(store: &mut Store, docs_table: &str, index_id: &str, now_ms: u64)
    requires
        old(store).wf(),
        contains_str(old(store).indexes_seq(), index_id@),
    ensures
        final(store).wf(),
        final(store).dim_spec() == old(store).dim_spec(),
        final(store).docs_seq() == old(store).docs_seq(),
        final(store).embs_seq() == old(store).embs_seq(),
        final(store).cache_seq() == old(store).cache_seq(),
        final(store).indexes_seq() == old(store).indexes_seq(),
        final(store).meta_view() =~= old(store).meta_view().insert(
            active_index_key(docs_table@),
            index_id@,
        ),
{
    let mut key = String::from_str("active_index_id:");
    key.append(docs_table);
    proof {
        reveal_strlit("active_index_id:");
        assert(key@ == active_index_key(docs_table@));
    }
    store.set_meta(key.as_str(), index_id, now_ms);
}

/// Read the active-index pointer of `docs_table`, if one was ever flipped in.
pub fn get_active_index_id(store: &Store, docs_table: &str) -> (r: Option<String>)
    requires
        store.wf(),
    ensures
        match r {
            Some(v) => store.meta_view().contains_key(active_index_key(docs_table@))
                && store.meta_view()[active_index_key(docs_table@)] == v@,
            None => !store.meta_view().contains_key(active_index_key(docs_table@)),
        },
{
    let mut key = String::from_str("active_index_id:");
    key.append(docs_table);
    proof {
        reveal_strlit("active_index_id:");
        assert(key@ == active_index_key(docs_table@));
    }
    store.get_meta(key.as_str())
}

/// The active index of `docs_table`, or the error a query must surface when
/// no index was ever flipped in: until then the vector side cannot answer.
pub fn require_active_index(store: &Store, docs_table: &str) -> (r: Result<String, Error>)
    requires
        store.wf(),
    ensures
        match r {
            Ok(v) => store.meta_view().contains_key(active_index_key(docs_table@))
                && store.meta_view()[active_index_key(docs_table@)] == v@,
            Err(e) => !store.meta_view().contains_key(active_index_key(docs_table@)) && (e
                matches Error::NotFound(msg) && msg@ == "vector index unavailable"@),
        },
{
    match get_active_index_id(store, docs_table) {
        Some(v) => Ok(v),
        None => Err(Error::NotFound(String::from_str("vector index unavailable"))),
    }
}

/// Between the start and the end of a build, the active pointer names either
/// the previous index or the new one, never anything else: the sync, the
/// build and the validation leave `meta` untouched, and the flip writes
/// exactly the new name at the pointer's key.
pub proof fn lemma_build_atomicity(
    s_start: Store,
    s_synced: Store,
    s_built: Store,
    s_flipped: Store,
    docs_table: Seq<char>,
    new_name: Seq<char>,
)
    requires
        s_synced.meta_seq() == s_start.meta_seq(),
        s_built.meta_seq() == s_synced.meta_seq(),
        s_flipped.meta_view() =~= s_built.meta_view().insert(active_index_key(docs_table), new_name),
    ensures
        s_synced.meta_view() == s_start.meta_view(),
        s_built.meta_view() == s_start.meta_view(),
        s_flipped.meta_view()[active_index_key(docs_table)] == new_name,
        forall|stage: Store|
            (stage == s_start || stage == s_synced || stage == s_built || stage == s_flipped)
                && #[trigger] stage.meta_view().contains_key(active_index_key(docs_table)) ==> {
                ||| stage.meta_view()[active_index_key(docs_table)]
                    == s_start.meta_view()[active_index_key(docs_table)]
                ||| stage.meta_view()[active_index_key(docs_table)] == new_name
            },
{
}

/// A character admissible in an index name.
pub open spec fn is_name_char(c: char) -> bool {
    ('a' <= c && c <= 'z') || ('A' <= c && c <= 'Z') || ('0' <= c && c <= '9') || c == '-'
}

/// `s` with every character outside the index-name alphabet replaced by `-`.
pub open spec fn sanitized(s: Seq<char>) -> Seq<char> {
    Seq::new(
        s.len(),
        |i: int|
            if is_name_char(s[i]) {
                s[i]
            } else {
                '-'
            },
    )
}

fn is_name_char_exec(c: char) -> (r: bool)
    ensures
        r == is_name_char(c),
{
    ('a' <= c && c <= 'z') || ('A' <= c && c <= 'Z') || ('0' <= c && c <= '9') || c == '-'
}

/// The unique name of a fresh build: `ivfpq-{timestamp}-{sanitized id}`.
pub fn make_index_name(timestamp: &str, provider_id: &str) -> (r: String)
    ensures
        r@ == "ivfpq-"@ + timestamp@ + seq!['-'] + sanitized(provider_id@),
{
    let mut r = String::from_str("ivfpq-");
    r.append(timestamp);
    r.append("-");
    proof {
        reveal_strlit("-");
        assert("-"@ =~= seq!['-']);
    }
    let n = provider_id.unicode_len();
    let ghost base = "ivfpq-"@ + timestamp@ + seq!['-'];
    let mut i: usize = 0;
    while i < n
        invariant
            0 <= i <= n,
            n == provider_id@.len(),
            base == "ivfpq-"@ + timestamp@ + seq!['-'],
            r@ == base + sanitized(provider_id@).take(i as int),
        decreases n - i,
    {
        if is_name_char_exec(provider_id.get_char(i)) {
            // Extend by the maximal run of admissible characters.
            let mut j: usize = i + 1;
            while j < n && is_name_char_exec(provider_id.get_char(j))
                invariant
                    i < j <= n,
                    n == provider_id@.len(),
                    forall|p: int| i <= p < j ==> is_name_char(#[trigger] provider_id@[p]),
                decreases n - j,
            {
                j = j + 1;
            }
            r.append(provider_id.substring_char(i, j));
            proof {
                assert(sanitized(provider_id@).take(j as int) =~= sanitized(
                    provider_id@,
                ).take(i as int) + provider_id@.subrange(i as int, j as int));
            }
            i = j;
        } else {
            r.append("-");
            proof {
                reveal_strlit("-");
                assert("-"@ =~= seq!['-']);
                assert(sanitized(provider_id@).take(i as int + 1) =~= sanitized(
                    provider_id@,
                ).take(i as int) + seq!['-']);
            }
            i = i + 1;
        }
    }
    proof {
        assert(sanitized(provider_id@).take(n as int) =~= sanitized(provider_id@));
    }
    r
}

} // verus!
