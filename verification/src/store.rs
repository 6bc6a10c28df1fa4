//! In-memory model of the columnar store: a `documents` serving table, an
//! `embeddings` side table, a content-addressed `emb_cache`, a key/value
//! `meta` table, and the named vector indexes built over the serving column.
//!
//! Vector payloads are held as fixed-length words (`Vec<u32>`, one word per
//! component; engines that compute with IEEE single-precision floats store
//! the raw bit patterns). The store never interprets the words; it enforces
//! that every vector anywhere has length exactly `dim`.

use crate::error::Error;
use crate::hashing::blake3_hex_of;
use crate::hashing::hash_content;
use crate::textops::str_eq;
use crate::types::DocumentChunk;
use crate::types::EmbeddingStatus;
use crate::types::IndexStatus;
use vstd::prelude::*;

verus! {

/// One row of the `documents` serving table.
#[derive(Debug)]
pub struct DocRow {
    pub id: String,
    pub doc_id: String,
    pub doc_path: String,
    pub category: String,
    pub category_text: String,
    pub content: String,
    pub chunk_index: usize,
    pub total_chunks: usize,
    pub content_hash: String,
    pub vector: Option<Vec<u32>>,
    pub embedding_status: EmbeddingStatus,
    pub embedding_error: Option<String>,
    pub embedding_version: u64,
    pub embedded_at: Option<u64>,
    pub index_status: IndexStatus,
    pub index_version: u64,
}

/// One row of the `embeddings` side table; uniqueness is by
/// `(id, embedder_id, content_hash)` with the latest row winning lookups.
#[derive(Debug)]
pub struct EmbRow {
    pub id: String,
    pub embedder_id: String,
    pub content_hash: String,
    pub embedded_at: u64,
    pub vector: Vec<u32>,
}

/// One row of the `emb_cache` table, keyed by `(content_hash, embedder_id)`.
#[derive(Debug)]
pub struct CacheRow {
    pub content_hash: String,
    pub embedder_id: String,
    pub created_at: u64,
    pub vector: Vec<u32>,
}

/// One row of the `meta` key/value table.
#[derive(Debug)]
pub struct MetaRow {
    pub key: String,
    pub value: String,
    pub updated_at: u64,
}

/// A cache write: the vector for one `(content_hash, embedder_id)` key.
#[derive(Debug, Clone)]
pub struct CacheEntry {
    pub content_hash: String,
    pub embedder_id: String,
    pub vector: Vec<u32>,
}

/// The observable content of the cache: the mapping each key was last
/// written with.
pub open spec fn cache_view_of(rows: Seq<CacheRow>) -> Map<(Seq<char>, Seq<char>), Seq<u32>>
    decreases rows.len(),
{
    if rows.len() == 0 {
        Map::empty()
    } else {
        cache_view_of(rows.drop_last()).insert(
            (rows.last().content_hash@, rows.last().embedder_id@),
            rows.last().vector@,
        )
    }
}

/// The cache mapping after writing `es` left to right over `m`.
pub open spec fn puts(
    m: Map<(Seq<char>, Seq<char>), Seq<u32>>,
    es: Seq<CacheEntry>,
) -> Map<(Seq<char>, Seq<char>), Seq<u32>>
    decreases es.len(),
{
    if es.len() == 0 {
        m
    } else {
        puts(m, es.drop_last()).insert(
            (es.last().content_hash@, es.last().embedder_id@),
            es.last().vector@,
        )
    }
}

/// The vector of the last entry of `es` written under key `k`, if any.
pub open spec fn last_entry_val(es: Seq<CacheEntry>, k: (Seq<char>, Seq<char>)) -> Option<
    Seq<u32>,
>
    decreases es.len(),
{
    if es.len() == 0 {
        None
    } else if es.last().content_hash@ == k.0 && es.last().embedder_id@ == k.1 {
        Some(es.last().vector@)
    } else {
        last_entry_val(es.drop_last(), k)
    }
}

/// What one key maps to after `puts`: the last value written for it, or what
/// `m` already held.
pub proof fn lemma_puts_lookup(
    m: Map<(Seq<char>, Seq<char>), Seq<u32>>,
    es: Seq<CacheEntry>,
    k: (Seq<char>, Seq<char>),
)
    ensures
        match last_entry_val(es, k) {
            Some(v) => puts(m, es).contains_key(k) && puts(m, es)[k] == v,
            None => puts(m, es).contains_key(k) == m.contains_key(k) && (m.contains_key(k)
                ==> puts(m, es)[k] == m[k]),
        },
    decreases es.len(),
{
    if es.len() > 0 {
        lemma_puts_lookup(m, es.drop_last(), k);
    }
}

/// Writing the same entries twice leaves the cache mapping as one write
/// leaves it.
pub proof fn lemma_put_many_idempotent(
    m: Map<(Seq<char>, Seq<char>), Seq<u32>>,
    es: Seq<CacheEntry>,
)
    ensures
        puts(puts(m, es), es) =~= puts(m, es),
{
    let once = puts(m, es);
    let twice = puts(once, es);
    assert forall|k: (Seq<char>, Seq<char>)| #[trigger]
        twice.contains_key(k) == once.contains_key(k) && (once.contains_key(k) ==> twice[k]
            == once[k]) by {
        lemma_puts_lookup(m, es, k);
        lemma_puts_lookup(once, es, k);
    }
}

/// The observable content of the meta table.
pub open spec fn meta_view_of(rows: Seq<MetaRow>) -> Map<Seq<char>, Seq<char>>
    decreases rows.len(),
{
    if rows.len() == 0 {
        Map::empty()
    } else {
        meta_view_of(rows.drop_last()).insert(rows.last().key@, rows.last().value@)
    }
}

/// `h` occurs among the strings of `hs`.
pub open spec fn contains_str(hs: Seq<String>, h: Seq<char>) -> bool {
    exists|j: int| 0 <= j < hs.len() && hs[j]@ == h
}

/// `i` occurs among the indices of `idxs`.
pub open spec fn has_idx(idxs: Seq<usize>, i: int) -> bool {
    exists|a: int| 0 <= a < idxs.len() && idxs[a] == i
}

/// The indices of `idxs` are pairwise distinct and all below `len`.
pub open spec fn valid_idxs(idxs: Seq<usize>, len: nat) -> bool {
    &&& forall|a: int, b: int| 0 <= a < b < idxs.len() ==> idxs[a] != idxs[b]
    &&& forall|a: int| 0 <= a < idxs.len() ==> (#[trigger] idxs[a]) < len
}

/// An element-wise copy of a word vector.
pub fn copy_u32_vec(v: &Vec<u32>) -> (r: Vec<u32>)
    ensures
        r@ == v@,
{
    let mut r: Vec<u32> = Vec::new();
    let mut i: usize = 0;
    while i < v.len()
        invariant
            0 <= i <= v@.len(),
            r@ == v@.take(i as int),
        decreases v@.len() - i,
    {
        r.push(v[i]);
        proof {
            assert(r@ =~= v@.take(i + 1));
        }
        i = i + 1;
    }
    proof {
        assert(v@.take(v@.len() as int) =~= v@);
    }
    r
}

/// The three tables, the meta table and the built index names.
pub struct Store {
    dim: usize,
    docs: Vec<DocRow>,
    embs: Vec<EmbRow>,
    cache: Vec<CacheRow>,
    meta: Vec<MetaRow>,
    indexes: Vec<String>,
}

impl Store {
    /// Vector dimensionality `D` enforced on every table.
    pub closed spec fn dim_spec(&self) -> nat {
        self.dim as nat
    }

    pub closed spec fn docs_seq(&self) -> Seq<DocRow> {
        self.docs@
    }

    pub closed spec fn embs_seq(&self) -> Seq<EmbRow> {
        self.embs@
    }

    pub closed spec fn cache_seq(&self) -> Seq<CacheRow> {
        self.cache@
    }

    pub closed spec fn meta_seq(&self) -> Seq<MetaRow> {
        self.meta@
    }

    pub closed spec fn indexes_seq(&self) -> Seq<String> {
        self.indexes@
    }

    /// The observable cache mapping.
    pub open spec fn cache_view(&self) -> Map<(Seq<char>, Seq<char>), Seq<u32>> {
        cache_view_of(self.cache_seq())
    }

    /// The observable meta mapping.
    pub open spec fn meta_view(&self) -> Map<Seq<char>, Seq<char>> {
        meta_view_of(self.meta_seq())
    }

    /// Integrity of the store: positive dimensionality, primary-key
    /// uniqueness in `documents`, `meta` and the index names, every vector of
    /// every table of length exactly `dim`, and every `documents` row's
    /// stored hash equal to the digest of its current content (rows enter
    /// hashed and every re-hash is checked against the content).
    pub open spec fn wf(&self) -> bool {
        &&& self.dim_spec() >= 1
        &&& forall|i: int, j: int|
            0 <= i < j < self.docs_seq().len() ==> self.docs_seq()[i].id@ != self.docs_seq()[j].id@
        &&& forall|i: int|
            0 <= i < self.docs_seq().len() ==> (#[trigger] self.docs_seq()[i]).content_hash@
                == blake3_hex_of(self.docs_seq()[i].content@)
        &&& forall|i: int|
            0 <= i < self.docs_seq().len() ==> match (#[trigger] self.docs_seq()[i]).vector {
                Some(v) => v@.len() == self.dim_spec(),
                None => true,
            }
        &&& forall|i: int|
            0 <= i < self.embs_seq().len() ==> (#[trigger] self.embs_seq()[i]).vector@.len()
                == self.dim_spec()
        &&& forall|i: int|
            0 <= i < self.cache_seq().len() ==> (#[trigger] self.cache_seq()[i]).vector@.len()
                == self.dim_spec()
        &&& forall|i: int, j: int|
            0 <= i < j < self.meta_seq().len() ==> self.meta_seq()[i].key@
                != self.meta_seq()[j].key@
        &&& forall|i: int, j: int|
            0 <= i < j < self.indexes_seq().len() ==> self.indexes_seq()[i]@
                != self.indexes_seq()[j]@
    }

    /// A fresh, empty store for vectors of dimensionality `dim`.
    pub fn new(dim: usize) -> (r: Store)
        requires
            dim >= 1,
        ensures
            r.wf(),
            r.dim_spec() == dim as nat,
            r.docs_seq().len() == 0,
            r.embs_seq().len() == 0,
            r.cache_seq().len() == 0,
            r.meta_seq().len() == 0,
            r.indexes_seq().len() == 0,
    {
        Store {
            dim,
            docs: Vec::new(),
            embs: Vec::new(),
            cache: Vec::new(),
            meta: Vec::new(),
            indexes: Vec::new(),
        }
    }

    pub fn dim(&self) -> (r: usize)
        ensures
            r as nat == self.dim_spec(),
    {
        self.dim
    }

    pub fn docs_len(&self) -> (r: usize)
        ensures
            r as nat == self.docs_seq().len(),
    {
        self.docs.len()
    }

    pub fn embs_len(&self) -> (r: usize)
        ensures
            r as nat == self.embs_seq().len(),
    {
        self.embs.len()
    }

    pub fn cache_len(&self) -> (r: usize)
        ensures
            r as nat == self.cache_seq().len(),
    {
        self.cache.len()
    }

    /// Read the cached vectors for the given content hashes under one
    /// embedder id. The result lists each found hash once, with the vector
    /// the cache currently maps it to; hashes without a cache entry are
    /// absent.
    pub fn get_many(&self, embedder_id: &str, hashes: &Vec<String>) -> (r: Vec<(String, Vec<u32>)>)
        ensures
            forall|i: int, j: int| 0 <= i < j < r@.len() ==> r@[i].0@ != r@[j].0@,
            forall|i: int|
                0 <= i < r@.len() ==> {
                    &&& self.cache_view().contains_key(((#[trigger] r@[i]).0@, embedder_id@))
                    &&& self.cache_view()[(r@[i].0@, embedder_id@)] == r@[i].1@
                    &&& contains_str(hashes@, r@[i].0@)
                },
            forall|j: int|
                0 <= j < hashes@.len() && self.cache_view().contains_key(
                    ((#[trigger] hashes@[j])@, embedder_id@),
                ) ==> exists|i: int| 0 <= i < r@.len() && (#[trigger] r@[i]).0@ == hashes@[j]@,
    {
        let mut r: Vec<(String, Vec<u32>)> = Vec::new();
        let n = self.cache.len();
        let mut j: usize = 0;
        while j < hashes.len()
            invariant
                0 <= j <= hashes@.len(),
                n == self.cache_seq().len(),
                forall|a: int, b: int| 0 <= a < b < r@.len() ==> r@[a].0@ != r@[b].0@,
                forall|i: int|
                    0 <= i < r@.len() ==> {
                        &&& self.cache_view().contains_key(((#[trigger] r@[i]).0@, embedder_id@))
                        &&& self.cache_view()[(r@[i].0@, embedder_id@)] == r@[i].1@
                        &&& contains_str(hashes@, r@[i].0@)
                    },
                forall|t: int|
                    0 <= t < j && self.cache_view().contains_key(
                        ((#[trigger] hashes@[t])@, embedder_id@),
                    ) ==> exists|i: int| 0 <= i < r@.len() && (#[trigger] r@[i]).0@ == hashes@[t]@,
            decreases hashes@.len() - j,
        {
            let h = &hashes[j];
            // Skip hashes already answered.
            let mut present = false;
            let mut t: usize = 0;
            while t < r.len()
                invariant
                    0 <= t <= r@.len(),
                    0 <= j < hashes@.len(),
                    h@ == hashes@[j as int]@,
                    present ==> exists|i: int|
                        0 <= i < r@.len() && (#[trigger] r@[i]).0@ == hashes@[j as int]@,
                    !present ==> forall|i: int|
                        0 <= i < t ==> (#[trigger] r@[i]).0@ != hashes@[j as int]@,
                decreases r@.len() - t,
            {
                if str_eq(r[t].0.as_str(), h.as_str()) {
                    present = true;
                    proof {
                        assert(r@[t as int].0@ == hashes@[j as int]@);
                    }
                    t = r.len();
                } else {
                    t = t + 1;
                }
            }
            if !present {
                // Backward scan: the last row with this key determines the view.
                let mut q: usize = n;
                let mut pushed = false;
                while q > 0 && !pushed
                    invariant
                        0 <= q <= n,
                        0 <= j < hashes@.len(),
                        h@ == hashes@[j as int]@,
                        n == self.cache_seq().len(),
                        !pushed ==> forall|p: int|
                            q <= p < n ==> !((#[trigger] self.cache_seq()[p]).content_hash@
                                == hashes@[j as int]@ && self.cache_seq()[p].embedder_id@
                                == embedder_id@),
                        !pushed ==> forall|i: int|
                            0 <= i < r@.len() ==> (#[trigger] r@[i]).0@ != hashes@[j as int]@,
                        pushed ==> exists|i: int|
                            0 <= i < r@.len() && (#[trigger] r@[i]).0@ == hashes@[j as int]@,
                        forall|a: int, b: int|
                            0 <= a < b < r@.len() ==> r@[a].0@ != r@[b].0@,
                        forall|i: int|
                            0 <= i < r@.len() ==> {
                                &&& self.cache_view().contains_key(
                                    ((#[trigger] r@[i]).0@, embedder_id@),
                                )
                                &&& self.cache_view()[(r@[i].0@, embedder_id@)] == r@[i].1@
                                &&& contains_str(hashes@, r@[i].0@)
                            },
                        forall|t2: int|
                            0 <= t2 < j && self.cache_view().contains_key(
                                ((#[trigger] hashes@[t2])@, embedder_id@),
                            ) ==> exists|i: int|
                                0 <= i < r@.len() && (#[trigger] r@[i]).0@ == hashes@[t2]@,
                    decreases q,
                {
                    let row = &self.cache[q - 1];
                    if str_eq(row.content_hash.as_str(), h.as_str()) && str_eq(
                        row.embedder_id.as_str(),
                        embedder_id,
                    ) {
                        proof {
                            lemma_cache_view_last_row(
                                self.cache_seq(),
                                q as int - 1,
                                (hashes@[j as int]@, embedder_id@),
                            );
                            assert(contains_str(hashes@, hashes@[j as int]@));
                        }
                        let vec_copy = copy_u32_vec(&row.vector);
                        let ghost r_before = r@;
                        r.push((h.clone(), vec_copy));
                        pushed = true;
                        proof {
                            assert(r@[r@.len() - 1].0@ == hashes@[j as int]@);
                            assert forall|t2: int|
                                0 <= t2 < j && self.cache_view().contains_key(
                                    ((#[trigger] hashes@[t2])@, embedder_id@),
                                ) implies exists|i: int|
                                0 <= i < r@.len() && (#[trigger] r@[i]).0@ == hashes@[t2]@ by {
                                let i0 = choose|i: int|
                                    0 <= i < r_before.len() && (#[trigger] r_before[i]).0@
                                        == hashes@[t2]@;
                                assert(r@[i0].0@ == hashes@[t2]@);
                            }
                        }
                        q = q - 1;
                    } else {
                        q = q - 1;
                    }
                }
                proof {
                    if !pushed {
                        lemma_cache_view_absent(
                            self.cache_seq(),
                            (hashes@[j as int]@, embedder_id@),
                        );
                    }
                }
            }
            j = j + 1;
        }
        r
    }

    /// Write the given cache entries, last write per key winning; creates
    /// nothing else and touches no other table.
    pub fn put_many(&mut self, entries: &Vec<CacheEntry>, now_ms: u64)
        requires
            old(self).wf(),
            forall|i: int|
                0 <= i < entries@.len() ==> (#[trigger] entries@[i]).vector@.len() == old(
                    self,
                ).dim_spec(),
        ensures
            final(self).wf(),
            final(self).dim_spec() == old(self).dim_spec(),
            final(self).docs_seq() == old(self).docs_seq(),
            final(self).embs_seq() == old(self).embs_seq(),
            final(self).meta_seq() == old(self).meta_seq(),
            final(self).indexes_seq() == old(self).indexes_seq(),
            final(self).cache_seq().len() == old(self).cache_seq().len() + entries@.len(),
            final(self).cache_view() =~= puts(old(self).cache_view(), entries@),
    {
        let ghost base = self.cache@;
        let ghost m0 = cache_view_of(base);
        proof {
            assert(self.cache_seq() == self.cache@);
            assert(forall|t: int|
                0 <= t < self.cache@.len() ==> (#[trigger] self.cache@[t]).vector@.len() == old(
                    self,
                ).dim_spec());
        }
        let n = entries.len();
        let mut i: usize = 0;
        while i < n
            invariant
                0 <= i <= n,
                n == entries@.len(),
                self.dim == old(self).dim,
                self.docs == old(self).docs,
                self.embs == old(self).embs,
                self.meta == old(self).meta,
                self.indexes == old(self).indexes,
                forall|t: int|
                    0 <= t < entries@.len() ==> (#[trigger] entries@[t]).vector@.len() == old(
                        self,
                    ).dim_spec(),
                old(self).wf(),
                self.cache@.len() == base.len() + i,
                forall|t: int|
                    0 <= t < self.cache@.len() ==> (#[trigger] self.cache@[t]).vector@.len()
                        == old(self).dim_spec(),
                cache_view_of(self.cache@) == puts(m0, entries@.take(i as int)),
            decreases n - i,
        {
            let e = &entries[i];
            let row = CacheRow {
                content_hash: e.content_hash.clone(),
                embedder_id: e.embedder_id.clone(),
                created_at: now_ms,
                vector: copy_u32_vec(&e.vector),
            };
            let ghost pre = self.cache@;
            self.cache.push(row);
            proof {
                assert forall|t: int|
                    0 <= t < self.cache@.len() implies (#[trigger] self.cache@[t]).vector@.len()
                    == old(self).dim_spec() by {
                    if t < pre.len() {
                        assert(self.cache@[t] == pre[t]);
                    } else {
                        assert(self.cache@[t].vector@ == entries@[i as int].vector@);
                    }
                }
                assert(self.cache@.drop_last() =~= pre);
                assert(entries@.take(i + 1).drop_last() =~= entries@.take(i as int));
                assert(entries@.take(i + 1).last() == entries@[i as int]);
                assert(cache_view_of(self.cache@) =~= puts(m0, entries@.take(i + 1)));
            }
            i = i + 1;
        }
        proof {
            assert(entries@.take(n as int) =~= entries@);
            assert(self.cache_seq() == self.cache@);
            assert(self.docs_seq() == old(self).docs_seq());
            assert(self.embs_seq() == old(self).embs_seq());
            assert(self.meta_seq() == old(self).meta_seq());
            assert(self.indexes_seq() == old(self).indexes_seq());
            assert(self.dim_spec() == old(self).dim_spec());
        }
    }

    /// Look one key up in the meta table.
    pub fn get_meta(&self, key: &str) -> (r: Option<String>)
        requires
            self.wf(),
        ensures
            match r {
                Some(v) => self.meta_view().contains_key(key@) && self.meta_view()[key@] == v@,
                None => !self.meta_view().contains_key(key@),
            },
    {
        let n = self.meta.len();
        let mut p: usize = 0;
        while p < n
            invariant
                0 <= p <= n,
                n == self.meta_seq().len(),
                self.wf(),
                forall|t: int| 0 <= t < p ==> (#[trigger] self.meta_seq()[t]).key@ != key@,
            decreases n - p,
        {
            if str_eq(self.meta[p].key.as_str(), key) {
                let v = self.meta[p].value.clone();
                proof {
                    lemma_meta_unique_lookup(self.meta_seq(), p as int);
                }
                return Some(v);
            }
            p = p + 1;
        }
        proof {
            lemma_meta_absent(self.meta_seq(), key@);
        }
        None
    }

    /// Merge-upsert one key into the meta table.
    pub fn set_meta(&mut self, key: &str, value: &str, now_ms: u64)
        requires
            old(self).wf(),
        ensures
            final(self).wf(),
            final(self).dim_spec() == old(self).dim_spec(),
            final(self).docs_seq() == old(self).docs_seq(),
            final(self).embs_seq() == old(self).embs_seq(),
            final(self).cache_seq() == old(self).cache_seq(),
            final(self).indexes_seq() == old(self).indexes_seq(),
            final(self).meta_view() =~= old(self).meta_view().insert(key@, value@),
    {
        let n = self.meta.len();
        let mut p: usize = 0;
        while p < n
            invariant
                0 <= p <= n,
                n == self.meta_seq().len(),
                self == old(self),
                old(self).wf(),
                forall|t: int| 0 <= t < p ==> (#[trigger] self.meta_seq()[t]).key@ != key@,
            decreases n - p,
        {
            if str_eq(self.meta[p].key.as_str(), key) {
                let row = MetaRow { key: self.meta[p].key.clone(), value: value.to_owned(), updated_at: now_ms };
                let ghost pre = self.meta@;
                self.meta[p] = row;
                proof {
                    assert(self.meta@ =~= pre.update(p as int, self.meta@[p as int]));
                    lemma_meta_view_update(pre, p as int, self.meta@[p as int]);
                    assert(self.meta@[p as int].key@ == key@);
                    assert(meta_view_of(self.meta@) =~= meta_view_of(pre).insert(key@, value@));
                    assert(old(self).meta_seq() == pre);
                    assert forall|i: int, j: int|
                        0 <= i < j < self.meta_seq().len() implies self.meta_seq()[i].key@
                        != self.meta_seq()[j].key@ by {
                        assert(pre[i].key@ != pre[j].key@);
                    }
                    assert(self.docs_seq() == old(self).docs_seq());
                    assert(self.embs_seq() == old(self).embs_seq());
                    assert(self.cache_seq() == old(self).cache_seq());
                    assert(self.indexes_seq() == old(self).indexes_seq());
                    assert(self.dim_spec() == old(self).dim_spec());
                }
                return ;
            }
            p = p + 1;
        }
        let row = MetaRow { key: key.to_owned(), value: value.to_owned(), updated_at: now_ms };
        let ghost pre = self.meta@;
        self.meta.push(row);
        proof {
            assert(self.meta@.drop_last() =~= pre);
            assert(meta_view_of(self.meta@) =~= meta_view_of(pre).insert(key@, value@));
            assert(old(self).meta_seq() == pre);
            assert forall|i: int, j: int|
                0 <= i < j < self.meta_seq().len() implies self.meta_seq()[i].key@
                != self.meta_seq()[j].key@ by {
                if j < pre.len() {
                    assert(pre[i].key@ != pre[j].key@);
                } else {
                    assert(self.meta_seq()[j].key@ == key@);
                    assert(pre[i].key@ != key@);
                }
            }
            assert(self.docs_seq() == old(self).docs_seq());
            assert(self.embs_seq() == old(self).embs_seq());
            assert(self.cache_seq() == old(self).cache_seq());
            assert(self.indexes_seq() == old(self).indexes_seq());
            assert(self.dim_spec() == old(self).dim_spec());
        }
    }
}

/// A monotonic counter bump that cannot overflow.
pub open spec fn bump(v: u64) -> u64 {
    if v == u64::MAX {
        v
    } else {
        (v + 1) as u64
    }
}

/// `row` is `o` with its embedding lifecycle moved to a new status, all other
/// columns kept.
pub open spec fn is_status_set(o: DocRow, row: DocRow, st: EmbeddingStatus) -> bool {
    row == DocRow { embedding_status: st, ..o }
}

/// `row` is `o` marked failed with reason `msg`.
pub open spec fn is_marked_error(o: DocRow, row: DocRow, msg: Seq<char>) -> bool {
    &&& row.embedding_status == EmbeddingStatus::Error
    &&& row.embedding_error matches Some(e) && e@ == msg
    &&& row.id == o.id
    &&& row.doc_id == o.doc_id
    &&& row.doc_path == o.doc_path
    &&& row.category == o.category
    &&& row.category_text == o.category_text
    &&& row.content == o.content
    &&& row.chunk_index == o.chunk_index
    &&& row.total_chunks == o.total_chunks
    &&& row.content_hash == o.content_hash
    &&& row.vector == o.vector
    &&& row.embedding_version == o.embedding_version
    &&& row.embedded_at == o.embedded_at
    &&& row.index_status == o.index_status
    &&& row.index_version == o.index_version
}

/// `row` is `o` marked ready: status ready, error cleared, version bumped,
/// embedded now, and the freshly computed content hash recorded.
pub open spec fn is_marked_ready(o: DocRow, row: DocRow, h: Seq<char>, now: u64) -> bool {
    &&& row.embedding_status == EmbeddingStatus::Ready
    &&& row.embedding_error is None
    &&& row.embedding_version == bump(o.embedding_version)
    &&& row.embedded_at == Some(now)
    &&& row.content_hash@ == h
    &&& row.id == o.id
    &&& row.doc_id == o.doc_id
    &&& row.doc_path == o.doc_path
    &&& row.category == o.category
    &&& row.category_text == o.category_text
    &&& row.content == o.content
    &&& row.chunk_index == o.chunk_index
    &&& row.total_chunks == o.total_chunks
    &&& row.vector == o.vector
    &&& row.index_status == o.index_status
    &&& row.index_version == o.index_version
}

/// The freshly ingested row for one chunk: hash recorded, vector and
/// lifecycle depending on whether a vector was supplied.
pub open spec fn is_ingested_row(c: DocumentChunk, v: Option<Vec<u32>>, row: DocRow, now: u64) -> bool {
    &&& row.id@ == c.id@
    &&& row.doc_id@ == c.doc_id@
    &&& row.doc_path@ == c.doc_path@
    &&& row.category@ == c.category@
    &&& row.category_text@ == c.category_text@
    &&& row.content@ == c.content@
    &&& row.chunk_index == c.chunk_index
    &&& row.total_chunks == c.total_chunks
    &&& row.content_hash@ == blake3_hex_of(c.content@)
    &&& row.index_status == IndexStatus::Stale
    &&& row.index_version == 0
    &&& match v {
        Some(vec) => {
            &&& row.vector matches Some(w) && w@ == vec@
            &&& row.embedding_status == EmbeddingStatus::Ready
            &&& row.embedding_error is None
            &&& row.embedding_version == 1
            &&& row.embedded_at == Some(now)
        },
        None => {
            &&& row.vector is None
            &&& row.embedding_status == EmbeddingStatus::New
            &&& row.embedding_error is None
            &&& row.embedding_version == 0
            &&& row.embedded_at is None
        },
    }
}

/// Grounds the closed table views of `s` as equalities on its fields, for use
/// inside this module.
proof fn lemma_ground(s: &Store)
    ensures
        s.docs_seq() == s.docs@,
        s.embs_seq() == s.embs@,
        s.cache_seq() == s.cache@,
        s.meta_seq() == s.meta@,
        s.indexes_seq() == s.indexes@,
        s.dim_spec() == s.dim as nat,
{
}

impl Store {
    /// Borrow one `documents` row.
    pub fn doc_ref(&self, i: usize) -> (r: &DocRow)
        requires
            i < self.docs_seq().len(),
        ensures
            *r == self.docs_seq()[i as int],
    {
        proof {
            lemma_ground(self);
        }
        &self.docs[i]
    }

    /// Borrow one `embeddings` row.
    pub fn emb_ref(&self, i: usize) -> (r: &EmbRow)
        requires
            i < self.embs_seq().len(),
        ensures
            *r == self.embs_seq()[i as int],
    {
        proof {
            lemma_ground(self);
        }
        &self.embs[i]
    }

    /// How many `documents` rows are not yet embedded for serving.
    pub fn count_not_ready(&self) -> (r: usize)
        ensures
            r as nat == count_not_ready_in(self.docs_seq()),
    {
        proof {
            lemma_ground(self);
        }
        let mut c: usize = 0;
        let mut i: usize = 0;
        while i < self.docs.len()
            invariant
                0 <= i <= self.docs@.len(),
                c as nat == count_not_ready_in(self.docs@.take(i as int)),
                c <= i,
            decreases self.docs@.len() - i,
        {
            proof {
                assert(self.docs@.take(i + 1).drop_last() =~= self.docs@.take(i as int));
            }
            if !matches!(self.docs[i].embedding_status, EmbeddingStatus::Ready) {
                c = c + 1;
            }
            i = i + 1;
        }
        proof {
            assert(self.docs@.take(self.docs@.len() as int) =~= self.docs@);
        }
        c
    }

    /// How many `documents` rows carry a serving vector.
    pub fn count_with_vector(&self) -> (r: usize)
        ensures
            r as nat == count_with_vector_in(self.docs_seq()),
    {
        proof {
            lemma_ground(self);
        }
        let mut c: usize = 0;
        let mut i: usize = 0;
        while i < self.docs.len()
            invariant
                0 <= i <= self.docs@.len(),
                c as nat == count_with_vector_in(self.docs@.take(i as int)),
                c <= i,
            decreases self.docs@.len() - i,
        {
            proof {
                assert(self.docs@.take(i + 1).drop_last() =~= self.docs@.take(i as int));
            }
            if self.docs[i].vector.is_some() {
                c = c + 1;
            }
            i = i + 1;
        }
        proof {
            assert(self.docs@.take(self.docs@.len() as int) =~= self.docs@);
        }
        c
    }

    /// Append freshly chunked documents, computing each row's content hash.
    /// Rows with a supplied vector enter ready for serving; the rest enter
    /// `new` awaiting backfill. Fails, writing nothing, if a supplied vector
    /// does not have length `dim`.
    pub fn append_documents(
        &mut self,
        chunks: &Vec<DocumentChunk>,
        vectors: &Vec<Option<Vec<u32>>>,
        now_ms: u64,
    ) -> (r: Result<(), Error>)
        requires
            old(self).wf(),
            chunks@.len() == vectors@.len(),
            forall|a: int, b: int| 0 <= a < b < chunks@.len() ==> chunks@[a].id@ != chunks@[b].id@,
            forall|a: int, i: int|
                0 <= a < chunks@.len() && 0 <= i < old(self).docs_seq().len()
                    ==> (#[trigger] chunks@[a]).id@ != (#[trigger] old(self).docs_seq()[i]).id@,
        ensures
            final(self).wf(),
            final(self).dim_spec() == old(self).dim_spec(),
            final(self).embs_seq() == old(self).embs_seq(),
            final(self).cache_seq() == old(self).cache_seq(),
            final(self).meta_seq() == old(self).meta_seq(),
            final(self).indexes_seq() == old(self).indexes_seq(),
            (r is Ok) == (forall|a: int|
                0 <= a < vectors@.len() ==> match #[trigger] vectors@[a] {
                    Some(v) => v@.len() == old(self).dim_spec(),
                    None => true,
                }),
            r is Err ==> final(self).docs_seq() == old(self).docs_seq(),
            r is Ok ==> {
                &&& final(self).docs_seq().len() == old(self).docs_seq().len() + chunks@.len()
                &&& forall|i: int|
                    0 <= i < old(self).docs_seq().len() ==> final(self).docs_seq()[i] == old(
                        self,
                    ).docs_seq()[i]
                &&& forall|a: int|
                    0 <= a < chunks@.len() ==> is_ingested_row(
                        chunks@[a],
                        vectors@[a],
                        #[trigger] final(self).docs_seq()[old(self).docs_seq().len() + a],
                        now_ms,
                    )
            },
    {
        proof {
            lemma_ground(self);
        }
        // Check every supplied vector before writing anything.
        let mut a: usize = 0;
        while a < vectors.len()
            invariant
                0 <= a <= vectors@.len(),
                self == old(self),
                old(self).wf(),
                forall|b: int|
                    0 <= b < a ==> match #[trigger] vectors@[b] {
                        Some(v) => v@.len() == old(self).dim_spec(),
                        None => true,
                    },
            decreases vectors@.len() - a,
        {
            match &vectors[a] {
                Some(v) => {
                    if v.len() != self.dim {
                        proof {
                            lemma_ground(self);
                        }
                        return Err(
                            Error::Operation(String::from_str("embedding dimension mismatch")),
                        );
                    }
                },
                None => {},
            }
            a = a + 1;
        }
        let ghost old_docs = self.docs@;
        let n = chunks.len();
        let mut k: usize = 0;
        while k < n
            invariant
                0 <= k <= n,
                n == chunks@.len(),
                n == vectors@.len(),
                self.dim == old(self).dim,
                self.embs == old(self).embs,
                self.cache == old(self).cache,
                self.meta == old(self).meta,
                self.indexes == old(self).indexes,
                old_docs == old(self).docs@,
                forall|b: int|
                    0 <= b < vectors@.len() ==> match #[trigger] vectors@[b] {
                        Some(v) => v@.len() == old(self).dim_spec(),
                        None => true,
                    },
                self.docs@.len() == old_docs.len() + k,
                forall|i: int| 0 <= i < old_docs.len() ==> self.docs@[i] == old_docs[i],
                forall|b: int|
                    0 <= b < k ==> is_ingested_row(
                        chunks@[b],
                        vectors@[b],
                        #[trigger] self.docs@[old_docs.len() + b],
                        now_ms,
                    ),
            decreases n - k,
        {
            let c = &chunks[k];
            let h = hash_content(c.content.as_str());
            let (vector, embedding_status, embedding_version, embedded_at): (
                Option<Vec<u32>>,
                EmbeddingStatus,
                u64,
                Option<u64>,
            ) = match &vectors[k] {
                Some(v) => (Some(copy_u32_vec(v)), EmbeddingStatus::Ready, 1, Some(now_ms)),
                None => (None, EmbeddingStatus::New, 0, None),
            };
            let row = DocRow {
                id: c.id.clone(),
                doc_id: c.doc_id.clone(),
                doc_path: c.doc_path.clone(),
                category: c.category.clone(),
                category_text: c.category_text.clone(),
                content: c.content.clone(),
                chunk_index: c.chunk_index,
                total_chunks: c.total_chunks,
                content_hash: h,
                vector,
                embedding_status,
                embedding_error: None,
                embedding_version,
                embedded_at,
                index_status: IndexStatus::Stale,
                index_version: 0,
            };
            self.docs.push(row);
            k = k + 1;
        }
        proof {
            lemma_ground(self);
            lemma_ground(old(self));
            assert forall|i: int, j: int|
                0 <= i < j < self.docs@.len() implies self.docs@[i].id@ != self.docs@[j].id@ by {
                if i >= old_docs.len() {
                    let bi = i - old_docs.len();
                    assert(is_ingested_row(
                        chunks@[bi],
                        vectors@[bi],
                        self.docs@[old_docs.len() + bi],
                        now_ms,
                    ));
                }
                if j >= old_docs.len() {
                    let bj = j - old_docs.len();
                    assert(is_ingested_row(
                        chunks@[bj],
                        vectors@[bj],
                        self.docs@[old_docs.len() + bj],
                        now_ms,
                    ));
                }
                if j < old_docs.len() {
                    assert(old_docs[i].id@ != old_docs[j].id@);
                } else if i < old_docs.len() {
                    assert(chunks@[j - old_docs.len()].id@ != old(self).docs_seq()[i].id@);
                } else {
                    assert(chunks@[i - old_docs.len()].id@ != chunks@[j - old_docs.len()].id@);
                }
            }
            assert forall|i: int|
                0 <= i < self.docs@.len() implies match (#[trigger] self.docs@[i]).vector {
                Some(v) => v@.len() == self.dim_spec(),
                None => true,
            } by {
                if i >= old_docs.len() {
                    let bi = i - old_docs.len();
                    assert(is_ingested_row(
                        chunks@[bi],
                        vectors@[bi],
                        self.docs@[old_docs.len() + bi],
                        now_ms,
                    ));
                    match vectors@[bi] {
                        Some(v) => {
                            assert(v@.len() == old(self).dim_spec());
                        },
                        None => {},
                    }
                } else {
                    assert(self.docs@[i] == old_docs[i]);
                }
            }
            assert forall|i: int|
                0 <= i < self.docs@.len() implies (#[trigger] self.docs@[i]).content_hash@
                == blake3_hex_of(self.docs@[i].content@) by {
                if i >= old_docs.len() {
                    let bi = i - old_docs.len();
                    assert(is_ingested_row(
                        chunks@[bi],
                        vectors@[bi],
                        self.docs@[old_docs.len() + bi],
                        now_ms,
                    ));
                } else {
                    assert(self.docs@[i] == old_docs[i]);
                }
            }
        }
        Ok(())
    }

    /// Reserve the given rows for embedding: mark them in progress, all other
    /// columns and rows untouched.
    pub fn mark_in_progress(&mut self, idxs: &Vec<usize>)
        requires
            old(self).wf(),
            valid_idxs(idxs@, old(self).docs_seq().len()),
        ensures
            final(self).wf(),
            final(self).dim_spec() == old(self).dim_spec(),
            final(self).embs_seq() == old(self).embs_seq(),
            final(self).cache_seq() == old(self).cache_seq(),
            final(self).meta_seq() == old(self).meta_seq(),
            final(self).indexes_seq() == old(self).indexes_seq(),
            final(self).docs_seq().len() == old(self).docs_seq().len(),
            forall|p: int|
                0 <= p < old(self).docs_seq().len() && !has_idx(idxs@, p) ==> final(self).docs_seq()[p]
                    == old(self).docs_seq()[p],
            forall|b: int|
                0 <= b < idxs@.len() ==> is_status_set(
                    old(self).docs_seq()[#[trigger] idxs@[b] as int],
                    final(self).docs_seq()[idxs@[b] as int],
                    EmbeddingStatus::InProgress,
                ),
    {
        proof {
            lemma_ground(self);
            lemma_ground(old(self));
        }
        let mut a: usize = 0;
        while a < idxs.len()
            invariant
                0 <= a <= idxs@.len(),
                valid_idxs(idxs@, old(self).docs_seq().len()),
                self.dim == old(self).dim,
                self.embs == old(self).embs,
                self.cache == old(self).cache,
                self.meta == old(self).meta,
                self.indexes == old(self).indexes,
                self.docs@.len() == old(self).docs_seq().len(),
                forall|p: int|
                    0 <= p < self.docs@.len() && !has_idx(idxs@.take(a as int), p) ==> self.docs@[p]
                        == old(self).docs_seq()[p],
                forall|b: int|
                    0 <= b < a ==> is_status_set(
                        old(self).docs_seq()[#[trigger] idxs@[b] as int],
                        self.docs@[idxs@[b] as int],
                        EmbeddingStatus::InProgress,
                    ),
            decreases idxs@.len() - a,
        {
            let ix = idxs[a];
            let ghost pre = self.docs@;
            proof {
                assert(!has_idx(idxs@.take(a as int), ix as int));
            }
            self.docs[ix].embedding_status = EmbeddingStatus::InProgress;
            proof {
                assert forall|p: int|
                    0 <= p < self.docs@.len() && !has_idx(idxs@.take(a as int + 1), p)
                    implies self.docs@[p] == old(self).docs_seq()[p] by {
                    if has_idx(idxs@.take(a as int), p) {
                        let b = choose|b: int|
                            0 <= b < idxs@.take(a as int).len() && idxs@.take(a as int)[b]
                                == p;
                        assert(idxs@.take(a as int + 1)[b] == p);
                        assert(false);
                    }
                    assert(idxs@.take(a as int + 1)[a as int] == idxs@[a as int]);
                    if p == ix as int {
                        assert(has_idx(idxs@.take(a as int + 1), p));
                        assert(false);
                    }
                }
                assert forall|b: int| 0 <= b < a + 1 implies is_status_set(
                    old(self).docs_seq()[#[trigger] idxs@[b] as int],
                    self.docs@[idxs@[b] as int],
                    EmbeddingStatus::InProgress,
                ) by {
                    if b < a {
                        assert(idxs@[b] != idxs@[a as int]);
                        assert(self.docs@[idxs@[b] as int] == pre[idxs@[b] as int]);
                    } else {
                        assert(pre[ix as int] == old(self).docs_seq()[ix as int]);
                    }
                }
            }
            a = a + 1;
        }
        proof {
            lemma_ground(self);
            assert forall|p: int|
                0 <= p < self.docs@.len() && !has_idx(idxs@, p) implies self.docs@[p] == old(
                self,
            ).docs_seq()[p] by {
                assert(!has_idx(idxs@.take(idxs@.len() as int), p));
            }
            assert(idxs@.take(idxs@.len() as int) =~= idxs@);
            assert forall|i: int, j: int|
                0 <= i < j < self.docs@.len() implies self.docs@[i].id@ != self.docs@[j].id@ by {
                lemma_same_ids(old(self).docs_seq(), self.docs@, idxs@, i);
                lemma_same_ids(old(self).docs_seq(), self.docs@, idxs@, j);
            }
            assert forall|i: int|
                0 <= i < self.docs@.len() implies match (#[trigger] self.docs@[i]).vector {
                Some(v) => v@.len() == self.dim_spec(),
                None => true,
            } by {
                if has_idx(idxs@, i) {
                    let b = choose|b: int| 0 <= b < idxs@.len() && idxs@[b] == i;
                    assert(is_status_set(
                        old(self).docs_seq()[idxs@[b] as int],
                        self.docs@[idxs@[b] as int],
                        EmbeddingStatus::InProgress,
                    ));
                } else {
                    assert(self.docs@[i] == old(self).docs_seq()[i]);
                }
            }
            assert forall|i: int|
                0 <= i < self.docs@.len() implies (#[trigger] self.docs@[i]).content_hash@
                == blake3_hex_of(self.docs@[i].content@) by {
                if has_idx(idxs@, i) {
                    let b = choose|b: int| 0 <= b < idxs@.len() && idxs@[b] == i;
                    assert(is_status_set(
                        old(self).docs_seq()[idxs@[b] as int],
                        self.docs@[idxs@[b] as int],
                        EmbeddingStatus::InProgress,
                    ));
                } else {
                    assert(self.docs@[i] == old(self).docs_seq()[i]);
                }
            }
        }
    }
}

/// `row` is `o` with its serving vector replaced by `w`.
pub open spec fn is_vector_set(o: DocRow, row: DocRow, w: Seq<u32>) -> bool {
    &&& row.vector matches Some(v) && v@ == w
    &&& row.id == o.id
    &&& row.doc_id == o.doc_id
    &&& row.doc_path == o.doc_path
    &&& row.category == o.category
    &&& row.category_text == o.category_text
    &&& row.content == o.content
    &&& row.chunk_index == o.chunk_index
    &&& row.total_chunks == o.total_chunks
    &&& row.content_hash == o.content_hash
    &&& row.embedding_status == o.embedding_status
    &&& row.embedding_error == o.embedding_error
    &&& row.embedding_version == o.embedding_version
    &&& row.embedded_at == o.embedded_at
    &&& row.index_status == o.index_status
    &&& row.index_version == o.index_version
}

impl Store {
    /// Reclaim reservations that a crashed worker left behind: the given
    /// rows, all reserved, return to `new` so the next frontier scan picks
    /// them up. This is the one transition out of `in_progress` that supplies
    /// no vector; all other columns and rows stay untouched.
    pub fn reclaim_in_progress(&mut self, idxs: &Vec<usize>)
        requires
            old(self).wf(),
            valid_idxs(idxs@, old(self).docs_seq().len()),
            forall|b: int|
                0 <= b < idxs@.len() ==> old(self).docs_seq()[#[trigger] idxs@[b] as int].embedding_status
                    == EmbeddingStatus::InProgress,
        ensures
            final(self).wf(),
            final(self).dim_spec() == old(self).dim_spec(),
            final(self).embs_seq() == old(self).embs_seq(),
            final(self).cache_seq() == old(self).cache_seq(),
            final(self).meta_seq() == old(self).meta_seq(),
            final(self).indexes_seq() == old(self).indexes_seq(),
            final(self).docs_seq().len() == old(self).docs_seq().len(),
            forall|p: int|
                0 <= p < old(self).docs_seq().len() && !has_idx(idxs@, p) ==> final(self).docs_seq()[p]
                    == old(self).docs_seq()[p],
            forall|b: int|
                0 <= b < idxs@.len() ==> is_status_set(
                    old(self).docs_seq()[#[trigger] idxs@[b] as int],
                    final(self).docs_seq()[idxs@[b] as int],
                    EmbeddingStatus::New,
                ),
    {
        proof {
            lemma_ground(self);
            lemma_ground(old(self));
        }
        let mut a: usize = 0;
        while a < idxs.len()
            invariant
                0 <= a <= idxs@.len(),
                valid_idxs(idxs@, old(self).docs_seq().len()),
                self.dim == old(self).dim,
                self.embs == old(self).embs,
                self.cache == old(self).cache,
                self.meta == old(self).meta,
                self.indexes == old(self).indexes,
                self.docs@.len() == old(self).docs_seq().len(),
                forall|p: int|
                    0 <= p < self.docs@.len() && !has_idx(idxs@.take(a as int), p) ==> self.docs@[p]
                        == old(self).docs_seq()[p],
                forall|b: int|
                    0 <= b < a ==> is_status_set(
                        old(self).docs_seq()[#[trigger] idxs@[b] as int],
                        self.docs@[idxs@[b] as int],
                        EmbeddingStatus::New,
                    ),
            decreases idxs@.len() - a,
        {
            let ix = idxs[a];
            let ghost pre = self.docs@;
            proof {
                if has_idx(idxs@.take(a as int), ix as int) {
                    let b = choose|b: int|
                        0 <= b < idxs@.take(a as int).len() && idxs@.take(a as int)[b]
                            == ix as int;
                    assert(idxs@[b] == idxs@[a as int]);
                    assert(false);
                }
            }
            self.docs[ix].embedding_status = EmbeddingStatus::New;
            proof {
                assert forall|p: int|
                    0 <= p < self.docs@.len() && !has_idx(idxs@.take(a as int + 1), p)
                    implies self.docs@[p] == old(self).docs_seq()[p] by {
                    if has_idx(idxs@.take(a as int), p) {
                        let b = choose|b: int|
                            0 <= b < idxs@.take(a as int).len() && idxs@.take(a as int)[b]
                                == p;
                        assert(idxs@.take(a as int + 1)[b] == p);
                        assert(false);
                    }
                    assert(idxs@.take(a as int + 1)[a as int] == idxs@[a as int]);
                    if p == ix as int {
                        assert(has_idx(idxs@.take(a as int + 1), p));
                        assert(false);
                    }
                }
                assert forall|b: int| 0 <= b < a + 1 implies is_status_set(
                    old(self).docs_seq()[#[trigger] idxs@[b] as int],
                    self.docs@[idxs@[b] as int],
                    EmbeddingStatus::New,
                ) by {
                    if b < a {
                        assert(idxs@[b] != idxs@[a as int]);
                        assert(self.docs@[idxs@[b] as int] == pre[idxs@[b] as int]);
                    } else {
                        assert(pre[ix as int] == old(self).docs_seq()[ix as int]);
                    }
                }
            }
            a = a + 1;
        }
        proof {
            lemma_ground(self);
            assert forall|p: int|
                0 <= p < self.docs@.len() && !has_idx(idxs@, p) implies self.docs@[p] == old(
                self,
            ).docs_seq()[p] by {
                assert(!has_idx(idxs@.take(idxs@.len() as int), p));
            }
            assert(idxs@.take(idxs@.len() as int) =~= idxs@);
            assert forall|i: int, j: int|
                0 <= i < j < self.docs@.len() implies self.docs@[i].id@ != self.docs@[j].id@ by {
                lemma_same_ids(old(self).docs_seq(), self.docs@, idxs@, i);
                lemma_same_ids(old(self).docs_seq(), self.docs@, idxs@, j);
            }
            assert forall|i: int|
                0 <= i < self.docs@.len() implies match (#[trigger] self.docs@[i]).vector {
                Some(v) => v@.len() == self.dim_spec(),
                None => true,
            } by {
                if has_idx(idxs@, i) {
                    let b = choose|b: int| 0 <= b < idxs@.len() && idxs@[b] == i;
                    assert(is_status_set(
                        old(self).docs_seq()[idxs@[b] as int],
                        self.docs@[idxs@[b] as int],
                        EmbeddingStatus::New,
                    ));
                } else {
                    assert(self.docs@[i] == old(self).docs_seq()[i]);
                }
            }
            assert forall|i: int|
                0 <= i < self.docs@.len() implies (#[trigger] self.docs@[i]).content_hash@
                == blake3_hex_of(self.docs@[i].content@) by {
                if has_idx(idxs@, i) {
                    let b = choose|b: int| 0 <= b < idxs@.len() && idxs@[b] == i;
                    assert(is_status_set(
                        old(self).docs_seq()[idxs@[b] as int],
                        self.docs@[idxs@[b] as int],
                        EmbeddingStatus::New,
                    ));
                } else {
                    assert(self.docs@[i] == old(self).docs_seq()[i]);
                }
            }
        }
    }

    /// Mark the given rows failed with the provider's message; all other
    /// columns and rows untouched.
    pub fn mark_error(&mut self, idxs: &Vec<usize>, msg: &str)
        requires
            old(self).wf(),
            valid_idxs(idxs@, old(self).docs_seq().len()),
        ensures
            final(self).wf(),
            final(self).dim_spec() == old(self).dim_spec(),
            final(self).embs_seq() == old(self).embs_seq(),
            final(self).cache_seq() == old(self).cache_seq(),
            final(self).meta_seq() == old(self).meta_seq(),
            final(self).indexes_seq() == old(self).indexes_seq(),
            final(self).docs_seq().len() == old(self).docs_seq().len(),
            forall|p: int|
                0 <= p < old(self).docs_seq().len() && !has_idx(idxs@, p) ==> final(self).docs_seq()[p]
                    == old(self).docs_seq()[p],
            forall|b: int|
                0 <= b < idxs@.len() ==> is_marked_error(
                    old(self).docs_seq()[#[trigger] idxs@[b] as int],
                    final(self).docs_seq()[idxs@[b] as int],
                    msg@,
                ),
    {
        proof {
            lemma_ground(self);
            lemma_ground(old(self));
        }
        let mut a: usize = 0;
        while a < idxs.len()
            invariant
                0 <= a <= idxs@.len(),
                valid_idxs(idxs@, old(self).docs_seq().len()),
                self.dim == old(self).dim,
                self.embs == old(self).embs,
                self.cache == old(self).cache,
                self.meta == old(self).meta,
                self.indexes == old(self).indexes,
                self.docs@.len() == old(self).docs_seq().len(),
                forall|p: int|
                    0 <= p < self.docs@.len() && !has_idx(idxs@.take(a as int), p) ==> self.docs@[p]
                        == old(self).docs_seq()[p],
                forall|b: int|
                    0 <= b < a ==> is_marked_error(
                        old(self).docs_seq()[#[trigger] idxs@[b] as int],
                        self.docs@[idxs@[b] as int],
                        msg@,
                    ),
            decreases idxs@.len() - a,
        {
            let ix = idxs[a];
            let ghost pre = self.docs@;
            proof {
                if has_idx(idxs@.take(a as int), ix as int) {
                    let b = choose|b: int|
                        0 <= b < idxs@.take(a as int).len() && idxs@.take(a as int)[b]
                            == ix as int;
                    assert(idxs@[b] == idxs@[a as int]);
                    assert(false);
                }
            }
            self.docs[ix].embedding_status = EmbeddingStatus::Error;
            self.docs[ix].embedding_error = Some(msg.to_owned());
            proof {
                assert forall|p: int|
                    0 <= p < self.docs@.len() && !has_idx(idxs@.take(a as int + 1), p)
                    implies self.docs@[p] == old(self).docs_seq()[p] by {
                    if has_idx(idxs@.take(a as int), p) {
                        let b = choose|b: int|
                            0 <= b < idxs@.take(a as int).len() && idxs@.take(a as int)[b]
                                == p;
                        assert(idxs@.take(a as int + 1)[b] == p);
                        assert(false);
                    }
                    assert(idxs@.take(a as int + 1)[a as int] == idxs@[a as int]);
                    if p == ix as int {
                        assert(has_idx(idxs@.take(a as int + 1), p));
                        assert(false);
                    }
                }
                assert forall|b: int| 0 <= b < a + 1 implies is_marked_error(
                    old(self).docs_seq()[#[trigger] idxs@[b] as int],
                    self.docs@[idxs@[b] as int],
                    msg@,
                ) by {
                    if b < a {
                        assert(idxs@[b] != idxs@[a as int]);
                        assert(self.docs@[idxs@[b] as int] == pre[idxs@[b] as int]);
                    } else {
                        assert(pre[ix as int] == old(self).docs_seq()[ix as int]);
                    }
                }
            }
            a = a + 1;
        }
        proof {
            lemma_ground(self);
            assert forall|p: int|
                0 <= p < self.docs@.len() && !has_idx(idxs@, p) implies self.docs@[p] == old(
                self,
            ).docs_seq()[p] by {
                assert(!has_idx(idxs@.take(idxs@.len() as int), p));
            }
            assert(idxs@.take(idxs@.len() as int) =~= idxs@);
            assert forall|i: int, j: int|
                0 <= i < j < self.docs@.len() implies self.docs@[i].id@ != self.docs@[j].id@ by {
                lemma_same_ids(old(self).docs_seq(), self.docs@, idxs@, i);
                lemma_same_ids(old(self).docs_seq(), self.docs@, idxs@, j);
            }
            assert forall|i: int|
                0 <= i < self.docs@.len() implies match (#[trigger] self.docs@[i]).vector {
                Some(v) => v@.len() == self.dim_spec(),
                None => true,
            } by {
                if has_idx(idxs@, i) {
                    let b = choose|b: int| 0 <= b < idxs@.len() && idxs@[b] == i;
                    assert(is_marked_error(
                        old(self).docs_seq()[idxs@[b] as int],
                        self.docs@[idxs@[b] as int],
                        msg@,
                    ));
                } else {
                    assert(self.docs@[i] == old(self).docs_seq()[i]);
                }
            }
            assert forall|i: int|
                0 <= i < self.docs@.len() implies (#[trigger] self.docs@[i]).content_hash@
                == blake3_hex_of(self.docs@[i].content@) by {
                if has_idx(idxs@, i) {
                    let b = choose|b: int| 0 <= b < idxs@.len() && idxs@[b] == i;
                    assert(is_marked_error(
                        old(self).docs_seq()[idxs@[b] as int],
                        self.docs@[idxs@[b] as int],
                        msg@,
                    ));
                } else {
                    assert(self.docs@[i] == old(self).docs_seq()[i]);
                }
            }
        }
    }

    /// Mark the given rows ready: clear the error, bump the version, record
    /// the embed time and the freshly computed content hash; all other
    /// columns and rows untouched.
    pub fn mark_ready(&mut self, idxs: &Vec<usize>, hashes: &Vec<String>, now_ms: u64)
        requires
            old(self).wf(),
            valid_idxs(idxs@, old(self).docs_seq().len()),
            hashes@.len() == idxs@.len(),
            forall|b: int|
                0 <= b < idxs@.len() ==> (#[trigger] hashes@[b])@ == blake3_hex_of(
                    old(self).docs_seq()[idxs@[b] as int].content@,
                ),
        ensures
            final(self).wf(),
            final(self).dim_spec() == old(self).dim_spec(),
            final(self).embs_seq() == old(self).embs_seq(),
            final(self).cache_seq() == old(self).cache_seq(),
            final(self).meta_seq() == old(self).meta_seq(),
            final(self).indexes_seq() == old(self).indexes_seq(),
            final(self).docs_seq().len() == old(self).docs_seq().len(),
            forall|p: int|
                0 <= p < old(self).docs_seq().len() && !has_idx(idxs@, p) ==> final(self).docs_seq()[p]
                    == old(self).docs_seq()[p],
            forall|b: int|
                0 <= b < idxs@.len() ==> is_marked_ready(
                    old(self).docs_seq()[#[trigger] idxs@[b] as int],
                    final(self).docs_seq()[idxs@[b] as int],
                    hashes@[b]@,
                    now_ms,
                ),
    {
        proof {
            lemma_ground(self);
            lemma_ground(old(self));
        }
        let mut a: usize = 0;
        while a < idxs.len()
            invariant
                0 <= a <= idxs@.len(),
                valid_idxs(idxs@, old(self).docs_seq().len()),
                hashes@.len() == idxs@.len(),
                self.dim == old(self).dim,
                self.embs == old(self).embs,
                self.cache == old(self).cache,
                self.meta == old(self).meta,
                self.indexes == old(self).indexes,
                self.docs@.len() == old(self).docs_seq().len(),
                forall|p: int|
                    0 <= p < self.docs@.len() && !has_idx(idxs@.take(a as int), p) ==> self.docs@[p]
                        == old(self).docs_seq()[p],
                forall|b: int|
                    0 <= b < a ==> is_marked_ready(
                        old(self).docs_seq()[#[trigger] idxs@[b] as int],
                        self.docs@[idxs@[b] as int],
                        hashes@[b]@,
                        now_ms,
                    ),
            decreases idxs@.len() - a,
        {
            let ix = idxs[a];
            let ghost pre = self.docs@;
            proof {
                if has_idx(idxs@.take(a as int), ix as int) {
                    let b = choose|b: int|
                        0 <= b < idxs@.take(a as int).len() && idxs@.take(a as int)[b]
                            == ix as int;
                    assert(idxs@[b] == idxs@[a as int]);
                    assert(false);
                }
                assert(pre[ix as int] == old(self).docs_seq()[ix as int]);
            }
            let v = self.docs[ix].embedding_version;
            let nv: u64 = if v == u64::MAX {
                v
            } else {
                v + 1
            };
            self.docs[ix].embedding_status = EmbeddingStatus::Ready;
            self.docs[ix].embedding_error = None;
            self.docs[ix].embedding_version = nv;
            self.docs[ix].embedded_at = Some(now_ms);
            self.docs[ix].content_hash = hashes[a].clone();
            proof {
                assert forall|p: int|
                    0 <= p < self.docs@.len() && !has_idx(idxs@.take(a as int + 1), p)
                    implies self.docs@[p] == old(self).docs_seq()[p] by {
                    if has_idx(idxs@.take(a as int), p) {
                        let b = choose|b: int|
                            0 <= b < idxs@.take(a as int).len() && idxs@.take(a as int)[b]
                                == p;
                        assert(idxs@.take(a as int + 1)[b] == p);
                        assert(false);
                    }
                    assert(idxs@.take(a as int + 1)[a as int] == idxs@[a as int]);
                    if p == ix as int {
                        assert(has_idx(idxs@.take(a as int + 1), p));
                        assert(false);
                    }
                }
                assert forall|b: int| 0 <= b < a + 1 implies is_marked_ready(
                    old(self).docs_seq()[#[trigger] idxs@[b] as int],
                    self.docs@[idxs@[b] as int],
                    hashes@[b]@,
                    now_ms,
                ) by {
                    if b < a {
                        assert(idxs@[b] != idxs@[a as int]);
                        assert(self.docs@[idxs@[b] as int] == pre[idxs@[b] as int]);
                    }
                }
            }
            a = a + 1;
        }
        proof {
            lemma_ground(self);
            assert forall|p: int|
                0 <= p < self.docs@.len() && !has_idx(idxs@, p) implies self.docs@[p] == old(
                self,
            ).docs_seq()[p] by {
                assert(!has_idx(idxs@.take(idxs@.len() as int), p));
            }
            assert(idxs@.take(idxs@.len() as int) =~= idxs@);
            assert forall|i: int, j: int|
                0 <= i < j < self.docs@.len() implies self.docs@[i].id@ != self.docs@[j].id@ by {
                lemma_same_ids(old(self).docs_seq(), self.docs@, idxs@, i);
                lemma_same_ids(old(self).docs_seq(), self.docs@, idxs@, j);
            }
            assert forall|i: int|
                0 <= i < self.docs@.len() implies match (#[trigger] self.docs@[i]).vector {
                Some(v) => v@.len() == self.dim_spec(),
                None => true,
            } by {
                if has_idx(idxs@, i) {
                    let b = choose|b: int| 0 <= b < idxs@.len() && idxs@[b] == i;
                    assert(is_marked_ready(
                        old(self).docs_seq()[idxs@[b] as int],
                        self.docs@[idxs@[b] as int],
                        hashes@[b]@,
                        now_ms,
                    ));
                } else {
                    assert(self.docs@[i] == old(self).docs_seq()[i]);
                }
            }
            assert forall|i: int|
                0 <= i < self.docs@.len() implies (#[trigger] self.docs@[i]).content_hash@
                == blake3_hex_of(self.docs@[i].content@) by {
                if has_idx(idxs@, i) {
                    let b = choose|b: int| 0 <= b < idxs@.len() && idxs@[b] == i;
                    assert(is_marked_ready(
                        old(self).docs_seq()[idxs@[b] as int],
                        self.docs@[idxs@[b] as int],
                        hashes@[b]@,
                        now_ms,
                    ));
                } else {
                    assert(self.docs@[i] == old(self).docs_seq()[i]);
                }
            }
        }
    }

    /// Replace one row's serving vector.
    pub fn set_doc_vector(&mut self, i: usize, v: Vec<u32>)
        requires
            old(self).wf(),
            i < old(self).docs_seq().len(),
            v@.len() == old(self).dim_spec(),
        ensures
            final(self).wf(),
            final(self).dim_spec() == old(self).dim_spec(),
            final(self).embs_seq() == old(self).embs_seq(),
            final(self).cache_seq() == old(self).cache_seq(),
            final(self).meta_seq() == old(self).meta_seq(),
            final(self).indexes_seq() == old(self).indexes_seq(),
            final(self).docs_seq().len() == old(self).docs_seq().len(),
            forall|p: int|
                0 <= p < old(self).docs_seq().len() && p != i as int ==> final(self).docs_seq()[p]
                    == old(self).docs_seq()[p],
            is_vector_set(
                old(self).docs_seq()[i as int],
                final(self).docs_seq()[i as int],
                v@,
            ),
    {
        proof {
            lemma_ground(self);
            lemma_ground(old(self));
        }
        let ghost w = v@;
        self.docs[i].vector = Some(v);
        proof {
            lemma_ground(self);
            assert forall|a: int, b: int|
                0 <= a < b < self.docs@.len() implies self.docs@[a].id@ != self.docs@[b].id@ by {
                assert(self.docs@[a].id == old(self).docs_seq()[a].id);
                assert(self.docs@[b].id == old(self).docs_seq()[b].id);
            }
        }
    }

    /// Append freshly produced embedding rows to the side table.
    pub fn append_embeddings(&mut self, rows: Vec<EmbRow>)
        requires
            old(self).wf(),
            forall|i: int|
                0 <= i < rows@.len() ==> (#[trigger] rows@[i]).vector@.len() == old(
                    self,
                ).dim_spec(),
        ensures
            final(self).wf(),
            final(self).dim_spec() == old(self).dim_spec(),
            final(self).docs_seq() == old(self).docs_seq(),
            final(self).cache_seq() == old(self).cache_seq(),
            final(self).meta_seq() == old(self).meta_seq(),
            final(self).indexes_seq() == old(self).indexes_seq(),
            final(self).embs_seq() == old(self).embs_seq() + rows@,
    {
        proof {
            lemma_ground(self);
            lemma_ground(old(self));
        }
        let ghost added = rows@;
        let mut rows = rows;
        self.embs.append(&mut rows);
        proof {
            lemma_ground(self);
            assert forall|i: int|
                0 <= i < self.embs@.len() implies (#[trigger] self.embs@[i]).vector@.len()
                == self.dim_spec() by {
                if i < old(self).embs_seq().len() {
                    assert(self.embs@[i] == old(self).embs_seq()[i]);
                } else {
                    assert(self.embs@[i] == added[i - old(self).embs_seq().len()]);
                }
            }
        }
    }

    /// Whether an index of this name was already built.
    pub fn has_index(&self, name: &str) -> (r: bool)
        ensures
            r == contains_str(self.indexes_seq(), name@),
    {
        proof {
            lemma_ground(self);
        }
        let mut i: usize = 0;
        while i < self.indexes.len()
            invariant
                0 <= i <= self.indexes@.len(),
                forall|t: int| 0 <= t < i ==> (#[trigger] self.indexes@[t])@ != name@,
            decreases self.indexes@.len() - i,
        {
            if str_eq(self.indexes[i].as_str(), name) {
                return true;
            }
            i = i + 1;
        }
        proof {
            assert(!contains_str(self.indexes_seq(), name@));
        }
        false
    }

    /// Record a newly built index under a fresh name; fails, changing
    /// nothing, if the name is taken.
    pub fn register_index(&mut self, name: &str) -> (r: Result<(), Error>)
        requires
            old(self).wf(),
        ensures
            final(self).wf(),
            final(self).dim_spec() == old(self).dim_spec(),
            final(self).docs_seq() == old(self).docs_seq(),
            final(self).embs_seq() == old(self).embs_seq(),
            final(self).cache_seq() == old(self).cache_seq(),
            final(self).meta_seq() == old(self).meta_seq(),
            (r is Ok) == !contains_str(old(self).indexes_seq(), name@),
            r is Err ==> final(self).indexes_seq() == old(self).indexes_seq(),
            r is Ok ==> {
                &&& final(self).indexes_seq().len() == old(self).indexes_seq().len() + 1
                &&& forall|i: int|
                    0 <= i < old(self).indexes_seq().len() ==> final(self).indexes_seq()[i] == old(
                        self,
                    ).indexes_seq()[i]
                &&& final(self).indexes_seq().last()@ == name@
            },
    {
        proof {
            lemma_ground(self);
            lemma_ground(old(self));
        }
        if self.has_index(name) {
            return Err(Error::Operation(String::from_str("index name already exists")));
        }
        let ghost pre = self.indexes@;
        self.indexes.push(name.to_owned());
        proof {
            lemma_ground(self);
            assert forall|i: int, j: int|
                0 <= i < j < self.indexes@.len() implies self.indexes@[i]@ != self.indexes@[j]@ by {
                if j < pre.len() {
                    assert(pre[i]@ != pre[j]@);
                } else {
                    assert(self.indexes@[j]@ == name@);
                    assert(!contains_str(pre, name@));
                    assert(pre[i]@ != name@);
                }
            }
        }
        Ok(())
    }
}

/// Count of rows whose embedding status is not ready.
pub open spec fn count_not_ready_in(docs: Seq<DocRow>) -> nat
    decreases docs.len(),
{
    if docs.len() == 0 {
        0
    } else {
        count_not_ready_in(docs.drop_last()) + (if docs.last().embedding_status
            != EmbeddingStatus::Ready {
            1nat
        } else {
            0nat
        })
    }
}

/// Count of rows carrying a serving vector.
pub open spec fn count_with_vector_in(docs: Seq<DocRow>) -> nat
    decreases docs.len(),
{
    if docs.len() == 0 {
        0
    } else {
        count_with_vector_in(docs.drop_last()) + (if docs.last().vector is Some {
            1nat
        } else {
            0nat
        })
    }
}

/// Rows keep their id under the marking operations, whether touched or not.
proof fn lemma_same_ids(before: Seq<DocRow>, after: Seq<DocRow>, idxs: Seq<usize>, i: int)
    requires
        0 <= i < before.len(),
        after.len() == before.len(),
        forall|p: int| 0 <= p < before.len() && !has_idx(idxs, p) ==> after[p] == before[p],
        forall|b: int|
            0 <= b < idxs.len() ==> (#[trigger] idxs[b]) < before.len() && after[idxs[b] as int].id
                == before[idxs[b] as int].id,
    ensures
        after[i].id == before[i].id,
{
    if has_idx(idxs, i) {
        let b = choose|b: int| 0 <= b < idxs.len() && idxs[b] == i;
        assert(after[idxs[b] as int].id == before[idxs[b] as int].id);
    }
}

/// The last row carrying a key determines the cache view at that key.
proof fn lemma_cache_view_last_row(rows: Seq<CacheRow>, q: int, k: (Seq<char>, Seq<char>))
    requires
        0 <= q < rows.len(),
        rows[q].content_hash@ == k.0,
        rows[q].embedder_id@ == k.1,
        forall|p: int|
            q < p < rows.len() ==> !((#[trigger] rows[p]).content_hash@ == k.0
                && rows[p].embedder_id@ == k.1),
    ensures
        cache_view_of(rows).contains_key(k),
        cache_view_of(rows)[k] == rows[q].vector@,
    decreases rows.len(),
{
    if q < rows.len() - 1 {
        assert(rows.drop_last()[q] == rows[q]);
        lemma_cache_view_last_row(rows.drop_last(), q, k);
    }
}

/// A key on no row is not in the cache view.
proof fn lemma_cache_view_absent(rows: Seq<CacheRow>, k: (Seq<char>, Seq<char>))
    requires
        forall|p: int|
            0 <= p < rows.len() ==> !((#[trigger] rows[p]).content_hash@ == k.0
                && rows[p].embedder_id@ == k.1),
    ensures
        !cache_view_of(rows).contains_key(k),
    decreases rows.len(),
{
    if rows.len() > 0 {
        lemma_cache_view_absent(rows.drop_last(), k);
    }
}

/// With unique keys, the meta view maps row `p`'s key to row `p`'s value.
proof fn lemma_meta_unique_lookup(rows: Seq<MetaRow>, p: int)
    requires
        0 <= p < rows.len(),
        forall|i: int, j: int| 0 <= i < j < rows.len() ==> rows[i].key@ != rows[j].key@,
    ensures
        meta_view_of(rows).contains_key(rows[p].key@),
        meta_view_of(rows)[rows[p].key@] == rows[p].value@,
    decreases rows.len(),
{
    if p < rows.len() - 1 {
        assert(rows.drop_last()[p] == rows[p]);
        lemma_meta_unique_lookup(rows.drop_last(), p);
    }
}

/// A key on no row is not in the meta view.
proof fn lemma_meta_absent(rows: Seq<MetaRow>, k: Seq<char>)
    requires
        forall|t: int| 0 <= t < rows.len() ==> (#[trigger] rows[t]).key@ != k,
    ensures
        !meta_view_of(rows).contains_key(k),
    decreases rows.len(),
{
    if rows.len() > 0 {
        lemma_meta_absent(rows.drop_last(), k);
    }
}

/// Updating one row in place updates the view at its key, when keys are
/// unique and the key is kept.
proof fn lemma_meta_view_update(rows: Seq<MetaRow>, p: int, row: MetaRow)
    requires
        0 <= p < rows.len(),
        forall|i: int, j: int| 0 <= i < j < rows.len() ==> rows[i].key@ != rows[j].key@,
        row.key@ == rows[p].key@,
    ensures
        meta_view_of(rows.update(p, row)) =~= meta_view_of(rows).insert(row.key@, row.value@),
    decreases rows.len(),
{
    let upd = rows.update(p, row);
    if p == rows.len() - 1 {
        assert(upd.drop_last() =~= rows.drop_last());
        assert(upd.last() == row);
    } else {
        assert(upd.drop_last() =~= rows.drop_last().update(p, row));
        assert(upd.last() == rows.last());
        lemma_meta_view_update(rows.drop_last(), p, row);
        lemma_meta_unique_lookup(rows, p);
        assert(rows.drop_last()[p] == rows[p]);
        // The final row's key differs from the updated key.
        assert(rows[p].key@ != rows.last().key@);
        assert(meta_view_of(upd) =~= meta_view_of(rows).insert(row.key@, row.value@));
    }
}

} // verus!
