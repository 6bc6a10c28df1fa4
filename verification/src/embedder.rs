//! Embedding providers.
//!
//! `FakeEmbedder` is the deterministic test embedder: it hashes whitespace
//! tokens into `dim` buckets with a stable 64-bit hash. Its bucketing is
//! verified here as an exact function of the text; the float accumulation and
//! L2 normalization over the buckets live with the callers that compute in
//! floating point. `LocalProvider` wraps any embedder under a stable
//! provider id carrying the model identity and the dimensionality.

use crate::backfill::EmbedProvider;
use crate::hashing::token_hash64;
use crate::hashing::xx64_of;
use crate::hybrid::Embedder;
use crate::numfmt::dec_of;
use crate::numfmt::usize_to_string;
use crate::textops::split_words;
use crate::textops::views_of;
use crate::textops::words_of;
use vstd::prelude::*;
use vstd::string::StringExecFns;

verus! {

/// The deterministic test embedder: one bucket contribution per whitespace
/// token.
#[derive(Debug, Clone, Copy, PartialEq, Eq, Structural)]
pub struct FakeEmbedder {
    pub dim: usize,
}

/// The contribution of token number `i` with hash `h` into `dim` buckets:
/// the bucket index, the magnitude numerator (the hash's upper half), and
/// the ordinal nudge `i % 3`.
pub open spec fn bucket_of(h: u64, dim: nat) -> nat {
    (h as nat) % dim
}

impl FakeEmbedder {
    pub fn new(dim: usize) -> (r: FakeEmbedder)
        requires
            dim >= 1,
        ensures
            r.dim == dim,
    {
        FakeEmbedder { dim }
    }

    pub fn dim(&self) -> (r: usize)
        ensures
            r == self.dim,
    {
        self.dim
    }

    pub fn max_len(&self) -> (r: usize)
        ensures
            r == 256,
    {
        256
    }

    /// The bucket contributions of one text, token by token: for token `i`,
    /// the stable 64-bit hash `h` of the token picks bucket `h % dim`, its
    /// upper half is the magnitude numerator, and `i % 3` the ordinal nudge.
    pub fn token_buckets(&self, text: &str) -> (r: Vec<(usize, u32, u8)>)
        requires
            self.dim >= 1,
        ensures
            r@.len() == words_of(text@).len(),
            forall|i: int|
                0 <= i < r@.len() ==> {
                    &&& (#[trigger] r@[i]).0 as nat == bucket_of(
                        xx64_of(words_of(text@)[i]),
                        self.dim as nat,
                    )
                    &&& r@[i].1 == (xx64_of(words_of(text@)[i]) >> 32) as u32
                    &&& r@[i].2 == (i % 3) as u8
                },
    {
        let words = split_words(text);
        let mut r: Vec<(usize, u32, u8)> = Vec::new();
        let mut i: usize = 0;
        while i < words.len()
            invariant
                0 <= i <= words@.len(),
                self.dim >= 1,
                views_of(words@) == words_of(text@),
                r@.len() == i,
                forall|t: int|
                    0 <= t < i ==> {
                        &&& (#[trigger] r@[t]).0 as nat == bucket_of(
                            xx64_of(words_of(text@)[t]),
                            self.dim as nat,
                        )
                        &&& r@[t].1 == (xx64_of(words_of(text@)[t]) >> 32) as u32
                        &&& r@[t].2 == (t % 3) as u8
                    },
            decreases words@.len() - i,
        {
            let h = token_hash64(words[i].as_str());
            let idx = (h % (self.dim as u64)) as usize;
            let hi = (h >> 32) as u32;
            let ord = (i % 3) as u8;
            r.push((idx, hi, ord));
            i = i + 1;
        }
        r
    }

    /// The bucket contributions of each text of a batch, in order.
    pub fn token_buckets_batch(&self, texts: &Vec<String>) -> (r: Vec<Vec<(usize, u32, u8)>>)
        requires
            self.dim >= 1,
        ensures
            r@.len() == texts@.len(),
            forall|b: int|
                0 <= b < r@.len() ==> {
                    &&& (#[trigger] r@[b])@.len() == words_of(texts@[b]@).len()
                    &&& forall|i: int|
                        0 <= i < r@[b]@.len() ==> {
                            &&& (#[trigger] r@[b]@[i]).0 as nat == bucket_of(
                                xx64_of(words_of(texts@[b]@)[i]),
                                self.dim as nat,
                            )
                            &&& r@[b]@[i].1 == (xx64_of(words_of(texts@[b]@)[i]) >> 32) as u32
                            &&& r@[b]@[i].2 == (i % 3) as u8
                        }
                },
    {
        let mut r: Vec<Vec<(usize, u32, u8)>> = Vec::new();
        let mut b: usize = 0;
        while b < texts.len()
            invariant
                0 <= b <= texts@.len(),
                self.dim >= 1,
                r@.len() == b,
                forall|t: int|
                    0 <= t < b ==> {
                        &&& (#[trigger] r@[t])@.len() == words_of(texts@[t]@).len()
                        &&& forall|i: int|
                            0 <= i < r@[t]@.len() ==> {
                                &&& (#[trigger] r@[t]@[i]).0 as nat == bucket_of(
                                    xx64_of(words_of(texts@[t]@)[i]),
                                    self.dim as nat,
                                )
                                &&& r@[t]@[i].1 == (xx64_of(words_of(texts@[t]@)[i]) >> 32) as u32
                                &&& r@[t]@[i].2 == (i % 3) as u8
                            }
                    },
            decreases texts@.len() - b,
        {
            let buckets = self.token_buckets(texts[b].as_str());
            r.push(buckets);
            b = b + 1;
        }
        r
    }
}

/// The bucketing is a pure function of the batch: any two results meeting
/// its contract for the same inputs are element-wise equal.
pub proof fn lemma_fake_buckets_deterministic(
    texts: Seq<String>,
    dim: nat,
    r1: Seq<Vec<(usize, u32, u8)>>,
    r2: Seq<Vec<(usize, u32, u8)>>,
)
    requires
        dim >= 1,
        r1.len() == texts.len(),
        r2.len() == texts.len(),
        forall|b: int|
            0 <= b < texts.len() ==> {
                &&& (#[trigger] r1[b])@.len() == words_of(texts[b]@).len()
                &&& forall|i: int|
                    0 <= i < r1[b]@.len() ==> {
                        &&& (#[trigger] r1[b]@[i]).0 as nat == bucket_of(
                            xx64_of(words_of(texts[b]@)[i]),
                            dim,
                        )
                        &&& r1[b]@[i].1 == (xx64_of(words_of(texts[b]@)[i]) >> 32) as u32
                        &&& r1[b]@[i].2 == (i % 3) as u8
                    }
            },
        forall|b: int|
            0 <= b < texts.len() ==> {
                &&& (#[trigger] r2[b])@.len() == words_of(texts[b]@).len()
                &&& forall|i: int|
                    0 <= i < r2[b]@.len() ==> {
                        &&& (#[trigger] r2[b]@[i]).0 as nat == bucket_of(
                            xx64_of(words_of(texts[b]@)[i]),
                            dim,
                        )
                        &&& r2[b]@[i].1 == (xx64_of(words_of(texts[b]@)[i]) >> 32) as u32
                        &&& r2[b]@[i].2 == (i % 3) as u8
                    }
            },
    ensures
        forall|b: int| 0 <= b < texts.len() ==> (#[trigger] r1[b])@ =~= (#[trigger] r2[b])@,
{
    assert forall|b: int| 0 <= b < texts.len() implies (#[trigger] r1[b])@ =~= (#[trigger] r2[b])@
        by {
        assert forall|i: int| 0 <= i < r1[b]@.len() implies (#[trigger] r1[b]@[i])
            == r2[b]@[i] by {
            assert(r1[b]@[i].0 as nat == r2[b]@[i].0 as nat);
            assert(r1[b]@[i].0 == r2[b]@[i].0);
            assert(r1[b]@[i].1 == r2[b]@[i].1);
            assert(r1[b]@[i].2 == r2[b]@[i].2);
        }
    }
}

/// A provider built from a local embedder, under a stable id of the form
/// `local:{model}:d{dim}` that carries the model identity and the
/// dimensionality the provider reports.
pub struct LocalProvider<E: Embedder> {
    pub inner: E,
    pub id: String,
    pub dim: usize,
}

impl<E: Embedder> LocalProvider<E> {
    /// Wrap a loaded embedder under its provider id. The id renders exactly
    /// the given dimensionality, and the provider reports that same value, so
    /// two providers of different dimensionality carry different ids.
    pub fn new(inner: E, model_name: &str, dim: usize) -> (r: LocalProvider<E>)
        ensures
            r.id@ == "local:"@ + model_name@ + ":d"@ + dec_of(dim as nat),
            r.dim == dim,
    {
        let mut id = String::from_str("local:");
        id.append(model_name);
        id.append(":d");
        let ds = usize_to_string(dim);
        id.append(ds.as_str());
        LocalProvider { inner, id, dim }
    }
}

impl<E: Embedder> EmbedProvider for LocalProvider<E> {
    fn embedder_id(&self) -> String {
        self.id.clone()
    }

    fn dim(&self) -> usize {
        self.dim
    }

    fn max_len(&self) -> usize {
        self.inner.max_len()
    }

    fn embed_batch(&self, texts: &Vec<String>) -> Result<Vec<Vec<u32>>, String> {
        self.inner.embed_batch(texts)
    }
}

} // verus!
