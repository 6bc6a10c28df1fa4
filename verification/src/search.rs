//! Vector search post-processing: mapping raw ANN similarities into the unit
//! range and keeping the best `k`, ranked.
//!
//! Scores are order-preserving unsigned encodings of engine scores (see
//! [`crate::types::SearchHit`]); for engines scoring with IEEE
//! single-precision floats the encoding is the raw bit pattern, whose
//! unsigned order equals the float order on non-negative values, while any
//! pattern with the sign bit set encodes a negative value.

use crate::types::SearchHit;
use crate::types::SourceKind;
use vstd::prelude::*;

verus! {

broadcast use vstd::seq_lib::group_to_multiset_ensures;

/// The encoding of the greatest admissible similarity (the bit pattern of
/// one).
pub const UNIT_SCORE_BITS: u32 = 0x3F800000;

/// The encoding of the least admissible similarity (the bit pattern of
/// zero).
pub const ZERO_SCORE_BITS: u32 = 0;

/// `b` clamped into the unit interval: encodings of negative values (sign
/// bit set) fall to zero, encodings above one fall to one.
pub open spec fn clamped_unit(b: u32) -> u32 {
    if b >= 0x80000000u32 {
        ZERO_SCORE_BITS
    } else if b > UNIT_SCORE_BITS {
        UNIT_SCORE_BITS
    } else {
        b
    }
}

/// Clamp one similarity encoding into the unit range.
pub fn clamp_unit_score(b: u32) -> (r: u32)
    ensures
        r == clamped_unit(b),
        ZERO_SCORE_BITS <= r <= UNIT_SCORE_BITS,
{
    if b >= 0x80000000u32 {
        ZERO_SCORE_BITS
    } else if b > UNIT_SCORE_BITS {
        UNIT_SCORE_BITS
    } else {
        b
    }
}

/// The ANN pre-limit: the reranking factor widens the probe so a later cut
/// back to `k` has candidates to choose from; the probe never asks for fewer
/// than `k`.
pub fn ann_prelimit(k: usize, factor: usize) -> (r: usize)
    requires
        (k as nat) * (factor as nat) <= usize::MAX,
    ensures
        r as nat == (if (k as nat) * (factor as nat) >= k as nat {
            (k as nat) * (factor as nat)
        } else {
            k as nat
        }),
        r >= k,
{
    proof {
        assert((k as nat) * (factor as nat) >= k as nat || factor == 0) by (nonlinear_arith);
    }
    let widened = k * factor;
    if widened >= k {
        widened
    } else {
        k
    }
}

/// `h` reports one of the raw results, with its similarity clamped into the
/// unit range.
pub open spec fn from_raw(raw: Seq<(String, u32)>, h: SearchHit) -> bool {
    exists|j: int|
        0 <= j < raw.len() && h.id == (#[trigger] raw[j]).0 && h.score == clamped_unit(raw[j].1)
}

/// The raw result at position `j` is reported by some returned hit, id and
/// clamped similarity alike.
pub open spec fn reported(r: Seq<SearchHit>, raw: Seq<(String, u32)>, j: int) -> bool {
    exists|i: int|
        0 <= i < r.len() && (#[trigger] r[i]).id == raw[j].0 && r[i].score == clamped_unit(
            raw[j].1,
        )
}

/// Hits ranked by score, best first.
pub open spec fn sorted_desc(s: Seq<SearchHit>) -> bool {
    forall|i: int, j: int| 0 <= i <= j < s.len() ==> s[i].score >= s[j].score
}

/// Selection sort, best score first; keeps exactly the given hits.
pub fn sort_hits_desc(hits: Vec<SearchHit>) -> (r: Vec<SearchHit>)
    ensures
        sorted_desc(r@),
        r@.to_multiset() == hits@.to_multiset(),
        r@.len() == hits@.len(),
{
    let mut rest = hits;
    let mut out: Vec<SearchHit> = Vec::new();
    let ghost orig = rest@.to_multiset();
    while rest.len() > 0
        invariant
            out@.to_multiset().add(rest@.to_multiset()) =~= orig,
            out@.len() + rest@.len() == orig.len(),
            sorted_desc(out@),
            forall|t: int, u: int|
                0 <= t < out@.len() && 0 <= u < rest@.len() ==> out@[t].score >= rest@[u].score,
        decreases rest@.len(),
    {
        // Position of a maximal score in the remainder.
        let mut best: usize = 0;
        let mut p: usize = 1;
        while p < rest.len()
            invariant
                0 <= best < rest@.len(),
                best < p <= rest@.len(),
                forall|u: int| 0 <= u < p ==> rest@[u].score <= rest@[best as int].score,
            decreases rest@.len() - p,
        {
            if rest[p].score > rest[best].score {
                best = p;
            }
            p = p + 1;
        }
        let ghost pre_out = out@;
        let ghost pre_rest = rest@;
        let picked = rest.remove(best);
        out.push(picked);
        proof {
            assert(pre_rest[best as int] == picked);
            assert(pre_out.push(picked).to_multiset() =~= pre_out.to_multiset().insert(picked));
            assert(pre_rest.remove(best as int).to_multiset() =~= pre_rest.to_multiset().remove(
                pre_rest[best as int],
            ));
            assert(pre_rest.to_multiset().count(picked) > 0);
            assert(out@.to_multiset().add(rest@.to_multiset()) =~= orig);
            assert forall|t: int, u: int|
                0 <= t < out@.len() && 0 <= u < rest@.len() implies out@[t].score
                >= rest@[u].score by {
                if u < best {
                    assert(rest@[u] == pre_rest[u]);
                } else {
                    assert(rest@[u] == pre_rest[u + 1]);
                }
                if t < pre_out.len() {
                    assert(out@[t] == pre_out[t]);
                } else {
                    assert(out@[t] == picked);
                }
            }
        }
    }
    out
}

/// Rank raw ANN results: clamp each similarity encoding into the unit range,
/// order by score, keep the best `k`, and label them as vector hits. Every
/// returned similarity lies in the unit range.
pub fn top_k_hits(raw: Vec<(String, u32)>, k: usize) -> (r: Vec<SearchHit>)
    ensures
        r@.len() == (if k <= raw@.len() {
            k as nat
        } else {
            raw@.len()
        }),
        sorted_desc(r@),
        forall|i: int|
            0 <= i < r@.len() ==> (#[trigger] r@[i]).source == SourceKind::Vector
                && ZERO_SCORE_BITS <= r@[i].score <= UNIT_SCORE_BITS,
        forall|i: int| 0 <= i < r@.len() ==> from_raw(raw@, #[trigger] r@[i]),
        forall|j: int|
            0 <= j < raw@.len() && r@.len() >= 1 && clamped_unit((#[trigger] raw@[j]).1)
                > r@[r@.len() - 1].score ==> reported(r@, raw@, j),
{
    let ghost raw0 = raw@;
    let mut pending = raw;
    let mut hits: Vec<SearchHit> = Vec::new();
    while pending.len() > 0
        invariant
            hits@.len() + pending@.len() == raw0.len(),
            forall|t: int| 0 <= t < pending@.len() ==> pending@[t] == raw0[hits@.len() + t],
            forall|t: int|
                0 <= t < hits@.len() ==> {
                    &&& (#[trigger] hits@[t]).id == raw0[t].0
                    &&& hits@[t].score == clamped_unit(raw0[t].1)
                    &&& hits@[t].source == SourceKind::Vector
                },
        decreases pending@.len(),
    {
        let (id, s) = pending.remove(0);
        let hit = SearchHit { id, score: clamp_unit_score(s), source: SourceKind::Vector };
        hits.push(hit);
    }
    let ghost hits0 = hits@;
    let mut sorted = sort_hits_desc(hits);
    proof {
        assert forall|a: int| 0 <= a < sorted@.len() implies ((#[trigger] sorted@[a]).source
            == SourceKind::Vector && ZERO_SCORE_BITS <= sorted@[a].score <= UNIT_SCORE_BITS
            && exists|j: int|
            0 <= j < raw0.len() && (#[trigger] sorted@[a]).id == (#[trigger] raw0[j]).0
                && sorted@[a].score == clamped_unit(raw0[j].1)) by {
            assert(sorted@.contains(sorted@[a]));
            assert(hits0.to_multiset().contains(sorted@[a]));
            assert(hits0.contains(sorted@[a]));
            let t = choose|t: int| 0 <= t < hits0.len() && hits0[t] == sorted@[a];
            assert(hits0[t].id == raw0[t].0 && hits0[t].score == clamped_unit(raw0[t].1));
        }
    }
    let keep: usize = if k <= sorted.len() {
        k
    } else {
        sorted.len()
    };
    let ghost full = sorted@;
    sorted.truncate(keep);
    proof {
        assert(sorted@ == full.take(keep as int));
        assert forall|i: int| 0 <= i < sorted@.len() implies exists|j: int|
            0 <= j < raw0.len() && (#[trigger] sorted@[i]).id == (#[trigger] raw0[j]).0
                && sorted@[i].score == clamped_unit(raw0[j].1) by {
            assert(sorted@[i] == full[i]);
            let j0 = choose|j: int|
                0 <= j < raw0.len() && (#[trigger] full[i]).id == (#[trigger] raw0[j]).0
                    && full[i].score == clamped_unit(raw0[j].1);
            assert(sorted@[i].id == raw0[j0].0 && sorted@[i].score == clamped_unit(raw0[j0].1));
        }
        assert(raw0 == raw@);
        assert forall|i: int| 0 <= i < sorted@.len() implies from_raw(
            raw@,
            #[trigger] sorted@[i],
        ) by {
            let j0 = choose|j: int|
                0 <= j < raw0.len() && sorted@[i].id == (#[trigger] raw0[j]).0 && sorted@[i].score
                    == clamped_unit(raw0[j].1);
            assert(0 <= j0 < raw@.len() && sorted@[i].id == raw@[j0].0 && sorted@[i].score
                == clamped_unit(raw@[j0].1));
        }
        assert forall|i: int|
            0 <= i < sorted@.len() implies (#[trigger] sorted@[i]).source == SourceKind::Vector
            && ZERO_SCORE_BITS <= sorted@[i].score <= UNIT_SCORE_BITS by {
            assert(sorted@[i] == full[i]);
        }
        // Nothing scoring above the cut is dropped: the clamped hit built
        // for such a raw result would rank inside the kept prefix.
        assert forall|j: int|
            0 <= j < raw0.len() && sorted@.len() >= 1 && clamped_unit(raw0[j].1)
                > sorted@[sorted@.len() - 1].score implies reported(sorted@, raw0, j) by {
            let v = hits0[j];
            assert(hits0.contains(v));
            assert(full.to_multiset().contains(v));
            assert(full.contains(v));
            let p = choose|p: int| 0 <= p < full.len() && full[p] == v;
            if p >= keep {
                assert(full[p].score <= full[keep - 1].score);
                assert(false);
            }
            assert(sorted@[p] == v);
        }
    }
    sorted
}

} // verus!
