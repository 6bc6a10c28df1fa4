//! IVF-PQ parameter sizing.
//!
//! The partition count follows a square-root heuristic clamped for tiny
//! datasets, the sub-vector count must divide the embedding dimensionality,
//! and the per-sub-vector code width is fixed at eight bits.

use vstd::prelude::*;

verus! {

/// Parameters of one IVF-PQ index build.
#[derive(Debug, Clone, Copy, PartialEq, Eq, Structural)]
pub struct IvfPqParams {
    pub nlist: usize,
    pub m: usize,
    pub nbits: usize,
}

/// `r` is the integer square root of `n`.
pub open spec fn is_floor_sqrt(n: nat, r: nat) -> bool {
    r * r <= n && n < (r + 1) * (r + 1)
}

/// The partition count mandated for `total_ready` vectors: 1 for at most one
/// vector, otherwise `max(2048, 2 * floor(sqrt(N)))` clamped to
/// `min(65536, N - 1)`.
pub open spec fn spec_nlist(total_ready: nat, sqrt_n: nat) -> nat {
    if total_ready <= 1 {
        1
    } else {
        let base = if 2 * sqrt_n > 2048 {
            2 * sqrt_n
        } else {
            2048
        };
        let capped = if base > 65536 {
            65536
        } else {
            base
        };
        if capped > total_ready - 1 {
            (total_ready - 1) as nat
        } else {
            capped
        }
    }
}

/// The default sub-vector count for dimensionality `dim`.
pub open spec fn spec_default_m(dim: nat) -> nat {
    if dim >= 1024 {
        32
    } else {
        16
    }
}

/// Integer square root.
pub fn isqrt(n: u64) -> (r: u64)
    ensures
        is_floor_sqrt(n as nat, r as nat),
{
    let mut lo: u64 = 0;
    let mut hi: u64 = 4294967296u64;
    proof {
        assert((hi * hi) as int > n as int) by (nonlinear_arith)
            requires
                hi == 4294967296u64,
                n <= u64::MAX,
        ;
    }
    // Invariant: lo*lo <= n < hi*hi; answer in [lo, hi).
    while lo + 1 < hi
        invariant
            lo < hi,
            hi <= 4294967296u64,
            (lo * lo) as nat <= n as nat,
            (n as nat) < (hi * hi) as nat,
        decreases hi - lo,
    {
        let mid: u64 = lo + (hi - lo) / 2;
        proof {
            assert(mid * mid <= u64::MAX) by (nonlinear_arith)
                requires
                    mid < 4294967296u64,
            ;
        }
        if mid * mid <= n {
            lo = mid;
        } else {
            hi = mid;
        }
    }
    lo
}

/// Size IVF-PQ parameters for `total_ready` indexed vectors of dimensionality
/// `dim`. The sub-vector count is the largest divisor of `dim` that does not
/// exceed the default for that dimensionality.
pub fn compute_ivfpq_params(total_ready: usize, dim: usize) -> (r: IvfPqParams)
    requires
        dim >= 1,
    ensures
        exists|s: nat|
            is_floor_sqrt(total_ready as nat, s) && r.nlist as nat == spec_nlist(
                total_ready as nat,
                s,
            ),
        r.m as nat <= spec_default_m(dim as nat),
        dim as nat % r.m as nat == 0,
        forall|d: nat|
            (r.m as nat) < d && d <= spec_default_m(dim as nat) ==> #[trigger] (dim as nat % d) != 0,
        r.nbits == 8,
        1 <= r.nlist <= 65536,
        total_ready > 1 ==> r.nlist < total_ready,
    {
    let sqrt_n = isqrt(total_ready as u64);
    let ghost s = sqrt_n as nat;
    let nlist: usize = if total_ready <= 1 {
        1
    } else {
        proof {
            assert(sqrt_n < 4294967296u64) by (nonlinear_arith)
                requires
                    (sqrt_n * sqrt_n) as nat <= total_ready as nat,
                    total_ready <= u64::MAX,
            ;
        }
        let doubled: u64 = 2 * sqrt_n;
        let base: u64 = if doubled > 2048 {
            doubled
        } else {
            2048
        };
        let capped: u64 = if base > 65536 {
            65536
        } else {
            base
        };
        let bound: u64 = (total_ready - 1) as u64;
        if capped > bound {
            bound as usize
        } else {
            capped as usize
        }
    };
    let default_m: usize = if dim >= 1024 {
        32
    } else {
        16
    };
    let mut m: usize = default_m;
    while dim % m != 0
        invariant
            1 <= m <= default_m,
            dim >= 1,
            default_m as nat == spec_default_m(dim as nat),
            forall|d: nat| (m as nat) < d && d <= default_m as nat ==> #[trigger] (dim as nat % d) != 0,
        decreases m,
    {
        m = m - 1;
        assert(m >= 1) by {
            assert(dim as nat % 1nat == 0);
        }
    }
    proof {
        assert(is_floor_sqrt(total_ready as nat, s) && nlist as nat == spec_nlist(
            total_ready as nat,
            s,
        ));
    }
    IvfPqParams { nlist, m, nbits: 8 }
}

} // verus!
