//! Per-chunk dispatch sizing: how many workgroups to launch and how many
//! bytes each thread scans. Recomputed for every chunk, since the final
//! chunk of a stream is short. The workgroup count is capped by the
//! device-imposed maximum; the per-thread span is then chosen so that the
//! launched threads cover the whole chunk.

use vstd::arithmetic::div_mod::lemma_fundamental_div_mod;
use vstd::arithmetic::mul::lemma_mul_inequality;
use vstd::arithmetic::mul::lemma_mul_upper_bound;
use vstd::prelude::*;

verus! {

/// The parameters of one chunk's kernel dispatch.
pub struct DispatchParams {
    /// Number of bytes in the chunk.
    pub data_len: u32,
    /// Bytes scanned by each thread.
    pub chunk_size: u32,
    /// Workgroups launched.
    pub n_workgroups: u32,
    /// Threads per workgroup, fixed by the kernel build.
    pub threads_per_workgroup: u32,
}

impl DispatchParams {
    /// Threads launched in all.
    pub open spec fn total_threads(self) -> int {
        self.n_workgroups as int * self.threads_per_workgroup as int
    }

    /// The launched threads cover every byte of the chunk.
    pub open spec fn covers(self) -> bool {
        &&& self.chunk_size >= 1
        &&& self.n_workgroups >= 1
        &&& self.threads_per_workgroup >= 1
        &&& self.total_threads() * self.chunk_size >= self.data_len
    }
}

/// Sizes one chunk's dispatch: as many workgroups as the data suggests, at
/// most the device maximum, and a per-thread span that makes the launched
/// threads cover the chunk.
pub fn compute_dispatch(data_len: u32, threads_per_workgroup: u32, max_workgroups: u32) -> (p:
    DispatchParams)
    requires
        threads_per_workgroup >= 1,
        max_workgroups >= 1,
        data_len < u32::MAX,
    ensures
        p.data_len == data_len,
        p.threads_per_workgroup == threads_per_workgroup,
        p.n_workgroups == vstd::math::min(
            1 + data_len as int / threads_per_workgroup as int,
            max_workgroups as int,
        ),
        p.chunk_size == data_len as int / p.total_threads() + 1,
        p.covers(),
        p.total_threads() <= data_len + threads_per_workgroup,
        p.total_threads() * p.chunk_size <= 2 * data_len + threads_per_workgroup,
{
    let dl = data_len as u64;
    let tpw = threads_per_workgroup as u64;
    let cand = 1 + dl / tpw;
    let n: u64 = if cand < max_workgroups as u64 {
        cand
    } else {
        max_workgroups as u64
    };
    proof {
        lemma_mul_upper_bound(n as int, u32::MAX as int, tpw as int, u32::MAX as int);
    }
    let nt = n * tpw;
    proof {
        lemma_fundamental_div_mod(dl as int, tpw as int);
        assert((1 + dl as int / tpw as int) * tpw as int == tpw as int + (dl as int / tpw as int)
            * tpw as int) by (nonlinear_arith);
        assert((dl as int / tpw as int) * tpw as int <= dl as int);
        lemma_mul_inequality(n as int, 1 + dl as int / tpw as int, tpw as int);
        assert(nt as int >= 1) by (nonlinear_arith)
            requires
                n >= 1,
                tpw >= 1,
                nt == n * tpw,
        ;
    }
    let cs = dl / nt + 1;
    proof {
        lemma_fundamental_div_mod(dl as int, nt as int);
        assert(nt as int * (dl as int / nt as int + 1) == nt as int * (dl as int / nt as int)
            + nt as int) by (nonlinear_arith);
        assert(cs as int * nt as int == nt as int * (dl as int / nt as int + 1))
            by (nonlinear_arith)
            requires
                cs == dl / nt + 1,
        ;
    }
    DispatchParams {
        data_len,
        chunk_size: cs as u32,
        n_workgroups: n as u32,
        threads_per_workgroup,
    }
}

} // verus!
