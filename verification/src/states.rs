use vstd::prelude::*;
use vstd::arithmetic::power2::{pow2, lemma_pow2_pos};
use vstd::bits::{lemma_usize_pow2_no_overflow, lemma_usize_shl_is_mul};
use crate::complex::{cadd, cmul, prod_of, sum_of, C64};
use crate::indexing::{get_size, total_bits, wf_layout};

verus! {

/// The standard initial state: amplitude one on the configuration with all
/// modes empty, zero everywhere else.
pub fn init_std(all_encodings: &[usize]) -> (r: Vec<C64>)
    requires
        wf_layout(all_encodings@),
    ensures
        r@.len() == pow2(total_bits(all_encodings@)),
        r@[0] == C64::spec_one(),
        forall|i: int| 1 <= i < r@.len() ==> r@[i] == C64::spec_zero(),
{
    proof {
        lemma_usize_pow2_no_overflow(total_bits(all_encodings@));
        lemma_pow2_pos(total_bits(all_encodings@));
    }
    let size_bits = get_size(all_encodings);
    proof {
        lemma_usize_shl_is_mul(1usize, size_bits);
    }
    let size = 1usize << size_bits;
    let mut state: Vec<C64> = Vec::with_capacity(size);
    state.push(C64::one());
    let mut i: usize = 1;
    while i < size
        invariant
            1 <= i <= size,
            state@.len() == i,
            state@[0] == C64::spec_one(),
            forall|j: int| 1 <= j < i ==> state@[j] == C64::spec_zero(),
        decreases size - i,
    {
        state.push(C64::zero());
        i += 1;
    }
    state
}

/// A state vector of the layout's full length with every amplitude zero.
pub fn init_zero(all_encodings: &[usize]) -> (r: Vec<C64>)
    requires
        wf_layout(all_encodings@),
    ensures
        r@.len() == pow2(total_bits(all_encodings@)),
        forall|i: int| 0 <= i < r@.len() ==> r@[i] == C64::spec_zero(),
{
    proof {
        lemma_usize_pow2_no_overflow(total_bits(all_encodings@));
        lemma_pow2_pos(total_bits(all_encodings@));
    }
    let size_bits = get_size(all_encodings);
    proof {
        lemma_usize_shl_is_mul(1usize, size_bits);
    }
    let size = 1usize << size_bits;
    let mut state: Vec<C64> = Vec::with_capacity(size);
    let mut i: usize = 0;
    while i < size
        invariant
            i <= size,
            state@.len() == i,
            forall|j: int| 0 <= j < i ==> state@[j] == C64::spec_zero(),
        decreases size - i,
    {
        state.push(C64::zero());
        i += 1;
    }
    state
}

/// Overwrites every amplitude with zero.
pub fn set2zero(state: &mut Vec<C64>)
    ensures
        final(state)@.len() == old(state)@.len(),
        forall|i: int| 0 <= i < final(state)@.len() ==> final(state)@[i] == C64::spec_zero(),
{
    let n = state.len();
    let mut i: usize = 0;
    while i < n
        invariant
            i <= n,
            state@.len() == n,
            forall|j: int| 0 <= j < i ==> state@[j] == C64::spec_zero(),
        decreases n - i,
    {
        state[i] = C64::zero();
        i += 1;
    }
}

/// Adds `delta` times the source into the destination, entry by entry:
/// each new amplitude is the old one plus the source amplitude times
/// `delta`.
pub fn add_inplace(dst: &mut Vec<C64>, src: &Vec<C64>, delta: C64)
    requires
        old(dst)@.len() == src@.len(),
    ensures
        final(dst)@.len() == old(dst)@.len(),
        forall|i: int|
            0 <= i < final(dst)@.len() ==> final(dst)@[i] == sum_of(
                old(dst)@[i],
                prod_of(src@[i], delta),
            ),
{
    let n = dst.len();
    let mut i: usize = 0;
    while i < n
        invariant
            i <= n,
            dst@.len() == n,
            src@.len() == n,
            forall|j: int|
                0 <= j < i ==> dst@[j] == sum_of(old(dst)@[j], prod_of(src@[j], delta)),
            forall|j: int| i <= j < n ==> dst@[j] == old(dst)@[j],
        decreases n - i,
    {
        dst[i] = cadd(dst[i], cmul(src[i], delta));
        i += 1;
    }
}

/// Copies the source amplitudes over the destination.
pub fn state_cpy(dst: &mut Vec<C64>, src: &Vec<C64>)
    requires
        old(dst)@.len() == src@.len(),
    ensures
        final(dst)@ == src@,
{
    let n = dst.len();
    let mut i: usize = 0;
    while i < n
        invariant
            i <= n,
            dst@.len() == n,
            src@.len() == n,
            forall|j: int| 0 <= j < i ==> dst@[j] == src@[j],
        decreases n - i,
    {
        dst[i] = src[i];
        i += 1;
    }
    proof {
        assert(dst@ =~= src@);
    }
}

} // verus!
