use vstd::prelude::*;
use vstd::arithmetic::power2::pow2;
use crate::complex::{cadd, cmul, prod_of, sum_of, C64};
use crate::indexing::{
    get_size, lemma_entries_bits_eq_selected, lemma_mode_bits_in_range,
    lemma_operator_index_fold_below, lemma_selected_le_prefix, masks_and_offsets,
    masks_and_shifts_ok, mode_mask, mode_shift, operator_index_fold, get_operator_index,
    positions_sorted, prefix_bits, selected_bits, total_bits, wf_layout, wf_positions,
};
use crate::terms::{
    diag_operands, get_diagonal, get_global_offset, global_offset, lemma_diag_lens_product,
    tp_partial, Term,
};
use vstd::bits::{lemma_usize_pow2_no_overflow, lemma_usize_shl_is_mul};

verus! {

/// The masks of the term's modes, entry by entry, as `masks_and_offsets`
/// returns them.
pub open spec fn mode_masks(all_encodings: Seq<usize>, positions: Seq<usize>) -> Seq<usize> {
    Seq::new(positions.len(), |i: int| mode_mask(all_encodings, positions[i]) as usize)
}

/// The downward shifts of the term's modes, entry by entry.
pub open spec fn mode_shifts(all_encodings: Seq<usize>, positions: Seq<usize>) -> Seq<usize> {
    Seq::new(positions.len(), |i: int| mode_shift(all_encodings, positions, positions[i]) as usize)
}

/// What one sweep of the operator kernel leaves at global index `y`: where
/// a source index `x = y + offset` exists, the old amplitude plus
/// `delta` times the term's diagonal coefficient at the packed index of
/// `x` times the source amplitude at `x`; elsewhere the old amplitude.
pub open spec fn applied_entry<const N: usize>(
    dst: Seq<C64>,
    src: Seq<C64>,
    term: Term<N>,
    all_encodings: Seq<usize>,
    delta: C64,
    y: int,
) -> C64 {
    let x = y + global_offset(term, all_encodings);
    if 0 <= x < src.len() {
        let oi = operator_index_fold(
            x as usize,
            mode_shifts(all_encodings, term.positions@),
            mode_masks(all_encodings, term.positions@),
            N as int,
        );
        sum_of(
            dst[y],
            prod_of(
                prod_of(
                    delta,
                    tp_partial(diag_operands(term, all_encodings), oi as int, N as int),
                ),
                src[x],
            ),
        )
    } else {
        dst[y]
    }
}

/// The whole destination vector after one sweep of the operator kernel.
pub open spec fn applied_seq<const N: usize>(
    dst: Seq<C64>,
    src: Seq<C64>,
    term: Term<N>,
    all_encodings: Seq<usize>,
    delta: C64,
) -> Seq<C64> {
    Seq::new(dst.len(), |y: int| applied_entry(dst, src, term, all_encodings, delta, y))
}

/// Applies one tensor-product term to the state vector `src`, scaled by
/// `delta`, accumulating into `dst`: a banded update along the term's
/// global offset, with the term's diagonal coefficient picked by the
/// packed operator index of each source index.
pub fn apply_term<const N: usize>(
    dst: &mut Vec<C64>,
    src: &Vec<C64>,
    term: &Term<N>,
    all_encodings: &[usize],
    delta: C64,
)
    requires
        wf_layout(all_encodings@),
        wf_positions(term.positions@, all_encodings@.len() as nat),
        positions_sorted(term.positions@),
        old(dst)@.len() == pow2(total_bits(all_encodings@)),
        src@.len() == pow2(total_bits(all_encodings@)),
    ensures
        final(dst)@.len() == old(dst)@.len(),
        forall|y: int|
            0 <= y < final(dst)@.len() ==> final(dst)@[y] == applied_entry(
                old(dst)@,
                src@,
                *term,
                all_encodings@,
                delta,
                y,
            ),
{
    proof {
        lemma_usize_pow2_no_overflow(total_bits(all_encodings@));
    }
    let size_bits = get_size(all_encodings);
    proof {
        lemma_usize_shl_is_mul(1usize, size_bits);
    }
    let size = 1usize << size_bits;
    let (masks, shifts) = masks_and_offsets(all_encodings, &term.positions);
    proof {
        assert(masks@ =~= mode_masks(all_encodings@, term.positions@));
        assert(shifts@ =~= mode_shifts(all_encodings@, term.positions@));
        assert forall|i: int| 0 <= i < N implies shifts@[i] < usize::BITS by {
            let p = term.positions@[i];
            lemma_mode_bits_in_range(all_encodings@, p);
            lemma_selected_le_prefix(all_encodings@, term.positions@, p as int);
            assert(shifts@[i] as nat == mode_shift(all_encodings@, term.positions@, p));
            assert(mode_shift(all_encodings@, term.positions@, p) <= prefix_bits(
                all_encodings@,
                p as int,
            ));
        }
        lemma_diag_lens_product(*term, all_encodings@, N as int);
        lemma_entries_bits_eq_selected(all_encodings@, term.positions@);
        lemma_selected_le_prefix(all_encodings@, term.positions@, all_encodings@.len() as int);
    }
    let (diagonal, _) = get_diagonal(term, all_encodings);
    let offset = get_global_offset(term, all_encodings);
    let ghost off_int = offset as int;
    if offset >= 0 {
        let off = offset as usize;
        let mut x = off;
        while x < size
            invariant
                wf_layout(all_encodings@),
                wf_positions(term.positions@, all_encodings@.len() as nat),
                masks_and_shifts_ok(all_encodings@, term.positions@, masks@, shifts@),
                masks@ == mode_masks(all_encodings@, term.positions@),
                shifts@ == mode_shifts(all_encodings@, term.positions@),
                forall|i: int| 0 <= i < N ==> shifts@[i] < usize::BITS,
                size as nat == pow2(total_bits(all_encodings@)),
                dst@.len() == size,
                src@.len() == size,
                diagonal@.len() == pow2(selected_bits(all_encodings@, term.positions@)),
                forall|oi: int|
                    0 <= oi < diagonal@.len() ==> diagonal@[oi] == tp_partial(
                        diag_operands(*term, all_encodings@),
                        oi,
                        N as int,
                    ),
                off_int == global_offset(*term, all_encodings@),
                off as int == off_int,
                0 <= off_int && off_int < size as int,
                off <= x <= size,
                forall|y: int|
                    0 <= y < x - off ==> dst@[y] == applied_entry(
                        old(dst)@,
                        src@,
                        *term,
                        all_encodings@,
                        delta,
                        y,
                    ),
                forall|y: int| x - off <= y < size ==> dst@[y] == old(dst)@[y],
            decreases size - x,
        {
            let oi = get_operator_index(x, &shifts, &masks);
            proof {
                lemma_operator_index_fold_below(
                    all_encodings@,
                    term.positions@,
                    masks@,
                    shifts@,
                    x,
                    N as int,
                );
            }
            let y = x - off;
            dst[y] = cadd(dst[y], cmul(cmul(delta, diagonal[oi]), src[x]));
            x += 1;
        }
    } else {
        proof {
            crate::terms::lemma_pow2_fits_isize(total_bits(all_encodings@));
        }
        let off = (-offset) as usize;
        proof {
            assert(0 < off as int && (off as int) < size as int);
        }
        let mut x: usize = 0;
        while x < size - off
            invariant
                wf_layout(all_encodings@),
                wf_positions(term.positions@, all_encodings@.len() as nat),
                masks_and_shifts_ok(all_encodings@, term.positions@, masks@, shifts@),
                masks@ == mode_masks(all_encodings@, term.positions@),
                shifts@ == mode_shifts(all_encodings@, term.positions@),
                forall|i: int| 0 <= i < N ==> shifts@[i] < usize::BITS,
                size as nat == pow2(total_bits(all_encodings@)),
                dst@.len() == size,
                src@.len() == size,
                diagonal@.len() == pow2(selected_bits(all_encodings@, term.positions@)),
                forall|oi: int|
                    0 <= oi < diagonal@.len() ==> diagonal@[oi] == tp_partial(
                        diag_operands(*term, all_encodings@),
                        oi,
                        N as int,
                    ),
                off_int == global_offset(*term, all_encodings@),
                off as int == -off_int,
                0 < off as int && (off as int) < size as int,
                x <= size - off,
                forall|y: int|
                    off as int <= y < x + off ==> dst@[y] == applied_entry(
                        old(dst)@,
                        src@,
                        *term,
                        all_encodings@,
                        delta,
                        y,
                    ),
                forall|y: int|
                    (0 <= y < off || x + off <= y < size) ==> dst@[y] == old(dst)@[y],
            decreases size - off - x,
        {
            let oi = get_operator_index(x, &shifts, &masks);
            proof {
                lemma_operator_index_fold_below(
                    all_encodings@,
                    term.positions@,
                    masks@,
                    shifts@,
                    x,
                    N as int,
                );
            }
            let y = x + off;
            dst[y] = cadd(dst[y], cmul(cmul(delta, diagonal[oi]), src[x]));
            x += 1;
        }
    }
}

} // verus!
