use vstd::prelude::*;
use vstd::arithmetic::power2::{pow2, lemma_pow2_adds, lemma_pow2_pos};
use vstd::bits::{lemma_usize_pow2_no_overflow, lemma_usize_shl_is_mul};
use crate::bitfacts::{
    batch_mask_ok, bits_disjoint, dm_masks_and_shifts_ok, lemma_batch_index_fold_props,
    lemma_disjoint_or_is_sum, lemma_state_index_fold_props, stride_mask, zero_at_mode_fields,
};
use crate::complex::{cadd, cconj, cmul, conj_of, prod_of, sum_of, C64};
use crate::indexing::{
    batch_index_fold, complement_bits, density_matrix_shifts_and_masks,
    density_matrix_index_to_state_index, entries_bits, get_batch_index, get_batch_size,
    get_density_size, get_masks, get_strides, get_target_encodings,
    lemma_entries_bits_eq_selected, lemma_or_below, lemma_selected_le_prefix, mode_reduced_mask,
    mode_shift, positions_sorted, prefix_bits, selected_bits, state_index_fold, total_bits,
    wf_layout, wf_positions,
};
use crate::kernel::mode_shifts;

verus! {

/// The packed-side masks of the subset's modes, entry by entry.
pub open spec fn dm_mask_seq(all_encodings: Seq<usize>, positions: Seq<usize>) -> Seq<usize> {
    Seq::new(
        positions.len(),
        |i: int| mode_reduced_mask(all_encodings, positions, positions[i]) as usize,
    )
}

/// The batch-insertion masks of the subset's modes, entry by entry.
pub open spec fn batch_mask_seq(all_encodings: Seq<usize>, positions: Seq<usize>) -> Seq<usize> {
    Seq::new(positions.len(), |i: int| stride_mask(all_encodings, positions[i]))
}

/// The encodings of the subset's modes, entry by entry.
pub open spec fn sel_encoding_seq(all_encodings: Seq<usize>, positions: Seq<usize>) -> Seq<
    usize,
> {
    Seq::new(positions.len(), |i: int| all_encodings[positions[i] as int])
}

/// The global state index read for row or column `idx` of the density
/// matrix during batch item `b`: the scattered subset bits plus the
/// inserted batch bits.
pub open spec fn psi_index(
    all_encodings: Seq<usize>,
    positions: Seq<usize>,
    idx: int,
    b: int,
) -> int {
    state_index_fold(
        idx as usize,
        mode_shifts(all_encodings, positions),
        dm_mask_seq(all_encodings, positions),
        positions.len() as int,
    ) + batch_index_fold(
        b as usize,
        batch_mask_seq(all_encodings, positions),
        sel_encoding_seq(all_encodings, positions),
        positions.len() as int,
    )
}

/// The state amplitude read for row or column `idx` during batch item `b`.
pub open spec fn psi_at(
    src: Seq<C64>,
    all_encodings: Seq<usize>,
    positions: Seq<usize>,
    idx: int,
    b: int,
) -> C64 {
    src[psi_index(all_encodings, positions, idx, b)]
}

/// One entry of the reduced density matrix after the first `batches` batch
/// items: the accumulated products of the conjugated row amplitude with
/// the column amplitude.
pub open spec fn density_cell(
    src: Seq<C64>,
    all_encodings: Seq<usize>,
    positions: Seq<usize>,
    row: int,
    col: int,
    batches: int,
) -> C64
    decreases batches,
{
    if batches <= 0 {
        C64::spec_zero()
    } else {
        sum_of(
            density_cell(src, all_encodings, positions, row, col, batches - 1),
            prod_of(
                conj_of(psi_at(src, all_encodings, positions, row, batches - 1)),
                psi_at(src, all_encodings, positions, col, batches - 1),
            ),
        )
    }
}

/// Side length of the reduced density matrix of the subset.
pub open spec fn density_dim(all_encodings: Seq<usize>, positions: Seq<usize>) -> int {
    pow2(selected_bits(all_encodings, positions)) as int
}

/// Number of joint values of the modes outside the subset.
pub open spec fn batch_count(all_encodings: Seq<usize>, positions: Seq<usize>) -> int {
    pow2(complement_bits(all_encodings, positions)) as int
}

/// One entry of the finished reduced density matrix.
pub open spec fn density_entry(
    src: Seq<C64>,
    all_encodings: Seq<usize>,
    positions: Seq<usize>,
    row: int,
    col: int,
) -> C64 {
    density_cell(src, all_encodings, positions, row, col, batch_count(all_encodings, positions))
}

/// The reduced density matrix of the modes in `positions`, row major: for
/// each batch item over the other modes, every pair of subset amplitudes
/// contributes the conjugated row amplitude times the column amplitude.
pub fn get_density<const N: usize>(
    src: &Vec<C64>,
    positions: &[usize; N],
    all_encodings: &[usize],
) -> (r: Vec<C64>)
    requires
        wf_layout(all_encodings@),
        wf_positions(positions@, all_encodings@.len() as nat),
        positions_sorted(positions@),
        src@.len() == pow2(total_bits(all_encodings@)),
        2 * selected_bits(all_encodings@, positions@) < usize::BITS,
    ensures
        r@.len() == density_dim(all_encodings@, positions@) * density_dim(
            all_encodings@,
            positions@,
        ),
        forall|row: int, col: int|
            #![trigger r@[row * density_dim(all_encodings@, positions@) + col]]
            0 <= row < density_dim(all_encodings@, positions@) && 0 <= col < density_dim(
                all_encodings@,
                positions@,
            ) ==> r@[row * density_dim(all_encodings@, positions@) + col] == density_entry(
                src@,
                all_encodings@,
                positions@,
                row,
                col,
            ),
{
    let ghost ep = all_encodings@;
    let ghost pp = positions@;
    let batch_size = get_batch_size(all_encodings, positions);
    let strides = get_strides(all_encodings, positions);
    let target_encodings = get_target_encodings(all_encodings, positions);
    proof {
        assert forall|i: int| 0 <= i < N implies 1 <= strides@[i] by {
            lemma_pow2_pos(prefix_bits(all_encodings@, positions@[i] as int));
        }
    }
    let masks = get_masks(&strides);
    let density_size = get_density_size(all_encodings, positions);
    let (density_matrix_masks, shifts) = density_matrix_shifts_and_masks(
        all_encodings,
        positions,
    );
    proof {
        lemma_selected_le_prefix(ep, pp, ep.len() as int);
        lemma_entries_bits_eq_selected(ep, pp);
        let sel = selected_bits(ep, pp);
        lemma_pow2_adds(sel, sel);
        lemma_usize_pow2_no_overflow((sel + sel) as nat);
        lemma_pow2_pos(sel);
        lemma_pow2_pos(complement_bits(ep, pp));
        lemma_usize_pow2_no_overflow(total_bits(ep));
        assert(complement_bits(ep, pp) + sel == total_bits(ep));
        assert(density_dim(ep, pp) * density_dim(ep, pp) == pow2((sel + sel) as nat));
        assert(batch_mask_ok(ep, pp, masks@, target_encodings@)) by {
            assert forall|i: int| 0 <= i < N implies masks@[i] == stride_mask(ep, pp[i])
                && target_encodings@[i] == ep[pp[i] as int] by {
                let lo = prefix_bits(ep, pp[i] as int);
                crate::indexing::lemma_mode_bits_in_range(ep, pp[i]);
                lemma_usize_pow2_no_overflow(lo);
                lemma_usize_shl_is_mul(1usize, lo as usize);
                assert((strides@[i] - 1) as usize == ((1usize << (lo as usize)) - 1) as usize);
            }
        }
        assert(masks@ =~= batch_mask_seq(ep, pp));
        assert(target_encodings@ =~= sel_encoding_seq(ep, pp));
        assert(density_matrix_masks@ =~= dm_mask_seq(ep, pp));
        assert(shifts@ =~= mode_shifts(ep, pp));
        assert(dm_masks_and_shifts_ok(ep, pp, density_matrix_masks@, shifts@));
        assert forall|i: int| 0 <= i < N implies shifts@[i] < usize::BITS by {
            crate::indexing::lemma_mode_bits_in_range(ep, pp[i]);
            lemma_selected_le_prefix(ep, pp, pp[i] as int);
        }
        assert forall|i: int| 0 <= i < N implies target_encodings@[i] < usize::BITS by {
            crate::indexing::lemma_mode_bits_in_range(ep, pp[i]);
        }
    }
    let ghost dsi = density_dim(ep, pp);
    let mut density: Vec<C64> = Vec::new();
    let total_cells = density_size * density_size;
    let mut c: usize = 0;
    while c < total_cells
        invariant
            c <= total_cells,
            density@.len() == c,
            forall|t: int| 0 <= t < c ==> density@[t] == C64::spec_zero(),
        decreases total_cells - c,
    {
        density.push(C64::zero());
        c += 1;
    }
    proof {
        assert forall|row: int, col: int|
            #![trigger row * dsi + col]
            0 <= row < dsi && 0 <= col < dsi implies 0 <= row * dsi + col < dsi * dsi by {
            lemma_cell_in_range(row, col, dsi);
        }
    }
    let mut index: usize = 0;
    while index < batch_size
        invariant
            wf_layout(ep),
            wf_positions(pp, ep.len() as nat),
            positions_sorted(pp),
            ep == all_encodings@,
            pp == positions@,
            src@.len() == pow2(total_bits(ep)),
            2 * selected_bits(ep, pp) < usize::BITS,
            batch_size as int == batch_count(ep, pp),
            density_size as int == dsi,
            dsi == density_dim(ep, pp),
            density@.len() == dsi * dsi,
            dsi * dsi <= usize::MAX,
            batch_mask_ok(ep, pp, masks@, target_encodings@),
            masks@ == batch_mask_seq(ep, pp),
            target_encodings@ == sel_encoding_seq(ep, pp),
            dm_masks_and_shifts_ok(ep, pp, density_matrix_masks@, shifts@),
            density_matrix_masks@ == dm_mask_seq(ep, pp),
            shifts@ == mode_shifts(ep, pp),
            forall|i: int| 0 <= i < N ==> shifts@[i] < usize::BITS,
            forall|i: int| 0 <= i < N ==> target_encodings@[i] < usize::BITS,
            index <= batch_size,
            forall|row: int, col: int|
                #![trigger density@[row * dsi + col]]
                0 <= row < dsi && 0 <= col < dsi ==> density@[row * dsi + col] == density_cell(
                    src@,
                    ep,
                    pp,
                    row,
                    col,
                    index as int,
                ),
        decreases batch_size - index,
    {
        let bi = get_batch_index(index, &masks, &target_encodings);
        proof {
            lemma_batch_index_fold_props(ep, pp, masks@, target_encodings@, index, N as int);
            assert(pp.take(N as int) =~= pp);
            lemma_entries_bits_eq_selected(ep, pp);
            lemma_selected_le_prefix(ep, pp, ep.len() as int);
            assert(complement_bits(ep, pp) + entries_bits(ep, pp, N as int) == total_bits(ep));
        }
        let mut stack: Vec<C64> = Vec::new();
        let mut j: usize = 0;
        while j < density_size
            invariant
                wf_layout(ep),
                wf_positions(pp, ep.len() as nat),
                positions_sorted(pp),
                ep == all_encodings@,
                pp == positions@,
                src@.len() == pow2(total_bits(ep)),
                index < batch_size,
                batch_size as int == batch_count(ep, pp),
                density_size as int == dsi,
                dsi == density_dim(ep, pp),
                density@.len() == dsi * dsi,
                dsi * dsi <= usize::MAX,
                dm_masks_and_shifts_ok(ep, pp, density_matrix_masks@, shifts@),
                density_matrix_masks@ == dm_mask_seq(ep, pp),
                shifts@ == mode_shifts(ep, pp),
                forall|i: int| 0 <= i < N ==> shifts@[i] < usize::BITS,
                bi == batch_index_fold(
                    index,
                    batch_mask_seq(ep, pp),
                    sel_encoding_seq(ep, pp),
                    N as int,
                ),
                (bi as nat) < pow2(total_bits(ep)),
                zero_at_mode_fields(ep, pp, bi),
                j <= density_size,
                stack@.len() == j,
                forall|m: int| 0 <= m < j ==> stack@[m] == psi_at(src@, ep, pp, m, index as int),
                forall|row: int, col: int|
                    #![trigger density@[row * dsi + col]]
                    0 <= row < dsi && 0 <= col < dsi ==> density@[row * dsi + col]
                        == density_cell(
                        src@,
                        ep,
                        pp,
                        row,
                        col,
                        if row < j && col < j {
                            index as int + 1
                        } else {
                            index as int
                        },
                    ),
            decreases density_size - j,
        {
            let state_j = density_matrix_index_to_state_index(
                j,
                &shifts,
                &density_matrix_masks,
            );
            proof {
                lemma_state_index_fold_props(
                    ep,
                    pp,
                    density_matrix_masks@,
                    shifts@,
                    j,
                    N as int,
                    bi,
                );
                lemma_disjoint_or_is_sum(state_j, bi);
                lemma_usize_pow2_no_overflow(total_bits(ep));
                lemma_usize_shl_is_mul(1usize, total_bits(ep) as usize);
                lemma_or_below(state_j, bi, total_bits(ep) as usize);
                assert((state_j + bi) as int == psi_index(ep, pp, j as int, index as int));
            }
            stack.push(src[state_j + bi]);
            let mut k: usize = 0;
            while k <= j
                invariant
                    ep == all_encodings@,
                    pp == positions@,
                    src@.len() == pow2(total_bits(ep)),
                    index < batch_size,
                    batch_size as int == batch_count(ep, pp),
                    density_size as int == dsi,
                    j < density_size,
                    k <= j + 1,
                    density@.len() == dsi * dsi,
                    dsi * dsi <= usize::MAX,
                    stack@.len() == j + 1,
                    forall|m: int|
                        0 <= m <= j ==> stack@[m] == psi_at(src@, ep, pp, m, index as int),
                    forall|row: int, col: int|
                        #![trigger density@[row * dsi + col]]
                        0 <= row < dsi && 0 <= col < dsi ==> density@[row * dsi + col]
                            == density_cell(
                            src@,
                            ep,
                            pp,
                            row,
                            col,
                            if (row < j && col < j) || (row == j && col < k) {
                                index as int + 1
                            } else {
                                index as int
                            },
                        ),
                decreases j + 1 - k,
            {
                proof {
                    lemma_cell_in_range(j as int, k as int, dsi);
                }
                let cell = j * density_size + k;
                density[cell] = cadd(density[cell], cmul(cconj(stack[j]), stack[k]));
                proof {
                    let jj = j as int;
                    let kk = k as int;
                    assert(density@[jj * dsi + kk] == density_cell(
                        src@,
                        ep,
                        pp,
                        jj,
                        kk,
                        index as int + 1,
                    ));
                    assert forall|row: int, col: int|
                        #![trigger density@[row * dsi + col]]
                        0 <= row < dsi && 0 <= col < dsi implies density@[row * dsi + col]
                        == density_cell(
                        src@,
                        ep,
                        pp,
                        row,
                        col,
                        if (row < jj && col < jj) || (row == jj && col < kk + 1) {
                            index as int + 1
                        } else {
                            index as int
                        },
                    ) by {
                        lemma_cell_in_range(row, col, dsi);
                        if !(row == jj && col == kk) {
                            assert(row * dsi + col != jj * dsi + kk);
                        }
                    }
                }
                k += 1;
            }
            let mut k: usize = 0;
            while k < j
                invariant
                    ep == all_encodings@,
                    pp == positions@,
                    src@.len() == pow2(total_bits(ep)),
                    index < batch_size,
                    batch_size as int == batch_count(ep, pp),
                    density_size as int == dsi,
                    j < density_size,
                    k <= j,
                    density@.len() == dsi * dsi,
                    dsi * dsi <= usize::MAX,
                    stack@.len() == j + 1,
                    forall|m: int|
                        0 <= m <= j ==> stack@[m] == psi_at(src@, ep, pp, m, index as int),
                    forall|row: int, col: int|
                        #![trigger density@[row * dsi + col]]
                        0 <= row < dsi && 0 <= col < dsi ==> density@[row * dsi + col]
                            == density_cell(
                            src@,
                            ep,
                            pp,
                            row,
                            col,
                            if (row < j && col < j) || (row == j && col <= j) || (col == j
                                && row < k) {
                                index as int + 1
                            } else {
                                index as int
                            },
                        ),
                decreases j - k,
            {
                proof {
                    lemma_cell_in_range(k as int, j as int, dsi);
                }
                let cell = k * density_size + j;
                density[cell] = cadd(density[cell], cmul(cconj(stack[k]), stack[j]));
                proof {
                    let jj = j as int;
                    let kk = k as int;
                    assert(density@[kk * dsi + jj] == density_cell(
                        src@,
                        ep,
                        pp,
                        kk,
                        jj,
                        index as int + 1,
                    ));
                    assert forall|row: int, col: int|
                        #![trigger density@[row * dsi + col]]
                        0 <= row < dsi && 0 <= col < dsi implies density@[row * dsi + col]
                        == density_cell(
                        src@,
                        ep,
                        pp,
                        row,
                        col,
                        if (row < jj && col < jj) || (row == jj && col <= jj) || (col == jj
                            && row < kk + 1) {
                            index as int + 1
                        } else {
                            index as int
                        },
                    ) by {
                        lemma_cell_in_range(row, col, dsi);
                        if !(row == kk && col == jj) {
                            assert(row * dsi + col != kk * dsi + jj);
                        }
                    }
                }
                k += 1;
            }
            j += 1;
        }
        index += 1;
    }
    density
}

/// A row and column inside the matrix give a cell inside the row-major
/// storage.
proof fn lemma_cell_in_range(row: int, col: int, dim: int)
    requires
        0 <= row < dim,
        0 <= col < dim,
    ensures
        0 <= row * dim + col < dim * dim,
        forall|r2: int, c2: int|
            #![trigger r2 * dim + c2]
            0 <= r2 < dim && 0 <= c2 < dim && r2 * dim + c2 == row * dim + col ==> r2 == row
                && c2 == col,
{
    assert(row * dim + col < dim * dim) by (nonlinear_arith)
        requires
            0 <= row < dim,
            0 <= col < dim,
    ;
    assert forall|r2: int, c2: int|
        #![trigger r2 * dim + c2]
        0 <= r2 < dim && 0 <= c2 < dim && r2 * dim + c2 == row * dim + col implies r2 == row
        && c2 == col by {
        assert(r2 == row && c2 == col) by (nonlinear_arith)
            requires
                0 <= r2 < dim,
                0 <= c2 < dim,
                0 <= row < dim,
                0 <= col < dim,
                r2 * dim + c2 == row * dim + col,
        ;
    }
    assert(0 <= row * dim + col) by (nonlinear_arith)
        requires
            0 <= row < dim,
            0 <= col < dim,
    ;
}

} // verus!
