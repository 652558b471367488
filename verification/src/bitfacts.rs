use vstd::prelude::*;
use vstd::arithmetic::power2::{pow2, lemma_pow2_adds, lemma_pow2_pos};
use vstd::bits::{lemma_usize_pow2_no_overflow, lemma_usize_shl_is_mul};
use crate::indexing::{
    batch_index_fold, complement_bits, entries_bits, lemma_entries_bits_eq_selected,
    lemma_entries_bits_le_selected, lemma_field_fits, lemma_mode_bits_in_range, lemma_or_below,
    lemma_mode_bits_in_range_int, lemma_pow2_le, lemma_prefix_bits_mono,
    lemma_selected_le_prefix, lemma_selected_mode_in_range,
    lemma_selected_mono, masks_and_shifts_ok,
    mode_mask, mode_reduced_mask, mode_shift, offset_fold, operator_index_fold, pos_selected,
    positions_sorted, prefix_bits, selected_bits, selected_bits_below, state_index_fold,
    total_bits, wf_layout, wf_positions,
};

verus! {

// ---------------------------------------------------------------------------
// Bit-level facts about scattering and insertion, used to show that a
// scattered subset index and an inserted batch index never collide and
// together stay inside the state vector.
// ---------------------------------------------------------------------------

/// The mask with the `lo` lowest bits set.
pub open spec fn low_mask(lo: usize) -> usize {
    ((1usize << lo) - 1) as usize
}

/// The mask that keeps the bits at and above bit `lo`.
pub open spec fn keep_high_mask(lo: usize) -> usize {
    !low_mask(lo)
}

/// The mask that `get_masks` computes for the mode at position `p`: all
/// bits at and above that mode's lowest bit.
pub open spec fn stride_mask(all_encodings: Seq<usize>, p: usize) -> usize {
    keep_high_mask(prefix_bits(all_encodings, p as int) as usize)
}

/// One step of the batch insertion applied to `v` at bit `lo`, opening a
/// field of `e` bits.
pub open spec fn insert_step_value(v: usize, lo: usize, e: usize) -> usize {
    ((keep_high_mask(lo) & v) << e) | ((!keep_high_mask(lo)) & v)
}

/// One insertion step: the bits at and above `lo` move up by `e`, a zero
/// field opens at `[lo, lo + e)`, and the bits below `lo` stay put.
#[verifier::rlimit(60)]
proof fn lemma_insert_step(v: usize, lo: usize, e: usize, k: usize)
    requires
        lo + e < usize::BITS,
        k + e < usize::BITS,
        v < (1usize << k),
    ensures
        insert_step_value(v, lo, e) < (1usize << ((k + e) as usize)),
        (insert_step_value(v, lo, e) & low_mask(lo)) == (v & low_mask(lo)),
        ((insert_step_value(v, lo, e) >> lo) & low_mask(e)) == 0,
{
    assert((((keep_high_mask(lo) & v) << e) | ((!keep_high_mask(lo)) & v)) < (1usize << ((k
        + e) as usize)) && ((((keep_high_mask(lo) & v) << e) | ((!keep_high_mask(lo)) & v))
        & low_mask(lo)) == (v & low_mask(lo)) && (((((keep_high_mask(lo) & v) << e) | ((
    !keep_high_mask(lo)) & v)) >> lo) & low_mask(e)) == 0) by (bit_vector)
        requires
            lo + e < usize::BITS && k + e < usize::BITS && v < (1usize << k),
    ;
}

/// A bit field below a split point is determined by the bits below it.
#[verifier::rlimit(60)]
proof fn lemma_digit_from_low(a: usize, b: usize, lo: usize, e: usize, cut: usize)
    requires
        lo + e <= cut,
        cut < usize::BITS,
        (a & low_mask(cut)) == (b & low_mask(cut)),
    ensures
        ((a >> lo) & low_mask(e)) == ((b >> lo) & low_mask(e)),
{
    assert(((a >> lo) & low_mask(e)) == ((b >> lo) & low_mask(e))) by (bit_vector)
        requires
            lo + e <= cut && cut < usize::BITS && (a & low_mask(cut)) == (b & low_mask(cut)),
    ;
}

/// The packed bits of one subset mode, masked out of `j` and moved up to
/// their global place.
pub open spec fn scatter_field_value(j: usize, e: usize, lo: usize, ro: usize) -> usize {
    ((low_mask(e) << ro) & j) << ((lo - ro) as usize)
}

/// A masked packed field moved up to its global place lies inside the bit
/// field `[lo, lo + e)`.
#[verifier::rlimit(60)]
proof fn lemma_scatter_field(j: usize, e: usize, lo: usize, ro: usize)
    requires
        ro <= lo,
        lo + e < usize::BITS,
    ensures
        scatter_field_value(j, e, lo, ro) < (1usize << ((lo + e) as usize)),
        (scatter_field_value(j, e, lo, ro) & low_mask(lo)) == 0,
{
    assert((((low_mask(e) << ro) & j) << ((lo - ro) as usize)) < (1usize << ((lo
        + e) as usize)) && ((((low_mask(e) << ro) & j) << ((lo - ro) as usize)) & low_mask(lo))
        == 0) by (bit_vector)
        requires
            ro <= lo && lo + e < usize::BITS,
    ;
}

/// Values with no common set bit or to their sum.
pub proof fn lemma_disjoint_or_is_sum(a: usize, b: usize)
    requires
        (a & b) == 0,
    ensures
        (a | b) == a + b,
{
    assert((a | b) == a + b) by (bit_vector)
        requires
            (a & b) == 0,
    ;
}

/// A value confined to the field `[lo, lo + e)` misses a value whose bits
/// in that field are zero.
#[verifier::rlimit(60)]
proof fn lemma_field_misses(a: usize, b: usize, lo: usize, e: usize)
    requires
        lo + e < usize::BITS,
        a < (1usize << ((lo + e) as usize)),
        (a & low_mask(lo)) == 0,
        ((b >> lo) & low_mask(e)) == 0,
    ensures
        (a & b) == 0,
{
    assert((a & b) == 0) by (bit_vector)
        requires
            lo + e < usize::BITS && a < (1usize << ((lo + e) as usize)) && (a & low_mask(lo))
                == 0 && ((b >> lo) & low_mask(e)) == 0,
    ;
}

/// Bitwise and distributes over or.
proof fn lemma_and_or_dist(a: usize, b: usize, c: usize)
    ensures
        ((a | b) & c) == ((a & c) | (b & c)),
{
    assert(((a | b) & c) == ((a & c) | (b & c))) by (bit_vector);
}

/// What `get_strides`, `get_target_encodings` and `get_masks` supply for
/// the batch insertion: per entry, the mask keeping the bits at and above
/// the entry's mode, and that mode's encoding.
pub open spec fn batch_mask_ok(
    all_encodings: Seq<usize>,
    positions: Seq<usize>,
    masks: Seq<usize>,
    target_encodings: Seq<usize>,
) -> bool {
    &&& masks.len() == positions.len()
    &&& target_encodings.len() == positions.len()
    &&& forall|i: int|
        0 <= i < positions.len() ==> masks[i] == stride_mask(all_encodings, positions[i])
            && target_encodings[i] == all_encodings[positions[i] as int]
}

/// Whether the bit field of every listed mode is zero in `v`.
pub open spec fn zero_at_mode_fields(
    all_encodings: Seq<usize>,
    positions: Seq<usize>,
    v: usize,
) -> bool {
    forall|r: int|
        0 <= r < positions.len() ==> ((v >> (prefix_bits(
            all_encodings,
            positions[r] as int,
        ) as usize)) & low_mask(all_encodings[positions[r] as int])) == 0
}

/// What the batch insertion builds from a counter below the batch size:
/// a value still inside the state space, with a zero bit field at the
/// mode of every handled entry.
pub proof fn lemma_batch_index_fold_props(
    all_encodings: Seq<usize>,
    positions: Seq<usize>,
    masks: Seq<usize>,
    target_encodings: Seq<usize>,
    b: usize,
    n: int,
)
    requires
        wf_layout(all_encodings),
        wf_positions(positions, all_encodings.len() as nat),
        positions_sorted(positions),
        batch_mask_ok(all_encodings, positions, masks, target_encodings),
        0 <= n <= positions.len(),
        (b as nat) < pow2(complement_bits(all_encodings, positions)),
    ensures
        (batch_index_fold(b, masks, target_encodings, n) as nat) < pow2(
            complement_bits(all_encodings, positions) + entries_bits(
                all_encodings,
                positions,
                n,
            ),
        ),
        zero_at_mode_fields(
            all_encodings,
            positions.take(n),
            batch_index_fold(b, masks, target_encodings, n),
        ),
    decreases n,
{
    let cbits = complement_bits(all_encodings, positions);
    lemma_selected_le_prefix(all_encodings, positions, all_encodings.len() as int);
    lemma_entries_bits_le_selected(all_encodings, positions, n);
    lemma_entries_bits_eq_selected(all_encodings, positions);
    assert(cbits + selected_bits(all_encodings, positions) == total_bits(all_encodings));
    if n == 0 {
        lemma_usize_pow2_no_overflow(cbits);
        lemma_usize_shl_is_mul(1usize, cbits as usize);
        assert(positions.take(0).len() == 0);
    } else {
        lemma_batch_index_fold_props(all_encodings, positions, masks, target_encodings, b, n - 1);
        lemma_entries_bits_le_selected(all_encodings, positions, n - 1);
        let prev = batch_index_fold(b, masks, target_encodings, n - 1);
        let cur = batch_index_fold(b, masks, target_encodings, n);
        let p = positions[n - 1];
        lemma_mode_bits_in_range(all_encodings, p);
        let lo = prefix_bits(all_encodings, p as int);
        let e = all_encodings[p as int];
        let k = cbits + entries_bits(all_encodings, positions, n - 1);
        assert(k + e == cbits + entries_bits(all_encodings, positions, n));
        lemma_usize_pow2_no_overflow(lo);
        lemma_usize_shl_is_mul(1usize, lo as usize);
        lemma_usize_pow2_no_overflow(k);
        lemma_usize_shl_is_mul(1usize, k as usize);
        lemma_usize_pow2_no_overflow((k + e) as nat);
        lemma_usize_shl_is_mul(1usize, (k + e) as usize);
        assert(masks[n - 1] == keep_high_mask(lo as usize));
        assert(lo + e < usize::BITS) by {
            lemma_prefix_bits_mono(all_encodings, p as int + 1, all_encodings.len() as int);
        }
        lemma_insert_step(prev, lo as usize, e, k as usize);
        assert(cur == insert_step_value(prev, lo as usize, e));
        let shorter = positions.take(n - 1);
        let taken = positions.take(n);
        assert forall|r: int| 0 <= r < taken.len() implies ((cur >> (prefix_bits(
            all_encodings,
            taken[r] as int,
        ) as usize)) & low_mask(all_encodings[taken[r] as int])) == 0 by {
            assert(taken[r] == positions[r]);
            if r < n - 1 {
                let lor = prefix_bits(all_encodings, positions[r] as int);
                let er = all_encodings[positions[r] as int];
                assert(positions[r] < p);
                lemma_prefix_bits_mono(all_encodings, positions[r] as int + 1, p as int);
                assert(shorter[r] == positions[r]);
                assert(((prev >> (lor as usize)) & low_mask(er)) == 0);
                lemma_digit_from_low(cur, prev, lor as usize, er, lo as usize);
            } else {
                assert(target_encodings[n - 1] == all_encodings[p as int]);
            }
        }
    }
}

/// What `density_matrix_shifts_and_masks` returns: per entry, the packed
/// mask of the entry's mode and the upward shift to its global place.
pub open spec fn dm_masks_and_shifts_ok(
    all_encodings: Seq<usize>,
    positions: Seq<usize>,
    masks: Seq<usize>,
    shifts: Seq<usize>,
) -> bool {
    &&& masks.len() == positions.len()
    &&& shifts.len() == positions.len()
    &&& forall|i: int|
        0 <= i < positions.len() ==> masks[i] as nat == mode_reduced_mask(
            all_encodings,
            positions,
            positions[i],
        ) && shifts[i] as nat == mode_shift(all_encodings, positions, positions[i])
}

/// Whether two values set no bit in common.
pub open spec fn bits_disjoint(a: usize, b: usize) -> bool {
    a & b == 0
}

/// What the scatter of a packed subset index builds: a value confined to
/// the subset's bit fields, inside the state space and disjoint from any
/// value whose subset fields are zero.
pub proof fn lemma_state_index_fold_props(
    all_encodings: Seq<usize>,
    positions: Seq<usize>,
    masks: Seq<usize>,
    shifts: Seq<usize>,
    j: usize,
    n: int,
    other: usize,
)
    requires
        wf_layout(all_encodings),
        wf_positions(positions, all_encodings.len() as nat),
        dm_masks_and_shifts_ok(all_encodings, positions, masks, shifts),
        0 <= n <= positions.len(),
        zero_at_mode_fields(all_encodings, positions, other),
    ensures
        (state_index_fold(j, shifts, masks, n) as nat) < pow2(total_bits(all_encodings)),
        bits_disjoint(state_index_fold(j, shifts, masks, n), other),
    decreases n,
{
    let total = total_bits(all_encodings);
    lemma_usize_pow2_no_overflow(total);
    lemma_usize_shl_is_mul(1usize, total as usize);
    lemma_pow2_pos(total);
    if n == 0 {
        assert((0usize & other) == 0) by (bit_vector);
    } else {
        lemma_state_index_fold_props(all_encodings, positions, masks, shifts, j, n - 1, other);
        let prev = state_index_fold(j, shifts, masks, n - 1);
        let p = positions[n - 1];
        lemma_mode_bits_in_range(all_encodings, p);
        lemma_selected_le_prefix(all_encodings, positions, p as int);
        let lo = prefix_bits(all_encodings, p as int);
        let ro = selected_bits_below(all_encodings, positions, p as int);
        let e = all_encodings[p as int];
        lemma_usize_pow2_no_overflow(e as nat);
        lemma_usize_shl_is_mul(1usize, e);
        lemma_usize_pow2_no_overflow(ro);
        lemma_usize_shl_is_mul(1usize, ro as usize);
        lemma_field_fits(e as nat, ro);
        lemma_usize_shl_is_mul(low_mask(e), ro as usize);
        assert(masks[n - 1] == (low_mask(e) << (ro as usize)));
        assert(shifts[n - 1] == ((lo - ro) as usize));
        let f = (masks[n - 1] & j) << shifts[n - 1];
        lemma_scatter_field(j, e, lo as usize, ro as usize);
        assert(((other >> (lo as usize)) & low_mask(e)) == 0);
        assert(f == scatter_field_value(j, e, lo as usize, ro as usize));
        lemma_field_misses(f, other, lo as usize, e);
        lemma_and_or_dist(prev, f, other);
        assert((0usize | 0usize) == 0usize) by (bit_vector);
        lemma_usize_pow2_no_overflow((lo + e) as nat);
        lemma_usize_shl_is_mul(1usize, (lo + e) as usize);
        lemma_pow2_le((lo + e) as nat, total);
        assert(f < (1usize << (total as usize))) by {
            assert(f < (1usize << ((lo + e) as usize)));
            assert((1usize << ((lo + e) as usize)) as nat <= (1usize << (total as usize)) as nat);
        }
        if prev < (1usize << (total as usize)) {
            lemma_or_below(prev, f, total as usize);
        }
    }
}


// ---------------------------------------------------------------------------
// The inverse relation between packing an operator index and scattering it
// back over the subset's bit fields.
// ---------------------------------------------------------------------------

/// Nothing is selected strictly between two bounds with no subset mode.
proof fn lemma_selected_gap(all_encodings: Seq<usize>, positions: Seq<usize>, a: int, b: int)
    requires
        0 <= a <= b,
        forall|m: int| a <= m < b ==> !pos_selected(positions, m),
    ensures
        selected_bits_below(all_encodings, positions, b) == selected_bits_below(
            all_encodings,
            positions,
            a,
        ),
    decreases b - a,
{
    if a < b {
        lemma_selected_gap(all_encodings, positions, a, b - 1);
    }
}

/// For ascending entries the packed fields tile the packed index space:
/// the first starts at zero and each next one starts where the one before
/// it ends.
proof fn lemma_packed_tiling(all_encodings: Seq<usize>, positions: Seq<usize>, i: int)
    requires
        wf_positions(positions, all_encodings.len() as nat),
        positions_sorted(positions),
        0 <= i < positions.len(),
    ensures
        i == 0 ==> selected_bits_below(all_encodings, positions, positions[0] as int) == 0,
        i > 0 ==> selected_bits_below(all_encodings, positions, positions[i] as int)
            == selected_bits_below(all_encodings, positions, positions[i - 1] as int)
            + all_encodings[positions[i - 1] as int] as nat,
{
    if i == 0 {
        assert forall|m: int| 0 <= m < positions[0] as int implies !pos_selected(
            positions,
            m,
        ) by {
            if pos_selected(positions, m) {
                let j = choose|j: int| 0 <= j < positions.len() && positions[j] as int == m;
                assert(positions[0] <= positions[j]);
            }
        }
        lemma_selected_gap(all_encodings, positions, 0, positions[0] as int);
    } else {
        let lo = positions[i - 1] as int;
        let hi = positions[i] as int;
        assert forall|m: int| lo + 1 <= m < hi implies !pos_selected(positions, m) by {
            if pos_selected(positions, m) {
                let j = choose|j: int| 0 <= j < positions.len() && positions[j] as int == m;
                if j <= i - 1 {
                    assert(positions[j] <= positions[i - 1]);
                } else {
                    assert(positions[i] <= positions[j]);
                }
            }
        }
        lemma_selected_gap(all_encodings, positions, lo + 1, hi);
        assert(pos_selected(positions, lo)) by {
            assert(positions[i - 1] as int == lo);
        }
    }
}

/// The last packed field ends exactly at the top of the packed space.
proof fn lemma_packed_top(all_encodings: Seq<usize>, positions: Seq<usize>)
    requires
        wf_positions(positions, all_encodings.len() as nat),
        positions_sorted(positions),
        positions.len() > 0,
    ensures
        selected_bits(all_encodings, positions) == selected_bits_below(
            all_encodings,
            positions,
            positions[positions.len() - 1] as int,
        ) + all_encodings[positions[positions.len() - 1] as int] as nat,
{
    let last = positions[positions.len() - 1] as int;
    assert forall|m: int| last + 1 <= m < all_encodings.len() implies !pos_selected(
        positions,
        m,
    ) by {
        if pos_selected(positions, m) {
            let j = choose|j: int| 0 <= j < positions.len() && positions[j] as int == m;
            assert(positions[j] <= positions[positions.len() - 1]);
        }
    }
    lemma_selected_gap(all_encodings, positions, last + 1, all_encodings.len() as int);
    assert(pos_selected(positions, last)) by {
        assert(positions[positions.len() - 1] as int == last);
    }
}

/// A scattered field carries the packed digit up to the mode's global
/// place.
#[verifier::rlimit(100)]
proof fn lemma_scatter_digit(q: usize, e: usize, lo: usize, ro: usize)
    requires
        ro <= lo,
        lo + e < usize::BITS,
    ensures
        ((scatter_field_value(q, e, lo, ro) >> lo) & low_mask(e)) == ((q >> ro) & low_mask(e)),
{
    assert(((((low_mask(e) << ro) & q) << ((lo - ro) as usize)) >> lo) & low_mask(e) == ((q
        >> ro) & low_mask(e))) by (bit_vector)
        requires
            ro <= lo && lo + e < usize::BITS,
    ;
}

/// An or leaves a bit field alone when the other operand is zero there.
proof fn lemma_or_digit(a: usize, b: usize, lo: usize, e: usize)
    requires
        lo < usize::BITS,
        e < usize::BITS,
        ((b >> lo) & low_mask(e)) == 0,
    ensures
        (((a | b) >> lo) & low_mask(e)) == ((a >> lo) & low_mask(e)),
        (((b | a) >> lo) & low_mask(e)) == ((a >> lo) & low_mask(e)),
{
    assert((((a | b) >> lo) & low_mask(e)) == ((a >> lo) & low_mask(e)) && (((b | a) >> lo)
        & low_mask(e)) == ((a >> lo) & low_mask(e))) by (bit_vector)
        requires
            lo < usize::BITS && e < usize::BITS && ((b >> lo) & low_mask(e)) == 0,
    ;
}

/// A value with its low `cut` bits clear has a zero field anywhere below
/// the cut.
proof fn lemma_low_zero_digit(f: usize, cut: usize, lo: usize, e: usize)
    requires
        lo + e <= cut,
        cut < usize::BITS,
        (f & low_mask(cut)) == 0,
    ensures
        ((f >> lo) & low_mask(e)) == 0,
{
    assert(((f >> lo) & low_mask(e)) == 0) by (bit_vector)
        requires
            lo + e <= cut && cut < usize::BITS && (f & low_mask(cut)) == 0,
    ;
}

/// A value below a bit position has a zero field at and above it.
proof fn lemma_small_digit_zero(v: usize, lo: usize, e: usize)
    requires
        lo < usize::BITS,
        e < usize::BITS,
        v < (1usize << lo),
    ensures
        ((v >> lo) & low_mask(e)) == 0,
{
    assert(((v >> lo) & low_mask(e)) == 0) by (bit_vector)
        requires
            lo < usize::BITS && e < usize::BITS && v < (1usize << lo),
    ;
}

/// Masking a mode's global field and shifting it down places its digit at
/// the packed offset.
#[verifier::rlimit(100)]
proof fn lemma_extract_place(v: usize, e: usize, lo: usize, ro: usize)
    requires
        ro <= lo,
        lo + e < usize::BITS,
    ensures
        (((low_mask(e) << lo) & v) >> ((lo - ro) as usize)) == (((v >> lo) & low_mask(e))
            << ro),
{
    assert((((low_mask(e) << lo) & v) >> ((lo - ro) as usize)) == (((v >> lo) & low_mask(e))
        << ro)) by (bit_vector)
        requires
            ro <= lo && lo + e < usize::BITS,
    ;
}

/// A digit placed at a packed offset stays inside its packed field.
proof fn lemma_placed_digit(x: usize, e: usize, lo: usize, ro: usize)
    requires
        lo < usize::BITS,
        ro + e < usize::BITS,
    ensures
        ((((x >> lo) & low_mask(e)) << ro) as nat) < pow2((ro + e) as nat),
        (((((x >> lo) & low_mask(e)) << ro)) & low_mask(ro)) == 0,
        (((((x >> lo) & low_mask(e)) << ro) >> ro) & low_mask(e)) == ((x >> lo) & low_mask(e)),
{
    lemma_usize_pow2_no_overflow((ro + e) as nat);
    lemma_usize_shl_is_mul(1usize, (ro + e) as usize);
    assert((((x >> lo) & low_mask(e)) << ro) < (1usize << ((ro + e) as usize)) && (((((x
        >> lo) & low_mask(e)) << ro)) & low_mask(ro)) == 0 && (((((x >> lo) & low_mask(e))
        << ro) >> ro) & low_mask(e)) == ((x >> lo) & low_mask(e))) by (bit_vector)
        requires
            lo < usize::BITS && ro + e < usize::BITS,
    ;
}

/// Appending the next tile to an exactly filled prefix fills the prefix
/// one tile further.
proof fn lemma_tile_accumulate(q: usize, acc: usize, ro: usize, e: usize)
    requires
        ro + e < usize::BITS,
        acc == (q & low_mask(ro)),
    ensures
        (acc | (((q >> ro) & low_mask(e)) << ro)) == (q & low_mask((ro + e) as usize)),
{
    assert(((q & low_mask(ro)) | (((q >> ro) & low_mask(e)) << ro)) == (q & low_mask((ro
        + e) as usize))) by (bit_vector)
        requires
            ro + e < usize::BITS,
    ;
}

/// A value below a power of two is untouched by that mask.
proof fn lemma_mask_identity(q: usize, k: usize)
    requires
        k < usize::BITS,
        q < (1usize << k),
    ensures
        (q & low_mask(k)) == q,
{
    assert((q & low_mask(k)) == q) by (bit_vector)
        requires
            k < usize::BITS && q < (1usize << k),
    ;
}

/// A value splits at any cut into its low bits and the digit above them.
proof fn lemma_split_at(v: usize, lo: usize, e: usize)
    requires
        lo + e < usize::BITS,
    ensures
        (v & low_mask((lo + e) as usize)) == ((v & low_mask(lo)) | (((v >> lo) & low_mask(e))
            << lo)),
{
    assert((v & low_mask((lo + e) as usize)) == ((v & low_mask(lo)) | (((v >> lo) & low_mask(
        e)) << lo))) by (bit_vector)
        requires
            lo + e < usize::BITS,
    ;
}

/// The down-shifted global mask of a mode is its packed mask.
#[verifier::rlimit(100)]
proof fn lemma_mask_down(e: usize, lo: usize, ro: usize)
    requires
        ro <= lo,
        lo + e < usize::BITS,
    ensures
        ((low_mask(e) << lo) >> ((lo - ro) as usize)) == (low_mask(e) << ro),
{
    assert(((low_mask(e) << lo) >> ((lo - ro) as usize)) == (low_mask(e) << ro)) by (bit_vector)
        requires
            ro <= lo && lo + e < usize::BITS,
    ;
}

/// The bit field of mode `m` inside a global index.
pub open spec fn mode_digit(all_encodings: Seq<usize>, v: usize, m: int) -> usize {
    (v >> (prefix_bits(all_encodings, m) as usize)) & low_mask(all_encodings[m])
}

/// The bit field of the `i`-th entry's mode inside a packed operator
/// index.
pub open spec fn packed_digit(
    all_encodings: Seq<usize>,
    positions: Seq<usize>,
    q: usize,
    i: int,
) -> usize {
    (q >> (selected_bits_below(all_encodings, positions, positions[i] as int) as usize))
        & low_mask(all_encodings[positions[i] as int])
}

/// Where the first `m` packed fields end.
pub open spec fn tile_end(all_encodings: Seq<usize>, positions: Seq<usize>, m: int) -> nat {
    if m <= 0 {
        0
    } else {
        selected_bits_below(all_encodings, positions, positions[m - 1] as int)
            + all_encodings[positions[m - 1] as int] as nat
    }
}

/// Common bounds of one entry: its global field and packed field fit
/// under the layout's top.
proof fn lemma_entry_bounds(all_encodings: Seq<usize>, positions: Seq<usize>, i: int)
    requires
        wf_layout(all_encodings),
        wf_positions(positions, all_encodings.len() as nat),
        0 <= i < positions.len(),
    ensures
        selected_bits_below(all_encodings, positions, positions[i] as int) <= prefix_bits(
            all_encodings,
            positions[i] as int,
        ),
        prefix_bits(all_encodings, positions[i] as int) + all_encodings[positions[i] as int]
            <= total_bits(all_encodings),
        selected_bits_below(all_encodings, positions, positions[i] as int)
            + all_encodings[positions[i] as int] <= selected_bits(all_encodings, positions),
        selected_bits(all_encodings, positions) <= total_bits(all_encodings),
{
    let p = positions[i];
    lemma_mode_bits_in_range(all_encodings, p);
    lemma_selected_le_prefix(all_encodings, positions, p as int);
    assert(pos_selected(positions, p as int)) by {
        assert(positions[i] == p);
    }
    lemma_selected_mode_in_range(all_encodings, positions, p);
    lemma_selected_le_prefix(all_encodings, positions, all_encodings.len() as int);
}

/// What scattering a packed index over the subset's fields builds: a
/// value bounded by the last handled field's top, whose handled fields
/// hold the packed digits and whose other mode fields are zero.
proof fn lemma_offset_fold_digits(
    all_encodings: Seq<usize>,
    positions: Seq<usize>,
    masks: Seq<usize>,
    shifts: Seq<usize>,
    q: usize,
    n: int,
)
    requires
        wf_layout(all_encodings),
        wf_positions(positions, all_encodings.len() as nat),
        positions_sorted(positions),
        masks_and_shifts_ok(all_encodings, positions, masks, shifts),
        0 <= n <= positions.len(),
    ensures
        n == 0 ==> offset_fold(q, shifts, masks, n) == 0usize,
        n > 0 ==> (offset_fold(q, shifts, masks, n) as nat) < pow2(
            prefix_bits(all_encodings, positions[n - 1] as int) + all_encodings[positions[n
                - 1] as int] as nat,
        ),
        forall|r: int|
            0 <= r < n ==> #[trigger] mode_digit(
                all_encodings,
                offset_fold(q, shifts, masks, n),
                positions[r] as int,
            ) == packed_digit(all_encodings, positions, q, r),
        forall|m: int|
            0 <= m < all_encodings.len() && !pos_selected(positions, m)
                ==> #[trigger] mode_digit(all_encodings, offset_fold(q, shifts, masks, n), m)
                == 0,
    decreases n,
{
    let total = total_bits(all_encodings);
    if n == 0 {
        let v = offset_fold(q, shifts, masks, 0);
        assert forall|m: int|
            0 <= m < all_encodings.len() implies #[trigger] mode_digit(all_encodings, v, m)
            == 0 by {
            lemma_mode_bits_in_range_int(all_encodings, m);
            let lom = prefix_bits(all_encodings, m);
            let em = all_encodings[m];
            lemma_usize_pow2_no_overflow(lom);
            lemma_usize_shl_is_mul(1usize, lom as usize);
            vstd::arithmetic::power2::lemma_pow2_pos(lom);
            lemma_small_digit_zero(0usize, lom as usize, em);
        }
    } else {
        lemma_offset_fold_digits(all_encodings, positions, masks, shifts, q, n - 1);
        let prev = offset_fold(q, shifts, masks, n - 1);
        let cur = offset_fold(q, shifts, masks, n);
        let p = positions[n - 1];
        lemma_entry_bounds(all_encodings, positions, n - 1);
        let lo = prefix_bits(all_encodings, p as int);
        let ro = selected_bits_below(all_encodings, positions, p as int);
        let e = all_encodings[p as int];
        lemma_usize_pow2_no_overflow(e as nat);
        lemma_usize_shl_is_mul(1usize, e);
        lemma_usize_pow2_no_overflow(lo);
        lemma_usize_shl_is_mul(1usize, lo as usize);
        lemma_field_fits(e as nat, lo);
        lemma_usize_shl_is_mul(low_mask(e), lo as usize);
        assert(masks[n - 1] == (low_mask(e) << (lo as usize)));
        assert(shifts[n - 1] == ((lo - ro) as usize));
        lemma_mask_down(e, lo as usize, ro as usize);
        let f = ((masks[n - 1] >> shifts[n - 1]) & q) << shifts[n - 1];
        assert(f == scatter_field_value(q, e, lo as usize, ro as usize));
        assert(cur == (prev | f));
        lemma_scatter_field(q, e, lo as usize, ro as usize);
        lemma_scatter_digit(q, e, lo as usize, ro as usize);
        lemma_usize_pow2_no_overflow((lo + e) as nat);
        lemma_usize_shl_is_mul(1usize, (lo + e) as usize);
        if n - 1 > 0 {
            let p0 = positions[n - 2];
            lemma_entry_bounds(all_encodings, positions, n - 2);
            let hi0 = prefix_bits(all_encodings, p0 as int) + all_encodings[p0 as int] as nat;
            lemma_prefix_bits_mono(all_encodings, p0 as int + 1, p as int);
            lemma_usize_pow2_no_overflow(hi0);
            lemma_usize_shl_is_mul(1usize, hi0 as usize);
            lemma_pow2_le(hi0, lo);
            assert(prev < (1usize << (lo as usize)));
        } else {
            vstd::arithmetic::power2::lemma_pow2_pos(lo);
            assert(prev < (1usize << (lo as usize)));
        }
        lemma_small_digit_zero(prev, lo as usize, e);
        lemma_or_digit(f, prev, lo as usize, e);
        assert(mode_digit(all_encodings, cur, p as int) == packed_digit(
            all_encodings,
            positions,
            q,
            n - 1,
        ));
        lemma_pow2_le(lo, (lo + e) as nat);
        lemma_or_below(prev, f, (lo + e) as usize);
        assert forall|r: int|
            0 <= r < n - 1 implies #[trigger] mode_digit(all_encodings, cur, positions[r] as int)
            == packed_digit(all_encodings, positions, q, r) by {
            lemma_entry_bounds(all_encodings, positions, r);
            let lor = prefix_bits(all_encodings, positions[r] as int);
            let er = all_encodings[positions[r] as int];
            assert(mode_digit(all_encodings, prev, positions[r] as int) == packed_digit(
                all_encodings,
                positions,
                q,
                r,
            ));
            lemma_prefix_bits_mono(all_encodings, positions[r] as int + 1, p as int);
            lemma_low_zero_digit(f, lo as usize, lor as usize, er);
            lemma_or_digit(prev, f, lor as usize, er);
        }
        assert forall|m: int|
            0 <= m < all_encodings.len() && !pos_selected(positions, m)
            implies #[trigger] mode_digit(all_encodings, cur, m) == 0 by {
            lemma_mode_bits_in_range_int(all_encodings, m);
            let lom = prefix_bits(all_encodings, m);
            let em = all_encodings[m];
            assert(mode_digit(all_encodings, prev, m) == 0);
            if m < p as int {
                lemma_prefix_bits_mono(all_encodings, m + 1, p as int);
                lemma_low_zero_digit(f, lo as usize, lom as usize, em);
                lemma_or_digit(prev, f, lom as usize, em);
            } else {
                assert(m != p as int) by {
                    assert(positions[n - 1] == p);
                }
                lemma_prefix_bits_mono(all_encodings, p as int + 1, m);
                lemma_usize_pow2_no_overflow(lom);
                lemma_pow2_le((lo + e) as nat, lom);
                lemma_usize_shl_is_mul(1usize, lom as usize);
                lemma_pow2_le((lo + e) as nat, lom);
                lemma_small_digit_zero(f, lom as usize, em);
                lemma_or_digit(prev, f, lom as usize, em);
            }
        }
    }
}

/// What packing a global index builds: a value bounded by the last packed
/// field's end whose packed fields hold the modes' digits.
proof fn lemma_index_fold_digits(
    all_encodings: Seq<usize>,
    positions: Seq<usize>,
    masks: Seq<usize>,
    shifts: Seq<usize>,
    x: usize,
    n: int,
)
    requires
        wf_layout(all_encodings),
        wf_positions(positions, all_encodings.len() as nat),
        positions_sorted(positions),
        masks_and_shifts_ok(all_encodings, positions, masks, shifts),
        0 <= n <= positions.len(),
    ensures
        n == 0 ==> operator_index_fold(x, shifts, masks, n) == 0usize,
        n > 0 ==> (operator_index_fold(x, shifts, masks, n) as nat) < pow2(
            tile_end(all_encodings, positions, n),
        ),
        forall|r: int|
            0 <= r < n ==> #[trigger] packed_digit(
                all_encodings,
                positions,
                operator_index_fold(x, shifts, masks, n),
                r,
            ) == mode_digit(all_encodings, x, positions[r] as int),
    decreases n,
{
    if n > 0 {
        lemma_index_fold_digits(all_encodings, positions, masks, shifts, x, n - 1);
        let prev = operator_index_fold(x, shifts, masks, n - 1);
        let cur = operator_index_fold(x, shifts, masks, n);
        let p = positions[n - 1];
        lemma_entry_bounds(all_encodings, positions, n - 1);
        let lo = prefix_bits(all_encodings, p as int);
        let ro = selected_bits_below(all_encodings, positions, p as int);
        let e = all_encodings[p as int];
        lemma_usize_pow2_no_overflow(e as nat);
        lemma_usize_shl_is_mul(1usize, e);
        lemma_usize_pow2_no_overflow(lo);
        lemma_usize_shl_is_mul(1usize, lo as usize);
        lemma_field_fits(e as nat, lo);
        lemma_usize_shl_is_mul(low_mask(e), lo as usize);
        assert(masks[n - 1] == (low_mask(e) << (lo as usize)));
        assert(shifts[n - 1] == ((lo - ro) as usize));
        lemma_extract_place(x, e, lo as usize, ro as usize);
        let f = (masks[n - 1] & x) >> shifts[n - 1];
        assert(f == (((x >> (lo as usize)) & low_mask(e)) << (ro as usize)));
        assert(cur == (prev | f));
        lemma_placed_digit(x, e, lo as usize, ro as usize);
        lemma_usize_pow2_no_overflow((ro + e) as nat);
        lemma_usize_shl_is_mul(1usize, (ro + e) as usize);
        if n - 1 > 0 {
            lemma_packed_tiling(all_encodings, positions, n - 1);
            lemma_entry_bounds(all_encodings, positions, n - 2);
            let t0 = tile_end(all_encodings, positions, n - 1);
            lemma_usize_pow2_no_overflow(ro);
            lemma_usize_shl_is_mul(1usize, ro as usize);
            assert(t0 == ro);
            assert((prev as nat) < pow2(ro));
            assert(prev < (1usize << (ro as usize)));
        } else {
            lemma_packed_tiling(all_encodings, positions, 0);
            assert(ro == 0);
            lemma_usize_pow2_no_overflow(ro);
            lemma_usize_shl_is_mul(1usize, ro as usize);
            vstd::arithmetic::power2::lemma_pow2_pos(ro);
            assert(prev < (1usize << (ro as usize)));
        }
        lemma_small_digit_zero(prev, ro as usize, e);
        lemma_or_digit(f, prev, ro as usize, e);
        assert(packed_digit(all_encodings, positions, cur, n - 1) == mode_digit(
            all_encodings,
            x,
            p as int,
        ));
        lemma_pow2_le(ro, (ro + e) as nat);
        lemma_or_below(prev, f, (ro + e) as usize);
        assert forall|r: int|
            0 <= r < n - 1 implies #[trigger] packed_digit(all_encodings, positions, cur, r)
            == mode_digit(all_encodings, x, positions[r] as int) by {
            lemma_entry_bounds(all_encodings, positions, r);
            let ror = selected_bits_below(all_encodings, positions, positions[r] as int);
            let er = all_encodings[positions[r] as int];
            assert(packed_digit(all_encodings, positions, prev, r) == mode_digit(
                all_encodings,
                x,
                positions[r] as int,
            ));
            lemma_packed_tiling(all_encodings, positions, r + 1);
            lemma_selected_mono(
                all_encodings,
                positions,
                positions[r + 1] as int,
                positions[n - 1] as int,
            );
            lemma_low_zero_digit(f, ro as usize, ror as usize, er);
            lemma_or_digit(prev, f, ror as usize, er);
        }
    }
}

/// Packing after scattering gives the packed index back: the first
/// inverse-indexing law.
pub proof fn lemma_operator_index_of_offset(
    all_encodings: Seq<usize>,
    positions: Seq<usize>,
    masks: Seq<usize>,
    shifts: Seq<usize>,
    q: usize,
)
    requires
        wf_layout(all_encodings),
        wf_positions(positions, all_encodings.len() as nat),
        positions_sorted(positions),
        masks_and_shifts_ok(all_encodings, positions, masks, shifts),
        (q as nat) < pow2(selected_bits(all_encodings, positions)),
    ensures
        operator_index_fold(
            offset_fold(q, shifts, masks, positions.len() as int),
            shifts,
            masks,
            positions.len() as int,
        ) == q,
{
    let len = positions.len() as int;
    let sel = selected_bits(all_encodings, positions);
    lemma_selected_le_prefix(all_encodings, positions, all_encodings.len() as int);
    lemma_usize_pow2_no_overflow(sel);
    lemma_usize_shl_is_mul(1usize, sel as usize);
    if len == 0 {
        lemma_selected_gap(all_encodings, positions, 0, all_encodings.len() as int);
        assert(sel == 0);
        vstd::arithmetic::power2::lemma2_to64();
        assert(q == 0);
    } else {
        let v = offset_fold(q, shifts, masks, len);
        lemma_offset_fold_digits(all_encodings, positions, masks, shifts, q, len);
        lemma_extract_back(all_encodings, positions, masks, shifts, v, q, len);
        lemma_packed_top(all_encodings, positions);
        assert(tile_end(all_encodings, positions, len) == sel);
        lemma_mask_identity(q, sel as usize);
    }
}

/// Extracting the packed fields of a value whose mode fields hold the
/// packed digits rebuilds the packed index tile by tile.
proof fn lemma_extract_back(
    all_encodings: Seq<usize>,
    positions: Seq<usize>,
    masks: Seq<usize>,
    shifts: Seq<usize>,
    v: usize,
    q: usize,
    m: int,
)
    requires
        wf_layout(all_encodings),
        wf_positions(positions, all_encodings.len() as nat),
        positions_sorted(positions),
        masks_and_shifts_ok(all_encodings, positions, masks, shifts),
        0 <= m <= positions.len(),
        forall|r: int|
            0 <= r < positions.len() ==> #[trigger] mode_digit(
                all_encodings,
                v,
                positions[r] as int,
            ) == packed_digit(all_encodings, positions, q, r),
    ensures
        operator_index_fold(v, shifts, masks, m) == (q & low_mask(
            tile_end(all_encodings, positions, m) as usize,
        )),
    decreases m,
{
    if m == 0 {
        assert((q & low_mask(0)) == 0usize) by (bit_vector);
    } else {
        lemma_extract_back(all_encodings, positions, masks, shifts, v, q, m - 1);
        let prev = operator_index_fold(v, shifts, masks, m - 1);
        let p = positions[m - 1];
        lemma_entry_bounds(all_encodings, positions, m - 1);
        let lo = prefix_bits(all_encodings, p as int);
        let ro = selected_bits_below(all_encodings, positions, p as int);
        let e = all_encodings[p as int];
        lemma_usize_pow2_no_overflow(e as nat);
        lemma_usize_shl_is_mul(1usize, e);
        lemma_usize_pow2_no_overflow(lo);
        lemma_usize_shl_is_mul(1usize, lo as usize);
        lemma_field_fits(e as nat, lo);
        lemma_usize_shl_is_mul(low_mask(e), lo as usize);
        assert(masks[m - 1] == (low_mask(e) << (lo as usize)));
        assert(shifts[m - 1] == ((lo - ro) as usize));
        lemma_extract_place(v, e, lo as usize, ro as usize);
        let f = (masks[m - 1] & v) >> shifts[m - 1];
        assert(f == (((v >> (lo as usize)) & low_mask(e)) << (ro as usize)));
        assert(mode_digit(all_encodings, v, p as int) == packed_digit(
            all_encodings,
            positions,
            q,
            m - 1,
        )) by {
            assert(positions[m - 1] == p);
        }
        assert(f == (((q >> (ro as usize)) & low_mask(e)) << (ro as usize)));
        lemma_packed_tiling(all_encodings, positions, m - 1);
        assert(tile_end(all_encodings, positions, m - 1) == ro);
        lemma_tile_accumulate(q, prev, ro as usize, e);
        assert(tile_end(all_encodings, positions, m) == ro + e);
    }
}

/// A global index confined to the subset's fields: inside the state space
/// and zero at every other mode's field.
pub open spec fn confined_to_modes(
    all_encodings: Seq<usize>,
    positions: Seq<usize>,
    x: usize,
) -> bool {
    &&& (x as nat) < pow2(total_bits(all_encodings))
    &&& forall|m: int|
        0 <= m < all_encodings.len() && !pos_selected(positions, m) ==> #[trigger] mode_digit(
            all_encodings,
            x,
            m,
        ) == 0
}

/// Two values inside the state space with the same field at every mode
/// agree on every prefix of the layout.
proof fn lemma_prefix_determined(all_encodings: Seq<usize>, a: usize, b: usize, m: int)
    requires
        wf_layout(all_encodings),
        0 <= m <= all_encodings.len(),
        forall|j: int|
            0 <= j < all_encodings.len() ==> #[trigger] mode_digit(all_encodings, a, j)
                == mode_digit(all_encodings, b, j),
    ensures
        (a & low_mask(prefix_bits(all_encodings, m) as usize)) == (b & low_mask(
            prefix_bits(all_encodings, m) as usize,
        )),
    decreases m,
{
    if m == 0 {
        assert((a & low_mask(0)) == (b & low_mask(0))) by (bit_vector);
    } else {
        lemma_prefix_determined(all_encodings, a, b, m - 1);
        lemma_mode_bits_in_range_int(all_encodings, m - 1);
        let lo = prefix_bits(all_encodings, m - 1);
        let e = all_encodings[m - 1];
        lemma_split_at(a, lo as usize, e);
        lemma_split_at(b, lo as usize, e);
        assert(mode_digit(all_encodings, a, m - 1) == mode_digit(all_encodings, b, m - 1));
        assert(prefix_bits(all_encodings, m) == lo + e);
    }
}

/// Scattering after packing gives a confined global index back: the
/// second inverse-indexing law.
pub proof fn lemma_offset_of_operator_index(
    all_encodings: Seq<usize>,
    positions: Seq<usize>,
    masks: Seq<usize>,
    shifts: Seq<usize>,
    x: usize,
)
    requires
        wf_layout(all_encodings),
        wf_positions(positions, all_encodings.len() as nat),
        positions_sorted(positions),
        masks_and_shifts_ok(all_encodings, positions, masks, shifts),
        confined_to_modes(all_encodings, positions, x),
    ensures
        offset_fold(
            operator_index_fold(x, shifts, masks, positions.len() as int),
            shifts,
            masks,
            positions.len() as int,
        ) == x,
{
    let len = positions.len() as int;
    let total = total_bits(all_encodings);
    lemma_usize_pow2_no_overflow(total);
    lemma_usize_shl_is_mul(1usize, total as usize);
    let u = operator_index_fold(x, shifts, masks, len);
    let w = offset_fold(u, shifts, masks, len);
    lemma_index_fold_digits(all_encodings, positions, masks, shifts, x, len);
    lemma_offset_fold_digits(all_encodings, positions, masks, shifts, u, len);
    assert forall|j: int|
        0 <= j < all_encodings.len() implies #[trigger] mode_digit(all_encodings, w, j)
        == mode_digit(all_encodings, x, j) by {
        if pos_selected(positions, j) {
            let r = choose|r: int| 0 <= r < positions.len() && positions[r] as int == j;
            assert(mode_digit(all_encodings, w, positions[r] as int) == packed_digit(
                all_encodings,
                positions,
                u,
                r,
            ));
        }
    }
    if len == 0 {
        assert(w == 0usize);
        assert forall|j: int|
            0 <= j < all_encodings.len() implies #[trigger] mode_digit(all_encodings, x, j)
            == 0 by {}
        lemma_prefix_determined(all_encodings, w, x, all_encodings.len() as int);
        lemma_mask_identity(x, total as usize);
        vstd::arithmetic::power2::lemma_pow2_pos(total);
        assert((0usize & low_mask(total as usize)) == 0usize) by (bit_vector);
    } else {
        lemma_entry_bounds(all_encodings, positions, len - 1);
        let hi = prefix_bits(all_encodings, positions[len - 1] as int) + all_encodings[
            positions[len - 1] as int] as nat;
        lemma_pow2_le(hi, total);
        lemma_prefix_determined(all_encodings, w, x, all_encodings.len() as int);
        lemma_mask_identity(x, total as usize);
        lemma_usize_pow2_no_overflow(hi);
        lemma_mask_identity(w, total as usize);
    }
}

} // verus!
