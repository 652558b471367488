use vstd::prelude::*;
use vstd::arithmetic::power2::{pow2, lemma_pow2_adds, lemma_pow2_pos, lemma_pow2_strictly_increases, lemma2_to64};
use vstd::bits::{lemma_usize_pow2_no_overflow, lemma_usize_shl_is_mul};

verus! {

// ---------------------------------------------------------------------------
// The bit-layout model.
//
// A mode layout is a sequence of encodings: mode `j` occupies the bits
// `[prefix_bits(E, j), prefix_bits(E, j + 1))` of a global state index.
// For a subset of modes, the packed operator index keeps only the bits of
// the chosen modes, moved down so that they sit contiguously, in the same
// relative order as the modes appear in the layout.
// ---------------------------------------------------------------------------

/// Number of bits taken by the first `n` modes of the layout.
pub open spec fn prefix_bits(all_encodings: Seq<usize>, n: int) -> nat
    decreases n,
{
    if n <= 0 {
        0
    } else {
        prefix_bits(all_encodings, n - 1) + if n - 1 < all_encodings.len() {
            all_encodings[n - 1] as nat
        } else {
            0
        }
    }
}

/// Number of bits taken by the whole layout.
pub open spec fn total_bits(all_encodings: Seq<usize>) -> nat {
    prefix_bits(all_encodings, all_encodings.len() as int)
}

/// A usable layout: every mode takes at least one bit and a global index,
/// together with a sign bit for banded offsets, fits in a machine word.
pub open spec fn wf_layout(all_encodings: Seq<usize>) -> bool {
    &&& total_bits(all_encodings) + 1 < usize::BITS
    &&& forall|j: int| 0 <= j < all_encodings.len() ==> 1 <= all_encodings[j]
}

/// Valid subset of mode positions: all in range and pairwise distinct.
pub open spec fn wf_positions(positions: Seq<usize>, modes: nat) -> bool {
    &&& forall|i: int| 0 <= i < positions.len() ==> (positions[i] as nat) < modes
    &&& forall|i: int, j: int| 0 <= i < j < positions.len() ==> positions[i] != positions[j]
}

/// Whether the entries are sorted strictly ascending by mode position.
pub open spec fn positions_sorted(positions: Seq<usize>) -> bool {
    forall|i: int, j: int| 0 <= i < j < positions.len() ==> positions[i] < positions[j]
}

/// Whether mode `m` is named by one of the entries of `positions`.
pub open spec fn pos_selected(positions: Seq<usize>, m: int) -> bool {
    exists|i: int| 0 <= i < positions.len() && positions[i] as int == m
}

/// Number of bits, among the first `p` modes, that belong to modes of the
/// subset `positions`.
pub open spec fn selected_bits_below(
    all_encodings: Seq<usize>,
    positions: Seq<usize>,
    p: int,
) -> nat
    decreases p,
{
    if p <= 0 {
        0
    } else {
        selected_bits_below(all_encodings, positions, p - 1)
            + if pos_selected(positions, p - 1) && p - 1 < all_encodings.len() {
            all_encodings[p - 1] as nat
        } else {
            0
        }
    }
}

/// Number of bits of the modes of the subset: the width of the packed
/// operator index.
pub open spec fn selected_bits(all_encodings: Seq<usize>, positions: Seq<usize>) -> nat {
    selected_bits_below(all_encodings, positions, all_encodings.len() as int)
}

/// The mask selecting the bits of mode `p` inside a global index.
pub open spec fn mode_mask(all_encodings: Seq<usize>, p: usize) -> nat {
    (pow2(all_encodings[p as int] as nat) - 1) as nat * pow2(prefix_bits(all_encodings, p as int))
}

/// How far the bits of mode `p` move down when the subset is packed.
pub open spec fn mode_shift(all_encodings: Seq<usize>, positions: Seq<usize>, p: usize) -> nat {
    (prefix_bits(all_encodings, p as int) - selected_bits_below(
        all_encodings,
        positions,
        p as int,
    )) as nat
}

/// The mask selecting the bits of mode `p` inside a packed operator index.
pub open spec fn mode_reduced_mask(
    all_encodings: Seq<usize>,
    positions: Seq<usize>,
    p: usize,
) -> nat {
    (pow2(all_encodings[p as int] as nat) - 1) as nat * pow2(
        selected_bits_below(all_encodings, positions, p as int),
    )
}

/// What `masks_and_offsets` returns: per entry, the global-side mask of the
/// entry's mode and the downward shift onto the packed index.
pub open spec fn masks_and_shifts_ok(
    all_encodings: Seq<usize>,
    positions: Seq<usize>,
    masks: Seq<usize>,
    shifts: Seq<usize>,
) -> bool {
    &&& masks.len() == positions.len()
    &&& shifts.len() == positions.len()
    &&& forall|i: int|
        0 <= i < positions.len() ==> masks[i] as nat == mode_mask(all_encodings, positions[i])
            && shifts[i] as nat == mode_shift(all_encodings, positions, positions[i])
}

// ---------------------------------------------------------------------------
// Facts about the model.
// ---------------------------------------------------------------------------

pub proof fn lemma_prefix_bits_mono(all_encodings: Seq<usize>, a: int, b: int)
    requires
        a <= b,
    ensures
        prefix_bits(all_encodings, a) <= prefix_bits(all_encodings, b),
    decreases b - a,
{
    if a < b {
        lemma_prefix_bits_mono(all_encodings, a, b - 1);
    }
}

pub proof fn lemma_selected_le_prefix(all_encodings: Seq<usize>, positions: Seq<usize>, p: int)
    ensures
        selected_bits_below(all_encodings, positions, p) <= prefix_bits(all_encodings, p),
    decreases p,
{
    if p > 0 {
        lemma_selected_le_prefix(all_encodings, positions, p - 1);
    }
}

/// The bits of mode `p` lie below the top of the layout.
pub proof fn lemma_mode_bits_in_range(all_encodings: Seq<usize>, p: usize)
    requires
        (p as int) < all_encodings.len(),
    ensures
        prefix_bits(all_encodings, p as int) + all_encodings[p as int] as nat <= total_bits(
            all_encodings,
        ),
{
    assert(prefix_bits(all_encodings, p as int + 1) == prefix_bits(all_encodings, p as int)
        + all_encodings[p as int] as nat);
    lemma_prefix_bits_mono(all_encodings, p as int + 1, all_encodings.len() as int);
}

/// The bits of the mode at index `m` lie below the top of the layout.
pub proof fn lemma_mode_bits_in_range_int(all_encodings: Seq<usize>, m: int)
    requires
        0 <= m < all_encodings.len(),
    ensures
        prefix_bits(all_encodings, m) + all_encodings[m] as nat <= total_bits(all_encodings),
{
    assert(prefix_bits(all_encodings, m + 1) == prefix_bits(all_encodings, m)
        + all_encodings[m] as nat);
    lemma_prefix_bits_mono(all_encodings, m + 1, all_encodings.len() as int);
}

/// A field of `e` bits starting at bit `lo` fits in a machine word whenever
/// `lo + e` does.
pub proof fn lemma_field_fits(e: nat, lo: nat)
    requires
        e + lo < usize::BITS,
    ensures
        (pow2(e) - 1) * pow2(lo) < pow2(e + lo),
        pow2(e + lo) <= usize::MAX + 1,
        (pow2(e) - 1) * pow2(lo) <= usize::MAX,
{
    lemma_pow2_pos(e);
    lemma_pow2_pos(lo);
    lemma_pow2_adds(e, lo);
    lemma_usize_pow2_no_overflow((e + lo) as nat);
    assert((pow2(e) - 1) * pow2(lo) < pow2(e) * pow2(lo)) by (nonlinear_arith)
        requires
            0 < pow2(e),
            0 < pow2(lo),
    ;
}

// ---------------------------------------------------------------------------
// Executable primitives.
// ---------------------------------------------------------------------------

/// Total number of encoding bits of the layout.
pub fn get_size(all_encodings: &[usize]) -> (r: usize)
    requires
        total_bits(all_encodings@) <= usize::MAX,
    ensures
        r as nat == total_bits(all_encodings@),
{
    let mut sum: usize = 0;
    let mut j: usize = 0;
    while j < all_encodings.len()
        invariant
            j <= all_encodings@.len(),
            sum as nat == prefix_bits(all_encodings@, j as int),
            total_bits(all_encodings@) <= usize::MAX,
        decreases all_encodings@.len() - j,
    {
        proof {
            lemma_prefix_bits_mono(all_encodings@, j as int + 1, all_encodings@.len() as int);
        }
        sum = sum + all_encodings[j];
        j += 1;
    }
    sum
}

/// For each entry of `terms` (a mode position), the mask of that mode's bits
/// in a global index and the downward shift that moves them to their packed
/// place in the operator index.
pub fn masks_and_offsets<const N: usize>(
    all_encodings: &[usize],
    terms: &[usize; N],
) -> (r: ([usize; N], [usize; N]))
    requires
        wf_layout(all_encodings@),
        wf_positions(terms@, all_encodings@.len() as nat),
    ensures
        masks_and_shifts_ok(all_encodings@, terms@, r.0@, r.1@),
{
    let mut shifts = [0usize; N];
    let mut masks = [0usize; N];
    proof {
        let ghost filled = vstd::array::spec_array_fill_for_copy_type::<usize, N>(0usize);
        assert(masks == filled);
        assert(shifts == filled);
        assert(forall|i: int| 0 <= i < N ==> filled.view()[i] == 0usize);
    }
    let mut iter: usize = 0;
    let mut start_full: usize = 0;
    let mut start_reduced: usize = 0;
    while iter < all_encodings.len()
        invariant
            wf_layout(all_encodings@),
            wf_positions(terms@, all_encodings@.len() as nat),
            iter <= all_encodings@.len(),
            start_full as nat == prefix_bits(all_encodings@, iter as int),
            start_reduced as nat == selected_bits_below(all_encodings@, terms@, iter as int),
            forall|i: int|
                0 <= i < N ==> if (terms@[i] as int) < iter {
                    masks@[i] as nat == mode_mask(all_encodings@, terms@[i]) && shifts@[i] as nat
                        == mode_shift(all_encodings@, terms@, terms@[i])
                } else {
                    masks@[i] == 0usize && shifts@[i] == 0usize
                },
        decreases all_encodings@.len() - iter,
    {
        let x = all_encodings[iter];
        proof {
            lemma_mode_bits_in_range(all_encodings@, iter);
            lemma_selected_le_prefix(all_encodings@, terms@, iter as int);
            lemma_usize_pow2_no_overflow(x as nat);
            lemma_usize_shl_is_mul(1usize, x);
            lemma_field_fits(x as nat, start_full as nat);
        }
        let low = (1usize << x) - 1;
        proof {
            lemma_usize_shl_is_mul(low, start_full);
        }
        let mask = low << start_full;
        let shift = start_full - start_reduced;
        let mut i: usize = 0;
        let mut matched = false;
        while i < N
            invariant
                i <= N,
                mask as nat == mode_mask(all_encodings@, iter),
                shift as nat == mode_shift(all_encodings@, terms@, iter),
                (iter as int) < all_encodings@.len(),
                wf_positions(terms@, all_encodings@.len() as nat),
                matched == exists|j: int| 0 <= j < i && terms@[j] == iter,
                forall|j: int|
                    0 <= j < N ==> if terms@[j] == iter && j < i {
                        masks@[j] as nat == mode_mask(all_encodings@, terms@[j]) && shifts@[j] as nat
                            == mode_shift(all_encodings@, terms@, terms@[j])
                    } else if (terms@[j] as int) < iter {
                        masks@[j] as nat == mode_mask(all_encodings@, terms@[j]) && shifts@[j] as nat
                            == mode_shift(all_encodings@, terms@, terms@[j])
                    } else {
                        masks@[j] == 0usize && shifts@[j] == 0usize
                    },
            decreases N - i,
        {
            if terms[i] == iter {
                masks[i] = mask;
                shifts[i] = shift;
                matched = true;
            }
            i += 1;
        }
        proof {
            assert(pos_selected(terms@, iter as int) == matched);
        }
        if matched {
            start_reduced = start_reduced + x;
        }
        start_full = start_full + x;
        iter += 1;
    }
    proof {
        assert(forall|i: int|
            0 <= i < N ==> (terms@[i] as int) < all_encodings@.len() as int);
    }
    (masks, shifts)
}

// ---------------------------------------------------------------------------
// Packing and unpacking of operator indices.
// ---------------------------------------------------------------------------

/// Value built by `get_operator_index`: the or of the masked, shifted-down
/// bit fields of the first `n` entries.
pub open spec fn operator_index_fold(
    index: usize,
    shifts: Seq<usize>,
    masks: Seq<usize>,
    n: int,
) -> usize
    decreases n,
{
    if n <= 0 {
        0usize
    } else {
        operator_index_fold(index, shifts, masks, n - 1) | ((masks[n - 1] & index) >> shifts[n
            - 1])
    }
}

/// Value built by `get_offset`: each packed field moved back up to the bits
/// of its mode in a global index.
pub open spec fn offset_fold(
    operator_index: usize,
    shifts: Seq<usize>,
    masks: Seq<usize>,
    n: int,
) -> usize
    decreases n,
{
    if n <= 0 {
        0usize
    } else {
        offset_fold(operator_index, shifts, masks, n - 1) | (((masks[n - 1] >> shifts[n - 1])
            & operator_index) << shifts[n - 1])
    }
}

/// A power of two never shrinks when its exponent grows.
pub proof fn lemma_pow2_le(a: nat, b: nat)
    requires
        a <= b,
    ensures
        pow2(a) <= pow2(b),
{
    lemma_pow2_adds(a, (b - a) as nat);
    lemma_pow2_pos(a);
    lemma_pow2_pos((b - a) as nat);
    assert(pow2(a) * pow2((b - a) as nat) >= pow2(a) * 1) by (nonlinear_arith)
        requires
            pow2((b - a) as nat) >= 1,
            pow2(a) >= 1,
    ;
}

/// `selected_bits_below` grows with its bound.
pub proof fn lemma_selected_mono(all_encodings: Seq<usize>, positions: Seq<usize>, a: int, b: int)
    requires
        a <= b,
    ensures
        selected_bits_below(all_encodings, positions, a) <= selected_bits_below(
            all_encodings,
            positions,
            b,
        ),
    decreases b - a,
{
    if a < b {
        lemma_selected_mono(all_encodings, positions, a, b - 1);
    }
}

/// A selected mode's packed bits lie below the top of the packed index.
pub proof fn lemma_selected_mode_in_range(
    all_encodings: Seq<usize>,
    positions: Seq<usize>,
    p: usize,
)
    requires
        pos_selected(positions, p as int),
        (p as int) < all_encodings.len(),
    ensures
        selected_bits_below(all_encodings, positions, p as int) + all_encodings[p as int] as nat
            <= selected_bits(all_encodings, positions),
{
    assert(selected_bits_below(all_encodings, positions, p as int + 1) == selected_bits_below(
        all_encodings,
        positions,
        p as int,
    ) + all_encodings[p as int] as nat);
    lemma_selected_mono(all_encodings, positions, p as int + 1, all_encodings.len() as int);
}

/// The or of two values below a power of two stays below it.
pub(crate) proof fn lemma_or_below(a: usize, b: usize, k: usize)
    requires
        k < usize::BITS,
        a < (1usize << k),
        b < (1usize << k),
    ensures
        (a | b) < (1usize << k),
{
    assert((a | b) < (1usize << k)) by (bit_vector)
        requires
            k < usize::BITS && a < (1usize << k) && b < (1usize << k),
    ;
}

/// A masked field, shifted down to its packed place, stays below the top
/// of that field's packed bits.
proof fn lemma_field_extract_below(x: usize, e: usize, lo: usize, ro: usize)
    requires
        e + lo < usize::BITS,
        ro <= lo,
    ensures
        ((((((1usize << e) - 1) as usize) << lo) & x) >> ((lo - ro) as usize)) < (1usize << ((e
            + ro) as usize)),
{
    assert(((((((1usize << e) - 1) as usize) << lo) & x) >> ((lo - ro) as usize)) < (1usize << ((e
        + ro) as usize))) by (bit_vector)
        requires
            e + lo < usize::BITS && ro <= lo,
    ;
}

/// A packed operator index always lies below the size of the packed space:
/// two to the number of selected bits.
pub proof fn lemma_operator_index_fold_below(
    all_encodings: Seq<usize>,
    positions: Seq<usize>,
    masks: Seq<usize>,
    shifts: Seq<usize>,
    x: usize,
    n: int,
)
    requires
        wf_layout(all_encodings),
        wf_positions(positions, all_encodings.len() as nat),
        masks_and_shifts_ok(all_encodings, positions, masks, shifts),
        0 <= n <= positions.len(),
    ensures
        (operator_index_fold(x, shifts, masks, n) as nat) < pow2(
            selected_bits(all_encodings, positions),
        ),
    decreases n,
{
    let sel = selected_bits(all_encodings, positions);
    lemma_selected_le_prefix(all_encodings, positions, all_encodings.len() as int);
    lemma_usize_pow2_no_overflow(sel);
    lemma_usize_shl_is_mul(1usize, sel as usize);
    lemma_pow2_pos(sel);
    if n == 0 {
    } else {
        lemma_operator_index_fold_below(all_encodings, positions, masks, shifts, x, n - 1);
        let p = positions[n - 1];
        let e = all_encodings[p as int];
        let lo = prefix_bits(all_encodings, p as int);
        let ro = selected_bits_below(all_encodings, positions, p as int);
        lemma_mode_bits_in_range(all_encodings, p);
        lemma_selected_le_prefix(all_encodings, positions, p as int);
        assert(pos_selected(positions, p as int)) by {
            assert(positions[n - 1] == p);
        }
        lemma_selected_mode_in_range(all_encodings, positions, p);
        lemma_usize_pow2_no_overflow(e as nat);
        lemma_usize_shl_is_mul(1usize, e);
        lemma_usize_pow2_no_overflow(lo);
        lemma_usize_shl_is_mul(1usize, lo as usize);
        lemma_field_fits(e as nat, lo);
        lemma_usize_shl_is_mul(((1usize << e) - 1) as usize, lo as usize);
        assert(masks[n - 1] == (((1usize << e) - 1) as usize) << (lo as usize));
        assert(shifts[n - 1] == ((lo - ro) as usize));
        lemma_field_extract_below(x, e, lo as usize, ro as usize);
        lemma_usize_pow2_no_overflow((e + ro) as nat);
        lemma_usize_shl_is_mul(1usize, (e + ro) as usize);
        lemma_pow2_le((e + ro) as nat, sel);
        assert(((masks[n - 1] & x) >> shifts[n - 1]) < (1usize << ((e + ro) as usize)));
        assert((1usize << ((e + ro) as usize)) as nat <= (1usize << (sel as usize)) as nat);
        lemma_or_below(
            operator_index_fold(x, shifts, masks, n - 1),
            (masks[n - 1] & x) >> shifts[n - 1],
            sel as usize,
        );
    }
}

/// Packs the bits of the chosen modes of a global index contiguously.
pub fn get_operator_index<const N: usize>(
    index: usize,
    shifts: &[usize; N],
    masks: &[usize; N],
) -> (r: usize)
    requires
        forall|i: int| 0 <= i < N ==> shifts@[i] < usize::BITS,
    ensures
        r == operator_index_fold(index, shifts@, masks@, N as int),
{
    let mut operator_index: usize = 0;
    let mut i: usize = 0;
    while i < N
        invariant
            i <= N,
            forall|j: int| 0 <= j < N ==> shifts@[j] < usize::BITS,
            operator_index == operator_index_fold(index, shifts@, masks@, i as int),
        decreases N - i,
    {
        operator_index = operator_index | ((masks[i] & index) >> shifts[i]);
        i += 1;
    }
    operator_index
}

/// Moves the fields of a packed operator index back to the bit positions
/// the corresponding modes hold in a global index.
pub fn get_offset<const N: usize>(
    operator_index: usize,
    shifts: &[usize; N],
    masks: &[usize; N],
) -> (r: usize)
    requires
        forall|i: int| 0 <= i < N ==> shifts@[i] < usize::BITS,
    ensures
        r == offset_fold(operator_index, shifts@, masks@, N as int),
{
    let mut index: usize = 0;
    let mut i: usize = 0;
    while i < N
        invariant
            i <= N,
            forall|j: int| 0 <= j < N ==> shifts@[j] < usize::BITS,
            index == offset_fold(operator_index, shifts@, masks@, i as int),
        decreases N - i,
    {
        index = index | (((masks[i] >> shifts[i]) & operator_index) << shifts[i]);
        i += 1;
    }
    index
}

// ---------------------------------------------------------------------------
// Batch iteration over the complement of a subset.
// ---------------------------------------------------------------------------

/// Number of bits, among the first `p` modes, that do not belong to the
/// subset.
pub open spec fn complement_bits_below(
    all_encodings: Seq<usize>,
    positions: Seq<usize>,
    p: int,
) -> nat {
    (prefix_bits(all_encodings, p) - selected_bits_below(all_encodings, positions, p)) as nat
}

/// Number of bits of all modes outside the subset.
pub open spec fn complement_bits(all_encodings: Seq<usize>, positions: Seq<usize>) -> nat {
    complement_bits_below(all_encodings, positions, all_encodings.len() as int)
}

/// Sum of the encodings of the modes named by the first `n` entries of
/// `positions`.
pub open spec fn entries_bits(all_encodings: Seq<usize>, positions: Seq<usize>, n: int) -> nat
    decreases n,
{
    if n <= 0 {
        0
    } else {
        entries_bits(all_encodings, positions, n - 1) + if (positions[n - 1] as int)
            < all_encodings.len() {
            all_encodings[positions[n - 1] as int] as nat
        } else {
            0
        }
    }
}

/// For pairwise distinct entries, summing the encodings entry by entry
/// counts each selected mode exactly once.
pub proof fn lemma_entries_bits_eq_selected(all_encodings: Seq<usize>, positions: Seq<usize>)
    requires
        wf_positions(positions, all_encodings.len() as nat),
    ensures
        entries_bits(all_encodings, positions, positions.len() as int) == selected_bits(
            all_encodings,
            positions,
        ),
    decreases positions.len(),
{
    if positions.len() == 0 {
        lemma_selected_empty(all_encodings, positions, all_encodings.len() as int);
    } else {
        let shorter = positions.drop_last();
        let v = positions.last() as int;
        assert(wf_positions(shorter, all_encodings.len() as nat));
        lemma_entries_bits_eq_selected(all_encodings, shorter);
        assert(entries_bits(all_encodings, positions, positions.len() - 1) == entries_bits(
            all_encodings,
            shorter,
            shorter.len() as int,
        )) by {
            lemma_entries_bits_prefix_agree(all_encodings, positions, shorter, positions.len() - 1);
        }
        lemma_selected_drop_last(all_encodings, positions, all_encodings.len() as int);
        assert(0 <= v < all_encodings.len());
        assert(entries_bits(all_encodings, positions, positions.len() as int) == entries_bits(
            all_encodings,
            positions,
            positions.len() - 1,
        ) + all_encodings[v] as nat);
        assert(selected_bits(all_encodings, positions) == selected_bits(all_encodings, shorter)
            + all_encodings[v] as nat);
    }
}

/// An empty subset selects no bits.
proof fn lemma_selected_empty(all_encodings: Seq<usize>, positions: Seq<usize>, p: int)
    requires
        positions.len() == 0,
    ensures
        selected_bits_below(all_encodings, positions, p) == 0,
    decreases p,
{
    if p > 0 {
        lemma_selected_empty(all_encodings, positions, p - 1);
    }
}

/// `entries_bits` only looks at the first `n` entries.
proof fn lemma_entries_bits_prefix_agree(
    all_encodings: Seq<usize>,
    a: Seq<usize>,
    b: Seq<usize>,
    n: int,
)
    requires
        n <= a.len(),
        n <= b.len(),
        forall|i: int| 0 <= i < n ==> a[i] == b[i],
    ensures
        entries_bits(all_encodings, a, n) == entries_bits(all_encodings, b, n),
    decreases n,
{
    if n > 0 {
        lemma_entries_bits_prefix_agree(all_encodings, a, b, n - 1);
    }
}

/// Dropping the last entry of a distinct subset removes exactly that mode's
/// contribution from `selected_bits_below`.
proof fn lemma_selected_drop_last(all_encodings: Seq<usize>, positions: Seq<usize>, p: int)
    requires
        positions.len() > 0,
        forall|i: int, j: int| 0 <= i < j < positions.len() ==> positions[i] != positions[j],
    ensures
        selected_bits_below(all_encodings, positions, p) == selected_bits_below(
            all_encodings,
            positions.drop_last(),
            p,
        ) + if (positions.last() as int) < p && (positions.last() as int) < all_encodings.len() {
            all_encodings[positions.last() as int] as nat
        } else {
            0
        },
    decreases p,
{
    let shorter = positions.drop_last();
    let v = positions.last() as int;
    if p > 0 {
        lemma_selected_drop_last(all_encodings, positions, p - 1);
        if p - 1 == v {
            assert(pos_selected(positions, p - 1)) by {
                assert(positions[positions.len() - 1] as int == p - 1);
            }
            assert(!pos_selected(shorter, p - 1)) by {
                if pos_selected(shorter, p - 1) {
                    let j = choose|j: int| 0 <= j < shorter.len() && shorter[j] as int == p - 1;
                    assert(positions[j] as int == p - 1);
                }
            }
        } else {
            assert(pos_selected(positions, p - 1) == pos_selected(shorter, p - 1)) by {
                if pos_selected(positions, p - 1) {
                    let j = choose|j: int|
                        0 <= j < positions.len() && positions[j] as int == p - 1;
                    assert(j != positions.len() - 1);
                    assert(shorter[j] as int == p - 1);
                }
                if pos_selected(shorter, p - 1) {
                    let j = choose|j: int| 0 <= j < shorter.len() && shorter[j] as int == p - 1;
                    assert(positions[j] as int == p - 1);
                }
            }
        }
    }
}

/// Length of a batch sweep: one step for every joint value of the modes
/// outside the subset.
pub fn get_batch_size<const N: usize>(
    all_encodings: &[usize],
    positions: &[usize; N],
) -> (r: usize)
    requires
        wf_layout(all_encodings@),
    ensures
        r as nat == pow2(complement_bits(all_encodings@, positions@)),
{
    proof {
        lemma2_to64();
    }
    let mut size: usize = 1;
    let mut iter: usize = 0;
    while iter < all_encodings.len()
        invariant
            wf_layout(all_encodings@),
            iter <= all_encodings@.len(),
            size as nat == pow2(complement_bits_below(all_encodings@, positions@, iter as int)),
        decreases all_encodings@.len() - iter,
    {
        let x = all_encodings[iter];
        let mut excluded = false;
        let mut i: usize = 0;
        while i < N
            invariant
                i <= N,
                excluded == exists|j: int| 0 <= j < i && positions@[j] == iter,
            decreases N - i,
        {
            if positions[i] == iter {
                excluded = true;
            }
            i += 1;
        }
        proof {
            assert(pos_selected(positions@, iter as int) == excluded);
            lemma_selected_le_prefix(all_encodings@, positions@, iter as int);
            lemma_selected_le_prefix(all_encodings@, positions@, iter as int + 1);
            lemma_mode_bits_in_range(all_encodings@, iter);
        }
        if !excluded {
            proof {
                let c = complement_bits_below(all_encodings@, positions@, iter as int);
                lemma_usize_pow2_no_overflow(x as nat);
                lemma_usize_shl_is_mul(1usize, x);
                lemma_pow2_adds(c, x as nat);
                lemma_usize_pow2_no_overflow((c + x) as nat);
            }
            size = size * (1usize << x);
        }
        iter += 1;
    }
    size
}

/// For each entry: the stride of that mode, the number of global indices
/// spanned by one step of its lowest bit.
pub fn get_strides<const N: usize>(
    all_encodings: &[usize],
    positions: &[usize; N],
) -> (r: [usize; N])
    requires
        wf_layout(all_encodings@),
        forall|i: int| 0 <= i < N ==> (positions@[i] as int) < all_encodings@.len(),
    ensures
        forall|i: int|
            0 <= i < N ==> r@[i] as nat == pow2(
                prefix_bits(all_encodings@, positions@[i] as int),
            ),
{
    let mut strides = [0usize; N];
    let mut i: usize = 0;
    while i < N
        invariant
            wf_layout(all_encodings@),
            forall|k: int| 0 <= k < N ==> (positions@[k] as int) < all_encodings@.len(),
            i <= N,
            forall|k: int|
                0 <= k < i ==> strides@[k] as nat == pow2(
                    prefix_bits(all_encodings@, positions@[k] as int),
                ),
        decreases N - i,
    {
        proof {
            lemma2_to64();
        }
        let pos = positions[i];
        let mut stride: usize = 1;
        let mut j: usize = 0;
        while j < pos
            invariant
                wf_layout(all_encodings@),
                (pos as int) < all_encodings@.len(),
                j <= pos,
                stride as nat == pow2(prefix_bits(all_encodings@, j as int)),
            decreases pos - j,
        {
            let x = all_encodings[j];
            proof {
                lemma_mode_bits_in_range(all_encodings@, j);
                lemma_prefix_bits_mono(all_encodings@, j as int + 1, all_encodings@.len() as int);
                lemma_usize_pow2_no_overflow(x as nat);
                lemma_usize_shl_is_mul(1usize, x);
                lemma_pow2_adds(prefix_bits(all_encodings@, j as int), x as nat);
                lemma_usize_pow2_no_overflow(
                    (prefix_bits(all_encodings@, j as int) + x) as nat,
                );
            }
            stride = stride * (1usize << x);
            j += 1;
        }
        strides[i] = stride;
        i += 1;
    }
    strides
}

/// For each entry, the encoding of the mode it names.
pub fn get_target_encodings<const N: usize>(
    all_encodings: &[usize],
    positions: &[usize; N],
) -> (r: [usize; N])
    requires
        forall|i: int| 0 <= i < N ==> (positions@[i] as int) < all_encodings@.len(),
    ensures
        forall|i: int| 0 <= i < N ==> r@[i] == all_encodings@[positions@[i] as int],
{
    let mut target_encodings = [0usize; N];
    let mut i: usize = 0;
    while i < N
        invariant
            forall|k: int| 0 <= k < N ==> (positions@[k] as int) < all_encodings@.len(),
            i <= N,
            forall|k: int| 0 <= k < i ==> target_encodings@[k] == all_encodings@[positions@[k] as int],
        decreases N - i,
    {
        target_encodings[i] = all_encodings[positions[i]];
        i += 1;
    }
    target_encodings
}

/// For each stride, the mask keeping the bits at and above that mode's
/// lowest bit: all ones except for the `log2(stride)` lowest bits.
pub fn get_masks<const N: usize>(sorted_strides: &[usize; N]) -> (r: [usize; N])
    requires
        forall|i: int| 0 <= i < N ==> 1 <= sorted_strides@[i],
    ensures
        forall|i: int| 0 <= i < N ==> r@[i] == (!((sorted_strides@[i] - 1) as usize)),
{
    let mut masks = [0usize; N];
    let mut i: usize = 0;
    while i < N
        invariant
            forall|k: int| 0 <= k < N ==> 1 <= sorted_strides@[k],
            i <= N,
            forall|k: int| 0 <= k < i ==> masks@[k] == (!((sorted_strides@[k] - 1) as usize)),
        decreases N - i,
    {
        masks[i] = !(sorted_strides[i] - 1);
        i += 1;
    }
    masks
}

/// Value built by `get_batch_index`: for each entry in turn, the bits at and
/// above the entry's mode move up by its encoding, opening a zero field.
pub open spec fn batch_index_fold(
    index: usize,
    masks: Seq<usize>,
    encodings: Seq<usize>,
    n: int,
) -> usize
    decreases n,
{
    if n <= 0 {
        index
    } else {
        let prev = batch_index_fold(index, masks, encodings, n - 1);
        ((masks[n - 1] & prev) << encodings[n - 1]) | ((!masks[n - 1]) & prev)
    }
}

/// Spreads a batch counter over the modes outside the subset: inserts a zero
/// bit field at each subset mode, in ascending position order.
pub fn get_batch_index<const N: usize>(
    index: usize,
    sorted_masks: &[usize; N],
    sorted_target_encodings: &[usize; N],
) -> (r: usize)
    requires
        forall|i: int| 0 <= i < N ==> sorted_target_encodings@[i] < usize::BITS,
    ensures
        r == batch_index_fold(index, sorted_masks@, sorted_target_encodings@, N as int),
{
    let mut idx = index;
    let mut i: usize = 0;
    while i < N
        invariant
            i <= N,
            forall|j: int| 0 <= j < N ==> sorted_target_encodings@[j] < usize::BITS,
            idx == batch_index_fold(index, sorted_masks@, sorted_target_encodings@, i as int),
        decreases N - i,
    {
        idx = ((sorted_masks[i] & idx) << sorted_target_encodings[i]) | ((!sorted_masks[i])
            & idx);
        i += 1;
    }
    idx
}

/// Side length of the reduced density matrix of the subset.
pub fn get_density_size<const N: usize>(
    all_encodings: &[usize],
    positions: &[usize; N],
) -> (r: usize)
    requires
        wf_layout(all_encodings@),
        wf_positions(positions@, all_encodings@.len() as nat),
    ensures
        r as nat == pow2(selected_bits(all_encodings@, positions@)),
{
    let mut bits: usize = 0;
    let mut i: usize = 0;
    while i < N
        invariant
            wf_layout(all_encodings@),
            wf_positions(positions@, all_encodings@.len() as nat),
            i <= N,
            bits as nat == entries_bits(all_encodings@, positions@, i as int),
            entries_bits(all_encodings@, positions@, i as int) <= selected_bits(
                all_encodings@,
                positions@,
            ),
        decreases N - i,
    {
        proof {
            lemma_entries_bits_le_selected(all_encodings@, positions@, i as int + 1);
            lemma_selected_le_prefix(
                all_encodings@,
                positions@,
                all_encodings@.len() as int,
            );
        }
        bits = bits + all_encodings[positions[i]];
        i += 1;
    }
    proof {
        lemma_entries_bits_eq_selected(all_encodings@, positions@);
        lemma_selected_le_prefix(all_encodings@, positions@, all_encodings@.len() as int);
        lemma_usize_pow2_no_overflow(bits as nat);
        lemma_usize_shl_is_mul(1usize, bits);
    }
    1usize << bits
}

/// For distinct entries, partial entry sums stay below the full subset sum.
pub(crate) proof fn lemma_entries_bits_le_selected(
    all_encodings: Seq<usize>,
    positions: Seq<usize>,
    n: int,
)
    requires
        wf_positions(positions, all_encodings.len() as nat),
        0 <= n <= positions.len(),
    ensures
        entries_bits(all_encodings, positions, n) <= selected_bits(all_encodings, positions),
{
    lemma_entries_bits_eq_selected(all_encodings, positions.take(n));
    assert(entries_bits(all_encodings, positions.take(n), n) == entries_bits(
        all_encodings,
        positions,
        n,
    )) by {
        lemma_entries_bits_prefix_agree(all_encodings, positions.take(n), positions, n);
    }
    assert(forall|m: int|
        pos_selected(positions.take(n), m) ==> pos_selected(positions, m)) by {
        assert forall|m: int| pos_selected(positions.take(n), m) implies pos_selected(
            positions,
            m,
        ) by {
            let j = choose|j: int|
                0 <= j < positions.take(n).len() && positions.take(n)[j] as int == m;
            assert(positions[j] as int == m);
        }
    }
    lemma_selected_subset_le(all_encodings, positions.take(n), positions, all_encodings.len() as int);
}

/// A subset of the positions selects no more bits.
proof fn lemma_selected_subset_le(
    all_encodings: Seq<usize>,
    smaller: Seq<usize>,
    larger: Seq<usize>,
    p: int,
)
    requires
        forall|m: int| pos_selected(smaller, m) ==> pos_selected(larger, m),
    ensures
        selected_bits_below(all_encodings, smaller, p) <= selected_bits_below(
            all_encodings,
            larger,
            p,
        ),
    decreases p,
{
    if p > 0 {
        lemma_selected_subset_le(all_encodings, smaller, larger, p - 1);
    }
}

/// The masks and shifts used to scatter a density-matrix row or column index
/// into a global state index: per entry, the mask of the mode's bits inside
/// the packed index and the upward shift to its global place.
pub fn density_matrix_shifts_and_masks<const N: usize>(
    all_encodings: &[usize],
    terms: &[usize; N],
) -> (r: ([usize; N], [usize; N]))
    requires
        wf_layout(all_encodings@),
        wf_positions(terms@, all_encodings@.len() as nat),
    ensures
        r.0@.len() == N && r.1@.len() == N,
        forall|i: int|
            0 <= i < N ==> r.0@[i] as nat == mode_reduced_mask(all_encodings@, terms@, terms@[i])
                && r.1@[i] as nat == mode_shift(all_encodings@, terms@, terms@[i]),
{
    let mut shifts = [0usize; N];
    let mut masks = [0usize; N];
    proof {
        let ghost filled = vstd::array::spec_array_fill_for_copy_type::<usize, N>(0usize);
        assert(masks == filled);
        assert(shifts == filled);
        assert(forall|i: int| 0 <= i < N ==> filled.view()[i] == 0usize);
    }
    let mut iter: usize = 0;
    let mut start_full: usize = 0;
    let mut start_reduced: usize = 0;
    while iter < all_encodings.len()
        invariant
            wf_layout(all_encodings@),
            wf_positions(terms@, all_encodings@.len() as nat),
            iter <= all_encodings@.len(),
            start_full as nat == prefix_bits(all_encodings@, iter as int),
            start_reduced as nat == selected_bits_below(all_encodings@, terms@, iter as int),
            forall|i: int|
                0 <= i < N ==> if (terms@[i] as int) < iter {
                    masks@[i] as nat == mode_reduced_mask(all_encodings@, terms@, terms@[i])
                        && shifts@[i] as nat == mode_shift(all_encodings@, terms@, terms@[i])
                } else {
                    masks@[i] == 0usize && shifts@[i] == 0usize
                },
        decreases all_encodings@.len() - iter,
    {
        let x = all_encodings[iter];
        proof {
            lemma_mode_bits_in_range(all_encodings@, iter);
            lemma_selected_le_prefix(all_encodings@, terms@, iter as int);
            lemma_usize_pow2_no_overflow(x as nat);
            lemma_usize_shl_is_mul(1usize, x);
            lemma_field_fits(x as nat, start_reduced as nat);
        }
        let low = (1usize << x) - 1;
        proof {
            lemma_usize_shl_is_mul(low, start_reduced);
        }
        let mask = low << start_reduced;
        let shift = start_full - start_reduced;
        let mut i: usize = 0;
        let mut matched = false;
        while i < N
            invariant
                i <= N,
                mask as nat == mode_reduced_mask(all_encodings@, terms@, iter),
                shift as nat == mode_shift(all_encodings@, terms@, iter),
                (iter as int) < all_encodings@.len(),
                wf_positions(terms@, all_encodings@.len() as nat),
                matched == exists|j: int| 0 <= j < i && terms@[j] == iter,
                forall|j: int|
                    0 <= j < N ==> if terms@[j] == iter && j < i {
                        masks@[j] as nat == mode_reduced_mask(all_encodings@, terms@, terms@[j])
                            && shifts@[j] as nat == mode_shift(all_encodings@, terms@, terms@[j])
                    } else if (terms@[j] as int) < iter {
                        masks@[j] as nat == mode_reduced_mask(all_encodings@, terms@, terms@[j])
                            && shifts@[j] as nat == mode_shift(all_encodings@, terms@, terms@[j])
                    } else {
                        masks@[j] == 0usize && shifts@[j] == 0usize
                    },
            decreases N - i,
        {
            if terms[i] == iter {
                masks[i] = mask;
                shifts[i] = shift;
                matched = true;
            }
            i += 1;
        }
        proof {
            assert(pos_selected(terms@, iter as int) == matched);
        }
        if matched {
            start_reduced = start_reduced + x;
        }
        start_full = start_full + x;
        iter += 1;
    }
    (masks, shifts)
}

/// Value built by `density_matrix_index_to_state_index`.
pub open spec fn state_index_fold(
    index: usize,
    shifts: Seq<usize>,
    masks: Seq<usize>,
    n: int,
) -> usize
    decreases n,
{
    if n <= 0 {
        0usize
    } else {
        state_index_fold(index, shifts, masks, n - 1) | ((masks[n - 1] & index) << shifts[n - 1])
    }
}

/// Scatters the bits of a packed density-matrix index to the bit positions
/// its modes hold in a global state index.
pub fn density_matrix_index_to_state_index<const N: usize>(
    index: usize,
    shifts: &[usize; N],
    masks: &[usize; N],
) -> (r: usize)
    requires
        forall|i: int| 0 <= i < N ==> shifts@[i] < usize::BITS,
    ensures
        r == state_index_fold(index, shifts@, masks@, N as int),
{
    let mut state_index: usize = 0;
    let mut i: usize = 0;
    while i < N
        invariant
            i <= N,
            forall|j: int| 0 <= j < N ==> shifts@[j] < usize::BITS,
            state_index == state_index_fold(index, shifts@, masks@, i as int),
        decreases N - i,
    {
        state_index = state_index | ((masks[i] & index) << shifts[i]);
        i += 1;
    }
    state_index
}


} // verus!
