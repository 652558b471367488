use vstd::prelude::*;
use vstd::arithmetic::power2::{pow2, lemma_pow2_adds, lemma_pow2_pos, lemma2_to64};
use vstd::bits::{lemma_usize_pow2_no_overflow, lemma_usize_shl_is_mul};
use vstd::seq_lib::to_multiset_update;
use vstd::arithmetic::div_mod::lemma_div_denominator;
use crate::complex::{
    cfrom_nat, cmul, csqrt, nat_of, prod_of, sqrt_of, C64,
};
use crate::indexing::{
    entries_bits, lemma_entries_bits_eq_selected, lemma_mode_bits_in_range,
    lemma_prefix_bits_mono, lemma_selected_le_prefix, positions_sorted, prefix_bits,
    selected_bits, total_bits, wf_layout, wf_positions,
};

verus! {

/// The four single-mode operator kinds: creation, annihilation, the number
/// operator and its square.
#[derive(Clone, Copy, Debug, PartialEq, Eq, Structural)]
pub enum Op {
    Rising,
    Lowering,
    N,
    N2,
}

/// One tensor-product term of the Hamiltonian: an operator kind for each of
/// `N` distinct mode positions. The entries need not be sorted by position.
#[derive(Clone, Copy, Debug, PartialEq, Eq)]
pub struct Term<const N: usize> {
    pub positions: [usize; N],
    pub op_types: [Op; N],
}

/// Swapping creation and annihilation transposes the operator; the number
/// kinds are symmetric.
pub open spec fn op_transpose(op: Op) -> Op {
    match op {
        Op::Rising => Op::Lowering,
        Op::Lowering => Op::Rising,
        Op::N => Op::N,
        Op::N2 => Op::N2,
    }
}

/// How the operator moves a local occupation number: creation raises the
/// local index, annihilation lowers it, the number kinds leave it.
pub open spec fn op_shift(op: Op) -> int {
    match op {
        Op::Rising => -1,
        Op::Lowering => 1,
        Op::N => 0,
        Op::N2 => 0,
    }
}

/// Order of the kinds as declared, used to break ties when sorting the
/// entries of a term by position.
pub open spec fn op_rank(op: Op) -> int {
    match op {
        Op::Rising => 0,
        Op::Lowering => 1,
        Op::N => 2,
        Op::N2 => 3,
    }
}

/// The entries of a term as (position, kind) pairs.
pub open spec fn term_pairs<const N: usize>(t: Term<N>) -> Seq<(usize, Op)> {
    Seq::new(N as nat, |i: int| (t.positions@[i], t.op_types@[i]))
}

/// Order on term entries: by position, ties broken by kind rank.
pub open spec fn pair_le(a: (usize, Op), b: (usize, Op)) -> bool {
    a.0 < b.0 || (a.0 == b.0 && op_rank(a.1) <= op_rank(b.1))
}

fn op_rank_of(op: Op) -> (r: u8)
    ensures
        r as int == op_rank(op),
{
    match op {
        Op::Rising => 0,
        Op::Lowering => 1,
        Op::N => 2,
        Op::N2 => 3,
    }
}

impl<const N: usize> Term<N> {
    /// Replaces every creation operator by an annihilation operator and the
    /// other way round, leaving positions and number kinds alone.
    pub fn transpose(&self) -> (r: Self)
        ensures
            r.positions@ == self.positions@,
            r.op_types@.len() == N,
            forall|i: int| 0 <= i < N ==> r.op_types@[i] == op_transpose(self.op_types@[i]),
    {
        let mut transposed_term = self.clone();
        let mut i: usize = 0;
        while i < N
            invariant
                i <= N,
                transposed_term.positions@ == self.positions@,
                forall|j: int|
                    0 <= j < i ==> transposed_term.op_types@[j] == op_transpose(
                        self.op_types@[j],
                    ),
                forall|j: int| i <= j < N ==> transposed_term.op_types@[j] == self.op_types@[j],
            decreases N - i,
        {
            match transposed_term.op_types[i] {
                Op::Lowering => {
                    transposed_term.op_types[i] = Op::Rising;
                },
                Op::Rising => {
                    transposed_term.op_types[i] = Op::Lowering;
                },
                Op::N => {},
                Op::N2 => {},
            }
            i += 1;
        }
        transposed_term
    }

    /// Sorts the entries of the term by position, ties broken by kind rank,
    /// keeping the same collection of (position, kind) pairs.
    pub fn sort(&mut self)
        ensures
            forall|a: int, b: int|
                0 <= a < b < N ==> pair_le(term_pairs(*final(self))[a], term_pairs(*final(self))[b]),
            term_pairs(*final(self)).to_multiset() == term_pairs(*old(self)).to_multiset(),
    {
        if N < 2 {
            return ;
        }
        let ghost orig = term_pairs(*self);
        let mut i: usize = 1;
        while i < N
            invariant
                2 <= N,
                1 <= i <= N,
                term_pairs(*self).to_multiset() == orig.to_multiset(),
                forall|a: int, b: int|
                    0 <= a < b < i ==> pair_le(term_pairs(*self)[a], term_pairs(*self)[b]),
            decreases N - i,
        {
            let mut j: usize = i;
            let mut done = false;
            while !done && j > 0
                invariant
                    2 <= N,
                    1 <= i < N,
                    j <= i,
                    term_pairs(*self).to_multiset() == orig.to_multiset(),
                    forall|a: int, b: int|
                        0 <= a < b <= i && b != j ==> pair_le(
                            term_pairs(*self)[a],
                            term_pairs(*self)[b],
                        ),
                    j < i ==> pair_le(term_pairs(*self)[j as int], term_pairs(*self)[j + 1]),
                    done ==> 1 <= j && pair_le(
                        term_pairs(*self)[j - 1],
                        term_pairs(*self)[j as int],
                    ),
                decreases j + if done {
                    0int
                } else {
                    1int
                },
            {
                let swap_needed = if self.positions[j - 1] > self.positions[j] {
                    true
                } else if self.positions[j - 1] == self.positions[j] {
                    op_rank_of(self.op_types[j - 1]) > op_rank_of(self.op_types[j])
                } else {
                    false
                };
                if !swap_needed {
                    done = true;
                } else {
                    let ghost before = term_pairs(*self);
                    let tmp_pos = self.positions[j - 1];
                    let tmp_op = self.op_types[j - 1];
                    self.positions[j - 1] = self.positions[j];
                    self.op_types[j - 1] = self.op_types[j];
                    self.positions[j] = tmp_pos;
                    self.op_types[j] = tmp_op;
                    proof {
                        let after = term_pairs(*self);
                        assert(after =~= before.update(j - 1, before[j as int]).update(
                            j as int,
                            before[j - 1],
                        ));
                        lemma_swap_preserves_multiset(before, j - 1, j as int);
                    }
                    j -= 1;
                }
            }
            proof {
                assert forall|a: int, b: int|
                    0 <= a < b <= i implies pair_le(
                    term_pairs(*self)[a],
                    term_pairs(*self)[b],
                ) by {
                    if b == j {
                        assert(done);
                        if a < j - 1 {
                            assert(pair_le(term_pairs(*self)[a], term_pairs(*self)[j - 1]));
                        }
                    }
                }
            }
            i += 1;
        }
    }
}

/// Swapping two entries of a sequence keeps its multiset of values.
proof fn lemma_swap_preserves_multiset<A>(s: Seq<A>, i: int, j: int)
    requires
        0 <= i < s.len(),
        0 <= j < s.len(),
        i != j,
    ensures
        s.update(i, s[j]).update(j, s[i]).to_multiset() == s.to_multiset(),
{
    broadcast use vstd::multiset::group_multiset_axioms;

    let t = s.update(i, s[j]);
    to_multiset_update(s, i, s[j]);
    to_multiset_update(t, j, s[i]);
    s.to_multiset_ensures();
    t.to_multiset_ensures();
    assert(t[j] == s[j]);
    assert(s.contains(s[i]));
    assert(s.to_multiset().count(s[i]) > 0);
    assert(t.update(j, s[i]).to_multiset() =~= s.to_multiset());
}

// ---------------------------------------------------------------------------
// The diagonal offset of a term: the shift, inside the packed operator-index
// space, between the stored diagonal and the transposed one.
// ---------------------------------------------------------------------------

/// Value accumulated by `get_diagonal_offset` over the entries from `i` on,
/// scanned from the last entry towards the first: each step scales by the
/// local dimension of the entry's mode and adds the kind's shift.
pub open spec fn diagonal_offset_from<const N: usize>(
    term: Term<N>,
    all_encodings: Seq<usize>,
    i: int,
) -> int
    decreases N - i,
{
    if i < 0 || i >= N {
        0
    } else {
        diagonal_offset_from(term, all_encodings, i + 1) * pow2(
            all_encodings[term.positions@[i] as int] as nat,
        ) + op_shift(term.op_types@[i])
    }
}

/// The diagonal offset of the whole term.
pub open spec fn diagonal_offset<const N: usize>(term: Term<N>, all_encodings: Seq<usize>) -> int {
    diagonal_offset_from(term, all_encodings, 0)
}

/// Sum of the encodings of the modes named by the entries from `i` on.
pub open spec fn suffix_entry_bits(
    positions: Seq<usize>,
    all_encodings: Seq<usize>,
    i: int,
) -> nat
    decreases positions.len() - i,
{
    if i < 0 || i >= positions.len() {
        0
    } else {
        (if (positions[i] as int) < all_encodings.len() {
            all_encodings[positions[i] as int] as nat
        } else {
            0
        }) + suffix_entry_bits(positions, all_encodings, i + 1)
    }
}

/// Prefix and suffix entry sums split the total entry sum.
proof fn lemma_entry_bits_split(positions: Seq<usize>, all_encodings: Seq<usize>, i: int)
    requires
        0 <= i <= positions.len(),
    ensures
        entries_bits(all_encodings, positions, i) + suffix_entry_bits(positions, all_encodings, i)
            == entries_bits(all_encodings, positions, positions.len() as int),
    decreases positions.len() - i,
{
    if i < positions.len() {
        lemma_entry_bits_split(positions, all_encodings, i + 1);
    }
}

/// For a valid term the suffix entry sums stay within the layout's total
/// bit count.
proof fn lemma_suffix_bits_le_total(
    positions: Seq<usize>,
    all_encodings: Seq<usize>,
    i: int,
)
    requires
        wf_positions(positions, all_encodings.len() as nat),
        0 <= i <= positions.len(),
    ensures
        suffix_entry_bits(positions, all_encodings, i) <= total_bits(all_encodings),
{
    lemma_entry_bits_split(positions, all_encodings, i);
    lemma_entries_bits_eq_selected(all_encodings, positions);
    lemma_selected_le_prefix(all_encodings, positions, all_encodings.len() as int);
}

/// The accumulated diagonal offset stays strictly inside the packed space
/// spanned by the remaining entries.
proof fn lemma_diagonal_offset_bound<const N: usize>(
    term: Term<N>,
    all_encodings: Seq<usize>,
    i: int,
)
    requires
        wf_layout(all_encodings),
        wf_positions(term.positions@, all_encodings.len() as nat),
        term.positions@.len() == N,
        0 <= i <= N,
    ensures
        -(pow2(suffix_entry_bits(term.positions@, all_encodings, i)) as int) + 1
            <= diagonal_offset_from(term, all_encodings, i) <= pow2(
            suffix_entry_bits(term.positions@, all_encodings, i),
        ) - 1,
    decreases N - i,
{
    lemma2_to64();
    if i < N {
        lemma_diagonal_offset_bound(term, all_encodings, i + 1);
        let p = term.positions@[i] as int;
        let e = all_encodings[p] as nat;
        let rest = diagonal_offset_from(term, all_encodings, i + 1);
        let s = suffix_entry_bits(term.positions@, all_encodings, i + 1);
        lemma_pow2_adds(s, e);
        lemma_pow2_pos(s);
        lemma_pow2_pos(e);
        assert(pow2(e) >= 2) by {
            vstd::arithmetic::power2::lemma_pow2_strictly_increases(0, e);
        }
        let ps = pow2(s) as int;
        let pe = pow2(e) as int;
        let pse = pow2((s + e) as nat) as int;
        assert(pse == ps * pe);
        assert(rest * pe <= (ps - 1) * pe && (1 - ps) * pe <= rest * pe && (ps - 1) * pe == ps
            * pe - pe && (1 - ps) * pe == pe - ps * pe) by (nonlinear_arith)
            requires
                1 - ps <= rest <= ps - 1,
                pe >= 2,
                ps >= 1,
        ;
        assert(diagonal_offset_from(term, all_encodings, i) == rest * pe + op_shift(
            term.op_types@[i],
        ));
        assert(suffix_entry_bits(term.positions@, all_encodings, i) == e + s);
    }
}

/// Whether one term is the transpose of another: same positions, each
/// kind replaced by its transpose.
pub open spec fn is_transpose<const N: usize>(t: Term<N>, r: Term<N>) -> bool {
    &&& r.positions@ == t.positions@
    &&& forall|i: int| 0 <= i < N ==> r.op_types@[i] == op_transpose(t.op_types@[i])
}

/// Transposing a term negates the running diagonal offset of every entry
/// suffix.
proof fn lemma_transpose_diagonal_offset_from<const N: usize>(
    term: Term<N>,
    transposed: Term<N>,
    all_encodings: Seq<usize>,
    i: int,
)
    requires
        is_transpose(term, transposed),
    ensures
        diagonal_offset_from(transposed, all_encodings, i) == -diagonal_offset_from(
            term,
            all_encodings,
            i,
        ),
    decreases N - i,
{
    if 0 <= i < N {
        lemma_transpose_diagonal_offset_from(term, transposed, all_encodings, i + 1);
        let d = pow2(all_encodings[term.positions@[i] as int] as nat) as int;
        let rest = diagonal_offset_from(term, all_encodings, i + 1);
        assert((-rest) * d == -(rest * d)) by (nonlinear_arith);
    }
}

/// Transposing a term negates the tail sums of its global offset.
proof fn lemma_transpose_global_offset_sum<const N: usize>(
    term: Term<N>,
    transposed: Term<N>,
    all_encodings: Seq<usize>,
    i: int,
)
    requires
        is_transpose(term, transposed),
    ensures
        global_offset_sum(transposed, all_encodings, i) == -global_offset_sum(
            term,
            all_encodings,
            i,
        ),
    decreases N - i,
{
    if 0 <= i < N {
        lemma_transpose_global_offset_sum(term, transposed, all_encodings, i + 1);
        let w = pow2(prefix_bits(all_encodings, term.positions@[i] as int)) as int;
        let s = op_shift(term.op_types@[i]);
        assert((-s) * w == -(s * w)) by (nonlinear_arith);
    }
}

/// The diagonal offset and the global offset of a transposed term are the
/// negations of the original term's: raising and lowering trade places, so
/// the banded diagonals sit at equal distances on opposite sides.
pub proof fn lemma_transpose_offsets<const N: usize>(
    term: Term<N>,
    transposed: Term<N>,
    all_encodings: Seq<usize>,
)
    requires
        is_transpose(term, transposed),
    ensures
        diagonal_offset(transposed, all_encodings) == -diagonal_offset(term, all_encodings),
        global_offset(transposed, all_encodings) == -global_offset(term, all_encodings),
{
    lemma_transpose_diagonal_offset_from(term, transposed, all_encodings, 0);
    lemma_transpose_global_offset_sum(term, transposed, all_encodings, 0);
}


/// For a single-entry term, the diagonal of the transpose is the diagonal
/// itself shifted by exactly the diagonal offset: each coefficient of the
/// transposed ladder operator reappears one slot over, and the number
/// kinds coincide with their transposes.
pub proof fn lemma_transpose_diagonal_shift_single(
    term: Term<1>,
    transposed: Term<1>,
    all_encodings: Seq<usize>,
)
    requires
        wf_layout(all_encodings),
        wf_positions(term.positions@, all_encodings.len() as nat),
        is_transpose(term, transposed),
    ensures
        forall|i: int|
            0 <= i && 0 <= i + diagonal_offset(term, all_encodings) && i < pow2(
                all_encodings[term.positions@[0] as int] as nat,
            ) && i + diagonal_offset(term, all_encodings) < pow2(
                all_encodings[term.positions@[0] as int] as nat,
            ) ==> #[trigger] tp_partial(
                diag_operands(term, all_encodings),
                i + diagonal_offset(term, all_encodings),
                1,
            ) == tp_partial(diag_operands(transposed, all_encodings), i, 1),
{
    let p = term.positions@[0] as int;
    let d = pow2(all_encodings[p] as nat) as int;
    let off = diagonal_offset(term, all_encodings);
    lemma2_to64();
    assert(off == op_shift(term.op_types@[0])) by {
        assert(diagonal_offset_from(term, all_encodings, 1) == 0);
    }
    assert forall|i: int|
        0 <= i && 0 <= i + off && i < d && i + off < d implies #[trigger] tp_partial(
        diag_operands(term, all_encodings),
        i + off,
        1,
    ) == tp_partial(diag_operands(transposed, all_encodings), i, 1) by {
        let ops_t = diag_operands(term, all_encodings);
        let ops_r = diag_operands(transposed, all_encodings);
        assert(lens_product(ops_t, 0) == 1);
        assert(lens_product(ops_r, 0) == 1);
        assert((i + off) / 1int == i + off);
        assert(i / 1int == i);
        vstd::arithmetic::div_mod::lemma_small_mod((i + off) as nat, d as nat);
        vstd::arithmetic::div_mod::lemma_small_mod(i as nat, d as nat);
        assert(tp_factor_index(ops_t, i + off, 0) == i + off);
        assert(tp_factor_index(ops_r, i, 0) == i);
        assert(ops_t[0][i + off] == diag_coeff(term.op_types@[0], d, i + off));
        assert(ops_r[0][i] == diag_coeff(transposed.op_types@[0], d, i));
        assert(tp_partial(ops_t, i + off, 0) == C64::spec_one());
        assert(tp_partial(ops_r, i, 0) == C64::spec_one());
        assert(tp_partial(ops_t, i + off, 1) == prod_of(C64::spec_one(), ops_t[0][i + off]));
        assert(tp_partial(ops_r, i, 1) == prod_of(C64::spec_one(), ops_r[0][i]));
        assert(diag_coeff(term.op_types@[0], d, i + off) == diag_coeff(
            transposed.op_types@[0],
            d,
            i,
        )) by {
            match term.op_types@[0] {
                Op::Rising => {
                    assert(off == -1);
                    assert(transposed.op_types@[0] == Op::Lowering);
                },
                Op::Lowering => {
                    assert(off == 1);
                    assert(transposed.op_types@[0] == Op::Rising);
                },
                Op::N => {},
                Op::N2 => {},
            }
        }
    }
}

/// A power of two whose exponent leaves room for the sign bit fits in a
/// signed machine word.
pub(crate) proof fn lemma_pow2_fits_isize(n: nat)
    requires
        n + 1 < usize::BITS,
    ensures
        pow2(n) <= isize::MAX,
{
    lemma2_to64();
    vstd::arithmetic::power2::lemma2_to64_rest();
    if usize::BITS == 32 {
        vstd::arithmetic::power2::lemma_pow2_strictly_increases(n, 31);
    } else {
        vstd::arithmetic::power2::lemma_pow2_strictly_increases(n, 63);
    }
}

/// The shift, within the packed operator-index space, between the diagonal
/// of the term and the diagonal of its transpose.
pub fn get_diagonal_offset<const N: usize>(term: &Term<N>, all_encodings: &[usize]) -> (r: isize)
    requires
        wf_layout(all_encodings@),
        wf_positions(term.positions@, all_encodings@.len() as nat),
    ensures
        r as int == diagonal_offset(*term, all_encodings@),
{
    let mut diag_pos: isize = 0;
    let mut i: usize = N;
    while i > 0
        invariant
            wf_layout(all_encodings@),
            wf_positions(term.positions@, all_encodings@.len() as nat),
            i <= N,
            diag_pos as int == diagonal_offset_from(*term, all_encodings@, i as int),
        decreases i,
    {
        i -= 1;
        let p = term.positions[i];
        let x = all_encodings[p];
        proof {
            crate::indexing::lemma_mode_bits_in_range(all_encodings@, p);
            lemma_suffix_bits_le_total(term.positions@, all_encodings@, i as int);
            lemma_suffix_bits_le_total(term.positions@, all_encodings@, i as int + 1);
            lemma_diagonal_offset_bound(*term, all_encodings@, i as int + 1);
            lemma_usize_pow2_no_overflow(x as nat);
            lemma_usize_shl_is_mul(1usize, x);
            lemma_pow2_fits_isize(x as nat);
            let s = suffix_entry_bits(term.positions@, all_encodings@, i as int + 1);
            let rest = diagonal_offset_from(*term, all_encodings@, i as int + 1);
            lemma_pow2_adds(s, x as nat);
            lemma_pow2_pos(s);
            lemma_pow2_pos(x as nat);
            assert(suffix_entry_bits(term.positions@, all_encodings@, i as int) == x as nat
                + s);
            lemma_pow2_fits_isize(
                suffix_entry_bits(term.positions@, all_encodings@, i as int),
            );
            let ps = pow2(s) as int;
            let pe = pow2(x as nat) as int;
            assert(rest * pe <= (ps - 1) * pe && (1 - ps) * pe <= rest * pe && (ps - 1) * pe
                == ps * pe - pe && (1 - ps) * pe == pe - ps * pe) by (nonlinear_arith)
                requires
                    1 - ps <= rest <= ps - 1,
                    pe >= 1,
                    ps >= 1,
            ;
        }
        let dim = 1usize << x;
        diag_pos = diag_pos * (dim as isize);
        match term.op_types[i] {
            Op::Rising => {
                diag_pos = diag_pos - 1;
            },
            Op::Lowering => {
                diag_pos = diag_pos + 1;
            },
            Op::N => {},
            Op::N2 => {},
        }
    }
    diag_pos
}

// ---------------------------------------------------------------------------
// Per-mode diagonals and their tensor product.
// ---------------------------------------------------------------------------

/// Entry `k` of the length-`d` diagonal vector of the single-mode operator
/// `op`: the square roots of the occupation numbers for creation and
/// annihilation, the occupation number itself for the number operator, and
/// its square for the squared number operator. The top entry of the
/// creation diagonal is zero: the highest encoded state cannot be raised.
pub open spec fn diag_coeff(op: Op, d: int, k: int) -> C64 {
    match op {
        Op::Rising => if k + 1 < d {
            sqrt_of(nat_of((k + 1) as usize))
        } else {
            sqrt_of(nat_of(0usize))
        },
        Op::Lowering => sqrt_of(nat_of(k as usize)),
        Op::N => nat_of(k as usize),
        Op::N2 => prod_of(nat_of(k as usize), nat_of(k as usize)),
    }
}

/// The length-`size` diagonal vector of a single-mode operator.
pub fn diag_per_operator(op: Op, size: usize) -> (r: Vec<C64>)
    requires
        1 <= size,
    ensures
        r@.len() == size,
        forall|k: int| 0 <= k < size ==> r@[k] == diag_coeff(op, size as int, k),
{
    let mut diagonal: Vec<C64> = Vec::new();
    match op {
        Op::Rising => {
            let mut k: usize = 1;
            while k < size
                invariant
                    1 <= k <= size,
                    diagonal@.len() == k - 1,
                    forall|j: int| 0 <= j < k - 1 ==> diagonal@[j] == diag_coeff(op, size as int, j),
                    op == Op::Rising,
                decreases size - k,
            {
                diagonal.push(csqrt(cfrom_nat(k)));
                k += 1;
            }
            diagonal.push(csqrt(cfrom_nat(0)));
        },
        Op::Lowering => {
            let mut k: usize = 0;
            while k < size
                invariant
                    k <= size,
                    diagonal@.len() == k,
                    forall|j: int| 0 <= j < k ==> diagonal@[j] == diag_coeff(op, size as int, j),
                    op == Op::Lowering,
                decreases size - k,
            {
                diagonal.push(csqrt(cfrom_nat(k)));
                k += 1;
            }
        },
        Op::N => {
            let mut k: usize = 0;
            while k < size
                invariant
                    k <= size,
                    diagonal@.len() == k,
                    forall|j: int| 0 <= j < k ==> diagonal@[j] == diag_coeff(op, size as int, j),
                    op == Op::N,
                decreases size - k,
            {
                diagonal.push(cfrom_nat(k));
                k += 1;
            }
        },
        Op::N2 => {
            let mut k: usize = 0;
            while k < size
                invariant
                    k <= size,
                    diagonal@.len() == k,
                    forall|j: int| 0 <= j < k ==> diagonal@[j] == diag_coeff(op, size as int, j),
                    op == Op::N2,
                decreases size - k,
            {
                let c = cfrom_nat(k);
                diagonal.push(cmul(c, c));
                k += 1;
            }
        },
    }
    diagonal
}

/// The views of a sequence of vectors of coefficients.
pub open spec fn views_of(operands: Seq<Vec<C64>>) -> Seq<Seq<C64>> {
    Seq::new(operands.len(), |j: int| operands[j]@)
}

/// Product of the lengths of the first `j` operands.
pub open spec fn lens_product(operands: Seq<Seq<C64>>, j: int) -> nat
    decreases j,
{
    if j <= 0 {
        1
    } else {
        lens_product(operands, j - 1) * operands[j - 1].len()
    }
}

/// Which entry of operand `j` contributes to entry `i` of the tensor
/// product: the first operand varies fastest.
pub open spec fn tp_factor_index(operands: Seq<Seq<C64>>, i: int, j: int) -> int {
    (i / lens_product(operands, j) as int) % operands[j].len() as int
}

/// Entry `i` of the tensor product, accumulated over the first `j`
/// operands, starting from one.
pub open spec fn tp_partial(operands: Seq<Seq<C64>>, i: int, j: int) -> C64
    decreases j,
{
    if j <= 0 {
        C64::spec_one()
    } else {
        prod_of(tp_partial(operands, i, j - 1), operands[j - 1][tp_factor_index(operands, i, j
            - 1)])
    }
}

/// A positive product of lengths makes every factor positive.
proof fn lemma_lens_product_pos(operands: Seq<Seq<C64>>, j: int, n: int)
    requires
        0 <= j < n,
        lens_product(operands, n) > 0,
    ensures
        operands[j].len() > 0,
        lens_product(operands, j) > 0,
        lens_product(operands, j + 1) > 0,
    decreases n - j,
{
    if j + 1 < n {
        lemma_lens_product_pos(operands, j + 1, n);
    }
    assert(lens_product(operands, j + 1) == lens_product(operands, j) * operands[j].len());
    assert(lens_product(operands, j) > 0 && operands[j].len() > 0) by (nonlinear_arith)
        requires
            lens_product(operands, j) * operands[j].len() > 0,
    ;
}

/// The tensor product of the operands, with the first operand's index
/// varying fastest: entry `i` is the product of one coefficient from each
/// operand, accumulated left to right starting from one.
pub fn get_tensor_product(operands: &Vec<Vec<C64>>) -> (r: Vec<C64>)
    requires
        forall|j: int|
            0 <= j <= operands@.len() ==> lens_product(views_of(operands@), j) <= usize::MAX,
    ensures
        r@.len() == lens_product(views_of(operands@), operands@.len() as int),
        forall|i: int|
            0 <= i < r@.len() ==> r@[i] == tp_partial(
                views_of(operands@),
                i,
                operands@.len() as int,
            ),
{
    let ghost views = views_of(operands@);
    let mut size: usize = 1;
    let mut j: usize = 0;
    while j < operands.len()
        invariant
            j <= operands@.len(),
            size as nat == lens_product(views, j as int),
            views == views_of(operands@),
            forall|k: int| 0 <= k <= operands@.len() ==> lens_product(views, k) <= usize::MAX,
        decreases operands@.len() - j,
    {
        proof {
            assert(lens_product(views, j as int + 1) == lens_product(views, j as int)
                * operands@[j as int]@.len());
        }
        size = size * operands[j].len();
        j += 1;
    }
    let mut tensor_product: Vec<C64> = Vec::new();
    let mut i: usize = 0;
    while i < size
        invariant
            i <= size,
            size as nat == lens_product(views, operands@.len() as int),
            views == views_of(operands@),
            tensor_product@.len() == i,
            forall|k: int|
                0 <= k < i ==> tensor_product@[k] == tp_partial(
                    views,
                    k,
                    operands@.len() as int,
                ),
        decreases size - i,
    {
        let mut value = C64::one();
        let mut rem = i;
        proof {
            assert(lens_product(views, 0) == 1);
            assert(i as int / 1int == i as int);
        }
        let mut j: usize = 0;
        while j < operands.len()
            invariant
                j <= operands@.len(),
                i < size,
                size as nat == lens_product(views, operands@.len() as int),
                views == views_of(operands@),
                value == tp_partial(views, i as int, j as int),
                rem as int == i as int / lens_product(views, j as int) as int,
            decreases operands@.len() - j,
        {
            proof {
                lemma_lens_product_pos(views, j as int, operands@.len() as int);
            }
            let len = operands[j].len();
            let idx = rem % len;
            proof {
                assert(idx as int == tp_factor_index(views, i as int, j as int));
                lemma_div_denominator(
                    i as int,
                    lens_product(views, j as int) as int,
                    len as int,
                );
                assert(lens_product(views, j as int + 1) == lens_product(views, j as int)
                    * views[j as int].len());
            }
            value = cmul(value, operands[j][idx]);
            rem = rem / len;
            j += 1;
        }
        tensor_product.push(value);
        i += 1;
    }
    tensor_product
}

/// The operand list whose tensor product is the diagonal of a term: one
/// single-mode diagonal per entry, in the order the entries stand in the
/// term.
pub open spec fn diag_operands<const N: usize>(term: Term<N>, all_encodings: Seq<usize>) -> Seq<
    Seq<C64>,
> {
    Seq::new(
        N as nat,
        |i: int|
            {
                let d = pow2(all_encodings[term.positions@[i] as int] as nat) as int;
                Seq::new(d as nat, |k: int| diag_coeff(term.op_types@[i], d, k))
            },
    )
}

/// The diagonal vector of a term together with its diagonal offset.
pub fn get_diagonal<const N: usize>(term: &Term<N>, all_encodings: &[usize]) -> (r: (
    Vec<C64>,
    isize,
))
    requires
        wf_layout(all_encodings@),
        wf_positions(term.positions@, all_encodings@.len() as nat),
    ensures
        r.0@.len() == lens_product(diag_operands(*term, all_encodings@), N as int),
        forall|oi: int|
            0 <= oi < r.0@.len() ==> r.0@[oi] == tp_partial(
                diag_operands(*term, all_encodings@),
                oi,
                N as int,
            ),
        r.1 as int == diagonal_offset(*term, all_encodings@),
{
    let offset = get_diagonal_offset(term, all_encodings);
    let mut operands: Vec<Vec<C64>> = Vec::with_capacity(N);
    let mut i: usize = 0;
    while i < N
        invariant
            wf_layout(all_encodings@),
            wf_positions(term.positions@, all_encodings@.len() as nat),
            i <= N,
            operands@.len() == i,
            forall|j: int|
                0 <= j < i ==> operands@[j]@ == diag_operands(*term, all_encodings@)[j],
        decreases N - i,
    {
        let p = term.positions[i];
        let x = all_encodings[p];
        proof {
            lemma_mode_bits_in_range(all_encodings@, p);
            lemma_usize_pow2_no_overflow(x as nat);
            lemma_usize_shl_is_mul(1usize, x);
            lemma_pow2_pos(x as nat);
        }
        let dim = 1usize << x;
        let diag = diag_per_operator(term.op_types[i], dim);
        operands.push(diag);
        proof {
            assert(operands@[i as int]@ =~= diag_operands(*term, all_encodings@)[i as int]);
        }
        i += 1;
    }
    proof {
        assert(views_of(operands@) =~= diag_operands(*term, all_encodings@));
        lemma_diag_lens_product(*term, all_encodings@, N as int);
        assert forall|j: int| 0 <= j <= N implies lens_product(
            views_of(operands@),
            j,
        ) <= usize::MAX by {
            lemma_diag_lens_product(*term, all_encodings@, j);
            lemma_entry_bits_split(term.positions@, all_encodings@, j);
            lemma_entries_bits_eq_selected(all_encodings@, term.positions@);
            lemma_selected_le_prefix(all_encodings@, term.positions@, all_encodings@.len() as int);
            lemma_usize_pow2_no_overflow(entries_bits(all_encodings@, term.positions@, j) as nat);
        }
    }
    let diagonal = get_tensor_product(&operands);
    (diagonal, offset)
}

/// The operand lengths of a term's diagonal multiply to a power of two:
/// two to the sum of the encodings of the first `j` entries.
pub(crate) proof fn lemma_diag_lens_product<const N: usize>(
    term: Term<N>,
    all_encodings: Seq<usize>,
    j: int,
)
    requires
        wf_layout(all_encodings),
        wf_positions(term.positions@, all_encodings.len() as nat),
        0 <= j <= N,
    ensures
        lens_product(diag_operands(term, all_encodings), j) == pow2(
            entries_bits(all_encodings, term.positions@, j),
        ),
    decreases j,
{
    lemma2_to64();
    if j > 0 {
        lemma_diag_lens_product(term, all_encodings, j - 1);
        lemma_pow2_adds(
            entries_bits(all_encodings, term.positions@, j - 1),
            all_encodings[term.positions@[j - 1] as int] as nat,
        );
    }
}

// ---------------------------------------------------------------------------
// The global offset of a term: the shift between source and destination
// indices of the full state vector.
// ---------------------------------------------------------------------------

/// The global offset as a sum: each creation operator moves the global
/// index down by its mode's stride, each annihilation operator up.
pub open spec fn global_offset_sum<const N: usize>(
    term: Term<N>,
    all_encodings: Seq<usize>,
    i: int,
) -> int
    decreases N - i,
{
    if i < 0 || i >= N {
        0
    } else {
        op_shift(term.op_types@[i]) * pow2(prefix_bits(all_encodings, term.positions@[i] as int))
            + global_offset_sum(term, all_encodings, i + 1)
    }
}

/// The global offset of the whole term.
pub open spec fn global_offset<const N: usize>(term: Term<N>, all_encodings: Seq<usize>) -> int {
    global_offset_sum(term, all_encodings, 0)
}

/// The bits scanned over when the right-to-left scan handles entry `i`:
/// from that entry's mode up to the mode of the next entry, or to the top
/// of the layout for the last entry.
pub open spec fn span_bits<const N: usize>(term: Term<N>, all_encodings: Seq<usize>, i: int) -> nat {
    if i + 1 < N {
        (prefix_bits(all_encodings, term.positions@[i + 1] as int) - prefix_bits(
            all_encodings,
            term.positions@[i] as int,
        )) as nat
    } else {
        (total_bits(all_encodings) - prefix_bits(all_encodings, term.positions@[i] as int)) as nat
    }
}

/// The scan value after the entries from `i` on have been handled, scanning
/// from the last entry towards the first.
pub open spec fn global_scan<const N: usize>(
    term: Term<N>,
    all_encodings: Seq<usize>,
    i: int,
) -> int
    decreases N - i,
{
    if i < 0 || i >= N {
        0
    } else {
        global_scan(term, all_encodings, i + 1) * pow2(span_bits(term, all_encodings, i))
            + op_shift(term.op_types@[i])
    }
}

/// The scan value stays strictly inside the band spanned by the modes from
/// entry `i`'s upward.
proof fn lemma_global_scan_bound<const N: usize>(term: Term<N>, all_encodings: Seq<usize>, i: int)
    requires
        wf_layout(all_encodings),
        wf_positions(term.positions@, all_encodings.len() as nat),
        positions_sorted(term.positions@),
        term.positions@.len() == N,
        0 <= i < N,
    ensures
        prefix_bits(all_encodings, term.positions@[i] as int) < total_bits(all_encodings),
        -(pow2((total_bits(all_encodings) - prefix_bits(
            all_encodings,
            term.positions@[i] as int,
        )) as nat) as int) + 1 <= global_scan(term, all_encodings, i) <= pow2(
            (total_bits(all_encodings) - prefix_bits(
                all_encodings,
                term.positions@[i] as int,
            )) as nat,
        ) - 1,
    decreases N - i,
{
    lemma2_to64();
    let p = term.positions@[i] as int;
    lemma_mode_bits_in_range(all_encodings, term.positions@[i]);
    let w = (total_bits(all_encodings) - prefix_bits(all_encodings, p)) as nat;
    assert(w >= 1);
    let span = span_bits(term, all_encodings, i);
    let rest = global_scan(term, all_encodings, i + 1);
    if i + 1 < N {
        lemma_global_scan_bound(term, all_encodings, i + 1);
        let q = term.positions@[i + 1] as int;
        assert(p < q);
        lemma_prefix_bits_mono(all_encodings, p + 1, q);
        let wq = (total_bits(all_encodings) - prefix_bits(all_encodings, q)) as nat;
        lemma_pow2_adds(wq, span);
        lemma_pow2_pos(wq);
        lemma_pow2_pos(span);
        assert(pow2(span) >= 2) by {
            vstd::arithmetic::power2::lemma_pow2_strictly_increases(0, span);
        }
        let ps = pow2(wq) as int;
        let pe = pow2(span) as int;
        assert(rest * pe <= (ps - 1) * pe && (1 - ps) * pe <= rest * pe && (ps - 1) * pe == ps
            * pe - pe && (1 - ps) * pe == pe - ps * pe) by (nonlinear_arith)
            requires
                1 - ps <= rest <= ps - 1,
                pe >= 2,
                ps >= 1,
        ;
        assert(w == wq + span);
        assert(pow2(w) == ps * pe);
        assert(global_scan(term, all_encodings, i) == rest * pe + op_shift(
            term.op_types@[i],
        ));
        assert(-(ps * pe) + 1 <= rest * pe + op_shift(term.op_types@[i]));
        assert(rest * pe + op_shift(term.op_types@[i]) <= ps * pe - 1);
    } else {
        assert(rest == 0);
        assert(pow2(w) >= 2) by {
            vstd::arithmetic::power2::lemma_pow2_strictly_increases(0, w);
        }
    }
}

/// Scaling the scan value by the stride of its lowest entry gives the
/// global offset as a sum over the entries.
proof fn lemma_scan_is_sum<const N: usize>(term: Term<N>, all_encodings: Seq<usize>, i: int)
    requires
        wf_layout(all_encodings),
        wf_positions(term.positions@, all_encodings.len() as nat),
        positions_sorted(term.positions@),
        term.positions@.len() == N,
        0 <= i < N,
    ensures
        global_scan(term, all_encodings, i) * pow2(
            prefix_bits(all_encodings, term.positions@[i] as int),
        ) as int == global_offset_sum(term, all_encodings, i),
    decreases N - i,
{
    let p = term.positions@[i] as int;
    let lo = pow2(prefix_bits(all_encodings, p)) as int;
    let s = op_shift(term.op_types@[i]);
    let span = span_bits(term, all_encodings, i);
    let rest = global_scan(term, all_encodings, i + 1);
    if i + 1 < N {
        lemma_scan_is_sum(term, all_encodings, i + 1);
        let q = term.positions@[i + 1] as int;
        assert(p < q);
        lemma_prefix_bits_mono(all_encodings, p + 1, q);
        lemma_pow2_adds(span, prefix_bits(all_encodings, p));
        let hi = pow2(prefix_bits(all_encodings, q)) as int;
        let pe = pow2(span) as int;
        assert(pe * lo == hi);
        assert((rest * pe + s) * lo == rest * (pe * lo) + s * lo) by (nonlinear_arith);
        assert(rest * hi == global_offset_sum(term, all_encodings, i + 1));
    } else {
        assert(rest == 0);
        assert(global_offset_sum(term, all_encodings, i + 1) == 0);
        assert((rest * pow2(span) as int + s) * lo == s * lo) by (nonlinear_arith)
            requires
                rest == 0,
        ;
    }
}

/// The signed shift between source and destination indices of the full
/// state vector that the term's creation and annihilation operators induce.
pub fn get_global_offset<const N: usize>(term: &Term<N>, all_encodings: &[usize]) -> (r: isize)
    requires
        wf_layout(all_encodings@),
        wf_positions(term.positions@, all_encodings@.len() as nat),
        positions_sorted(term.positions@),
    ensures
        r as int == global_offset(*term, all_encodings@),
        -(pow2(total_bits(all_encodings@)) as int) < r as int,
        (r as int) < pow2(total_bits(all_encodings@)) as int,
{
    let mut diag_pos: isize = 0;
    let mut upper: usize = all_encodings.len();
    let mut i: usize = N;
    while i > 0
        invariant
            wf_layout(all_encodings@),
            wf_positions(term.positions@, all_encodings@.len() as nat),
            positions_sorted(term.positions@),
            i <= N,
            i == N ==> upper == all_encodings@.len(),
            i < N ==> upper == term.positions@[i as int],
            diag_pos as int == global_scan(*term, all_encodings@, i as int),
        decreases i,
    {
        i -= 1;
        let p = term.positions[i];
        let mut bits: usize = 0;
        let mut j: usize = p;
        proof {
            lemma_prefix_bits_mono(all_encodings@, upper as int, all_encodings@.len() as int);
        }
        while j < upper
            invariant
                wf_layout(all_encodings@),
                p <= j <= upper <= all_encodings@.len(),
                bits as nat == prefix_bits(all_encodings@, j as int) - prefix_bits(
                    all_encodings@,
                    p as int,
                ),
                prefix_bits(all_encodings@, p as int) <= prefix_bits(all_encodings@, j as int),
            decreases upper - j,
        {
            proof {
                lemma_prefix_bits_mono(all_encodings@, j as int + 1, all_encodings@.len() as int);
                lemma_prefix_bits_mono(all_encodings@, p as int, j as int + 1);
            }
            bits = bits + all_encodings[j];
            j += 1;
        }
        proof {
            assert(bits as nat == span_bits(*term, all_encodings@, i as int));
            lemma_pow2_fits_isize(bits as nat);
            lemma_usize_pow2_no_overflow(bits as nat);
            lemma_usize_shl_is_mul(1usize, bits);
            lemma_mode_bits_in_range(all_encodings@, p);
            if i as int + 1 < N {
                lemma_global_scan_bound(*term, all_encodings@, i as int + 1);
                let wq = (total_bits(all_encodings@) - prefix_bits(
                    all_encodings@,
                    term.positions@[i as int + 1] as int,
                )) as nat;
                lemma_pow2_adds(wq, bits as nat);
                lemma_pow2_pos(wq);
                lemma_pow2_pos(bits as nat);
                let ps = pow2(wq) as int;
                let pe = pow2(bits as nat) as int;
                let rest = global_scan(*term, all_encodings@, i as int + 1);
                assert(rest * pe <= (ps - 1) * pe && (1 - ps) * pe <= rest * pe && (ps - 1)
                    * pe == ps * pe - pe && (1 - ps) * pe == pe - ps * pe) by (nonlinear_arith)
                    requires
                        1 - ps <= rest <= ps - 1,
                        pe >= 1,
                        ps >= 1,
                ;
                lemma_pow2_fits_isize((wq + bits as nat) as nat);
                lemma_prefix_bits_mono(
                    all_encodings@,
                    p as int + 1,
                    term.positions@[i as int + 1] as int,
                );
            } else {
                assert(global_scan(*term, all_encodings@, i as int + 1) == 0);
            }
        }
        let dim = 1usize << bits;
        diag_pos = diag_pos * (dim as isize);
        match term.op_types[i] {
            Op::Rising => {
                diag_pos = diag_pos - 1;
            },
            Op::Lowering => {
                diag_pos = diag_pos + 1;
            },
            Op::N => {},
            Op::N2 => {},
        }
        proof {
            if i as int + 1 < N {
                lemma_global_scan_bound(*term, all_encodings@, i as int);
            }
        }
        upper = p;
    }
    let mut bits: usize = 0;
    let mut j: usize = 0;
    while j < upper
        invariant
            wf_layout(all_encodings@),
            j <= upper <= all_encodings@.len(),
            bits as nat == prefix_bits(all_encodings@, j as int),
        decreases upper - j,
    {
        proof {
            lemma_prefix_bits_mono(all_encodings@, j as int + 1, all_encodings@.len() as int);
        }
        bits = bits + all_encodings[j];
        j += 1;
    }
    proof {
        lemma_prefix_bits_mono(all_encodings@, upper as int, all_encodings@.len() as int);
        lemma_pow2_fits_isize(bits as nat);
        lemma_usize_pow2_no_overflow(bits as nat);
        lemma_usize_shl_is_mul(1usize, bits);
        lemma_pow2_pos(total_bits(all_encodings@));
        if N == 0 {
            assert(global_offset_sum(*term, all_encodings@, 0) == 0);
        } else {
            lemma_global_scan_bound(*term, all_encodings@, 0);
            lemma_scan_is_sum(*term, all_encodings@, 0);
            let w = (total_bits(all_encodings@) - prefix_bits(
                all_encodings@,
                term.positions@[0] as int,
            )) as nat;
            let scan = global_scan(*term, all_encodings@, 0);
            lemma_pow2_adds(w, bits as nat);
            lemma_pow2_pos(w);
            lemma_pow2_pos(bits as nat);
            lemma_pow2_fits_isize((w + bits as nat) as nat);
            let ps = pow2(w) as int;
            let pe = pow2(bits as nat) as int;
            assert(scan * pe <= (ps - 1) * pe && (1 - ps) * pe <= scan * pe && (ps - 1) * pe
                == ps * pe - pe && (1 - ps) * pe == pe - ps * pe) by (nonlinear_arith)
                requires
                    1 - ps <= scan <= ps - 1,
                    pe >= 1,
                    ps >= 1,
            ;
        }
    }
    diag_pos = diag_pos * ((1usize << bits) as isize);
    diag_pos
}

} // verus!
