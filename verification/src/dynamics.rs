use vstd::prelude::*;
use vstd::arithmetic::power2::pow2;
use crate::chebyshev::{cheb_exp, cheb_exp_spec, ChebOp};
use crate::complex::{cmul, prod_of, C64};
use crate::density::{density_dim, density_entry, get_density};
use crate::indexing::{
    positions_sorted, selected_bits, total_bits, wf_layout, wf_positions,
};
use crate::kernel::{applied_seq, apply_term};
use crate::states::{init_std, init_zero, set2zero};
use crate::terms::{Op, Term};

verus! {

/// One summand of the Hamiltonian: a real amplitude, held as the IEEE-754
/// bit pattern of its double-precision value, and a tensor-product term of
/// one to four distinct, ascending mode positions.
#[derive(Clone, Copy, Debug, PartialEq, Eq)]
pub enum TermAndAmpl {
    One { ampl: u64, pos: [usize; 1], ops: [Op; 1] },
    Two { ampl: u64, pos: [usize; 2], ops: [Op; 2] },
    Three { ampl: u64, pos: [usize; 3], ops: [Op; 3] },
    Four { ampl: u64, pos: [usize; 4], ops: [Op; 4] },
}

/// A subset of one to four mode positions whose reduced density matrix is
/// recorded, sorted ascending and without repeats.
#[derive(Clone, Copy, Debug, PartialEq, Eq)]
pub enum DensEnum {
    One([usize; 1]),
    Two([usize; 2]),
    Three([usize; 3]),
    Four([usize; 4]),
}

/// The positions of a density subset.
pub open spec fn subset_positions(d: DensEnum) -> Seq<usize> {
    match d {
        DensEnum::One(p) => p@,
        DensEnum::Two(p) => p@,
        DensEnum::Three(p) => p@,
        DensEnum::Four(p) => p@,
    }
}

/// The positions of a Hamiltonian summand.
pub open spec fn summand_positions(t: TermAndAmpl) -> Seq<usize> {
    match t {
        TermAndAmpl::One { ampl, pos, ops } => pos@,
        TermAndAmpl::Two { ampl, pos, ops } => pos@,
        TermAndAmpl::Three { ampl, pos, ops } => pos@,
        TermAndAmpl::Four { ampl, pos, ops } => pos@,
    }
}

/// A usable Hamiltonian summand: distinct in-range positions in ascending
/// order.
pub open spec fn summand_wf(t: TermAndAmpl, all_encodings: Seq<usize>) -> bool {
    &&& wf_positions(summand_positions(t), all_encodings.len() as nat)
    &&& positions_sorted(summand_positions(t))
}

/// The complex scale carried into the kernel for one summand: the caller's
/// coefficient times the imaginary unit times the amplitude times the time
/// step.
pub open spec fn summand_delta(ampl: u64, time_step: u64, coeff: C64) -> C64 {
    prod_of(
        coeff,
        C64 {
            re_bits: 0,
            im_bits: prod_of(
                C64 { re_bits: ampl, im_bits: 0 },
                C64 { re_bits: time_step, im_bits: 0 },
            ).re_bits,
        },
    )
}

/// The state vector after one summand of the Hamiltonian is applied.
pub open spec fn summand_applied(
    all_encodings: Seq<usize>,
    t: TermAndAmpl,
    dst: Seq<C64>,
    src: Seq<C64>,
    coeff: C64,
    time_step: u64,
) -> Seq<C64> {
    match t {
        TermAndAmpl::One { ampl, pos, ops } => applied_seq(
            dst,
            src,
            Term::<1> { positions: pos, op_types: ops },
            all_encodings,
            summand_delta(ampl, time_step, coeff),
        ),
        TermAndAmpl::Two { ampl, pos, ops } => applied_seq(
            dst,
            src,
            Term::<2> { positions: pos, op_types: ops },
            all_encodings,
            summand_delta(ampl, time_step, coeff),
        ),
        TermAndAmpl::Three { ampl, pos, ops } => applied_seq(
            dst,
            src,
            Term::<3> { positions: pos, op_types: ops },
            all_encodings,
            summand_delta(ampl, time_step, coeff),
        ),
        TermAndAmpl::Four { ampl, pos, ops } => applied_seq(
            dst,
            src,
            Term::<4> { positions: pos, op_types: ops },
            all_encodings,
            summand_delta(ampl, time_step, coeff),
        ),
    }
}

/// The state vector after the first `n` summands are applied in turn.
pub open spec fn hamiltonian_applied(
    all_encodings: Seq<usize>,
    terms: Seq<TermAndAmpl>,
    dst: Seq<C64>,
    src: Seq<C64>,
    coeff: C64,
    time_step: u64,
    n: int,
) -> Seq<C64>
    decreases n,
{
    if n <= 0 {
        dst
    } else {
        summand_applied(
            all_encodings,
            terms[n - 1],
            hamiltonian_applied(all_encodings, terms, dst, src, coeff, time_step, n - 1),
            src,
            coeff,
            time_step,
        )
    }
}

/// The Hamiltonian as a propagator operator: applying it accumulates each
/// summand's banded update, scaled by the time step, the amplitude, the
/// imaginary unit and the propagator's coefficient.
pub struct HamiltonianOp {
    pub all_encodings: Vec<usize>,
    pub hamiltonian: Vec<TermAndAmpl>,
    pub time_step: u64,
}

impl ChebOp for HamiltonianOp {
    open spec fn wf(&self) -> bool {
        &&& wf_layout(self.all_encodings@)
        &&& forall|i: int|
            0 <= i < self.hamiltonian@.len() ==> summand_wf(
                self.hamiltonian@[i],
                self.all_encodings@,
            )
    }

    open spec fn dim(&self) -> nat {
        pow2(total_bits(self.all_encodings@))
    }

    open spec fn apply_spec(&self, dst: Seq<C64>, src: Seq<C64>, coeff: C64) -> Seq<C64> {
        hamiltonian_applied(
            self.all_encodings@,
            self.hamiltonian@,
            dst,
            src,
            coeff,
            self.time_step,
            self.hamiltonian@.len() as int,
        )
    }

    fn apply(&self, dst: &mut Vec<C64>, src: &Vec<C64>, coeff: C64) {
        let zero_im = C64 { re_bits: self.time_step, im_bits: 0 };
        let mut i: usize = 0;
        while i < self.hamiltonian.len()
            invariant
                self.wf(),
                src@.len() == self.dim(),
                dst@.len() == self.dim(),
                i <= self.hamiltonian@.len(),
                zero_im == (C64 { re_bits: self.time_step, im_bits: 0 }),
                dst@ == hamiltonian_applied(
                    self.all_encodings@,
                    self.hamiltonian@,
                    old(dst)@,
                    src@,
                    coeff,
                    self.time_step,
                    i as int,
                ),
            decreases self.hamiltonian@.len() - i,
        {
            let ghost before = dst@;
            match &self.hamiltonian[i] {
                TermAndAmpl::One { ampl, pos, ops } => {
                    let term = Term::<1> { positions: *pos, op_types: *ops };
                    let scale = cmul(C64 { re_bits: *ampl, im_bits: 0 }, zero_im);
                    let delta = cmul(coeff, C64 { re_bits: 0, im_bits: scale.re_bits });
                    apply_term(dst, src, &term, self.all_encodings.as_slice(), delta);
                    proof {
                        assert(dst@ =~= summand_applied(
                            self.all_encodings@,
                            self.hamiltonian@[i as int],
                            before,
                            src@,
                            coeff,
                            self.time_step,
                        ));
                    }
                },
                TermAndAmpl::Two { ampl, pos, ops } => {
                    let term = Term::<2> { positions: *pos, op_types: *ops };
                    let scale = cmul(C64 { re_bits: *ampl, im_bits: 0 }, zero_im);
                    let delta = cmul(coeff, C64 { re_bits: 0, im_bits: scale.re_bits });
                    apply_term(dst, src, &term, self.all_encodings.as_slice(), delta);
                    proof {
                        assert(dst@ =~= summand_applied(
                            self.all_encodings@,
                            self.hamiltonian@[i as int],
                            before,
                            src@,
                            coeff,
                            self.time_step,
                        ));
                    }
                },
                TermAndAmpl::Three { ampl, pos, ops } => {
                    let term = Term::<3> { positions: *pos, op_types: *ops };
                    let scale = cmul(C64 { re_bits: *ampl, im_bits: 0 }, zero_im);
                    let delta = cmul(coeff, C64 { re_bits: 0, im_bits: scale.re_bits });
                    apply_term(dst, src, &term, self.all_encodings.as_slice(), delta);
                    proof {
                        assert(dst@ =~= summand_applied(
                            self.all_encodings@,
                            self.hamiltonian@[i as int],
                            before,
                            src@,
                            coeff,
                            self.time_step,
                        ));
                    }
                },
                TermAndAmpl::Four { ampl, pos, ops } => {
                    let term = Term::<4> { positions: *pos, op_types: *ops };
                    let scale = cmul(C64 { re_bits: *ampl, im_bits: 0 }, zero_im);
                    let delta = cmul(coeff, C64 { re_bits: 0, im_bits: scale.re_bits });
                    apply_term(dst, src, &term, self.all_encodings.as_slice(), delta);
                    proof {
                        assert(dst@ =~= summand_applied(
                            self.all_encodings@,
                            self.hamiltonian@[i as int],
                            before,
                            src@,
                            coeff,
                            self.time_step,
                        ));
                    }
                },
            }
            i += 1;
        }
    }
}

/// A full simulation task: the mode layout, the number of uniform time
/// steps, the size of one step as the bit pattern of its double-precision
/// value, the Hamiltonian, and the mode subsets whose reduced density
/// matrices are recorded.
#[derive(Clone, Debug)]
pub struct ChebyshevDynamics {
    pub qubits_per_mode: Vec<usize>,
    pub total_time_steps_number: usize,
    pub time_step_size: u64,
    pub hamiltonian: Vec<TermAndAmpl>,
    pub density_matrices: Vec<DensEnum>,
}

/// The tasks the engine knows how to run.
#[derive(Clone, Debug)]
pub enum Task {
    ChebyshevDynamics(ChebyshevDynamics),
}

/// A usable density subset: distinct ascending in-range positions whose
/// matrix fits in memory indexing.
pub open spec fn subset_wf(d: DensEnum, all_encodings: Seq<usize>) -> bool {
    &&& wf_positions(subset_positions(d), all_encodings.len() as nat)
    &&& positions_sorted(subset_positions(d))
    &&& 2 * selected_bits(all_encodings, subset_positions(d)) < usize::BITS
}

impl ChebyshevDynamics {
    /// A runnable task: usable layout, summands and subsets.
    pub open spec fn wf(&self) -> bool {
        &&& wf_layout(self.qubits_per_mode@)
        &&& forall|i: int|
            0 <= i < self.hamiltonian@.len() ==> summand_wf(
                self.hamiltonian@[i],
                self.qubits_per_mode@,
            )
        &&& forall|d: int|
            0 <= d < self.density_matrices@.len() ==> subset_wf(
                self.density_matrices@[d],
                self.qubits_per_mode@,
            )
    }

    /// The operator the propagator runs with.
    pub open spec fn op_spec(&self) -> HamiltonianOp {
        HamiltonianOp {
            all_encodings: self.qubits_per_mode,
            hamiltonian: self.hamiltonian,
            time_step: self.time_step_size,
        }
    }
}

/// The initial product state: amplitude one on the empty configuration.
pub open spec fn init_state(all_encodings: Seq<usize>) -> Seq<C64> {
    Seq::new(
        pow2(total_bits(all_encodings)),
        |i: int|
            if i == 0 {
                C64::spec_one()
            } else {
                C64::spec_zero()
            },
    )
}

/// The all-zero amplitude vector of the layout's full length.
pub open spec fn zero_state(all_encodings: Seq<usize>) -> Seq<C64> {
    Seq::new(pow2(total_bits(all_encodings)), |i: int| C64::spec_zero())
}

/// The state vector after `n` propagator steps from the initial product
/// state.
pub open spec fn state_after(task: ChebyshevDynamics, order: int, n: int) -> Seq<C64>
    decreases n,
{
    if n <= 0 {
        init_state(task.qubits_per_mode@)
    } else {
        cheb_exp_spec(
            task.op_spec(),
            zero_state(task.qubits_per_mode@),
            state_after(task, order, n - 1),
            zero_state(task.qubits_per_mode@),
            order,
        )
    }
}

/// The row-major reduced density matrix of one subset for a given state.
pub open spec fn recorded_density(
    src: Seq<C64>,
    all_encodings: Seq<usize>,
    d: DensEnum,
) -> Seq<C64> {
    let positions = subset_positions(d);
    let dim = density_dim(all_encodings, positions);
    Seq::new(
        (dim * dim) as nat,
        |t: int| density_entry(src, all_encodings, positions, t / dim, t % dim),
    )
}

/// What `run` returns: for each recorded subset, for each time index, that
/// subset's reduced density matrix of the state after that many steps.
pub open spec fn run_ok(task: ChebyshevDynamics, order: int, r: Seq<Vec<Vec<C64>>>) -> bool {
    &&& r.len() == task.density_matrices@.len()
    &&& forall|d: int|
        0 <= d < r.len() ==> #[trigger] r[d]@.len() == task.total_time_steps_number + 1
    &&& forall|d: int, t: int|
        0 <= d < r.len() && 0 <= t <= task.total_time_steps_number ==> #[trigger] r[d]@[t]@
            == recorded_density(
            state_after(task, order, t),
            task.qubits_per_mode@,
            task.density_matrices@[d],
        )
}

/// Two Hamiltonian operators with the same layout, summands and time step
/// leave the same remaining propagator result.
proof fn lemma_cheb_run_congruent(
    a: HamiltonianOp,
    b: HamiltonianOp,
    exp: Seq<C64>,
    prev: Seq<C64>,
    curr: Seq<C64>,
    prev_sign: bool,
    curr_sign: bool,
    imag_pow: C64,
    k: int,
    order: int,
)
    requires
        a.all_encodings@ == b.all_encodings@,
        a.hamiltonian@ == b.hamiltonian@,
        a.time_step == b.time_step,
    ensures
        crate::chebyshev::cheb_run(a, exp, prev, curr, prev_sign, curr_sign, imag_pow, k, order)
            == crate::chebyshev::cheb_run(
            b,
            exp,
            prev,
            curr,
            prev_sign,
            curr_sign,
            imag_pow,
            k,
            order,
        ),
    decreases order - k,
{
    if k < order {
        let coeff2 = if prev_sign == curr_sign {
            crate::chebyshev::c_neg_two()
        } else {
            crate::chebyshev::c_two()
        };
        assert(a.apply_spec(prev, curr, coeff2) == b.apply_spec(prev, curr, coeff2));
        lemma_cheb_run_congruent(
            a,
            b,
            crate::chebyshev::add_spec(
                exp,
                a.apply_spec(prev, curr, coeff2),
                prod_of(
                    prod_of(
                        if !prev_sign {
                            crate::chebyshev::c_two()
                        } else {
                            crate::chebyshev::c_neg_two()
                        },
                        prod_of(imag_pow, C64::spec_i()),
                    ),
                    crate::chebyshev::bessel_table()[k],
                ),
            ),
            curr,
            a.apply_spec(prev, curr, coeff2),
            curr_sign,
            !prev_sign,
            prod_of(imag_pow, C64::spec_i()),
            k + 1,
            order,
        );
    }
}

/// Two Hamiltonian operators with the same layout, summands and time step
/// propagate a state identically.
proof fn lemma_cheb_spec_congruent(
    a: HamiltonianOp,
    b: HamiltonianOp,
    exp0: Seq<C64>,
    state0: Seq<C64>,
    aux0: Seq<C64>,
    order: int,
)
    requires
        a.all_encodings@ == b.all_encodings@,
        a.hamiltonian@ == b.hamiltonian@,
        a.time_step == b.time_step,
    ensures
        cheb_exp_spec(a, exp0, state0, aux0, order) == cheb_exp_spec(b, exp0, state0, aux0, order),
{
    let aux1 = a.apply_spec(aux0, state0, C64::spec_one());
    assert(aux1 == b.apply_spec(aux0, state0, C64::spec_one()));
    let exp1 = crate::chebyshev::add_spec(exp0, state0, crate::chebyshev::bessel_table()[0]);
    let addc1 = prod_of(
        prod_of(crate::chebyshev::c_two(), C64::spec_i()),
        crate::chebyshev::bessel_table()[1],
    );
    let exp2 = crate::chebyshev::add_spec(exp1, aux1, addc1);
    lemma_cheb_run_congruent(a, b, exp2, state0, aux1, true, true, C64::spec_i(), 2, order);
}

/// Copies a layout vector.
fn copy_layout(src: &Vec<usize>) -> (r: Vec<usize>)
    ensures
        r@ == src@,
{
    let mut r: Vec<usize> = Vec::new();
    let mut i: usize = 0;
    while i < src.len()
        invariant
            i <= src@.len(),
            r@ == src@.take(i as int),
        decreases src@.len() - i,
    {
        r.push(src[i]);
        proof {
            assert(r@ =~= src@.take(i as int + 1));
        }
        i += 1;
    }
    proof {
        assert(src@.take(src@.len() as int) =~= src@);
    }
    r
}

/// Copies a list of Hamiltonian summands.
fn copy_summands(src: &Vec<TermAndAmpl>) -> (r: Vec<TermAndAmpl>)
    ensures
        r@ == src@,
{
    let mut r: Vec<TermAndAmpl> = Vec::new();
    let mut i: usize = 0;
    while i < src.len()
        invariant
            i <= src@.len(),
            r@ == src@.take(i as int),
        decreases src@.len() - i,
    {
        r.push(src[i]);
        proof {
            assert(r@ =~= src@.take(i as int + 1));
        }
        i += 1;
    }
    proof {
        assert(src@.take(src@.len() as int) =~= src@);
    }
    r
}

/// Copies an amplitude vector.
fn copy_amplitudes(src: &Vec<C64>) -> (r: Vec<C64>)
    ensures
        r@ == src@,
{
    let mut r: Vec<C64> = Vec::new();
    let mut i: usize = 0;
    while i < src.len()
        invariant
            i <= src@.len(),
            r@ == src@.take(i as int),
        decreases src@.len() - i,
    {
        r.push(src[i]);
        proof {
            assert(r@ =~= src@.take(i as int + 1));
        }
        i += 1;
    }
    proof {
        assert(src@.take(src@.len() as int) =~= src@);
    }
    r
}

/// The reduced density matrix of one recorded subset for the given state.
fn record_density(state: &Vec<C64>, d: &DensEnum, all_encodings: &[usize]) -> (r: Vec<C64>)
    requires
        wf_layout(all_encodings@),
        subset_wf(*d, all_encodings@),
        state@.len() == pow2(total_bits(all_encodings@)),
    ensures
        r@ == recorded_density(state@, all_encodings@, *d),
{
    let m = match d {
        DensEnum::One(p) => get_density(state, p, all_encodings),
        DensEnum::Two(p) => get_density(state, p, all_encodings),
        DensEnum::Three(p) => get_density(state, p, all_encodings),
        DensEnum::Four(p) => get_density(state, p, all_encodings),
    };
    proof {
        let positions = subset_positions(*d);
        let dim = density_dim(all_encodings@, positions);
        vstd::arithmetic::power2::lemma_pow2_pos(selected_bits(all_encodings@, positions));
        assert forall|t: int| 0 <= t < dim * dim implies m@[t] == density_entry(
            state@,
            all_encodings@,
            positions,
            t / dim,
            t % dim,
        ) by {
            let row = t / dim;
            let col = t % dim;
            vstd::arithmetic::div_mod::lemma_fundamental_div_mod(t, dim);
            assert(0 <= col < dim) by (nonlinear_arith)
                requires
                    dim > 0,
                    col == t % dim,
            ;
            assert(0 <= row < dim) by (nonlinear_arith)
                requires
                    dim > 0,
                    0 <= t < dim * dim,
                    t == dim * row + col,
                    0 <= col < dim,
            ;
            assert(m@[row * dim + col] == density_entry(
                state@,
                all_encodings@,
                positions,
                row,
                col,
            ));
            assert(t == row * dim + col);
        }
        assert(m@ =~= recorded_density(state@, all_encodings@, *d));
    }
    m
}

/// The density records of every subset for the given state.
fn record_all(task: &ChebyshevDynamics, state: &Vec<C64>) -> (r: Vec<Vec<C64>>)
    requires
        task.wf(),
        state@.len() == pow2(total_bits(task.qubits_per_mode@)),
    ensures
        r@.len() == task.density_matrices@.len(),
        forall|d: int|
            0 <= d < r@.len() ==> #[trigger] r@[d]@ == recorded_density(
                state@,
                task.qubits_per_mode@,
                task.density_matrices@[d],
            ),
{
    let mut r: Vec<Vec<C64>> = Vec::new();
    let mut d: usize = 0;
    while d < task.density_matrices.len()
        invariant
            task.wf(),
            state@.len() == pow2(total_bits(task.qubits_per_mode@)),
            d <= task.density_matrices@.len(),
            r@.len() == d,
            forall|e: int|
                0 <= e < d ==> #[trigger] r@[e]@ == recorded_density(
                    state@,
                    task.qubits_per_mode@,
                    task.density_matrices@[e],
                ),
        decreases task.density_matrices@.len() - d,
    {
        let rec = record_density(
            state,
            &task.density_matrices[d],
            task.qubits_per_mode.as_slice(),
        );
        r.push(rec);
        d += 1;
    }
    r
}

impl ChebyshevDynamics {
    /// Advances the initial product state through the configured number of
    /// uniform time steps with the truncated Chebyshev propagator of the
    /// given order, recording every subset's reduced density matrix at
    /// every time index, the initial state included.
    pub fn run(&self, order: usize) -> (r: Vec<Vec<Vec<C64>>>)
        requires
            self.wf(),
            2 <= order <= 16,
            self.total_time_steps_number < usize::MAX,
        ensures
            run_ok(*self, order as int, r@),
    {
        let op = HamiltonianOp {
            all_encodings: copy_layout(&self.qubits_per_mode),
            hamiltonian: copy_summands(&self.hamiltonian),
            time_step: self.time_step_size,
        };
        let mut state = init_std(self.qubits_per_mode.as_slice());
        let mut exp = init_zero(self.qubits_per_mode.as_slice());
        let mut aux = init_zero(self.qubits_per_mode.as_slice());
        proof {
            assert(state@ =~= init_state(self.qubits_per_mode@));
            assert(exp@ =~= zero_state(self.qubits_per_mode@));
            assert(aux@ =~= zero_state(self.qubits_per_mode@));
        }
        let mut per_step: Vec<Vec<Vec<C64>>> = Vec::new();
        let rec0 = record_all(self, &state);
        per_step.push(rec0);
        let mut step: usize = 0;
        while step < self.total_time_steps_number
            invariant
                self.wf(),
                2 <= order <= 16,
                self.total_time_steps_number < usize::MAX,
                op.all_encodings@ == self.qubits_per_mode@,
                op.hamiltonian@ == self.hamiltonian@,
                op.time_step == self.time_step_size,
                step <= self.total_time_steps_number,
                state@ == state_after(*self, order as int, step as int),
                state@.len() == pow2(total_bits(self.qubits_per_mode@)),
                exp@ == zero_state(self.qubits_per_mode@),
                aux@ == zero_state(self.qubits_per_mode@),
                per_step@.len() == step + 1,
                forall|t: int|
                    0 <= t <= step ==> #[trigger] per_step@[t]@.len()
                        == self.density_matrices@.len(),
                forall|t: int, d: int|
                    0 <= t <= step && 0 <= d < self.density_matrices@.len()
                        ==> #[trigger] per_step@[t]@[d]@ == recorded_density(
                        state_after(*self, order as int, t),
                        self.qubits_per_mode@,
                        self.density_matrices@[d],
                    ),
            decreases self.total_time_steps_number - step,
        {
            proof {
                assert(op.wf());
                assert(op.dim() == pow2(total_bits(self.qubits_per_mode@)));
            }
            cheb_exp(&op, &mut exp, &mut state, &mut aux, order);
            proof {
                lemma_cheb_spec_congruent(
                    op,
                    self.op_spec(),
                    zero_state(self.qubits_per_mode@),
                    state_after(*self, order as int, step as int),
                    zero_state(self.qubits_per_mode@),
                    order as int,
                );
                assert(exp@ == state_after(*self, order as int, step as int + 1));
            }
            core::mem::swap(&mut exp, &mut state);
            set2zero(&mut exp);
            set2zero(&mut aux);
            proof {
                assert(exp@ =~= zero_state(self.qubits_per_mode@));
                assert(aux@ =~= zero_state(self.qubits_per_mode@));
            }
            let rec = record_all(self, &state);
            per_step.push(rec);
            step += 1;
        }
        let mut out: Vec<Vec<Vec<C64>>> = Vec::new();
        let mut d: usize = 0;
        while d < self.density_matrices.len()
            invariant
                self.wf(),
                per_step@.len() == self.total_time_steps_number + 1,
                forall|t: int|
                    0 <= t <= self.total_time_steps_number ==> #[trigger] per_step@[t]@.len()
                        == self.density_matrices@.len(),
                forall|t: int, e: int|
                    0 <= t <= self.total_time_steps_number && 0 <= e
                        < self.density_matrices@.len() ==> #[trigger] per_step@[t]@[e]@
                        == recorded_density(
                        state_after(*self, order as int, t),
                        self.qubits_per_mode@,
                        self.density_matrices@[e],
                    ),
                d <= self.density_matrices@.len(),
                out@.len() == d,
                forall|e: int|
                    0 <= e < d ==> #[trigger] out@[e]@.len() == self.total_time_steps_number
                        + 1,
                forall|e: int, t: int|
                    0 <= e < d && 0 <= t <= self.total_time_steps_number
                        ==> #[trigger] out@[e]@[t]@ == recorded_density(
                        state_after(*self, order as int, t),
                        self.qubits_per_mode@,
                        self.density_matrices@[e],
                    ),
            decreases self.density_matrices@.len() - d,
        {
            let mut row: Vec<Vec<C64>> = Vec::new();
            let mut t: usize = 0;
            while t < per_step.len()
                invariant
                    per_step@.len() == self.total_time_steps_number + 1,
                    d < self.density_matrices@.len(),
                    forall|u: int|
                        0 <= u <= self.total_time_steps_number ==> #[trigger] per_step@[u]@.len()
                            == self.density_matrices@.len(),
                    t <= per_step@.len(),
                    row@.len() == t,
                    forall|u: int|
                        0 <= u < t ==> #[trigger] row@[u]@ == per_step@[u]@[d as int]@,
                decreases per_step@.len() - t,
            {
                let source = &per_step[t];
                row.push(copy_amplitudes(&source[d]));
                t += 1;
            }
            out.push(row);
            d += 1;
        }
        out
    }
}

} // verus!
