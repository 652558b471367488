use bosonic_dynamics::chebyshev::cheb_exp;
use bosonic_dynamics::complex::C64;
use bosonic_dynamics::density::get_density;
use bosonic_dynamics::dynamics::{ChebyshevDynamics, DensEnum, HamiltonianOp, TermAndAmpl};
use bosonic_dynamics::indexing::{get_offset, get_operator_index, masks_and_offsets};
use bosonic_dynamics::terms::{Op, Term};
use num_complex::Complex64;

fn c64(re: f64, im: f64) -> C64 {
    C64 { re_bits: re.to_bits(), im_bits: im.to_bits() }
}

fn to_complex(c: &C64) -> Complex64 {
    Complex64::new(f64::from_bits(c.re_bits), f64::from_bits(c.im_bits))
}

/// One qubit driven by the sum of the ladder operators for one short step
/// reproduces the exponential of the corresponding spin flip.
#[test]
fn one_qubit_flip_step() {
    let dt = 0.1f64;
    let op = HamiltonianOp {
        all_encodings: vec![1],
        hamiltonian: vec![
            TermAndAmpl::One { ampl: 1.0f64.to_bits(), pos: [0], ops: [Op::Rising] },
            TermAndAmpl::One { ampl: 1.0f64.to_bits(), pos: [0], ops: [Op::Lowering] },
        ],
        time_step: dt.to_bits(),
    };
    let mut exp = vec![c64(0.0, 0.0); 2];
    let mut state = vec![c64(0.0, 0.0); 2];
    state[0] = c64(1.0, 0.0);
    let mut aux = vec![c64(0.0, 0.0); 2];
    cheb_exp(&op, &mut exp, &mut state, &mut aux, 7);
    let expected0 = Complex64::new(dt.cos(), 0.0);
    let expected1 = Complex64::new(0.0, dt.sin());
    assert!((to_complex(&exp[0]) - expected0).norm() < 1e-4);
    assert!((to_complex(&exp[1]) - expected1).norm() < 1e-4);
}

/// The number operator leaves the empty state alone: its reduced density
/// matrix stays concentrated in the first entry at every time index.
#[test]
fn number_operator_keeps_vacuum() {
    let task = ChebyshevDynamics {
        qubits_per_mode: vec![2],
        total_time_steps_number: 3,
        time_step_size: 0.1f64.to_bits(),
        hamiltonian: vec![TermAndAmpl::One {
            ampl: 1.0f64.to_bits(),
            pos: [0],
            ops: [Op::N],
        }],
        density_matrices: vec![DensEnum::One([0])],
    };
    let records = task.run(7);
    assert_eq!(1, records.len());
    assert_eq!(4, records[0].len());
    for t in 0..4 {
        let dens = &records[0][t];
        assert_eq!(16, dens.len());
        for (i, v) in dens.iter().enumerate() {
            let expected = if i == 0 {
                Complex64::new(1.0, 0.0)
            } else {
                Complex64::new(0.0, 0.0)
            };
            assert!((to_complex(v) - expected).norm() < 1e-4);
        }
    }
}

/// A hopping pair of modes exchanges the excitation completely after a
/// quarter period.
#[test]
fn hopping_transfers_excitation() {
    let dt = std::f64::consts::FRAC_PI_2;
    let encodings = vec![1usize, 1usize];
    let op = HamiltonianOp {
        all_encodings: encodings.clone(),
        hamiltonian: vec![
            TermAndAmpl::Two {
                ampl: 1.0f64.to_bits(),
                pos: [0, 1],
                ops: [Op::Rising, Op::Lowering],
            },
            TermAndAmpl::Two {
                ampl: 1.0f64.to_bits(),
                pos: [0, 1],
                ops: [Op::Lowering, Op::Rising],
            },
        ],
        time_step: dt.to_bits(),
    };
    let mut exp = vec![c64(0.0, 0.0); 4];
    let mut state = vec![c64(0.0, 0.0); 4];
    state[2] = c64(1.0, 0.0);
    let mut aux = vec![c64(0.0, 0.0); 4];
    cheb_exp(&op, &mut exp, &mut state, &mut aux, 14);
    let dens0 = get_density(&exp, &[0usize], &encodings);
    let dens1 = get_density(&exp, &[1usize], &encodings);
    assert!((to_complex(&dens0[0]) - Complex64::new(0.0, 0.0)).norm() < 1e-8);
    assert!((to_complex(&dens0[3]) - Complex64::new(1.0, 0.0)).norm() < 1e-8);
    assert!((to_complex(&dens1[0]) - Complex64::new(1.0, 0.0)).norm() < 1e-8);
    assert!((to_complex(&dens1[3]) - Complex64::new(0.0, 0.0)).norm() < 1e-8);
}

/// A diagonal Hamiltonian only adds phases: the diagonal of an entangled
/// pair's reduced density matrix is preserved.
#[test]
fn diagonal_hamiltonian_preserves_populations() {
    let dt = 0.1f64;
    let encodings = vec![2usize, 2usize];
    let op = HamiltonianOp {
        all_encodings: encodings.clone(),
        hamiltonian: vec![
            TermAndAmpl::One { ampl: 1.0f64.to_bits(), pos: [0], ops: [Op::N] },
            TermAndAmpl::One { ampl: 1.0f64.to_bits(), pos: [1], ops: [Op::N] },
        ],
        time_step: dt.to_bits(),
    };
    let amp = std::f64::consts::FRAC_1_SQRT_2;
    let mut exp = vec![c64(0.0, 0.0); 16];
    let mut state = vec![c64(0.0, 0.0); 16];
    state[0] = c64(amp, 0.0);
    state[15] = c64(amp, 0.0);
    let mut aux = vec![c64(0.0, 0.0); 16];
    cheb_exp(&op, &mut exp, &mut state, &mut aux, 14);
    let dens = get_density(&exp, &[0usize], &encodings);
    for j in 0..4usize {
        let expected = if j == 0 || j == 3 { 0.5 } else { 0.0 };
        assert!((to_complex(&dens[j * 4 + j]) - Complex64::new(expected, 0.0)).norm() < 1e-8);
    }
}

/// With no Hamiltonian the state never moves: every recorded density
/// matrix equals the first one.
#[test]
fn empty_hamiltonian_is_static() {
    let task = ChebyshevDynamics {
        qubits_per_mode: vec![1, 1],
        total_time_steps_number: 10,
        time_step_size: 0.2f64.to_bits(),
        hamiltonian: vec![],
        density_matrices: vec![DensEnum::One([0])],
    };
    let records = task.run(14);
    assert_eq!(1, records.len());
    assert_eq!(11, records[0].len());
    for t in 0..11 {
        for i in 0..4 {
            let a = to_complex(&records[0][t][i]);
            let b = to_complex(&records[0][0][i]);
            assert!((a - b).norm() < 1e-12);
        }
    }
}

/// The reduced density matrix is Hermitian and its trace is the squared
/// norm of the state.
#[test]
fn density_trace_and_hermiticity() {
    let encodings = [2usize, 1, 2];
    let size = 1usize << 5;
    let src: Vec<C64> = (0..size)
        .map(|i| c64(((i * 7 + 3) % 11) as f64 * 0.05, ((i * 5 + 1) % 13) as f64 * 0.03))
        .collect();
    let norm2: f64 = src.iter().map(|c| to_complex(c).norm_sqr()).sum();
    let positions = [0usize, 2];
    let dens = get_density(&src, &positions, &encodings);
    let ds = 16usize;
    let trace: Complex64 = (0..ds).map(|j| to_complex(&dens[j * ds + j])).sum();
    assert!((trace - Complex64::new(norm2, 0.0)).norm() < 1e-10);
    for j in 0..ds {
        for k in 0..ds {
            let a = to_complex(&dens[j * ds + k]);
            let b = to_complex(&dens[k * ds + j]).conj();
            assert!((a - b).norm() < 1e-12);
        }
    }
}

/// Packing a global index whose other bits are zero and scattering it back
/// returns the index.
#[test]
fn indexing_round_trip() {
    let all_encodings = [2usize, 3, 1, 2];
    let positions = [1usize, 3];
    let (masks, shifts) = masks_and_offsets(&all_encodings, &positions);
    for oi in 0..32usize {
        let x = get_offset(oi, &shifts, &masks);
        assert_eq!(oi, get_operator_index(x, &shifts, &masks));
        assert_eq!(x, get_offset(get_operator_index(x, &shifts, &masks), &shifts, &masks));
    }
}

/// Sorting a term orders its entries by position and keeps every pair.
#[test]
fn term_sort_orders_pairs() {
    let mut term = Term {
        positions: [4usize, 1, 3],
        op_types: [Op::N, Op::Rising, Op::Lowering],
    };
    term.sort();
    assert_eq!([1usize, 3, 4], term.positions);
    assert_eq!([Op::Rising, Op::Lowering, Op::N], term.op_types);
}
