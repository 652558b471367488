use bosonic_dynamics::chebyshev::{cheb_exp, ScalarFactor};
use bosonic_dynamics::complex::C64;
use bosonic_dynamics::density::get_density;
use bosonic_dynamics::indexing::get_size;
use bosonic_dynamics::kernel::apply_term;
use bosonic_dynamics::states::init_std;
use bosonic_dynamics::terms::{Op, Term};
use num_complex::Complex64;
use rand::RngExt;
use std::collections::HashMap;

fn c64(re: f64, im: f64) -> C64 {
    C64 { re_bits: re.to_bits(), im_bits: im.to_bits() }
}

fn to_complex(c: &C64) -> Complex64 {
    Complex64::new(f64::from_bits(c.re_bits), f64::from_bits(c.im_bits))
}

fn from_complex(z: Complex64) -> C64 {
    c64(z.re, z.im)
}

fn stride_of(all_encodings: &[usize], p: usize) -> usize {
    let mut s = 1usize;
    for e in &all_encodings[..p] {
        s <<= e;
    }
    s
}

/// Applies the term through its dense single-mode matrices, mapping each
/// basis state to the one the ladder operators send it to.
fn apply_term_reference<const N: usize>(
    dst: &mut [Complex64],
    src: &[Complex64],
    term: &Term<N>,
    all_encodings: &[usize],
    delta: Complex64,
) {
    let size = 1usize << get_size(all_encodings);
    for x in 0..size {
        let mut amp = delta;
        let mut y = x;
        let mut feasible = true;
        for (pos, op) in term.positions.iter().zip(term.op_types.iter()) {
            let d = 1usize << all_encodings[*pos];
            let stride = stride_of(all_encodings, *pos);
            let k = (x / stride) % d;
            match op {
                Op::Rising => {
                    if k + 1 >= d {
                        feasible = false;
                    } else {
                        amp *= Complex64::from((k + 1) as f64).sqrt();
                        y += stride;
                    }
                }
                Op::Lowering => {
                    if k == 0 {
                        feasible = false;
                    } else {
                        amp *= Complex64::from(k as f64).sqrt();
                        y -= stride;
                    }
                }
                Op::N => {
                    amp *= k as f64;
                }
                Op::N2 => {
                    amp *= (k * k) as f64;
                }
            }
        }
        if feasible {
            dst[y] += amp * src[x];
        }
    }
}

fn check_apply_term<const N: usize>(
    all_encodings: &[usize],
    positions: [usize; N],
    op_types: [Op; N],
) {
    let size = 1usize << get_size(all_encodings);
    let term = Term { positions, op_types };
    let delta = Complex64::new(0.3, 0.7);
    let mut rng = rand::rng();
    let src: Vec<Complex64> = (0..size)
        .map(|_| Complex64::new(rng.random(), rng.random()))
        .collect();
    let dst: Vec<Complex64> = (0..size)
        .map(|_| Complex64::new(rng.random(), rng.random()))
        .collect();
    let mut dst_lib: Vec<C64> = dst.iter().map(|z| from_complex(*z)).collect();
    let src_lib: Vec<C64> = src.iter().map(|z| from_complex(*z)).collect();
    let mut dst_ref = dst.clone();
    apply_term(&mut dst_lib, &src_lib, &term, all_encodings, from_complex(delta));
    apply_term_reference(&mut dst_ref, &src, &term, all_encodings, delta);
    for (i, (v1, v2)) in dst_lib.iter().zip(dst_ref.iter()).enumerate() {
        assert!(
            (to_complex(v1) - *v2).norm() < 1e-10,
            "entry {}: lhs {} rhs {}",
            i,
            to_complex(v1),
            v2
        );
    }
}

#[test]
fn test_apply_term() {
    check_apply_term(&[2, 1, 2, 3, 2, 1], [0], [Op::Rising]);
    check_apply_term(&[2, 1, 2, 3, 2, 1], [1], [Op::Rising]);
    check_apply_term(&[2, 1, 2, 3, 2, 1], [2], [Op::Rising]);
    check_apply_term(&[2, 1, 2, 3, 2, 1], [3], [Op::Rising]);
    check_apply_term(&[2, 1, 2, 3, 2, 1], [4], [Op::Rising]);
    check_apply_term(&[2, 1, 2, 3, 2, 1], [5], [Op::Rising]);
    check_apply_term(&[2, 1, 2, 3, 2, 1], [0], [Op::Lowering]);
    check_apply_term(&[2, 1, 2, 3, 2, 1], [1], [Op::Lowering]);
    check_apply_term(&[2, 1, 2, 3, 2, 1], [2], [Op::Lowering]);
    check_apply_term(&[2, 1, 2, 3, 2, 1], [3], [Op::Lowering]);
    check_apply_term(&[2, 1, 2, 3, 2, 1], [4], [Op::Lowering]);
    check_apply_term(&[2, 1, 2, 3, 2, 1], [5], [Op::Lowering]);
    check_apply_term(&[2, 1, 2, 3, 2, 1], [0], [Op::N]);
    check_apply_term(&[2, 1, 2, 3, 2, 1], [1], [Op::N]);
    check_apply_term(&[2, 1, 2, 3, 2, 1], [2], [Op::N]);
    check_apply_term(&[2, 1, 2, 3, 2, 1], [3], [Op::N]);
    check_apply_term(&[2, 1, 2, 3, 2, 1], [4], [Op::N]);
    check_apply_term(&[2, 1, 2, 3, 2, 1], [5], [Op::N]);
    check_apply_term(&[2, 1, 2, 3, 2, 1], [0], [Op::N2]);
    check_apply_term(&[2, 1, 2, 3, 2, 1], [1], [Op::N2]);
    check_apply_term(&[2, 1, 2, 3, 2, 1], [2], [Op::N2]);
    check_apply_term(&[2, 1, 2, 3, 2, 1], [3], [Op::N2]);
    check_apply_term(&[2, 1, 2, 3, 2, 1], [4], [Op::N2]);
    check_apply_term(&[2, 1, 2, 3, 2, 1], [5], [Op::N2]);
    check_apply_term(&[2, 1, 2, 3, 2, 1], [0, 1], [Op::Rising, Op::Lowering]);
    check_apply_term(&[2, 1, 2, 3, 2, 1], [0, 2], [Op::Lowering, Op::Lowering]);
    check_apply_term(&[2, 1, 2, 3, 2, 1], [0, 3], [Op::Rising, Op::Rising]);
    check_apply_term(&[2, 1, 2, 3, 2, 1], [0, 5], [Op::Rising, Op::Lowering]);
    check_apply_term(&[2, 1, 2, 3, 2, 1], [1, 3], [Op::Lowering, Op::Lowering]);
    check_apply_term(&[2, 1, 2, 3, 2, 1], [2, 5], [Op::Rising, Op::Rising]);
    check_apply_term(&[2, 1, 2, 3, 2, 1], [3, 4], [Op::Rising, Op::Lowering]);
    check_apply_term(&[2, 1, 2, 3, 2, 1], [4, 5], [Op::Lowering, Op::Lowering]);
    check_apply_term(&[2, 1, 2, 3, 2, 1], [0, 1], [Op::N, Op::Lowering]);
    check_apply_term(&[2, 1, 2, 3, 2, 1], [0, 2], [Op::Lowering, Op::N2]);
    check_apply_term(&[2, 1, 2, 3, 2, 1], [0, 3], [Op::Rising, Op::N]);
    check_apply_term(&[2, 1, 2, 3, 2, 1], [0, 5], [Op::N2, Op::Lowering]);
    check_apply_term(&[2, 1, 2, 3, 2, 1], [1, 3], [Op::Lowering, Op::N]);
    check_apply_term(&[2, 1, 2, 3, 2, 1], [0, 1, 2], [Op::Rising, Op::Lowering, Op::Rising]);
    check_apply_term(&[2, 1, 2, 3, 2, 1], [0, 2, 3], [Op::Rising, Op::Lowering, Op::Lowering]);
    check_apply_term(&[2, 1, 2, 3, 2, 1], [0, 3, 5], [Op::Rising, Op::Rising, Op::Rising]);
    check_apply_term(&[2, 1, 2, 3, 2, 1], [0, 1, 5], [Op::Rising, Op::Lowering, Op::Lowering]);
    check_apply_term(&[2, 1, 2, 3, 2, 1], [1, 3, 4], [Op::Lowering, Op::Lowering, Op::Rising]);
    check_apply_term(&[2, 1, 2, 3, 2, 1], [2, 3, 5], [Op::Rising, Op::Rising, Op::Lowering]);
    check_apply_term(&[2, 1, 2, 3, 2, 1], [1, 3, 4], [Op::Rising, Op::Lowering, Op::Lowering]);
    check_apply_term(&[2, 1, 2, 3, 2, 1], [0, 4, 5], [Op::Lowering, Op::Lowering, Op::Lowering]);
    check_apply_term(&[2, 1, 2, 3, 2, 1], [0, 1, 2], [Op::Rising, Op::Lowering, Op::Rising]);
    check_apply_term(&[2, 1, 2, 3, 2, 1], [0, 2, 3], [Op::N, Op::Lowering, Op::Lowering]);
    check_apply_term(&[2, 1, 2, 3, 2, 1], [0, 3, 5], [Op::Rising, Op::N, Op::Rising]);
    check_apply_term(&[2, 1, 2, 3, 2, 1], [0, 1, 5], [Op::Rising, Op::Lowering, Op::N]);
    check_apply_term(&[2, 1, 2, 3, 2, 1], [1, 3, 4], [Op::N, Op::N2, Op::Rising]);
    check_apply_term(&[2, 1, 2, 3, 2, 1], [2, 3, 5], [Op::Rising, Op::N2, Op::Lowering]);
    check_apply_term(&[2, 1, 2, 3, 2, 1], [1, 3, 4], [Op::N, Op::Lowering, Op::N2]);
    check_apply_term(&[2, 1, 2, 3, 2, 1], [0, 4, 5], [Op::N, Op::N2, Op::N]);
    check_apply_term(
        &[2, 1, 2, 3, 2, 1],
        [0, 1, 2, 3],
        [Op::Rising, Op::Lowering, Op::Rising, Op::Lowering],
    );
    check_apply_term(
        &[2, 1, 2, 3, 2, 1],
        [1, 2, 3, 4],
        [Op::Rising, Op::Lowering, Op::Lowering, Op::Rising],
    );
    check_apply_term(
        &[2, 1, 2, 3, 2, 1],
        [0, 2, 3, 5],
        [Op::Rising, Op::Rising, Op::Rising, Op::Rising],
    );
    check_apply_term(
        &[2, 1, 2, 3, 2, 1],
        [0, 1, 3, 5],
        [Op::Rising, Op::Lowering, Op::Lowering, Op::Lowering],
    );
    check_apply_term(
        &[2, 1, 2, 3, 2, 1],
        [0, 1, 4, 5],
        [Op::Lowering, Op::Lowering, Op::Lowering, Op::Lowering],
    );
    check_apply_term(
        &[2, 1, 2, 3, 2, 1],
        [0, 1, 2, 3],
        [Op::N, Op::Lowering, Op::Rising, Op::N],
    );
    check_apply_term(
        &[2, 1, 2, 3, 2, 1],
        [1, 2, 3, 4],
        [Op::Rising, Op::N2, Op::Lowering, Op::N2],
    );
    check_apply_term(
        &[2, 1, 2, 3, 2, 1],
        [0, 2, 3, 5],
        [Op::Rising, Op::Rising, Op::Rising, Op::Rising],
    );
    check_apply_term(
        &[2, 1, 2, 3, 2, 1],
        [0, 1, 3, 5],
        [Op::N, Op::N, Op::Lowering, Op::Lowering],
    );
    check_apply_term(
        &[2, 1, 2, 3, 2, 1],
        [0, 1, 4, 5],
        [Op::N, Op::Lowering, Op::N2, Op::Lowering],
    );
}

/// Groups the state entries by the joint value of the modes outside the
/// subset and accumulates the outer products bucket by bucket.
fn get_density_reference<const N: usize>(
    src: &[Complex64],
    positions: &[usize; N],
    all_encodings: &[usize],
) -> Vec<Complex64> {
    let size = 1usize << get_size(all_encodings);
    let mut sorted = *positions;
    sorted.sort();
    let mut sub_bits = 0usize;
    for p in sorted.iter() {
        sub_bits += all_encodings[*p];
    }
    let ds = 1usize << sub_bits;
    let mut buckets: HashMap<usize, Vec<(usize, Complex64)>> = HashMap::new();
    for x in 0..size {
        let mut packed = 0usize;
        let mut packed_shift = 0usize;
        let mut rest = x;
        for p in sorted.iter() {
            let d = 1usize << all_encodings[*p];
            let stride = stride_of(all_encodings, *p);
            let k = (x / stride) % d;
            packed |= k << packed_shift;
            packed_shift += all_encodings[*p];
            rest -= k * stride;
        }
        buckets.entry(rest).or_default().push((packed, src[x]));
    }
    let mut dens = vec![Complex64::new(0.0, 0.0); ds * ds];
    for (_, entries) in buckets.iter() {
        for (j, psi_j) in entries.iter() {
            for (k, psi_k) in entries.iter() {
                dens[j * ds + k] += psi_j.conj() * *psi_k;
            }
        }
    }
    dens
}

fn check_get_density<const N: usize>(all_encodings: &[usize], positions: [usize; N]) {
    let size = 1usize << get_size(all_encodings);
    let mut rng = rand::rng();
    let src: Vec<Complex64> = (0..size)
        .map(|_| Complex64::new(rng.random(), rng.random()))
        .collect();
    let src_lib: Vec<C64> = src.iter().map(|z| from_complex(*z)).collect();
    let test_dens = get_density_reference(&src, &positions, all_encodings);
    let dens = get_density(&src_lib, &positions, all_encodings);
    for (d1, d2) in dens.iter().zip(test_dens.iter()).skip(200) {
        assert!((to_complex(d1) - *d2).norm() < 1e-10);
    }
    for (d1, d2) in dens.iter().zip(test_dens.iter()) {
        assert!((to_complex(d1) - *d2).norm() < 1e-10);
    }
}

#[test]
fn test_get_density() {
    check_get_density(&[2, 1, 2, 3, 2, 1], [0]);
    check_get_density(&[2, 1, 2, 3, 2, 1], [1]);
    check_get_density(&[2, 1, 2, 3, 2, 1], [2]);
    check_get_density(&[2, 1, 2, 3, 2, 1], [3]);
    check_get_density(&[2, 1, 2, 3, 2, 1], [4]);
    check_get_density(&[2, 1, 2, 3, 2, 1], [5]);
    check_get_density(&[2, 1, 2, 3, 2, 1], [0]);
    check_get_density(&[2, 1, 2, 3, 2, 1], [1]);
    check_get_density(&[2, 1, 2, 3, 2, 1], [2]);
    check_get_density(&[2, 1, 2, 3, 2, 1], [3]);
    check_get_density(&[2, 1, 2, 3, 2, 1], [4]);
    check_get_density(&[2, 1, 2, 3, 2, 1], [5]);
    check_get_density(&[2, 1, 2, 3, 2, 1], [0, 1]);
    check_get_density(&[2, 1, 2, 3, 2, 1], [0, 2]);
    check_get_density(&[2, 1, 2, 3, 2, 1], [0, 3]);
    check_get_density(&[2, 1, 2, 3, 2, 1], [0, 5]);
    check_get_density(&[2, 1, 2, 3, 2, 1], [1, 3]);
    check_get_density(&[2, 1, 2, 3, 2, 1], [2, 5]);
    check_get_density(&[2, 1, 2, 3, 2, 1], [3, 4]);
    check_get_density(&[2, 1, 2, 3, 2, 1], [4, 5]);
    check_get_density(&[2, 1, 2, 3, 2, 1], [0, 1, 2]);
    check_get_density(&[2, 1, 2, 3, 2, 1], [0, 2, 3]);
    check_get_density(&[2, 1, 2, 3, 2, 1], [0, 3, 5]);
    check_get_density(&[2, 1, 2, 3, 2, 1], [0, 1, 5]);
    check_get_density(&[2, 1, 2, 3, 2, 1], [1, 3, 4]);
    check_get_density(&[2, 1, 2, 3, 2, 1], [2, 3, 5]);
    check_get_density(&[2, 1, 2, 3, 2, 1], [1, 3, 4]);
    check_get_density(&[2, 1, 2, 3, 2, 1], [0, 4, 5]);
    check_get_density(&[2, 1, 2, 3, 2, 1], [0, 1, 2, 3]);
    check_get_density(&[2, 1, 2, 3, 2, 1], [1, 2, 3, 4]);
    check_get_density(&[2, 1, 2, 3, 2, 1], [0, 2, 3, 5]);
    check_get_density(&[2, 1, 2, 3, 2, 1], [0, 1, 3, 5]);
    check_get_density(&[2, 1, 2, 3, 2, 1], [0, 1, 4, 5]);
}

#[test]
fn test_init_std() {
    let all_encodings = [3, 2, 1, 2, 3, 2, 1];
    let size = 1usize << get_size(&all_encodings);
    let state = init_std(&all_encodings);
    assert_eq!(size, state.len());
    for elem in &state[1..] {
        assert!(to_complex(elem).norm() < 1e-10);
    }
    assert!((to_complex(&state[0]) - Complex64::new(1.0, 0.0)).norm() < 1e-10);
}

fn check_cheb_exp(order: usize, acc: f64) {
    let x = Complex64::new(0.7, 0.2);
    let op = ScalarFactor { factor: from_complex(x) };
    let mut exp = vec![c64(0.0, 0.0)];
    let mut state = vec![c64(1.0, 0.0)];
    let mut aux = vec![c64(0.0, 0.0)];
    cheb_exp(&op, &mut exp, &mut state, &mut aux, order);
    assert!((to_complex(&exp[0]) - x.exp()).norm() < acc);
}

#[test]
fn test_cheb_exp() {
    check_cheb_exp(14, 1e-10);
    check_cheb_exp(7, 1e-4);
}
