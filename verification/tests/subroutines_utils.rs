use bosonic_dynamics::complex::C64;
use bosonic_dynamics::indexing::{
    density_matrix_index_to_state_index, density_matrix_shifts_and_masks, get_batch_index,
    get_batch_size, get_masks, get_operator_index, get_offset, get_strides,
    get_target_encodings, masks_and_offsets,
};
use bosonic_dynamics::terms::{get_diagonal, get_tensor_product, Op, Term};
use num_complex::Complex64;

fn c64(re: f64, im: f64) -> C64 {
    C64 { re_bits: re.to_bits(), im_bits: im.to_bits() }
}

fn to_complex(c: &C64) -> Complex64 {
    Complex64::new(f64::from_bits(c.re_bits), f64::from_bits(c.im_bits))
}

#[test]
fn test_dens_matrix_utils() {
    let all_encodings = [1, 2, 3, 2, 1, 1, 2, 1, 2, 3];
    let positions = [];
    let size = get_batch_size(&all_encodings, &positions);
    assert_eq!(2usize.pow(18), size);
    let strides = get_strides(&all_encodings, &positions);
    let target_encodings = get_target_encodings(&all_encodings, &positions);
    let masks = get_masks(&strides);
    let batch_index = get_batch_index(usize::MAX, &masks, &target_encodings);
    assert_eq!(usize::MAX, batch_index);
    let batch_index = get_batch_index(0usize, &masks, &target_encodings);
    assert_eq!(0, batch_index);
    let batch_index = get_batch_index(512usize - 1, &masks, &target_encodings);
    assert_eq!(512usize - 1, batch_index);
    // --------------------------------------------------------------------------
    let all_encodings = [1, 2, 3, 2, 1, 1, 2, 1, 2, 3];
    let mut positions = [5, 2, 8];
    positions.sort();
    let size = get_batch_size(&all_encodings, &positions);
    assert_eq!(2usize.pow(12), size);
    let strides = get_strides(&all_encodings, &positions);
    assert_eq!([8, 512, 8192], strides);
    let target_encodings = get_target_encodings(&all_encodings, &positions);
    assert_eq!(target_encodings, [3, 1, 2]);
    let masks = get_masks(&strides);
    assert_eq!([usize::MAX << 3, usize::MAX << 9, usize::MAX << 13], masks);
    let batch_index = get_batch_index(usize::MAX, &masks, &target_encodings);
    assert_eq!(
        0b1111111111111111111111111111111111111111111111111001110111000111,
        batch_index
    );
    let batch_index = get_batch_index(0usize, &masks, &target_encodings);
    assert_eq!(0, batch_index);
    let batch_index = get_batch_index(512usize - 1, &masks, &target_encodings);
    assert_eq!(0b1110111000111, batch_index);
    // --------------------------------------------------------------------------
    let all_encodings = [1, 2, 3, 2, 1, 1, 2, 1, 2, 3];
    let mut positions = [7, 0, 3, 9];
    positions.sort();
    let size = get_batch_size(&all_encodings, &positions);
    assert_eq!(2usize.pow(11), size);
    let strides = get_strides(&all_encodings, &positions);
    assert_eq!([1, 64, 4096, 32768], strides);
    let target_encodings = get_target_encodings(&all_encodings, &positions);
    assert_eq!(target_encodings, [1, 2, 1, 3]);
    let masks = get_masks(&strides);
    assert_eq!(
        [usize::MAX, usize::MAX << 6, usize::MAX << 12, usize::MAX << 15],
        masks
    );
    let batch_index = get_batch_index(usize::MAX, &masks, &target_encodings);
    assert_eq!(
        0b1111111111111111111111111111111111111111111111000110111100111110,
        batch_index
    );
    let batch_index = get_batch_index(512usize - 1, &masks, &target_encodings);
    assert_eq!(0b111100111110, batch_index);
    let batch_index = get_batch_index(0, &masks, &target_encodings);
    assert_eq!(0, batch_index);
}

#[test]
fn test_subroutines_utils() {
    let all_encodings = [1, 2, 3, 2, 1, 1, 2, 1, 2, 3];
    let terms = [];
    let size = get_batch_size(&all_encodings, &terms);
    assert_eq!(2usize.pow(18), size);
    let strides = get_strides(&all_encodings, &terms);
    let target_encodings = get_target_encodings(&all_encodings, &terms);
    let masks = get_masks(&strides);
    let batch_index = get_batch_index(usize::MAX, &masks, &target_encodings);
    assert_eq!(usize::MAX, batch_index);
    let batch_index = get_batch_index(0usize, &masks, &target_encodings);
    assert_eq!(0, batch_index);
    let batch_index = get_batch_index(512usize - 1, &masks, &target_encodings);
    assert_eq!(512usize - 1, batch_index);
    // --------------------------------------------------------------------------
    let all_encodings = [1, 2, 3, 2, 1, 1, 2, 1, 2, 3];
    let mut terms = [5, 2, 8];
    terms.sort();
    let size = get_batch_size(&all_encodings, &terms);
    assert_eq!(2usize.pow(12), size);
    let strides = get_strides(&all_encodings, &terms);
    assert_eq!([8, 512, 8192], strides);
    let target_encodings = get_target_encodings(&all_encodings, &terms);
    assert_eq!(target_encodings, [3, 1, 2]);
    let masks = get_masks(&strides);
    assert_eq!([usize::MAX << 3, usize::MAX << 9, usize::MAX << 13], masks);
    let batch_index = get_batch_index(usize::MAX, &masks, &target_encodings);
    assert_eq!(
        0b1111111111111111111111111111111111111111111111111001110111000111,
        batch_index
    );
    let batch_index = get_batch_index(0usize, &masks, &target_encodings);
    assert_eq!(0, batch_index);
    let batch_index = get_batch_index(512usize - 1, &masks, &target_encodings);
    assert_eq!(0b1110111000111, batch_index);
    // --------------------------------------------------------------------------
    let all_encodings = [1, 2, 3, 2, 1, 1, 2, 1, 2, 3];
    let mut terms = [7, 0, 3, 9];
    terms.sort();
    let size = get_batch_size(&all_encodings, &terms);
    assert_eq!(2usize.pow(11), size);
    let strides = get_strides(&all_encodings, &terms);
    assert_eq!([1, 64, 4096, 32768], strides);
    let target_encodings = get_target_encodings(&all_encodings, &terms);
    assert_eq!(target_encodings, [1, 2, 1, 3]);
    let masks = get_masks(&strides);
    assert_eq!(
        [usize::MAX, usize::MAX << 6, usize::MAX << 12, usize::MAX << 15],
        masks
    );
    let batch_index = get_batch_index(usize::MAX, &masks, &target_encodings);
    assert_eq!(
        0b1111111111111111111111111111111111111111111111000110111100111110,
        batch_index
    );
    let batch_index = get_batch_index(512usize - 1, &masks, &target_encodings);
    assert_eq!(0b111100111110, batch_index);
    let batch_index = get_batch_index(0, &masks, &target_encodings);
    assert_eq!(0, batch_index);
}

#[test]
fn test_indexing() {
    let (masks, shifts) = masks_and_offsets(&[1, 2, 1, 3, 4, 3, 1, 3], &[3]);
    let index: usize = 0b000000000000000000000010000;
    let operator_index = get_operator_index(index, &shifts, &masks);
    assert_eq!(1, operator_index);
    let offset = get_offset(operator_index, &shifts, &masks);
    assert_eq!(index, offset);
    // ------------------------------------------------------------
    let (masks, shifts) = masks_and_offsets(&[1, 2, 1, 3, 4, 3, 1, 3], &[2, 4, 7]);
    let index: usize = 0b0000111000011110001000;
    let operator_index = get_operator_index(index, &shifts, &masks);
    assert_eq!(2usize.pow(8) - 1, operator_index);
    let offset = get_offset(operator_index, &shifts, &masks);
    assert_eq!(index, offset);
}

#[test]
fn test_product() {
    let tensor_product = get_tensor_product(&vec![vec![
        c64(1.0, 0.0),
        c64(2.0, 0.0),
        c64(3.0, 0.0),
    ]]);
    let expected = [1.0, 2.0, 3.0];
    assert_eq!(expected.len(), tensor_product.len());
    for (v, e) in tensor_product.iter().zip(expected.iter()) {
        assert!((to_complex(v) - Complex64::new(*e, 0.0)).norm() < 1e-12);
    }
    let tensor_product = get_tensor_product(&vec![
        vec![c64(1.0, 0.0), c64(2.0, 0.0), c64(3.0, 0.0)],
        vec![c64(3.0, 0.0), c64(2.0, 0.0)],
    ]);
    let expected = [3.0, 6.0, 9.0, 2.0, 4.0, 6.0];
    assert_eq!(expected.len(), tensor_product.len());
    for (v, e) in tensor_product.iter().zip(expected.iter()) {
        assert!((to_complex(v) - Complex64::new(*e, 0.0)).norm() < 1e-12);
    }
    let tensor_product = get_tensor_product(&vec![
        vec![c64(2.0, 0.0), c64(1.0, 0.0), c64(4.0, 0.0)],
        vec![c64(2.0, 0.0), c64(3.0, 0.0)],
        vec![c64(8.0, 0.0), c64(3.0, 0.0)],
    ]);
    let expected = [
        32.0, 16.0, 64.0, 48.0, 24.0, 96.0, 12.0, 6.0, 24.0, 18.0, 9.0, 36.0,
    ];
    assert_eq!(expected.len(), tensor_product.len());
    for (v, e) in tensor_product.iter().zip(expected.iter()) {
        assert!((to_complex(v) - Complex64::new(*e, 0.0)).norm() < 1e-12);
    }
}

#[test]
fn test_get_offset() {
    let term = Term {
        positions: [1, 3, 5],
        op_types: [Op::Lowering, Op::Rising, Op::Lowering],
    };
    let all_encodings = [1, 3, 1, 4, 2, 2, 1];
    let (masks, shifts) = masks_and_offsets(&all_encodings, &term.positions);
    let offset = get_offset(123, &shifts, &masks);
    let index = get_operator_index(offset, &shifts, &masks);
    assert_eq!(123, index);
}

fn check_get_diagonal<const N: usize>(
    term: Term<N>,
    all_encodings: &[usize],
    true_diag: impl Iterator<Item = Complex64>,
) {
    let transposed_term = term.transpose();
    let (diag, offset) = get_diagonal(&term, all_encodings);
    let (transposed_diag, transposed_offset) = get_diagonal(&transposed_term, all_encodings);
    for (a, b) in true_diag.zip(&diag) {
        assert!((a - to_complex(b)).norm() < 1e-10);
    }
    if offset > 0 {
        for (a, b) in diag.iter().skip(offset as usize).zip(&transposed_diag) {
            assert!((to_complex(a) - to_complex(b)).norm() < 1e-10);
        }
    } else {
        for (a, b) in diag.iter().zip(&transposed_diag[(-offset as usize)..]) {
            assert!((to_complex(a) - to_complex(b)).norm() < 1e-10);
        }
    }
    assert_eq!(offset, -transposed_offset);
}

#[test]
fn test_get_diagonal() {
    let term = Term {
        positions: [1, 3, 5],
        op_types: [Op::Lowering, Op::Rising, Op::Lowering],
    };
    let true_diag = (0..4)
        .map(|a| Complex64::from(a as f64).sqrt())
        .flat_map(|x| {
            (1..16)
                .chain(0..1)
                .map(|a| Complex64::from(a as f64).sqrt())
                .map(move |y| x * y)
        })
        .flat_map(|x| {
            (0..8)
                .map(|a| Complex64::from(a as f64).sqrt())
                .map(move |y| x * y)
        });
    let all_encodings = [1, 3, 1, 4, 2, 2, 1];
    check_get_diagonal(term, &all_encodings, true_diag);
    let term = Term {
        positions: [1, 2, 3, 7],
        op_types: [Op::Rising, Op::Lowering, Op::Rising, Op::Lowering],
    };
    let true_diag = (0..2)
        .map(|a| Complex64::from(a as f64).sqrt())
        .flat_map(|x| {
            (1..16)
                .chain(0..1)
                .map(|a| Complex64::from(a as f64).sqrt())
                .map(move |y| x * y)
        })
        .flat_map(|x| {
            (0..2)
                .map(|a| Complex64::from(a as f64).sqrt())
                .map(move |y| x * y)
        })
        .flat_map(|x| {
            (1..8)
                .chain(0..1)
                .map(|a| Complex64::from(a as f64).sqrt())
                .map(move |y| x * y)
        });
    let all_encodings = [1, 3, 1, 4, 2, 2, 1, 1, 2, 3, 4, 3, 1];
    check_get_diagonal(term, &all_encodings, true_diag);
}

#[test]
fn test_density_matrix_indexing() {
    let all_encodings = [1, 4, 1, 3, 2, 1, 5];
    let positions = [1, 3, 6];
    let (masks, shifts) = density_matrix_shifts_and_masks(&all_encodings, &positions);
    let index = 0b100011011001;
    let state_index = density_matrix_index_to_state_index(index, &shifts, &masks);
    assert_eq!(0b10001000101010010, state_index);
}
