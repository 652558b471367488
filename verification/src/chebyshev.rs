use vstd::prelude::*;
use crate::complex::{
    cadd, cmul, prod_of, sum_of, C64, NEG_TWO_BITS, TWO_BITS,
};
use crate::states::add_inplace;

verus! {

/// A linear operator over amplitude vectors, as the propagator sees it:
/// `apply` accumulates `coeff` times the operator applied to `src` into
/// `dst`, and `apply_spec` says exactly what that leaves in `dst`.
pub trait ChebOp: Sized {
    /// The operator's own consistency condition.
    spec fn wf(&self) -> bool;

    /// Length of the amplitude vectors the operator acts on.
    spec fn dim(&self) -> nat;

    /// The contents of `dst` after `apply(dst, src, coeff)`.
    spec fn apply_spec(&self, dst: Seq<C64>, src: Seq<C64>, coeff: C64) -> Seq<C64>;

    fn apply(&self, dst: &mut Vec<C64>, src: &Vec<C64>, coeff: C64)
        requires
            self.wf(),
            old(dst)@.len() == self.dim(),
            src@.len() == self.dim(),
        ensures
            final(dst)@ == self.apply_spec(old(dst)@, src@, coeff),
            final(dst)@.len() == self.dim(),
    ;
}

/// Multiplication by a fixed complex factor on a single amplitude: the
/// simplest operator, used to check the propagator against the scalar
/// exponential.
pub struct ScalarFactor {
    pub factor: C64,
}

impl ChebOp for ScalarFactor {
    open spec fn wf(&self) -> bool {
        true
    }

    open spec fn dim(&self) -> nat {
        1
    }

    open spec fn apply_spec(&self, dst: Seq<C64>, src: Seq<C64>, coeff: C64) -> Seq<C64> {
        Seq::new(
            dst.len(),
            |i: int| sum_of(dst[i], prod_of(prod_of(coeff, src[i]), self.factor)),
        )
    }

    fn apply(&self, dst: &mut Vec<C64>, src: &Vec<C64>, coeff: C64) {
        let v = cadd(dst[0], cmul(cmul(coeff, src[0]), self.factor));
        dst[0] = v;
        proof {
            assert(dst@ =~= self.apply_spec(old(dst)@, src@, coeff));
        }
    }
}

/// What `add_inplace` leaves in the destination.
pub open spec fn add_spec(dst: Seq<C64>, src: Seq<C64>, coeff: C64) -> Seq<C64> {
    Seq::new(dst.len(), |i: int| sum_of(dst[i], prod_of(src[i], coeff)))
}

/// The double-precision value two.
pub open spec fn c_two() -> C64 {
    C64 { re_bits: TWO_BITS, im_bits: 0 }
}

/// The double-precision value minus two.
pub open spec fn c_neg_two() -> C64 {
    C64 { re_bits: NEG_TWO_BITS, im_bits: 0 }
}

/// The fixed coefficient table of the propagator: entry `k` holds, as
/// IEEE-754 bit patterns, the value of the modified Bessel function of
/// order `k` at one, times the `k`-th power of the negative imaginary
/// unit, so that the truncated Chebyshev series reproduces the
/// exponential.
pub open spec fn bessel_table() -> Seq<C64> {
    seq![
        C64 { re_bits: 0x3ff441ce4b386c2d, im_bits: 0x0000000000000000 },
        C64 { re_bits: 0x0000000000000000, im_bits: 0xbfe215c88b95e67e },
        C64 { re_bits: 0xbfc1602dfd142d76, im_bits: 0x0000000000000000 },
        C64 { re_bits: 0x0000000000000000, im_bits: 0x3f96b351d03720fe },
        C64 { re_bits: 0x3f666c283ab52dd5, im_bits: 0x0000000000000000 },
        C64 { re_bits: 0x0000000000000000, im_bits: 0xbf31ca65607cca33 },
        C64 { re_bits: 0xbef794c10c988b05, im_bits: 0x0000000000000000 },
        C64 { re_bits: 0x0000000000000000, im_bits: 0x3ebad4970a61ef3b },
        C64 { re_bits: 0x3e7abce382d9b0f2, im_bits: 0x0000000000000000 },
        C64 { re_bits: 0x0000000000000000, im_bits: 0xbe37b387883e493e },
        C64 { re_bits: 0xbdf2eb09939e8bbf, im_bits: 0x0000000000000000 },
        C64 { re_bits: 0x0000000000000000, im_bits: 0x3dab771f70351f90 },
        C64 { re_bits: 0x3d6247ecf40c175e, im_bits: 0x0000000000000000 },
        C64 { re_bits: 0x0000000000000000, im_bits: 0xbd16780445f905b7 },
        C64 { re_bits: 0xbcc9a5ecc70ae639, im_bits: 0x0000000000000000 },
        C64 { re_bits: 0x0000000000000000, im_bits: 0x3c7b545f3df114ce },
    ]
}

/// The coefficient table as a vector.
pub fn bessel_coeffs() -> (r: Vec<C64>)
    ensures
        r@ == bessel_table(),
{
    let mut coeffs: Vec<C64> = Vec::with_capacity(16);
    coeffs.push(C64 { re_bits: 0x3ff441ce4b386c2d, im_bits: 0x0000000000000000 });
    coeffs.push(C64 { re_bits: 0x0000000000000000, im_bits: 0xbfe215c88b95e67e });
    coeffs.push(C64 { re_bits: 0xbfc1602dfd142d76, im_bits: 0x0000000000000000 });
    coeffs.push(C64 { re_bits: 0x0000000000000000, im_bits: 0x3f96b351d03720fe });
    coeffs.push(C64 { re_bits: 0x3f666c283ab52dd5, im_bits: 0x0000000000000000 });
    coeffs.push(C64 { re_bits: 0x0000000000000000, im_bits: 0xbf31ca65607cca33 });
    coeffs.push(C64 { re_bits: 0xbef794c10c988b05, im_bits: 0x0000000000000000 });
    coeffs.push(C64 { re_bits: 0x0000000000000000, im_bits: 0x3ebad4970a61ef3b });
    coeffs.push(C64 { re_bits: 0x3e7abce382d9b0f2, im_bits: 0x0000000000000000 });
    coeffs.push(C64 { re_bits: 0x0000000000000000, im_bits: 0xbe37b387883e493e });
    coeffs.push(C64 { re_bits: 0xbdf2eb09939e8bbf, im_bits: 0x0000000000000000 });
    coeffs.push(C64 { re_bits: 0x0000000000000000, im_bits: 0x3dab771f70351f90 });
    coeffs.push(C64 { re_bits: 0x3d6247ecf40c175e, im_bits: 0x0000000000000000 });
    coeffs.push(C64 { re_bits: 0x0000000000000000, im_bits: 0xbd16780445f905b7 });
    coeffs.push(C64 { re_bits: 0xbcc9a5ecc70ae639, im_bits: 0x0000000000000000 });
    coeffs.push(C64 { re_bits: 0x0000000000000000, im_bits: 0x3c7b545f3df114ce });
    proof {
        assert(coeffs@ =~= bessel_table());
    }
    coeffs
}

/// The exponential buffer left by the remaining propagator iterations,
/// starting at step `k` with the given pair of Chebyshev buffers, their
/// signs (true for positive), and the current power of the imaginary
/// unit.
pub open spec fn cheb_run<O: ChebOp>(
    op: O,
    exp: Seq<C64>,
    prev: Seq<C64>,
    curr: Seq<C64>,
    prev_sign: bool,
    curr_sign: bool,
    imag_pow: C64,
    k: int,
    order: int,
) -> Seq<C64>
    decreases order - k,
{
    if k >= order {
        exp
    } else {
        let imag_pow2 = prod_of(imag_pow, C64::spec_i());
        let coeff2 = if prev_sign == curr_sign {
            c_neg_two()
        } else {
            c_two()
        };
        let next = op.apply_spec(prev, curr, coeff2);
        let next_sign = !prev_sign;
        let base = if next_sign {
            c_two()
        } else {
            c_neg_two()
        };
        let addc = prod_of(prod_of(base, imag_pow2), bessel_table()[k]);
        let exp2 = add_spec(exp, next, addc);
        cheb_run(op, exp2, curr, next, curr_sign, next_sign, imag_pow2, k + 1, order)
    }
}

/// The exponential buffer the propagator leaves: the zeroth coefficient
/// times the state, plus the first coefficient contribution from one
/// operator application, plus the remaining recurrence steps.
pub open spec fn cheb_exp_spec<O: ChebOp>(
    op: O,
    exp0: Seq<C64>,
    state0: Seq<C64>,
    aux0: Seq<C64>,
    order: int,
) -> Seq<C64> {
    let exp1 = add_spec(exp0, state0, bessel_table()[0]);
    let aux1 = op.apply_spec(aux0, state0, C64::spec_one());
    let addc1 = prod_of(prod_of(c_two(), C64::spec_i()), bessel_table()[1]);
    let exp2 = add_spec(exp1, aux1, addc1);
    cheb_run(op, exp2, state0, aux1, true, true, C64::spec_i(), 2, order)
}

/// One step of the Chebyshev recurrence without an explicit negation
/// pass: the buffer holding the older polynomial is advanced by twice the
/// operator applied to the newer one, with the sign of the update chosen
/// by the two buffers' sign tags, and its tag flips.
fn get_next_negative_chebyshev<O: ChebOp>(
    op: &O,
    prev: &mut Vec<C64>,
    prev_sign: &mut bool,
    curr: &Vec<C64>,
    curr_sign: bool,
)
    requires
        op.wf(),
        old(prev)@.len() == op.dim(),
        curr@.len() == op.dim(),
    ensures
        final(prev)@ == op.apply_spec(
            old(prev)@,
            curr@,
            if *old(prev_sign) == curr_sign {
                c_neg_two()
            } else {
                c_two()
            },
        ),
        final(prev)@.len() == op.dim(),
        *final(prev_sign) == !*old(prev_sign),
{
    if *prev_sign == curr_sign {
        op.apply(prev, curr, C64 { re_bits: NEG_TWO_BITS, im_bits: 0 });
    } else {
        op.apply(prev, curr, C64 { re_bits: TWO_BITS, im_bits: 0 });
    }
    *prev_sign = !*prev_sign;
}

/// Approximates the exponential of the operator applied to `state`,
/// accumulating into `exp`: the truncated Chebyshev series with the fixed
/// coefficient table, using `aux` as the second recurrence buffer. The
/// final contents of `state` and `aux` are scratch.
pub fn cheb_exp<O: ChebOp>(
    op: &O,
    exp: &mut Vec<C64>,
    state: &mut Vec<C64>,
    aux: &mut Vec<C64>,
    order: usize,
)
    requires
        op.wf(),
        old(exp)@.len() == op.dim(),
        old(state)@.len() == op.dim(),
        old(aux)@.len() == op.dim(),
        2 <= order <= 16,
    ensures
        final(exp)@ == cheb_exp_spec(*op, old(exp)@, old(state)@, old(aux)@, order as int),
        final(exp)@.len() == op.dim(),
        final(state)@.len() == op.dim(),
        final(aux)@.len() == op.dim(),
{
    let coeffs = bessel_coeffs();
    let two = C64 { re_bits: TWO_BITS, im_bits: 0 };
    let neg_two = C64 { re_bits: NEG_TWO_BITS, im_bits: 0 };
    let mut imag_pow = C64::i();
    add_inplace(exp, state, coeffs[0]);
    proof {
        assert(exp@ =~= add_spec(old(exp)@, old(state)@, bessel_table()[0]));
    }
    op.apply(aux, state, C64::one());
    add_inplace(exp, aux, cmul(cmul(two, imag_pow), coeffs[1]));
    proof {
        assert(exp@ =~= add_spec(
            add_spec(old(exp)@, old(state)@, bessel_table()[0]),
            aux@,
            prod_of(prod_of(c_two(), C64::spec_i()), bessel_table()[1]),
        ));
    }
    let mut prev_sign = true;
    let mut curr_sign = true;
    let mut k: usize = 2;
    while k < order
        invariant
            op.wf(),
            2 <= k <= order <= 16,
            coeffs@ == bessel_table(),
            two == c_two(),
            neg_two == c_neg_two(),
            exp@.len() == op.dim(),
            state@.len() == op.dim(),
            aux@.len() == op.dim(),
            cheb_run(
                *op,
                exp@,
                state@,
                aux@,
                prev_sign,
                curr_sign,
                imag_pow,
                k as int,
                order as int,
            ) == cheb_exp_spec(*op, old(exp)@, old(state)@, old(aux)@, order as int),
        decreases order - k,
    {
        let ghost exp0 = exp@;
        let ghost prev0 = state@;
        let ghost curr0 = aux@;
        let ghost psign0 = prev_sign;
        let ghost csign0 = curr_sign;
        let ghost ipow0 = imag_pow;
        imag_pow = cmul(imag_pow, C64::i());
        get_next_negative_chebyshev(op, state, &mut prev_sign, aux, curr_sign);
        core::mem::swap(state, aux);
        let t = prev_sign;
        prev_sign = curr_sign;
        curr_sign = t;
        let base = if curr_sign {
            two
        } else {
            neg_two
        };
        let delta = cmul(cmul(base, imag_pow), coeffs[k]);
        add_inplace(exp, aux, delta);
        proof {
            let coeff2 = if psign0 == csign0 {
                c_neg_two()
            } else {
                c_two()
            };
            let next = op.apply_spec(prev0, curr0, coeff2);
            let ipow2 = prod_of(ipow0, C64::spec_i());
            let cbase = if !psign0 {
                c_two()
            } else {
                c_neg_two()
            };
            let addc = prod_of(prod_of(cbase, ipow2), bessel_table()[k as int]);
            assert(aux@ == next);
            assert(state@ == curr0);
            assert(imag_pow == ipow2);
            assert(delta == addc);
            assert(exp@ =~= add_spec(exp0, next, addc));
            assert(cheb_run(*op, exp0, prev0, curr0, psign0, csign0, ipow0, k as int, order as int)
                == cheb_run(
                *op,
                exp@,
                state@,
                aux@,
                prev_sign,
                curr_sign,
                imag_pow,
                k as int + 1,
                order as int,
            ));
        }
        k += 1;
    }
}

} // verus!
