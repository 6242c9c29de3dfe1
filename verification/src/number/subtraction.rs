//! Subtraction: the larger magnitude minus the smaller, digit-wise with a
//! borrow; mixed signs delegate to addition.

use vstd::prelude::*;

verus! {

use crate::digits::BASE;
use crate::digits::base;
use crate::digits::digits_ok;
use crate::digits::mag;
use crate::digits::pow_b;
use crate::digits::lemma_mag_prepend;
use crate::digits::lemma_mag_upper;
use crate::digits::lemma_pow_b_adds;
use crate::number::Number;
use crate::number::nat_max;
use crate::number::is_sum;
use crate::number::is_diff;
use crate::number::same_rep;
use crate::number::lex_cmp;
use crate::number::lemma_diff_from_aligned;
use crate::number::lemma_sval_scaled;
use crate::number::lemma_normalized_value_unique;
use crate::number::lemma_normalized_zero_is_empty;
use crate::number::addition::lemma_cross_through_common;

impl Number {
    /// Digit-wise subtraction of two numbers carrying the same sign:
    /// equalize, put the larger magnitude first (noting a swap), scan from
    /// the least significant position with a borrow, normalize, and negate
    /// the result when the operands were swapped.
    pub(crate) fn sub_same_sign(self, other: Number) -> (r: Number)
        requires
            self.wf(),
            other.wf(),
            self.is_positive == other.is_positive,
        ensures
            r.normalized(),
            is_diff(r, self, other),
    {
        let ghost f = nat_max(self.fracs(), other.fracs());
        let mut a = self;
        let mut b = other;
        a.equalize_with(&mut b);
        let cmp = lex_cmp(&a.digits, &b.digits);
        let swapped = cmp == -1;
        if swapped {
            let t = a;
            a = b;
            b = t;
        }
        let ghost a1 = a;
        let ghost b1 = b;
        let n = a.digits.len();
        let mut out: Vec<u8> = Vec::new();
        let mut borrow: u8 = 0;
        let mut i: usize = n;
        proof {
            assert(a1.digits@.skip(n as int) =~= Seq::<u8>::empty());
            assert(b1.digits@.skip(n as int) =~= Seq::<u8>::empty());
            assert(pow_b(0) == 1) by {
                vstd::arithmetic::power::lemma_pow0(base());
            }
        }
        while i > 0
            invariant
                a == a1,
                b == b1,
                a1.wf(),
                b1.wf(),
                a1.digits@.len() == n,
                b1.digits@.len() == n,
                i <= n,
                borrow <= 1,
                digits_ok(out@),
                out@.len() == n - i,
                mag(a1.digits@.skip(i as int)) - mag(b1.digits@.skip(i as int)) == mag(out@)
                    - borrow * pow_b((n - i) as nat),
            decreases i,
        {
            let ghost prev_out = out@;
            let ghost prev_borrow = borrow as int;
            i -= 1;
            let b_eff = b.digits[i] + borrow;
            let d: u8;
            if a.digits[i] >= b_eff {
                d = a.digits[i] - b_eff;
                borrow = 0;
            } else {
                d = a.digits[i] + BASE - b_eff;
                borrow = 1;
            }
            out.insert(0, d);
            proof {
                let av = a1.digits@;
                let bv = b1.digits@;
                let p = pow_b((n - i - 1) as nat);
                assert(out@ =~= seq![d] + prev_out);
                lemma_mag_prepend(d, prev_out);
                assert(av.skip(i as int) =~= seq![av[i as int]] + av.skip(i + 1));
                assert(bv.skip(i as int) =~= seq![bv[i as int]] + bv.skip(i + 1));
                lemma_mag_prepend(av[i as int], av.skip(i + 1));
                lemma_mag_prepend(bv[i as int], bv.skip(i + 1));
                lemma_pow_b_adds((n - i - 1) as nat, 1);
                assert(pow_b(1) == base()) by {
                    vstd::arithmetic::power::lemma_pow1(base());
                }
                assert(pow_b((n - i) as nat) == p * base());
                assert(d as int == av[i as int] - bv[i as int] - prev_borrow + borrow * base());
                assert((av[i as int] - bv[i as int]) * p == av[i as int] * p - bv[i as int] * p)
                    by (nonlinear_arith);
                assert((d - borrow * base() + prev_borrow) * p == d * p - borrow * (base() * p)
                    + prev_borrow * p) by (nonlinear_arith);
                assert((av[i as int] - bv[i as int]) * p == (d - borrow * base() + prev_borrow)
                    * p);
                assert(borrow * (base() * p) == borrow * pow_b((n - i) as nat))
                    by (nonlinear_arith)
                    requires
                        base() * p == pow_b((n - i) as nat),
                ;
            }
        }
        proof {
            assert(a1.digits@.skip(0) =~= a1.digits@);
            assert(b1.digits@.skip(0) =~= b1.digits@);
            lemma_mag_upper(out@);
            crate::digits::lemma_pow_b_pos(n as nat);
            assert(mag(a1.digits@) >= mag(b1.digits@));
            if borrow == 1 {
                assert(mag(a1.digits@) - mag(b1.digits@) == mag(out@) - 1 * pow_b(n as nat));
                assert(false);
            }
            assert(borrow == 0);
            assert(mag(out@) == mag(a1.digits@) - mag(b1.digits@));
        }
        let mut r = Number { digits: out, comma_index: a.comma_index, is_positive: a.is_positive };
        r.prepend_int(borrow);
        let ghost pre = r;
        r.normalize();
        let ghost mid = r;
        proof {
            lemma_sval_scaled(pre, mid);
            assert(pre.fracs() == f);
        }
        if swapped {
            proof {
                // a strict magnitude gap keeps the result away from zero,
                // so normalization left the sign flag as it was
                assert(mag(pre.digits@) > 0);
                crate::digits::lemma_mag_nonneg(mid.digits@);
                crate::digits::lemma_pow_b_pos((pre.fracs() - mid.fracs()) as nat);
                assert(mag(mid.digits@) > 0) by (nonlinear_arith)
                    requires
                        mag(pre.digits@) == mag(mid.digits@) * pow_b(
                            (pre.fracs() - mid.fracs()) as nat,
                        ),
                        mag(pre.digits@) > 0,
                        mag(mid.digits@) >= 0,
                        pow_b((pre.fracs() - mid.fracs()) as nat) > 0,
                ;
            }
            r.negate();
        }
        proof {
            let fa = self.fracs();
            let fb = other.fracs();
            let fr = r.fracs();
            let pa = pow_b((f - fa) as nat);
            let pb = pow_b((f - fb) as nat);
            let pd = pow_b((f - fr) as nat);
            assert(mid.fracs() == fr);
            if !swapped {
                // a1 holds the equalized left operand, b1 the right one
                assert(mag(a1.digits@) == mag(self.digits@) * pa);
                assert(mag(b1.digits@) == mag(other.digits@) * pb);
                if self.is_positive {
                    assert(pre.sval() == self.sval() * pa - other.sval() * pb);
                } else {
                    assert(pre.sval() == -(mag(self.digits@) * pa - mag(other.digits@) * pb));
                    assert(self.sval() * pa == -(mag(self.digits@) * pa)) by (nonlinear_arith)
                        requires
                            self.sval() == -mag(self.digits@),
                    ;
                    assert(other.sval() * pb == -(mag(other.digits@) * pb)) by (nonlinear_arith)
                        requires
                            other.sval() == -mag(other.digits@),
                    ;
                }
                assert(r.sval() * pd == self.sval() * pa - other.sval() * pb);
            } else {
                // the swap put the right operand's digits into a1; the
                // final negation restores the stated operand order
                assert(mag(a1.digits@) == mag(other.digits@) * pb);
                assert(mag(b1.digits@) == mag(self.digits@) * pa);
                if self.is_positive {
                    assert(pre.sval() == other.sval() * pb - self.sval() * pa);
                } else {
                    assert(pre.sval() == -(mag(other.digits@) * pb - mag(self.digits@) * pa));
                    assert(self.sval() * pa == -(mag(self.digits@) * pa)) by (nonlinear_arith)
                        requires
                            self.sval() == -mag(self.digits@),
                    ;
                    assert(other.sval() * pb == -(mag(other.digits@) * pb)) by (nonlinear_arith)
                        requires
                            other.sval() == -mag(other.digits@),
                    ;
                }
                assert(r.sval() == -mid.sval());
                assert(r.sval() * pd == -(mid.sval() * pd)) by (nonlinear_arith)
                    requires
                        r.sval() == -mid.sval(),
                ;
                assert(r.sval() * pd == self.sval() * pa - other.sval() * pb);
            }
            lemma_diff_from_aligned(r, self, other, f);
        }
        r
    }

    /// The difference of two numbers, consuming both; the result is
    /// normalized and denotes exactly the difference of the two values.
    pub fn sub(self, other: Number) -> (r: Number)
        requires
            self.wf(),
            other.wf(),
        ensures
            r.normalized(),
            is_diff(r, self, other),
    {
        if self.is_positive == other.is_positive {
            self.sub_same_sign(other)
        } else {
            let ghost o0 = other;
            let b = other.neg();
            let r = self.add_same_sign(b);
            proof {
                assert(b.sval() == -o0.sval());
                assert(b.fracs() == o0.fracs());
                assert((-o0.sval()) * pow_b(self.fracs()) == -(o0.sval() * pow_b(self.fracs())))
                    by (nonlinear_arith);
            }
            r
        }
    }
}

/// Subtracting `b` is adding the negation of `b`: a normalized difference
/// and a normalized sum with the sign-flipped right operand hold the same
/// digits, split point and sign.
pub proof fn lemma_sub_is_add_neg(a: Number, b: Number, nb: Number, r1: Number, r2: Number)
    requires
        nb.sval() == -b.sval(),
        nb.fracs() == b.fracs(),
        r1.normalized(),
        r2.normalized(),
        is_diff(r1, a, b),
        is_sum(r2, a, nb),
    ensures
        same_rep(r1, r2),
{
    let s = a.sval() * pow_b(b.fracs()) - b.sval() * pow_b(a.fracs());
    let k = a.fracs() + b.fracs();
    assert((-b.sval()) * pow_b(a.fracs()) == -(b.sval() * pow_b(a.fracs()))) by (nonlinear_arith);
    assert(r1.sval() * pow_b(k) == s * pow_b(r1.fracs()));
    assert(r2.sval() * pow_b(k) == s * pow_b(r2.fracs()));
    lemma_cross_through_common(r1, r2, s, k);
    lemma_normalized_value_unique(r1, r2);
}

/// Adding `b` is subtracting the negation of `b`: a normalized sum and a
/// normalized difference with the sign-flipped right operand hold the same
/// digits, split point and sign.
pub proof fn lemma_add_is_sub_neg(a: Number, b: Number, nb: Number, r1: Number, r2: Number)
    requires
        nb.sval() == -b.sval(),
        nb.fracs() == b.fracs(),
        r1.normalized(),
        r2.normalized(),
        is_sum(r1, a, b),
        is_diff(r2, a, nb),
    ensures
        same_rep(r1, r2),
{
    let s = a.sval() * pow_b(b.fracs()) + b.sval() * pow_b(a.fracs());
    let k = a.fracs() + b.fracs();
    assert((-b.sval()) * pow_b(a.fracs()) == -(b.sval() * pow_b(a.fracs()))) by (nonlinear_arith);
    assert(r1.sval() * pow_b(k) == s * pow_b(r1.fracs()));
    assert(r2.sval() * pow_b(k) == s * pow_b(r2.fracs()));
    lemma_cross_through_common(r1, r2, s, k);
    lemma_normalized_value_unique(r1, r2);
}

/// A number minus itself normalizes to zero: the empty buffer, split point
/// zero, positive sign, whose text form is the single character zero.
pub proof fn lemma_sub_self_is_zero(a: Number, r: Number)
    requires
        r.normalized(),
        is_diff(r, a, a),
    ensures
        r.digits@.len() == 0,
        r.comma_index == 0,
        r.is_positive,
        r.sval() == 0,
        crate::number::text::spec_format(r) == seq!['0'],
{
    let k = a.fracs() + a.fracs();
    crate::digits::lemma_pow_b_pos(k);
    assert(r.sval() * pow_b(k) == 0 * pow_b(r.fracs()));
    assert(r.sval() == 0) by (nonlinear_arith)
        requires
            r.sval() * pow_b(k) == 0,
            pow_b(k) > 0,
    ;
    lemma_normalized_zero_is_empty(r);
    assert(crate::number::text::spec_format(r) =~= seq!['0']);
}

} // verus!
