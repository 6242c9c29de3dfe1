//! Addition: same-sign digit-wise addition with carry; mixed signs
//! delegate to subtraction.

use vstd::prelude::*;

verus! {

use crate::digits::BASE;
use crate::digits::base;
use crate::digits::digits_ok;
use crate::digits::mag;
use crate::digits::pow_b;
use crate::digits::lemma_mag_prepend;
use crate::digits::lemma_pow_b_adds;
use crate::number::Number;
use crate::number::nat_max;
use crate::number::is_sum;
use crate::number::same_rep;
use crate::number::eq_value;
use crate::number::lemma_sum_from_aligned;
use crate::number::lemma_sval_scaled;
use crate::number::lemma_normalized_value_unique;

impl Number {
    /// Digit-wise addition of two numbers carrying the same sign: equalize,
    /// scan from the least significant position with a carry, prepend the
    /// final carry, normalize.
    pub(crate) fn add_same_sign(self, other: Number) -> (r: Number)
        requires
            self.wf(),
            other.wf(),
            self.is_positive == other.is_positive,
        ensures
            r.normalized(),
            is_sum(r, self, other),
    {
        let ghost f = nat_max(self.fracs(), other.fracs());
        let mut a = self;
        let mut b = other;
        a.equalize_with(&mut b);
        let ghost a1 = a;
        let ghost b1 = b;
        let n = a.digits.len();
        let mut out: Vec<u8> = Vec::new();
        let mut carry: u8 = 0;
        let mut i: usize = n;
        proof {
            assert(a1.digits@.skip(n as int) =~= Seq::<u8>::empty());
            assert(b1.digits@.skip(n as int) =~= Seq::<u8>::empty());
            assert(pow_b(0) == 1) by {
                vstd::arithmetic::power::lemma_pow0(base());
            }
        }
        while i > 0
            invariant
                a == a1,
                b == b1,
                a1.wf(),
                b1.wf(),
                a1.digits@.len() == n,
                b1.digits@.len() == n,
                i <= n,
                carry <= 1,
                digits_ok(out@),
                out@.len() == n - i,
                mag(out@) + carry * pow_b((n - i) as nat) == mag(a1.digits@.skip(i as int)) + mag(
                    b1.digits@.skip(i as int),
                ),
            decreases i,
        {
            let ghost prev_out = out@;
            let ghost prev_carry = carry as int;
            i -= 1;
            let sum = a.digits[i] + b.digits[i] + carry;
            let d = sum % BASE;
            carry = sum / BASE;
            out.insert(0, d);
            proof {
                let av = a1.digits@;
                let bv = b1.digits@;
                let p = pow_b((n - i - 1) as nat);
                assert(out@ =~= seq![d] + prev_out);
                lemma_mag_prepend(d, prev_out);
                assert(av.skip(i as int) =~= seq![av[i as int]] + av.skip(i + 1));
                assert(bv.skip(i as int) =~= seq![bv[i as int]] + bv.skip(i + 1));
                lemma_mag_prepend(av[i as int], av.skip(i + 1));
                lemma_mag_prepend(bv[i as int], bv.skip(i + 1));
                lemma_pow_b_adds((n - i - 1) as nat, 1);
                assert(pow_b(1) == base()) by {
                    vstd::arithmetic::power::lemma_pow1(base());
                }
                assert(pow_b((n - i) as nat) == p * base());
                assert(d + carry * base() == sum);
                assert((d + carry * base()) * p == d * p + carry * (base() * p)) by (nonlinear_arith);
                assert((av[i as int] + bv[i as int] + prev_carry) * p == av[i as int] * p + bv[
                    i as int] * p + prev_carry * p) by (nonlinear_arith);
                assert((d + carry * base()) * p == (av[i as int] + bv[i as int] + prev_carry)
                    * p);
                assert(carry * (base() * p) == carry * pow_b((n - i) as nat)) by (nonlinear_arith)
                    requires
                        base() * p == pow_b((n - i) as nat),
                ;
            }
        }
        proof {
            assert(a1.digits@.skip(0) =~= a1.digits@);
            assert(b1.digits@.skip(0) =~= b1.digits@);
        }
        let mut r = Number { digits: out, comma_index: a.comma_index, is_positive: a.is_positive };
        r.prepend_int(carry);
        let ghost pre = r;
        r.normalize();
        proof {
            lemma_sval_scaled(pre, r);
            assert(pre.fracs() == f);
            // the aligned sum equation at the common scale f
            let fa = self.fracs();
            let fb = other.fracs();
            assert(mag(pre.digits@) == mag(a1.digits@) + mag(b1.digits@));
            if self.is_positive {
                assert(pre.sval() == mag(a1.digits@) + mag(b1.digits@));
            } else {
                assert(pre.sval() == -(mag(a1.digits@) + mag(b1.digits@)));
                assert(self.sval() * pow_b((f - fa) as nat) == -(mag(self.digits@) * pow_b(
                    (f - fa) as nat,
                ))) by (nonlinear_arith)
                    requires
                        self.sval() == -mag(self.digits@),
                ;
                assert(other.sval() * pow_b((f - fb) as nat) == -(mag(other.digits@) * pow_b(
                    (f - fb) as nat,
                ))) by (nonlinear_arith)
                    requires
                        other.sval() == -mag(other.digits@),
                ;
            }
            assert(r.sval() * pow_b((f - r.fracs()) as nat) == self.sval() * pow_b(
                (f - fa) as nat,
            ) + other.sval() * pow_b((f - fb) as nat));
            lemma_sum_from_aligned(r, self, other, f);
        }
        r
    }

    /// The sum of two numbers, consuming both; the result is normalized and
    /// denotes exactly the sum of the two values.
    pub fn add(self, other: Number) -> (r: Number)
        requires
            self.wf(),
            other.wf(),
        ensures
            r.normalized(),
            is_sum(r, self, other),
    {
        if self.is_positive == other.is_positive {
            self.add_same_sign(other)
        } else {
            let ghost o0 = other;
            let b = other.neg();
            let r = self.sub_same_sign(b);
            proof {
                assert(b.sval() == -o0.sval());
                assert(b.fracs() == o0.fracs());
                assert((-o0.sval()) * pow_b(self.fracs()) == -(o0.sval() * pow_b(self.fracs())))
                    by (nonlinear_arith);
            }
            r
        }
    }
}

/// Adding zero returns the very same normalized number: the sum of `n` and
/// a zero-valued number, once normalized, holds `n`'s digits, split point
/// and sign.
pub proof fn lemma_add_zero_identity(n: Number, z: Number, r: Number)
    requires
        n.normalized(),
        z.sval() == 0,
        r.normalized(),
        is_sum(r, n, z) || is_sum(r, z, n),
    ensures
        same_rep(r, n),
{
    let fz = z.fracs();
    let fn_ = n.fracs();
    crate::digits::lemma_pow_b_pos(fz);
    crate::digits::lemma_pow_b_pos(fn_);
    crate::digits::lemma_pow_b_pos(r.fracs());
    if is_sum(r, n, z) {
        assert(r.sval() * pow_b(fn_ + fz) == (n.sval() * pow_b(fz)) * pow_b(r.fracs()));
        lemma_pow_b_adds(fn_, fz);
        lemma_pow_b_adds(fz, r.fracs());
        assert(r.sval() * (pow_b(fn_) * pow_b(fz)) == n.sval() * (pow_b(fz) * pow_b(r.fracs())))
            by (nonlinear_arith)
            requires
                r.sval() * pow_b(fn_ + fz) == (n.sval() * pow_b(fz)) * pow_b(r.fracs()),
                pow_b(fn_ + fz) == pow_b(fn_) * pow_b(fz),
        ;
        assert(r.sval() * pow_b(fn_) == n.sval() * pow_b(r.fracs())) by (nonlinear_arith)
            requires
                r.sval() * (pow_b(fn_) * pow_b(fz)) == n.sval() * (pow_b(fz) * pow_b(r.fracs())),
                pow_b(fz) > 0,
        ;
        assert(eq_value(r, n));
    } else {
        assert(r.sval() * pow_b(fz + fn_) == (n.sval() * pow_b(fz)) * pow_b(r.fracs()));
        lemma_pow_b_adds(fz, fn_);
        assert(r.sval() * (pow_b(fn_) * pow_b(fz)) == n.sval() * (pow_b(fz) * pow_b(r.fracs())))
            by (nonlinear_arith)
            requires
                r.sval() * pow_b(fz + fn_) == (n.sval() * pow_b(fz)) * pow_b(r.fracs()),
                pow_b(fz + fn_) == pow_b(fz) * pow_b(fn_),
        ;
        assert(r.sval() * pow_b(fn_) == n.sval() * pow_b(r.fracs())) by (nonlinear_arith)
            requires
                r.sval() * (pow_b(fn_) * pow_b(fz)) == n.sval() * (pow_b(fz) * pow_b(r.fracs())),
                pow_b(fz) > 0,
        ;
        assert(eq_value(r, n));
    }
    lemma_normalized_value_unique(r, n);
}

/// Addition is commutative: normalized sums of the same two numbers taken
/// in either order hold the same digits, split point and sign.
pub proof fn lemma_add_commutes(a: Number, b: Number, r1: Number, r2: Number)
    requires
        r1.normalized(),
        r2.normalized(),
        is_sum(r1, a, b),
        is_sum(r2, b, a),
    ensures
        same_rep(r1, r2),
{
    let s = a.sval() * pow_b(b.fracs()) + b.sval() * pow_b(a.fracs());
    let k = a.fracs() + b.fracs();
    assert(r1.sval() * pow_b(k) == s * pow_b(r1.fracs()));
    assert(r2.sval() * pow_b(k) == s * pow_b(r2.fracs()));
    lemma_cross_through_common(r1, r2, s, k);
    lemma_normalized_value_unique(r1, r2);
}

/// Two numbers whose values agree with the same scaled quantity agree with
/// each other.
pub proof fn lemma_cross_through_common(r1: Number, r2: Number, s: int, k: nat)
    requires
        r1.sval() * pow_b(k) == s * pow_b(r1.fracs()),
        r2.sval() * pow_b(k) == s * pow_b(r2.fracs()),
    ensures
        eq_value(r1, r2),
{
    let f1 = r1.fracs();
    let f2 = r2.fracs();
    crate::digits::lemma_pow_b_pos(k);
    assert((r1.sval() * pow_b(k)) * pow_b(f2) == (s * pow_b(f1)) * pow_b(f2)) by (nonlinear_arith)
        requires
            r1.sval() * pow_b(k) == s * pow_b(f1),
    ;
    assert((r2.sval() * pow_b(k)) * pow_b(f1) == (s * pow_b(f2)) * pow_b(f1)) by (nonlinear_arith)
        requires
            r2.sval() * pow_b(k) == s * pow_b(f2),
    ;
    assert((s * pow_b(f1)) * pow_b(f2) == (s * pow_b(f2)) * pow_b(f1)) by (nonlinear_arith);
    assert((r1.sval() * pow_b(f2)) * pow_b(k) == (r2.sval() * pow_b(f1)) * pow_b(k))
        by (nonlinear_arith)
        requires
            (r1.sval() * pow_b(k)) * pow_b(f2) == (r2.sval() * pow_b(k)) * pow_b(f1),
    ;
    assert(r1.sval() * pow_b(f2) == r2.sval() * pow_b(f1)) by (nonlinear_arith)
        requires
            (r1.sval() * pow_b(f2)) * pow_b(k) == (r2.sval() * pow_b(f1)) * pow_b(k),
            pow_b(k) > 0,
    ;
}

} // verus!
