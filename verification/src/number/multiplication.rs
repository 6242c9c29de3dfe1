//! Multiplication: schoolbook accumulation of shifted single-digit
//! products, then the decimal point moved left by the combined fractional
//! digit count.

use vstd::prelude::*;

verus! {

use crate::digits::BASE;
use crate::digits::base;
use crate::digits::mag;
use crate::digits::pow_b;
use crate::digits::lemma_mag_prepend;
use crate::digits::lemma_mag_nonneg;
use crate::digits::lemma_pow_b_adds;
use crate::number::Number;
use crate::number::is_sum;
use crate::number::is_product;
use crate::number::same_rep;
use crate::number::lemma_normalized_int_value;
use crate::number::lemma_sval_scaled;
use crate::number::lemma_normalized_value_unique;
use crate::number::addition::lemma_cross_through_common;

impl Number {
    /// Append `count` zero digits to the integer part: the denoted integer
    /// is shifted left by `count` positions.
    fn shift_left_ints(&mut self, count: usize)
        requires
            old(self).wf(),
            old(self).fracs() == 0,
        ensures
            final(self).wf(),
            final(self).fracs() == 0,
            final(self).is_positive == old(self).is_positive,
            mag(final(self).digits@) == mag(old(self).digits@) * pow_b(count as nat),
    {
        proof {
            assert(pow_b(0) == 1) by {
                vstd::arithmetic::power::lemma_pow0(base());
            }
        }
        let mut k: usize = 0;
        while k < count
            invariant
                self.wf(),
                self.fracs() == 0,
                k <= count,
                self.is_positive == old(self).is_positive,
                mag(self.digits@) == mag(old(self).digits@) * pow_b(k as nat),
            decreases count - k,
        {
            let ghost m0 = mag(old(self).digits@);
            self.append_int(0);
            proof {
                lemma_pow_b_adds(k as nat, 1);
                assert(pow_b(1) == base()) by {
                    vstd::arithmetic::power::lemma_pow1(base());
                }
                assert((m0 * pow_b(k as nat)) * base() == m0 * (pow_b(k as nat) * base()))
                    by (nonlinear_arith);
            }
            k += 1;
        }
    }

    /// The product of two numbers, consuming both: every pair of digit
    /// positions contributes its single-digit product shifted to its
    /// place, the contributions are summed, and the decimal point moves
    /// left by the combined fractional digit count.
    pub fn mul(self, other: Number) -> (r: Number)
        requires
            self.wf(),
            other.wf(),
        ensures
            r.normalized(),
            is_product(r, self, other),
    {
        let ghost av = self.digits@;
        let ghost bv = other.digits@;
        let mut result = Number::zero();
        let n_a = self.digits.len();
        let n_b = other.digits.len();
        proof {
            assert(av.skip(n_a as int) =~= Seq::<u8>::empty());
            assert(pow_b(0) == 1) by {
                vstd::arithmetic::power::lemma_pow0(base());
            }
        }
        let mut pa: usize = 0;
        while pa < n_a
            invariant
                self.wf(),
                other.wf(),
                self.digits@ == av,
                other.digits@ == bv,
                av.len() == n_a,
                bv.len() == n_b,
                pa <= n_a,
                result.normalized(),
                result.fracs() == 0,
                result.is_positive,
                result.sval() == mag(av.skip((n_a - pa) as int)) * mag(bv),
            decreases n_a - pa,
        {
            let da = self.digits[n_a - 1 - pa];
            let ghost da_i = da as int;
            proof {
                assert(bv.skip(n_b as int) =~= Seq::<u8>::empty());
            }
            let mut pb: usize = 0;
            while pb < n_b
                invariant
                    self.wf(),
                    other.wf(),
                    self.digits@ == av,
                    other.digits@ == bv,
                    av.len() == n_a,
                    bv.len() == n_b,
                    pa < n_a,
                    pb <= n_b,
                    da == av[n_a - 1 - pa],
                    da_i == da as int,
                    da < BASE,
                    result.normalized(),
                    result.fracs() == 0,
                    result.is_positive,
                    result.sval() == mag(av.skip((n_a - pa) as int)) * mag(bv) + da * pow_b(
                        pa as nat,
                    ) * mag(bv.skip((n_b - pb) as int)),
                decreases n_b - pb,
            {
                let db = other.digits[n_b - 1 - pb];
                let mut product = Number::single_digit_product(da, db);
                product.shift_left_ints(pa);
                product.shift_left_ints(pb);
                let ghost before = result;
                let ghost prod_v = product;
                proof {
                    lemma_pow_b_adds(pa as nat, pb as nat);
                    assert(((da * db) * pow_b(pa as nat)) * pow_b(pb as nat) == (da * db) * (pow_b(
                        pa as nat,
                    ) * pow_b(pb as nat))) by (nonlinear_arith);
                    assert(mag(prod_v.digits@) == (da * db) * (pow_b(pa as nat) * pow_b(
                        pb as nat,
                    )));
                }
                result = result.add(product);
                proof {
                    // the sum of two nonnegative integers is the new value
                    assert(is_sum(result, before, prod_v));
                    assert(pow_b(0) == 1) by {
                        vstd::arithmetic::power::lemma_pow0(base());
                    }
                    let s = before.sval() + prod_v.sval();
                    assert(result.sval() * 1 == (before.sval() * 1 + prod_v.sval() * 1) * pow_b(
                        result.fracs(),
                    ));
                    lemma_normalized_int_value(result, s);
                    lemma_mag_nonneg(prod_v.digits@);
                    lemma_mag_nonneg(before.digits@);
                    if !result.is_positive {
                        lemma_mag_nonneg(result.digits@);
                        assert(result.sval() <= 0);
                        assert(before.sval() >= 0);
                        assert(prod_v.sval() >= 0);
                        assert(result.sval() == 0);
                        crate::number::lemma_normalized_zero_is_empty(result);
                    }
                    assert(result.is_positive);
                    // fold the new contribution into the partial sum
                    let j = (n_b - 1 - pb) as int;
                    assert(bv.skip(j) =~= seq![bv[j]] + bv.skip(j + 1));
                    lemma_mag_prepend(bv[j], bv.skip(j + 1));
                    assert(bv.skip(j).len() == pb + 1);
                    assert(mag(bv.skip(j)) == bv[j] * pow_b(pb as nat) + mag(bv.skip(j + 1)));
                    assert(da_i * pow_b(pa as nat) * mag(bv.skip(j)) == da_i * pow_b(pa as nat)
                        * (bv[j] * pow_b(pb as nat)) + da_i * pow_b(pa as nat) * mag(
                        bv.skip(j + 1),
                    )) by (nonlinear_arith)
                        requires
                            mag(bv.skip(j)) == bv[j] * pow_b(pb as nat) + mag(bv.skip(j + 1)),
                    ;
                    assert(da_i * pow_b(pa as nat) * (bv[j] * pow_b(pb as nat)) == (da_i * bv[j])
                        * (pow_b(pa as nat) * pow_b(pb as nat))) by (nonlinear_arith);
                    assert(db == bv[j]);
                    assert(da_i * bv[j] == da * db);
                    assert(prod_v.sval() == mag(prod_v.digits@));
                    assert((da_i * bv[j]) * (pow_b(pa as nat) * pow_b(pb as nat)) == prod_v.sval());
                }
                pb += 1;
            }
            proof {
                let j = (n_a - 1 - pa) as int;
                assert(bv.skip(0) =~= bv);
                assert(av.skip(j) =~= seq![av[j]] + av.skip(j + 1));
                lemma_mag_prepend(av[j], av.skip(j + 1));
                assert(av.skip(j).len() == pa + 1);
                assert(mag(av.skip(j)) == av[j] * pow_b(pa as nat) + mag(av.skip(j + 1)));
                assert(mag(av.skip(j)) * mag(bv) == (av[j] * pow_b(pa as nat)) * mag(bv) + mag(
                    av.skip(j + 1),
                ) * mag(bv)) by (nonlinear_arith)
                    requires
                        mag(av.skip(j)) == av[j] * pow_b(pa as nat) + mag(av.skip(j + 1)),
                ;
                assert((av[j] * pow_b(pa as nat)) * mag(bv) == av[j] * pow_b(pa as nat) * mag(bv))
                    by (nonlinear_arith);
            }
            pa += 1;
        }
        proof {
            assert(av.skip(0) =~= av);
        }
        // move the decimal point left once per fractional digit of either
        // operand
        let fa = self.num_fract_digits();
        let fb = other.num_fract_digits();
        let ghost p_int = mag(av) * mag(bv);
        let mut k: usize = 0;
        while k < fa
            invariant
                k <= fa,
                result.wf(),
                result.is_positive,
                mag(result.digits@) == p_int,
                result.fracs() == k,
            decreases fa - k,
        {
            result.shift_comma_left();
            k += 1;
        }
        let mut k2: usize = 0;
        while k2 < fb
            invariant
                k2 <= fb,
                result.wf(),
                result.is_positive,
                mag(result.digits@) == p_int,
                result.fracs() == fa + k2,
            decreases fb - k2,
        {
            result.shift_comma_left();
            k2 += 1;
        }
        if self.is_positive != other.is_positive {
            result.is_positive = false;
        }
        let ghost pre = result;
        result.normalize();
        proof {
            lemma_sval_scaled(pre, result);
            let f = self.fracs() + other.fracs();
            assert(pre.fracs() == f);
            // the signed buffer value before normalizing is the product of
            // the two signed values
            if self.is_positive {
                if other.is_positive {
                    assert(pre.sval() == self.sval() * other.sval());
                } else {
                    assert(self.sval() * other.sval() == -(mag(av) * mag(bv)))
                        by (nonlinear_arith)
                        requires
                            self.sval() == mag(av),
                            other.sval() == -mag(bv),
                    ;
                }
            } else {
                if other.is_positive {
                    assert(self.sval() * other.sval() == -(mag(av) * mag(bv)))
                        by (nonlinear_arith)
                        requires
                            self.sval() == -mag(av),
                            other.sval() == mag(bv),
                    ;
                } else {
                    assert(self.sval() * other.sval() == mag(av) * mag(bv)) by (nonlinear_arith)
                        requires
                            self.sval() == -mag(av),
                            other.sval() == -mag(bv),
                    ;
                }
            }
            assert(pre.sval() == self.sval() * other.sval());
            // rescale to the cross-multiplied product equation
            let fr = result.fracs();
            let pd = pow_b((f - fr) as nat);
            lemma_pow_b_adds((f - fr) as nat, fr);
            assert(pre.sval() == result.sval() * pd);
            assert((result.sval() * pd) * pow_b(fr) == result.sval() * (pd * pow_b(fr)))
                by (nonlinear_arith);
            assert((self.sval() * other.sval()) * pow_b(fr) == self.sval() * other.sval() * pow_b(
                fr,
            )) by (nonlinear_arith);
            assert(result.sval() * pow_b(f) == self.sval() * other.sval() * pow_b(fr));
        }
        result
    }

    /// The two-digit number denoting the product of two single digits.
    fn single_digit_product(da: u8, db: u8) -> (r: Number)
        requires
            da < BASE,
            db < BASE,
        ensures
            r.wf(),
            r.is_positive,
            r.fracs() == 0,
            mag(r.digits@) == da * db,
    {
        proof {
            assert((da as int) * (db as int) <= 64) by (nonlinear_arith)
                requires
                    da as int <= 8,
                    db as int <= 8,
            ;
        }
        let p = da * db;
        let hi = p / BASE;
        let lo = p % BASE;
        let mut digits: Vec<u8> = Vec::new();
        digits.push(hi);
        digits.push(lo);
        proof {
            assert(digits@ =~= seq![hi, lo]);
            assert(seq![hi, lo].drop_last() =~= seq![hi]);
            assert(seq![hi].drop_last() =~= Seq::<u8>::empty());
            assert(mag(Seq::<u8>::empty()) == 0);
            assert(mag(seq![hi]) == hi);
            assert(mag(seq![hi, lo]) == hi * base() + lo);
        }
        Number { digits, comma_index: 2, is_positive: true }
    }
}

/// Multiplying by one returns the very same normalized number: the product
/// of `n` and a number of value one, once normalized, holds `n`'s digits,
/// split point and sign.
pub proof fn lemma_mul_one_identity(n: Number, o: Number, r: Number)
    requires
        n.normalized(),
        o.sval() == 1,
        o.fracs() == 0,
        r.normalized(),
        is_product(r, n, o) || is_product(r, o, n),
    ensures
        same_rep(r, n),
{
    assert(pow_b(0) == 1) by {
        vstd::arithmetic::power::lemma_pow0(base());
    }
    if is_product(r, n, o) {
        assert(r.sval() * pow_b(n.fracs() + 0) == n.sval() * 1 * pow_b(r.fracs()));
    } else {
        assert(r.sval() * pow_b(0 + n.fracs()) == 1 * n.sval() * pow_b(r.fracs()));
    }
    assert(r.sval() * pow_b(n.fracs()) == n.sval() * pow_b(r.fracs()));
    lemma_normalized_value_unique(r, n);
}

/// Multiplication is commutative: normalized products of the same two
/// numbers taken in either order hold the same digits, split point and
/// sign.
pub proof fn lemma_mul_commutes(a: Number, b: Number, r1: Number, r2: Number)
    requires
        r1.normalized(),
        r2.normalized(),
        is_product(r1, a, b),
        is_product(r2, b, a),
    ensures
        same_rep(r1, r2),
{
    let s = a.sval() * b.sval();
    let k = a.fracs() + b.fracs();
    assert(r1.sval() * pow_b(k) == s * pow_b(r1.fracs()));
    assert(b.sval() * a.sval() == a.sval() * b.sval()) by (nonlinear_arith);
    assert(r2.sval() * pow_b(k) == s * pow_b(r2.fracs()));
    lemma_cross_through_common(r1, r2, s, k);
    lemma_normalized_value_unique(r1, r2);
}

} // verus!
