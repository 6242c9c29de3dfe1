//! The arbitrary-precision decimal number: a digit buffer split by a comma
//! index, with a sign flag, plus parsing, formatting and comparison.

use vstd::prelude::*;

pub mod addition;
pub mod multiplication;
pub mod subtraction;
pub mod text;

verus! {

use crate::digits::BASE;
use crate::digits::base;
use crate::digits::digits_ok;
use crate::digits::mag;
use crate::digits::pow_b;
use crate::digits::zeros;
use crate::digits::lemma_mag_prepend;
use crate::digits::lemma_mag_prepend_zeros;
use crate::digits::lemma_mag_append_zeros;
use crate::digits::lemma_pow_b_pos;
use crate::digits::lemma_pow_b_adds;
use crate::digits::lemma_mag_nonneg;
use crate::digits::lemma_mag_upper;
use crate::digits::lemma_mag_lower;
use crate::digits::lemma_mag_split;
use crate::digits::lemma_mag_last;
use crate::digits::lemma_mag_lex_lt;
use crate::digits::lemma_mag_inj_same_len;
use crate::digits::lemma_mag_inj_no_lead;
use crate::digits::lemma_cross_scale;

/// An exact signed decimal number of unbounded precision.
///
/// `digits` holds every digit, most-significant first, the integer and the
/// fractional part contiguously; `comma_index` counts how many of them
/// belong to the integer part; `is_positive` is the sign flag, with zero
/// stored as positive once normalized.
pub struct Number {
    pub digits: Vec<u8>,
    pub comma_index: usize,
    pub is_positive: bool,
}

/// The larger of two lengths.
pub open spec fn nat_max(a: nat, b: nat) -> nat {
    if a >= b {
        a
    } else {
        b
    }
}

impl Number {
    /// The representation invariant: the split point lies inside the buffer
    /// and every entry is a single digit.
    pub open spec fn wf(&self) -> bool {
        &&& self.comma_index <= self.digits@.len()
        &&& digits_ok(self.digits@)
    }

    /// How many digits belong to the fractional part.
    pub open spec fn fracs(&self) -> nat {
        (self.digits@.len() - self.comma_index) as nat
    }

    /// The integer-part digits.
    pub open spec fn int_part(&self) -> Seq<u8> {
        self.digits@.take(self.comma_index as int)
    }

    /// The fractional-part digits.
    pub open spec fn fract_part(&self) -> Seq<u8> {
        self.digits@.skip(self.comma_index as int)
    }

    /// The signed integer denoted by the whole digit buffer; the value of
    /// the number is this divided by `BASE^fracs()`.
    pub open spec fn sval(&self) -> int {
        if self.is_positive {
            mag(self.digits@)
        } else {
            -mag(self.digits@)
        }
    }

    /// The canonical shape: no leading zero digit in the integer part, no
    /// trailing zero digit in the fractional part, and zero stored as
    /// positive with an empty buffer.
    pub open spec fn normalized(&self) -> bool {
        &&& self.wf()
        &&& self.comma_index > 0 ==> self.digits@[0] != 0
        &&& self.digits@.len() > self.comma_index ==> self.digits@.last() != 0
        &&& self.digits@.len() == 0 ==> self.comma_index == 0 && self.is_positive
    }
}

/// Both numbers hold the same digits, split point and sign.
pub open spec fn same_rep(a: Number, b: Number) -> bool {
    &&& a.digits@ == b.digits@
    &&& a.comma_index == b.comma_index
    &&& a.is_positive == b.is_positive
}

/// Both numbers denote the same value: cross-multiplied equality of
/// `sval / BASE^fracs`.
pub open spec fn eq_value(a: Number, b: Number) -> bool {
    a.sval() * pow_b(b.fracs()) == b.sval() * pow_b(a.fracs())
}

/// `r` denotes exactly the sum of the values of `a` and `b`.
pub open spec fn is_sum(r: Number, a: Number, b: Number) -> bool {
    r.sval() * pow_b(a.fracs() + b.fracs()) == (a.sval() * pow_b(b.fracs()) + b.sval() * pow_b(
        a.fracs(),
    )) * pow_b(r.fracs())
}

/// `r` denotes exactly the difference of the values of `a` and `b`.
pub open spec fn is_diff(r: Number, a: Number, b: Number) -> bool {
    r.sval() * pow_b(a.fracs() + b.fracs()) == (a.sval() * pow_b(b.fracs()) - b.sval() * pow_b(
        a.fracs(),
    )) * pow_b(r.fracs())
}

/// `r` denotes exactly the product of the values of `a` and `b`.
pub open spec fn is_product(r: Number, a: Number, b: Number) -> bool {
    r.sval() * pow_b(a.fracs() + b.fracs()) == a.sval() * b.sval() * pow_b(r.fracs())
}

impl Number {
    /// The additive identity: an empty digit buffer, stored positive.
    pub fn zero() -> (r: Number)
        ensures
            r.normalized(),
            r.digits@ == Seq::<u8>::empty(),
            r.comma_index == 0,
            r.is_positive,
            r.sval() == 0,
            r.fracs() == 0,
    {
        Number { digits: Vec::new(), comma_index: 0, is_positive: true }
    }

    /// The multiplicative identity: the single integer digit one.
    pub fn one() -> (r: Number)
        ensures
            r.normalized(),
            r.digits@ == seq![1u8],
            r.comma_index == 1,
            r.is_positive,
            r.sval() == 1,
            r.fracs() == 0,
    {
        let mut digits: Vec<u8> = Vec::new();
        digits.push(1);
        proof {
            assert(digits@ =~= seq![1u8]);
            assert(seq![1u8].drop_last() =~= Seq::<u8>::empty());
            assert(mag(Seq::<u8>::empty()) == 0);
            assert(seq![1u8].last() == 1u8);
        }
        Number { digits, comma_index: 1, is_positive: true }
    }

    /// How many digits the integer part has.
    pub fn num_int_digits(&self) -> (r: usize)
        ensures
            r == self.comma_index,
    {
        self.comma_index
    }

    /// How many digits the fractional part has.
    pub fn num_fract_digits(&self) -> (r: usize)
        requires
            self.wf(),
        ensures
            r == self.fracs(),
    {
        self.digits.len() - self.comma_index
    }

    /// The most significant integer digit, if the integer part is not empty.
    pub fn first_int_digit(&self) -> (r: Option<u8>)
        requires
            self.wf(),
        ensures
            r == if self.comma_index > 0 {
                Some(self.digits@[0])
            } else {
                None::<u8>
            },
    {
        if self.comma_index > 0 {
            Some(self.digits[0])
        } else {
            None
        }
    }

    /// The least significant fractional digit, if the fractional part is
    /// not empty.
    pub fn last_fract_digit(&self) -> (r: Option<u8>)
        requires
            self.wf(),
        ensures
            r == if self.fracs() > 0 {
                Some(self.digits@.last())
            } else {
                None::<u8>
            },
    {
        if self.digits.len() > self.comma_index {
            Some(self.digits[self.digits.len() - 1])
        } else {
            None
        }
    }

    /// A copy of the integer-part digits, most significant first.
    pub fn int_digits(&self) -> (r: Vec<u8>)
        requires
            self.wf(),
        ensures
            r@ == self.int_part(),
    {
        let mut r: Vec<u8> = Vec::new();
        let mut i: usize = 0;
        while i < self.comma_index
            invariant
                self.wf(),
                i <= self.comma_index,
                r@ == self.digits@.take(i as int),
            decreases self.comma_index - i,
        {
            r.push(self.digits[i]);
            proof {
                assert(self.digits@.take(i + 1) =~= self.digits@.take(i as int).push(
                    self.digits@[i as int],
                ));
            }
            i += 1;
        }
        r
    }

    /// A copy of the fractional-part digits, most significant first.
    pub fn fract_digits(&self) -> (r: Vec<u8>)
        requires
            self.wf(),
        ensures
            r@ == self.fract_part(),
    {
        let mut r: Vec<u8> = Vec::new();
        let mut i: usize = self.comma_index;
        while i < self.digits.len()
            invariant
                self.wf(),
                self.comma_index <= i <= self.digits@.len(),
                r@ == self.digits@.subrange(self.comma_index as int, i as int),
            decreases self.digits@.len() - i,
        {
            r.push(self.digits[i]);
            proof {
                assert(self.digits@.subrange(self.comma_index as int, i + 1)
                    =~= self.digits@.subrange(self.comma_index as int, i as int).push(
                    self.digits@[i as int],
                ));
            }
            i += 1;
        }
        proof {
            assert(self.digits@.subrange(self.comma_index as int, self.digits@.len() as int)
                =~= self.fract_part());
        }
        r
    }

    /// Flip the sign in place; the digits stay as they are.
    pub fn negate(&mut self)
        ensures
            final(self).digits@ == old(self).digits@,
            final(self).comma_index == old(self).comma_index,
            final(self).is_positive == !old(self).is_positive,
            final(self).sval() == -old(self).sval(),
            final(self).fracs() == old(self).fracs(),
    {
        self.is_positive = !self.is_positive;
    }

    /// The negation of this number, digits unchanged.
    pub fn neg(self) -> (r: Number)
        ensures
            r.digits@ == self.digits@,
            r.comma_index == self.comma_index,
            r.is_positive == !self.is_positive,
            r.sval() == -self.sval(),
            r.fracs() == self.fracs(),
    {
        let mut n = self;
        n.negate();
        n
    }

    /// An independent copy of this number.
    pub fn duplicate(&self) -> (r: Number)
        ensures
            same_rep(r, *self),
    {
        let mut digits: Vec<u8> = Vec::new();
        let mut i: usize = 0;
        while i < self.digits.len()
            invariant
                i <= self.digits@.len(),
                digits@ == self.digits@.take(i as int),
            decreases self.digits@.len() - i,
        {
            digits.push(self.digits[i]);
            proof {
                assert(self.digits@.take(i + 1) =~= self.digits@.take(i as int).push(
                    self.digits@[i as int],
                ));
            }
            i += 1;
        }
        proof {
            assert(self.digits@.take(self.digits@.len() as int) =~= self.digits@);
        }
        Number { digits, comma_index: self.comma_index, is_positive: self.is_positive }
    }

    /// Insert a digit in front of the integer part.
    pub fn prepend_int(&mut self, digit: u8)
        requires
            old(self).wf(),
            digit < BASE,
        ensures
            final(self).wf(),
            final(self).digits@ == seq![digit] + old(self).digits@,
            final(self).comma_index == old(self).comma_index + 1,
            final(self).is_positive == old(self).is_positive,
            final(self).fracs() == old(self).fracs(),
            mag(final(self).digits@) == digit * pow_b(old(self).digits@.len()) + mag(
                old(self).digits@,
            ),
    {
        self.digits.insert(0, digit);
        let n = self.digits.len();
        assert(self.comma_index < n);
        self.comma_index += 1;
        proof {
            assert(self.digits@ =~= seq![digit] + old(self).digits@);
            lemma_mag_prepend(digit, old(self).digits@);
        }
    }

    /// Insert a digit at the end of the integer part.
    pub fn append_int(&mut self, digit: u8)
        requires
            old(self).wf(),
            digit < BASE,
        ensures
            final(self).wf(),
            final(self).digits@ == old(self).int_part() + seq![digit] + old(self).fract_part(),
            final(self).comma_index == old(self).comma_index + 1,
            final(self).is_positive == old(self).is_positive,
            final(self).fracs() == old(self).fracs(),
            old(self).fracs() == 0 ==> mag(final(self).digits@) == mag(old(self).digits@) * base()
                + digit,
    {
        self.digits.insert(self.comma_index, digit);
        let n = self.digits.len();
        assert(self.comma_index < n);
        self.comma_index += 1;
        proof {
            assert(self.digits@ =~= old(self).int_part() + seq![digit] + old(self).fract_part());
            if old(self).fracs() == 0 {
                assert(old(self).int_part() =~= old(self).digits@);
                assert(self.digits@.drop_last() =~= old(self).digits@);
                assert(self.digits@.last() == digit);
            }
        }
    }

    /// Append a digit at the end of the fractional part.
    pub fn append_fract(&mut self, digit: u8)
        requires
            old(self).wf(),
            digit < BASE,
        ensures
            final(self).wf(),
            final(self).digits@ == old(self).digits@.push(digit),
            final(self).comma_index == old(self).comma_index,
            final(self).is_positive == old(self).is_positive,
            final(self).fracs() == old(self).fracs() + 1,
    {
        self.digits.push(digit);
    }

    /// Prepend zero digits until the integer part has at least `num` digits.
    pub fn pad_int_digits_to(&mut self, num: usize)
        requires
            old(self).wf(),
        ensures
            final(self).wf(),
            final(self).comma_index == nat_max(old(self).comma_index as nat, num as nat),
            final(self).digits@ == zeros(
                (final(self).comma_index - old(self).comma_index) as nat,
            ) + old(self).digits@,
            final(self).is_positive == old(self).is_positive,
            final(self).fracs() == old(self).fracs(),
            mag(final(self).digits@) == mag(old(self).digits@),
    {
        while self.comma_index < num
            invariant
                self.wf(),
                self.comma_index <= nat_max(old(self).comma_index as nat, num as nat),
                old(self).comma_index <= self.comma_index,
                self.digits@ == zeros((self.comma_index - old(self).comma_index) as nat) + old(
                    self,
                ).digits@,
                self.is_positive == old(self).is_positive,
                self.fracs() == old(self).fracs(),
            decreases num - self.comma_index,
        {
            self.prepend_int(0);
            proof {
                let k = (self.comma_index - old(self).comma_index) as nat;
                assert(self.digits@ =~= zeros(k) + old(self).digits@);
            }
        }
        proof {
            lemma_mag_prepend_zeros(
                (self.comma_index - old(self).comma_index) as nat,
                old(self).digits@,
            );
        }
    }

    /// Append zero digits until the fractional part has at least `num`
    /// digits.
    pub fn pad_fract_digits_to(&mut self, num: usize)
        requires
            old(self).wf(),
        ensures
            final(self).wf(),
            final(self).fracs() == nat_max(old(self).fracs(), num as nat),
            final(self).digits@ == old(self).digits@ + zeros(
                (final(self).fracs() - old(self).fracs()) as nat,
            ),
            final(self).comma_index == old(self).comma_index,
            final(self).is_positive == old(self).is_positive,
            mag(final(self).digits@) == mag(old(self).digits@) * pow_b(
                (final(self).fracs() - old(self).fracs()) as nat,
            ),
    {
        while self.digits.len() - self.comma_index < num
            invariant
                self.wf(),
                self.fracs() <= nat_max(old(self).fracs(), num as nat),
                old(self).fracs() <= self.fracs(),
                self.digits@ == old(self).digits@ + zeros(
                    (self.fracs() - old(self).fracs()) as nat,
                ),
                self.comma_index == old(self).comma_index,
                self.is_positive == old(self).is_positive,
            decreases num - self.fracs(),
        {
            self.append_fract(0);
            proof {
                let k = (self.fracs() - old(self).fracs()) as nat;
                assert(self.digits@ =~= old(self).digits@ + zeros(k));
            }
        }
        proof {
            lemma_mag_append_zeros(
                old(self).digits@,
                (self.fracs() - old(self).fracs()) as nat,
            );
        }
    }

    /// Pad both numbers in place until they share the same integer digit
    /// count and the same fractional digit count.
    pub fn equalize_with(&mut self, other: &mut Number)
        requires
            old(self).wf(),
            old(other).wf(),
        ensures
            final(self).wf(),
            final(other).wf(),
            final(self).comma_index == final(other).comma_index,
            final(self).comma_index == nat_max(
                old(self).comma_index as nat,
                old(other).comma_index as nat,
            ),
            final(self).digits@.len() == final(other).digits@.len(),
            final(self).fracs() == final(other).fracs(),
            final(self).fracs() == nat_max(old(self).fracs(), old(other).fracs()),
            final(self).is_positive == old(self).is_positive,
            final(other).is_positive == old(other).is_positive,
            mag(final(self).digits@) == mag(old(self).digits@) * pow_b(
                (final(self).fracs() - old(self).fracs()) as nat,
            ),
            mag(final(other).digits@) == mag(old(other).digits@) * pow_b(
                (final(other).fracs() - old(other).fracs()) as nat,
            ),
    {
        let other_ints = other.num_int_digits();
        self.pad_int_digits_to(other_ints);
        let self_ints = self.num_int_digits();
        other.pad_int_digits_to(self_ints);

        let other_fracts = other.num_fract_digits();
        self.pad_fract_digits_to(other_fracts);
        let self_fracts = self.num_fract_digits();
        other.pad_fract_digits_to(self_fracts);
    }
}

/// Leading zero digits of the integer part stripped, with the split point
/// moved along.
pub open spec fn strip_lead(d: Seq<u8>, c: nat) -> (Seq<u8>, nat)
    decreases c,
{
    if c > 0 && d.len() > 0 && d[0] == 0 {
        strip_lead(d.drop_first(), (c - 1) as nat)
    } else {
        (d, c)
    }
}

/// Trailing zero digits of the fractional part stripped.
pub open spec fn strip_trail(d: Seq<u8>, c: nat) -> Seq<u8>
    decreases d.len(),
{
    if d.len() > c && d.last() == 0 {
        strip_trail(d.drop_last(), c)
    } else {
        d
    }
}

/// The digit buffer after normalization.
pub open spec fn norm_digits(d: Seq<u8>, c: nat) -> Seq<u8> {
    strip_trail(strip_lead(d, c).0, strip_lead(d, c).1)
}

/// The split point after normalization.
pub open spec fn norm_comma(d: Seq<u8>, c: nat) -> nat {
    strip_lead(d, c).1
}

/// The sign flag after normalization: zero is stored as positive.
pub open spec fn norm_sign(d: Seq<u8>, c: nat, positive: bool) -> bool {
    positive || norm_digits(d, c).len() == 0
}

impl Number {
    /// Strip leading integer zeros and trailing fractional zeros, restoring
    /// the canonical shape; the denoted value is unchanged.
    pub fn normalize(&mut self)
        requires
            old(self).wf(),
        ensures
            final(self).normalized(),
            final(self).digits@ == norm_digits(old(self).digits@, old(self).comma_index as nat),
            final(self).comma_index as nat == norm_comma(
                old(self).digits@,
                old(self).comma_index as nat,
            ),
            final(self).is_positive == norm_sign(
                old(self).digits@,
                old(self).comma_index as nat,
                old(self).is_positive,
            ),
            final(self).fracs() <= old(self).fracs(),
            mag(old(self).digits@) == mag(final(self).digits@) * pow_b(
                (old(self).fracs() - final(self).fracs()) as nat,
            ),
    {
        while self.comma_index > 0 && self.digits[0] == 0
            invariant
                self.wf(),
                self.fracs() == old(self).fracs(),
                self.is_positive == old(self).is_positive,
                strip_lead(self.digits@, self.comma_index as nat) == strip_lead(
                    old(self).digits@,
                    old(self).comma_index as nat,
                ),
                mag(self.digits@) == mag(old(self).digits@),
            decreases self.comma_index,
        {
            let ghost pre = self.digits@;
            let _removed: u8 = self.digits.remove(0);
            self.comma_index -= 1;
            proof {
                assert(pre =~= seq![0u8] + self.digits@);
                assert(pre.drop_first() =~= self.digits@);
                lemma_mag_prepend(0u8, self.digits@);
            }
        }
        let ghost mid = *self;
        proof {
            assert(strip_lead(mid.digits@, mid.comma_index as nat) == (
                mid.digits@,
                mid.comma_index as nat,
            ));
            assert(pow_b(0) == 1) by {
                vstd::arithmetic::power::lemma_pow0(base());
            }
        }
        while self.digits.len() > self.comma_index && self.digits[self.digits.len() - 1] == 0
            invariant
                self.wf(),
                self.comma_index == mid.comma_index,
                self.fracs() <= mid.fracs(),
                self.is_positive == mid.is_positive,
                self.comma_index > 0 ==> self.digits@[0] == mid.digits@[0],
                strip_trail(self.digits@, self.comma_index as nat) == strip_trail(
                    mid.digits@,
                    mid.comma_index as nat,
                ),
                mag(mid.digits@) == mag(self.digits@) * pow_b(
                    (mid.fracs() - self.fracs()) as nat,
                ),
            decreases self.digits@.len(),
        {
            let ghost pre = self.digits@;
            let ghost k = (mid.fracs() - self.fracs()) as nat;
            self.digits.pop();
            proof {
                assert(pre.drop_last() =~= self.digits@);
                assert(mag(pre) == mag(self.digits@) * base());
                lemma_pow_b_adds(k, 1);
                assert(pow_b(1) == base()) by {
                    vstd::arithmetic::power::lemma_pow1(base());
                }
                assert((mag(self.digits@) * base()) * pow_b(k) == mag(self.digits@) * (base()
                    * pow_b(k))) by (nonlinear_arith);
            }
        }
        if self.digits.len() == 0 {
            self.is_positive = true;
        }
    }

    /// Move the decimal point one digit to the left, prepending a zero
    /// digit when the integer part is already empty; the denoted integer is
    /// unchanged while the scale grows by one.
    pub fn shift_comma_left(&mut self)
        requires
            old(self).wf(),
        ensures
            final(self).wf(),
            mag(final(self).digits@) == mag(old(self).digits@),
            final(self).fracs() == old(self).fracs() + 1,
            final(self).is_positive == old(self).is_positive,
            final(self).sval() == old(self).sval(),
    {
        if self.comma_index > 0 {
            self.comma_index -= 1;
            return ;
        }
        self.digits.insert(0, 0);
        proof {
            assert(self.digits@ =~= seq![0u8] + old(self).digits@);
            lemma_mag_prepend(0u8, old(self).digits@);
        }
    }
}

/// Compare two equal-length digit buffers lexicographically, which orders
/// the integers they denote.
pub(crate) fn lex_cmp(a: &Vec<u8>, b: &Vec<u8>) -> (r: i8)
    requires
        a@.len() == b@.len(),
        digits_ok(a@),
        digits_ok(b@),
    ensures
        r == -1 || r == 0 || r == 1,
        (r == -1) <==> mag(a@) < mag(b@),
        (r == 0) <==> mag(a@) == mag(b@),
        (r == 1) <==> mag(a@) > mag(b@),
{
    let mut i: usize = 0;
    while i < a.len()
        invariant
            a@.len() == b@.len(),
            digits_ok(a@),
            digits_ok(b@),
            i <= a@.len(),
            a@.take(i as int) == b@.take(i as int),
        decreases a@.len() - i,
    {
        if a[i] < b[i] {
            proof {
                lemma_mag_lex_lt(a@, b@, i as int);
            }
            return -1;
        }
        if a[i] > b[i] {
            proof {
                lemma_mag_lex_lt(b@, a@, i as int);
            }
            return 1;
        }
        proof {
            assert(a@.take(i + 1) =~= b@.take(i + 1));
        }
        i += 1;
    }
    proof {
        assert(a@.take(a@.len() as int) =~= a@);
        assert(b@.take(b@.len() as int) =~= b@);
    }
    0
}

impl Number {
    /// Order the magnitudes of two numbers, the sign left out of account:
    /// `-1`, `0` or `1` as this magnitude is below, equal to or above the
    /// other.
    pub fn compare(&self, other: &Number) -> (r: i8)
        requires
            self.wf(),
            other.wf(),
        ensures
            r == -1 || r == 0 || r == 1,
            (r == -1) <==> mag(self.digits@) * pow_b(other.fracs()) < mag(other.digits@) * pow_b(
                self.fracs(),
            ),
            (r == 0) <==> mag(self.digits@) * pow_b(other.fracs()) == mag(other.digits@) * pow_b(
                self.fracs(),
            ),
            (r == 1) <==> mag(self.digits@) * pow_b(other.fracs()) > mag(other.digits@) * pow_b(
                self.fracs(),
            ),
    {
        let mut a = self.duplicate();
        let mut b = other.duplicate();
        a.equalize_with(&mut b);
        let r = lex_cmp(&a.digits, &b.digits);
        proof {
            let fa = self.fracs();
            let fb = other.fracs();
            let f = nat_max(fa, fb);
            lemma_cross_scale(mag(self.digits@), fa, mag(other.digits@), fb, f);
            lemma_cross_scale(mag(other.digits@), fb, mag(self.digits@), fa, f);
        }
        r
    }

    /// The magnitude comparison used to order subtraction's operands:
    /// a smaller integer-part value decides; equal integer parts fall back
    /// to comparing the fractional digit counts.
    pub fn abs_smaller_than(&self, other: &Number) -> (r: bool)
        requires
            self.normalized(),
            other.normalized(),
        ensures
            r == (mag(self.int_part()) < mag(other.int_part()) || (mag(self.int_part()) == mag(
                other.int_part(),
            ) && self.fracs() < other.fracs())),
    {
        if self.comma_index < other.comma_index {
            proof {
                lemma_mag_upper(self.int_part());
                lemma_mag_lower(other.int_part());
                vstd::arithmetic::power::lemma_pow_increases(
                    BASE as nat,
                    self.comma_index as nat,
                    (other.comma_index - 1) as nat,
                );
            }
            return true;
        }
        if self.comma_index > other.comma_index {
            proof {
                lemma_mag_upper(other.int_part());
                lemma_mag_lower(self.int_part());
                vstd::arithmetic::power::lemma_pow_increases(
                    BASE as nat,
                    other.comma_index as nat,
                    (self.comma_index - 1) as nat,
                );
            }
            return false;
        }
        let mut i: usize = 0;
        while i < self.comma_index
            invariant
                self.wf(),
                other.wf(),
                self.comma_index == other.comma_index,
                i <= self.comma_index,
                self.int_part().take(i as int) == other.int_part().take(i as int),
            decreases self.comma_index - i,
        {
            if self.digits[i] < other.digits[i] {
                proof {
                    lemma_mag_lex_lt(self.int_part(), other.int_part(), i as int);
                }
                return true;
            }
            if self.digits[i] > other.digits[i] {
                proof {
                    lemma_mag_lex_lt(other.int_part(), self.int_part(), i as int);
                }
                return false;
            }
            proof {
                assert(self.int_part().take(i + 1) =~= other.int_part().take(i + 1));
            }
            i += 1;
        }
        proof {
            assert(self.int_part().take(self.comma_index as int) =~= self.int_part());
            assert(other.int_part().take(other.comma_index as int) =~= other.int_part());
        }
        self.num_fract_digits() < other.num_fract_digits()
    }
}

/// Rescaling: a value equation at a common scale `f` gives the
/// cross-multiplied sum equation of the original scales.
pub proof fn lemma_sum_from_aligned(r: Number, a: Number, b: Number, f: nat)
    requires
        a.fracs() <= f,
        b.fracs() <= f,
        r.fracs() <= f,
        f <= a.fracs() + b.fracs(),
        r.sval() * pow_b((f - r.fracs()) as nat) == a.sval() * pow_b((f - a.fracs()) as nat)
            + b.sval() * pow_b((f - b.fracs()) as nat),
    ensures
        is_sum(r, a, b),
{
    let fa = a.fracs();
    let fb = b.fracs();
    let fr = r.fracs();
    let g = (fa + fb + fr - f) as nat;
    let pr = pow_b((f - fr) as nat);
    let pa = pow_b((f - fa) as nat);
    let pb = pow_b((f - fb) as nat);
    let pg = pow_b(g);
    lemma_pow_b_pos(g);
    lemma_pow_b_adds((f - fr) as nat, g);
    lemma_pow_b_adds((f - fa) as nat, g);
    lemma_pow_b_adds((f - fb) as nat, g);
    assert((f - fr) as nat + g == (fa + fb + 0) as nat);
    assert((f - fa) as nat + g == (fb + fr) as nat);
    assert((f - fb) as nat + g == (fa + fr) as nat);
    lemma_pow_b_adds(fb, fr);
    lemma_pow_b_adds(fa, fr);
    assert(r.sval() * pow_b(fa + fb) == a.sval() * (pow_b(fb) * pow_b(fr)) + b.sval() * (pow_b(fa)
        * pow_b(fr))) by (nonlinear_arith)
        requires
            r.sval() * pr == a.sval() * pa + b.sval() * pb,
            pr * pg == pow_b(fa + fb),
            pa * pg == pow_b(fb) * pow_b(fr),
            pb * pg == pow_b(fa) * pow_b(fr),
    ;
    assert((a.sval() * pow_b(fb) + b.sval() * pow_b(fa)) * pow_b(fr) == a.sval() * (pow_b(fb)
        * pow_b(fr)) + b.sval() * (pow_b(fa) * pow_b(fr))) by (nonlinear_arith);
}

/// Rescaling: the same for the difference of two values.
pub proof fn lemma_diff_from_aligned(r: Number, a: Number, b: Number, f: nat)
    requires
        a.fracs() <= f,
        b.fracs() <= f,
        r.fracs() <= f,
        f <= a.fracs() + b.fracs(),
        r.sval() * pow_b((f - r.fracs()) as nat) == a.sval() * pow_b((f - a.fracs()) as nat)
            - b.sval() * pow_b((f - b.fracs()) as nat),
    ensures
        is_diff(r, a, b),
{
    let fa = a.fracs();
    let fb = b.fracs();
    let fr = r.fracs();
    let g = (fa + fb + fr - f) as nat;
    let pr = pow_b((f - fr) as nat);
    let pa = pow_b((f - fa) as nat);
    let pb = pow_b((f - fb) as nat);
    let pg = pow_b(g);
    lemma_pow_b_pos(g);
    lemma_pow_b_adds((f - fr) as nat, g);
    lemma_pow_b_adds((f - fa) as nat, g);
    lemma_pow_b_adds((f - fb) as nat, g);
    assert((f - fr) as nat + g == (fa + fb + 0) as nat);
    assert((f - fa) as nat + g == (fb + fr) as nat);
    assert((f - fb) as nat + g == (fa + fr) as nat);
    lemma_pow_b_adds(fb, fr);
    lemma_pow_b_adds(fa, fr);
    assert((r.sval() * pr) * pg == (a.sval() * pa) * pg - (b.sval() * pb) * pg) by (nonlinear_arith)
        requires
            r.sval() * pr == a.sval() * pa - b.sval() * pb,
    ;
    assert((r.sval() * pr) * pg == r.sval() * (pr * pg)) by (nonlinear_arith);
    assert((a.sval() * pa) * pg == a.sval() * (pa * pg)) by (nonlinear_arith);
    assert((b.sval() * pb) * pg == b.sval() * (pb * pg)) by (nonlinear_arith);
    assert(r.sval() * pow_b(fa + fb) == a.sval() * (pow_b(fb) * pow_b(fr)) - b.sval() * (pow_b(fa)
        * pow_b(fr)));
    assert((a.sval() * pow_b(fb) - b.sval() * pow_b(fa)) * pow_b(fr) == a.sval() * (pow_b(fb)
        * pow_b(fr)) - b.sval() * (pow_b(fa) * pow_b(fr))) by (nonlinear_arith);
}

/// A normalized number whose value is the integer `v` has no fractional
/// digits and denotes `v` directly.
pub proof fn lemma_normalized_int_value(r: Number, v: int)
    requires
        r.normalized(),
        r.sval() == v * pow_b(r.fracs()),
    ensures
        r.fracs() == 0,
        r.sval() == v,
{
    if r.fracs() > 0 {
        let f = r.fracs();
        let m = mag(r.digits@);
        let w = if r.is_positive {
            v
        } else {
            -v
        };
        if r.is_positive {
            assert(m == w * pow_b(f));
        } else {
            assert(m == -(v * pow_b(f)));
            assert((-v) * pow_b(f) == -(v * pow_b(f))) by (nonlinear_arith);
        }
        lemma_pow_b_adds((f - 1) as nat, 1);
        assert(pow_b(1) == base()) by {
            vstd::arithmetic::power::lemma_pow1(base());
        }
        assert(m == (w * pow_b((f - 1) as nat)) * base()) by (nonlinear_arith)
            requires
                m == w * pow_b(f),
                pow_b(f) == pow_b((f - 1) as nat) * base(),
        ;
        assert(m % base() == 0) by {
            vstd::arithmetic::div_mod::lemma_mod_multiples_basic(
                w * pow_b((f - 1) as nat),
                base(),
            );
        }
        lemma_mag_last(r.digits@);
        assert(false);
    }
    assert(pow_b(0) == 1) by {
        vstd::arithmetic::power::lemma_pow0(base());
    }
}

/// The canonical shape is unique: two normalized numbers of the same value
/// hold the same digits, split point and sign.
pub proof fn lemma_normalized_value_unique(x: Number, y: Number)
    requires
        x.normalized(),
        y.normalized(),
        eq_value(x, y),
    ensures
        same_rep(x, y),
{
    lemma_pow_b_pos(x.fracs());
    lemma_pow_b_pos(y.fracs());
    lemma_mag_nonneg(x.digits@);
    lemma_mag_nonneg(y.digits@);
    // the scales agree: a strictly larger one would force a trailing zero
    lemma_normalized_scale_le(x, y);
    lemma_normalized_scale_le(y, x);
    assert(x.fracs() == y.fracs());
    assert(x.sval() * pow_b(x.fracs()) == y.sval() * pow_b(x.fracs()));
    assert(x.sval() == y.sval()) by (nonlinear_arith)
        requires
            x.sval() * pow_b(x.fracs()) == y.sval() * pow_b(x.fracs()),
            pow_b(x.fracs()) > 0,
    ;
    // equal signed values force equal magnitudes and, unless zero, signs
    if x.sval() == 0 {
        lemma_normalized_zero_is_empty(x);
        lemma_normalized_zero_is_empty(y);
        assert(x.digits@ =~= y.digits@);
    } else {
        assert(mag(x.digits@) == mag(y.digits@));
        assert(x.is_positive == y.is_positive);
        lemma_normalized_same_mag(x, y);
    }
}

/// A normalized number with value zero is the empty buffer, positive and
/// with the split point at zero.
pub proof fn lemma_normalized_zero_is_empty(x: Number)
    requires
        x.normalized(),
        x.sval() == 0,
    ensures
        x.digits@.len() == 0,
        x.comma_index == 0,
        x.is_positive,
{
    if x.digits@.len() > 0 {
        if x.comma_index > 0 {
            lemma_mag_lower(x.digits@);
            lemma_pow_b_pos((x.digits@.len() - 1) as nat);
            assert(false);
        } else {
            lemma_mag_last(x.digits@);
            vstd::arithmetic::div_mod::lemma_mod_multiples_basic(0, base());
            assert(false);
        }
    }
}

/// Equal magnitudes with equal scales force equal digit buffers under the
/// canonical shape.
proof fn lemma_normalized_same_mag(x: Number, y: Number)
    requires
        x.normalized(),
        y.normalized(),
        x.fracs() == y.fracs(),
        mag(x.digits@) == mag(y.digits@),
    ensures
        x.digits@ == y.digits@,
        x.comma_index == y.comma_index,
{
    let f = x.fracs();
    let dx = x.digits@;
    let dy = y.digits@;
    lemma_mag_split(dx, x.comma_index as int);
    lemma_mag_split(dy, y.comma_index as int);
    lemma_mag_upper(x.fract_part());
    lemma_mag_upper(y.fract_part());
    lemma_mag_nonneg(x.fract_part());
    lemma_mag_nonneg(y.fract_part());
    // the integer parts carry the quotient by BASE^f, the fractions the rest
    assert(x.fract_part().len() == f);
    assert(y.fract_part().len() == f);
    lemma_pow_b_pos(f);
    vstd::arithmetic::div_mod::lemma_fundamental_div_mod_converse(
        mag(dx),
        pow_b(f),
        mag(x.int_part()),
        mag(x.fract_part()),
    );
    vstd::arithmetic::div_mod::lemma_fundamental_div_mod_converse(
        mag(dy),
        pow_b(f),
        mag(y.int_part()),
        mag(y.fract_part()),
    );
    assert(mag(x.int_part()) == mag(y.int_part()));
    assert(mag(x.fract_part()) == mag(y.fract_part()));
    assert(x.int_part().len() > 0 ==> x.int_part()[0] != 0);
    assert(y.int_part().len() > 0 ==> y.int_part()[0] != 0);
    assert(digits_ok(x.int_part()));
    assert(digits_ok(y.int_part()));
    lemma_mag_inj_no_lead(x.int_part(), y.int_part());
    assert(x.comma_index == y.comma_index);
    assert(digits_ok(x.fract_part()));
    assert(digits_ok(y.fract_part()));
    lemma_mag_inj_same_len(x.fract_part(), y.fract_part());
    assert(dx =~= x.int_part() + x.fract_part());
    assert(dy =~= y.int_part() + y.fract_part());
}

/// Of two normalized numbers of equal value, neither scale exceeds the
/// other: a strictly larger one would force a trailing zero digit.
proof fn lemma_normalized_scale_le(x: Number, y: Number)
    requires
        x.normalized(),
        y.normalized(),
        eq_value(x, y),
    ensures
        y.fracs() <= x.fracs(),
{
    if x.fracs() >= y.fracs() {
        return ;
    }
    let fx = x.fracs();
    let fy = y.fracs();
    let d = (fy - fx) as nat;
    lemma_pow_b_pos(fx);
    lemma_pow_b_pos(fy);
    lemma_pow_b_adds(fx, d);
    // sval(y) == sval(x) * BASE^(fy - fx)
    assert(y.sval() * pow_b(fx) == (x.sval() * pow_b(d)) * pow_b(fx)) by (nonlinear_arith)
        requires
            x.sval() * pow_b(fy) == y.sval() * pow_b(fx),
            pow_b(fy) == pow_b(fx) * pow_b(d),
    ;
    assert(y.sval() == x.sval() * pow_b(d)) by (nonlinear_arith)
        requires
            y.sval() * pow_b(fx) == (x.sval() * pow_b(d)) * pow_b(fx),
            pow_b(fx) > 0,
    ;
    let m = mag(y.digits@);
    let w = if y.is_positive {
        x.sval()
    } else {
        -x.sval()
    };
    if y.is_positive {
        assert(m == w * pow_b(d));
    } else {
        assert(m == -(x.sval() * pow_b(d)));
        assert((-x.sval()) * pow_b(d) == -(x.sval() * pow_b(d))) by (nonlinear_arith);
    }
    lemma_pow_b_adds((d - 1) as nat, 1);
    assert(pow_b(1) == base()) by {
        vstd::arithmetic::power::lemma_pow1(base());
    }
    assert(m == (w * pow_b((d - 1) as nat)) * base()) by (nonlinear_arith)
        requires
            m == w * pow_b(d),
            pow_b(d) == pow_b((d - 1) as nat) * base(),
    ;
    vstd::arithmetic::div_mod::lemma_mod_multiples_basic(w * pow_b((d - 1) as nat), base());
    lemma_mag_last(y.digits@);
    assert(y.digits@.len() > y.comma_index);
    assert(false);
}

/// Normalizing is idempotent: a number already in canonical shape comes
/// out of normalization unchanged.
pub proof fn lemma_normalize_idempotent(n: Number)
    requires
        n.normalized(),
    ensures
        norm_digits(n.digits@, n.comma_index as nat) == n.digits@,
        norm_comma(n.digits@, n.comma_index as nat) == n.comma_index,
        norm_sign(n.digits@, n.comma_index as nat, n.is_positive) == n.is_positive,
{
    assert(strip_lead(n.digits@, n.comma_index as nat) == (n.digits@, n.comma_index as nat));
    assert(strip_trail(n.digits@, n.comma_index as nat) == n.digits@);
}

/// Stripping scale: when the digits lost `k` trailing zeros and the sign
/// only changed by the zero-is-positive rule, the signed buffer value
/// scales by `BASE^k`.
pub proof fn lemma_sval_scaled(pre: Number, post: Number)
    requires
        post.fracs() <= pre.fracs(),
        mag(pre.digits@) == mag(post.digits@) * pow_b((pre.fracs() - post.fracs()) as nat),
        post.is_positive == (pre.is_positive || post.digits@.len() == 0),
    ensures
        pre.sval() == post.sval() * pow_b((pre.fracs() - post.fracs()) as nat),
{
    let k = (pre.fracs() - post.fracs()) as nat;
    if pre.is_positive {
    } else {
        if post.digits@.len() == 0 {
            assert(mag(post.digits@) == 0);
            assert(mag(pre.digits@) == 0) by (nonlinear_arith)
                requires
                    mag(pre.digits@) == mag(post.digits@) * pow_b(k),
                    mag(post.digits@) == 0,
            ;
        } else {
            assert((-mag(post.digits@)) * pow_b(k) == -(mag(post.digits@) * pow_b(k)))
                by (nonlinear_arith);
        }
    }
}

} // verus!
