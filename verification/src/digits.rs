//! The mathematical model of a digit buffer: the integer a sequence of
//! digits denotes, and the lemmas about it that the arithmetic needs.

use vstd::prelude::*;

verus! {

use vstd::arithmetic::power::pow;
use vstd::arithmetic::power::lemma_pow_adds;
use vstd::arithmetic::power::lemma_pow_positive;
use vstd::arithmetic::div_mod::lemma_fundamental_div_mod_converse;

/// The radix every stored digit is valued in. Text I/O uses the decimal
/// digit characters whose value lies below this radix.
pub const BASE: u8 = 9;

/// The radix as a mathematical integer.
pub open spec fn base() -> int {
    BASE as int
}

/// `BASE` raised to the power `k`.
pub open spec fn pow_b(k: nat) -> int {
    pow(base(), k)
}

/// Every entry of `s` is a single digit in `[0, BASE)`.
pub open spec fn digits_ok(s: Seq<u8>) -> bool {
    forall|i: int| 0 <= i < s.len() ==> s[i] < BASE
}

/// The nonnegative integer denoted by `s`, most-significant digit first.
pub open spec fn mag(s: Seq<u8>) -> int
    decreases s.len(),
{
    if s.len() == 0 {
        0
    } else {
        mag(s.drop_last()) * base() + s.last()
    }
}

/// A sequence of `k` zero digits.
pub open spec fn zeros(k: nat) -> Seq<u8> {
    Seq::new(k, |i: int| 0u8)
}

pub proof fn lemma_pow_b_pos(k: nat)
    ensures
        pow_b(k) > 0,
{
    lemma_pow_positive(base(), k);
}

pub proof fn lemma_pow_b_adds(j: nat, k: nat)
    ensures
        pow_b(j + k) == pow_b(j) * pow_b(k),
{
    lemma_pow_adds(base(), j, k);
}

pub proof fn lemma_mag_nonneg(s: Seq<u8>)
    ensures
        mag(s) >= 0,
    decreases s.len(),
{
    if s.len() > 0 {
        lemma_mag_nonneg(s.drop_last());
        assert(mag(s.drop_last()) * base() >= 0) by (nonlinear_arith)
            requires
                mag(s.drop_last()) >= 0,
                base() > 0,
        ;
    }
}

/// A digit sequence of length `n` denotes an integer below `BASE^n`.
pub proof fn lemma_mag_upper(s: Seq<u8>)
    requires
        digits_ok(s),
    ensures
        0 <= mag(s) < pow_b(s.len()),
    decreases s.len(),
{
    if s.len() == 0 {
        assert(pow_b(0) == 1) by {
            vstd::arithmetic::power::lemma_pow0(base());
        }
    } else {
        let d = s.drop_last();
        assert(digits_ok(d));
        lemma_mag_upper(d);
        lemma_pow_b_adds((s.len() - 1) as nat, 1);
        assert(pow_b(1) == base()) by {
            vstd::arithmetic::power::lemma_pow1(base());
        }
        assert(mag(d) * base() + s.last() < pow_b((s.len() - 1) as nat) * base()) by (nonlinear_arith)
            requires
                mag(d) <= pow_b((s.len() - 1) as nat) - 1,
                mag(d) >= 0,
                s.last() < base(),
                base() > 0,
        ;
        lemma_mag_nonneg(d);
        assert(mag(d) * base() >= 0) by (nonlinear_arith)
            requires
                mag(d) >= 0,
                base() > 0,
        ;
    }
}

/// A digit sequence whose first digit is nonzero denotes at least
/// `BASE^(n-1)`.
pub proof fn lemma_mag_lower(s: Seq<u8>)
    requires
        s.len() > 0,
        s[0] >= 1,
    ensures
        mag(s) >= pow_b((s.len() - 1) as nat),
    decreases s.len(),
{
    if s.len() == 1 {
        assert(mag(s) == mag(s.drop_last()) * base() + s.last());
        assert(s.last() == s[0]);
        assert(pow_b(0) == 1) by {
            vstd::arithmetic::power::lemma_pow0(base());
        }
    } else {
        let d = s.drop_last();
        lemma_mag_lower(d);
        lemma_pow_b_adds((s.len() - 2) as nat, 1);
        assert(pow_b(1) == base()) by {
            vstd::arithmetic::power::lemma_pow1(base());
        }
        assert(mag(d) * base() >= pow_b((s.len() - 2) as nat) * base()) by (nonlinear_arith)
            requires
                mag(d) >= pow_b((s.len() - 2) as nat),
                base() > 0,
        ;
    }
}

/// Splitting a digit sequence at `i` splits its value positionally.
pub proof fn lemma_mag_split(s: Seq<u8>, i: int)
    requires
        0 <= i <= s.len(),
    ensures
        mag(s) == mag(s.take(i)) * pow_b((s.len() - i) as nat) + mag(s.skip(i)),
    decreases s.len() - i,
{
    if i == s.len() {
        assert(s.take(i) =~= s);
        assert(s.skip(i) =~= Seq::<u8>::empty());
        assert(pow_b(0) == 1) by {
            vstd::arithmetic::power::lemma_pow0(base());
        }
    } else {
        let d = s.drop_last();
        assert(s.take(i) =~= d.take(i));
        assert(s.skip(i).drop_last() =~= d.skip(i));
        assert(s.skip(i).last() == s.last());
        lemma_mag_split(d, i);
        let k = (d.len() - i) as nat;
        lemma_pow_b_adds(k, 1);
        assert(pow_b(1) == base()) by {
            vstd::arithmetic::power::lemma_pow1(base());
        }
        assert(mag(s) == mag(d) * base() + s.last());
        assert(mag(s.skip(i)) == mag(d.skip(i)) * base() + s.last());
        assert((mag(d.take(i)) * pow_b(k) + mag(d.skip(i))) * base() == mag(d.take(i)) * (pow_b(k)
            * base()) + mag(d.skip(i)) * base()) by (nonlinear_arith);
    }
}

/// Prepending a digit adds its positional value.
pub proof fn lemma_mag_prepend(d: u8, s: Seq<u8>)
    ensures
        mag(seq![d] + s) == d * pow_b(s.len()) + mag(s),
{
    let t = seq![d] + s;
    lemma_mag_split(t, 1);
    assert(t.take(1) =~= seq![d]);
    assert(t.skip(1) =~= s);
    assert(mag(seq![d]) == d) by {
        assert(seq![d].drop_last() =~= Seq::<u8>::empty());
        assert(seq![d].last() == d);
        assert(mag(Seq::<u8>::empty()) == 0);
    }
}

/// Prepending zero digits does not change the value.
pub proof fn lemma_mag_prepend_zeros(k: nat, s: Seq<u8>)
    ensures
        mag(zeros(k) + s) == mag(s),
    decreases k,
{
    if k == 0 {
        assert(zeros(0) + s =~= s);
    } else {
        assert(zeros(k) + s =~= seq![0u8] + (zeros((k - 1) as nat) + s));
        lemma_mag_prepend(0u8, zeros((k - 1) as nat) + s);
        lemma_mag_prepend_zeros((k - 1) as nat, s);
    }
}

/// Appending zero digits multiplies the value by the radix once per digit.
pub proof fn lemma_mag_append_zeros(s: Seq<u8>, k: nat)
    ensures
        mag(s + zeros(k)) == mag(s) * pow_b(k),
    decreases k,
{
    if k == 0 {
        assert(s + zeros(0) =~= s);
        assert(pow_b(0) == 1) by {
            vstd::arithmetic::power::lemma_pow0(base());
        }
    } else {
        let t = s + zeros(k);
        assert(t.drop_last() =~= s + zeros((k - 1) as nat));
        assert(t.last() == 0);
        lemma_mag_append_zeros(s, (k - 1) as nat);
        lemma_pow_b_adds((k - 1) as nat, 1);
        assert(pow_b(1) == base()) by {
            vstd::arithmetic::power::lemma_pow1(base());
        }
        assert((mag(s) * pow_b((k - 1) as nat)) * base() == mag(s) * (pow_b((k - 1) as nat)
            * base())) by (nonlinear_arith);
    }
}

/// The last digit and the rest can be read back off the value.
pub proof fn lemma_mag_last(s: Seq<u8>)
    requires
        digits_ok(s),
        s.len() > 0,
    ensures
        mag(s) % base() == s.last(),
        mag(s) / base() == mag(s.drop_last()),
{
    lemma_mag_nonneg(s.drop_last());
    lemma_fundamental_div_mod_converse(mag(s), base(), mag(s.drop_last()), s.last() as int);
}

/// Equal values of equal-length digit sequences force equal digits.
pub proof fn lemma_mag_inj_same_len(a: Seq<u8>, b: Seq<u8>)
    requires
        digits_ok(a),
        digits_ok(b),
        a.len() == b.len(),
        mag(a) == mag(b),
    ensures
        a == b,
    decreases a.len(),
{
    if a.len() == 0 {
        assert(a =~= b);
    } else {
        lemma_mag_last(a);
        lemma_mag_last(b);
        lemma_mag_inj_same_len(a.drop_last(), b.drop_last());
        assert(a =~= a.drop_last().push(a.last()));
        assert(b =~= b.drop_last().push(b.last()));
    }
}

/// Equal values of digit sequences without leading zeros force equal digits.
pub proof fn lemma_mag_inj_no_lead(a: Seq<u8>, b: Seq<u8>)
    requires
        digits_ok(a),
        digits_ok(b),
        a.len() > 0 ==> a[0] != 0,
        b.len() > 0 ==> b[0] != 0,
        mag(a) == mag(b),
    ensures
        a == b,
{
    lemma_mag_upper(a);
    lemma_mag_upper(b);
    if a.len() > 0 {
        lemma_mag_lower(a);
    }
    if b.len() > 0 {
        lemma_mag_lower(b);
    }
    if a.len() < b.len() {
        vstd::arithmetic::power::lemma_pow_increases(BASE as nat, a.len(), (b.len() - 1) as nat);
        assert(false);
    }
    if b.len() < a.len() {
        vstd::arithmetic::power::lemma_pow_increases(BASE as nat, b.len(), (a.len() - 1) as nat);
        assert(false);
    }
    lemma_mag_inj_same_len(a, b);
}

/// A first differing digit decides the order of equal-length sequences.
pub proof fn lemma_mag_lex_lt(a: Seq<u8>, b: Seq<u8>, i: int)
    requires
        digits_ok(a),
        digits_ok(b),
        a.len() == b.len(),
        0 <= i < a.len(),
        a.take(i) == b.take(i),
        a[i] < b[i],
    ensures
        mag(a) < mag(b),
{
    let n = a.len() as int;
    lemma_mag_split(a, i + 1);
    lemma_mag_split(b, i + 1);
    assert(a.take(i + 1).drop_last() =~= a.take(i));
    assert(b.take(i + 1).drop_last() =~= b.take(i));
    assert(a.take(i + 1).last() == a[i]);
    assert(b.take(i + 1).last() == b[i]);
    assert(mag(a.take(i + 1)) == mag(a.take(i)) * base() + a[i]);
    assert(mag(b.take(i + 1)) == mag(b.take(i)) * base() + b[i]);
    assert(a.skip(i + 1).len() == n - i - 1);
    lemma_mag_upper(a.skip(i + 1));
    lemma_mag_nonneg(b.skip(i + 1));
    let p = pow_b((n - i - 1) as nat);
    lemma_pow_b_pos((n - i - 1) as nat);
    assert(mag(a.take(i + 1)) + 1 <= mag(b.take(i + 1)));
    assert(mag(a.take(i + 1)) * p + mag(a.skip(i + 1)) < mag(b.take(i + 1)) * p + mag(b.skip(i
        + 1))) by (nonlinear_arith)
        requires
            mag(a.take(i + 1)) + 1 <= mag(b.take(i + 1)),
            mag(a.skip(i + 1)) < p,
            mag(b.skip(i + 1)) >= 0,
            p > 0,
    ;
}

/// Cross-multiplied comparison is comparison at any common scale `f`.
pub proof fn lemma_cross_scale(xa: int, fa: nat, xb: int, fb: nat, f: nat)
    requires
        fa <= f,
        fb <= f,
        f <= fa + fb,
    ensures
        (xa * pow_b((f - fa) as nat) < xb * pow_b((f - fb) as nat)) <==> (xa * pow_b(fb) < xb
            * pow_b(fa)),
        (xa * pow_b((f - fa) as nat) == xb * pow_b((f - fb) as nat)) <==> (xa * pow_b(fb) == xb
            * pow_b(fa)),
{
    let g = (fa + fb - f) as nat;
    let p1 = pow_b((f - fa) as nat);
    let p2 = pow_b((f - fb) as nat);
    let pg = pow_b(g);
    lemma_pow_b_pos(g);
    lemma_pow_b_adds((f - fa) as nat, g);
    lemma_pow_b_adds((f - fb) as nat, g);
    assert((f - fa) as nat + g == fb);
    assert((f - fb) as nat + g == fa);
    assert(p1 * pg == pow_b(fb));
    assert(p2 * pg == pow_b(fa));
    assert(((xa * p1 < xb * p2) <==> (xa * (p1 * pg) < xb * (p2 * pg))) && ((xa * p1 == xb * p2)
        <==> (xa * (p1 * pg) == xb * (p2 * pg)))) by (nonlinear_arith)
        requires
            pg > 0,
    ;
    assert(xa * (p1 * pg) == xa * pow_b(fb));
    assert(xb * (p2 * pg) == xb * pow_b(fa));
}

} // verus!
