//! Text conversion: parsing the wire format `[-]<digits>[,<digits>]` and
//! formatting a number back into it.

use vstd::prelude::*;

verus! {

use vstd::string::StrSliceExecFns;
use vstd::string::StringExecFns;
use crate::digits::BASE;
use crate::digits::digits_ok;
use crate::number::Number;
use crate::number::norm_digits;
use crate::number::norm_comma;
use crate::number::norm_sign;

/// Why a text failed to parse as a number.
#[derive(Debug, Clone, Copy, PartialEq, Eq, Structural)]
pub enum ParseError {
    /// The input text has zero length.
    EmptyInput,
    /// A character outside the digits, the leading minus and the separator.
    InvalidCharacter,
    /// More than one separator character.
    MultipleSeparators,
    /// The separator is the last character, with no fractional digits.
    TrailingSeparator,
}

/// A character that stands for a single digit below the radix.
pub open spec fn is_digit_char(c: char) -> bool {
    48 <= c as u32 && (c as u32) < 48 + BASE
}

/// The digit a digit character stands for.
pub open spec fn digit_val(c: char) -> u8 {
    ((c as u32) - 48) as u8
}

/// The character that stands for a digit.
pub open spec fn digit_char(v: u8) -> char {
    if v == 0 {
        '0'
    } else if v == 1 {
        '1'
    } else if v == 2 {
        '2'
    } else if v == 3 {
        '3'
    } else if v == 4 {
        '4'
    } else if v == 5 {
        '5'
    } else if v == 6 {
        '6'
    } else if v == 7 {
        '7'
    } else {
        '8'
    }
}

/// The characters standing for a digit sequence.
pub open spec fn chars_of(d: Seq<u8>) -> Seq<char> {
    d.map_values(|v: u8| digit_char(v))
}

/// The digits collected from a text, in order.
pub open spec fn raw_digits(t: Seq<char>) -> Seq<u8>
    decreases t.len(),
{
    if t.len() == 0 {
        Seq::<u8>::empty()
    } else if is_digit_char(t.last()) {
        raw_digits(t.drop_last()).push(digit_val(t.last()))
    } else {
        raw_digits(t.drop_last())
    }
}

/// How many digits precede the first separator of a text, if there is one.
pub open spec fn raw_comma(t: Seq<char>) -> Option<nat>
    decreases t.len(),
{
    if t.len() == 0 {
        None
    } else if raw_comma(t.drop_last()) is Some {
        raw_comma(t.drop_last())
    } else if t.last() == ',' {
        Some(raw_digits(t.drop_last()).len())
    } else {
        None
    }
}

/// The split point a text gives: before the first separator, or every
/// digit when there is none.
pub open spec fn raw_comma_val(t: Seq<char>) -> nat {
    match raw_comma(t) {
        Some(c) => c,
        None => raw_digits(t).len(),
    }
}

/// The text with a leading minus sign dropped.
pub open spec fn body_of(s: Seq<char>) -> Seq<char> {
    if s.len() > 0 && s[0] == '-' {
        s.drop_first()
    } else {
        s
    }
}

/// The sign a text gives: negative exactly under a leading minus.
pub open spec fn sign_of(s: Seq<char>) -> bool {
    !(s.len() > 0 && s[0] == '-')
}

/// The first fault a left-to-right scan from position `i` meets, `seen`
/// telling whether a separator already passed.
pub open spec fn scan_err(s: Seq<char>, i: int, seen: bool) -> Option<ParseError>
    decreases s.len() - i,
{
    if i < 0 || i >= s.len() {
        None
    } else if is_digit_char(s[i]) {
        scan_err(s, i + 1, seen)
    } else if s[i] == ',' {
        if seen {
            Some(ParseError::MultipleSeparators)
        } else {
            scan_err(s, i + 1, true)
        }
    } else {
        Some(ParseError::InvalidCharacter)
    }
}

/// Which error, if any, parsing a text reports: emptiness first, then the
/// first character, then the scan, then a separator left dangling at the
/// end.
pub open spec fn parse_err(s: Seq<char>) -> Option<ParseError> {
    if s.len() == 0 {
        Some(ParseError::EmptyInput)
    } else if !(is_digit_char(s[0]) || s[0] == '-') {
        Some(ParseError::InvalidCharacter)
    } else {
        let start: int = if s[0] == '-' {
            1
        } else {
            0
        };
        match scan_err(s, start, false) {
            Some(e) => Some(e),
            None => if raw_comma(body_of(s)) == Some(raw_digits(body_of(s)).len() as nat) {
                Some(ParseError::TrailingSeparator)
            } else {
                None
            },
        }
    }
}

/// The wire form of a number: a minus for a negative sign, the integer
/// digits or a single zero, and the fractional digits after a separator
/// when there are any.
pub open spec fn spec_format(n: Number) -> Seq<char> {
    (if n.is_positive {
        Seq::<char>::empty()
    } else {
        seq!['-']
    }) + (if n.comma_index == 0 {
        seq!['0']
    } else {
        chars_of(n.int_part())
    }) + (if n.fracs() > 0 {
        seq![','] + chars_of(n.fract_part())
    } else {
        Seq::<char>::empty()
    })
}

impl Number {
    /// Read a number from its text form. Exactly the faults that
    /// `parse_err` names are reported; on success the result is the
    /// normalization of the digits, split point and sign the text gives.
    pub fn parse(s: &str) -> (r: Result<Number, ParseError>)
        ensures
            match r {
                Ok(n) => {
                    let b = body_of(s@);
                    &&& parse_err(s@) is None
                    &&& n.normalized()
                    &&& n.digits@ == norm_digits(raw_digits(b), raw_comma_val(b))
                    &&& n.comma_index as nat == norm_comma(raw_digits(b), raw_comma_val(b))
                    &&& n.is_positive == norm_sign(raw_digits(b), raw_comma_val(b), sign_of(s@))
                },
                Err(e) => parse_err(s@) == Some(e),
            },
    {
        let len = s.unicode_len();
        if len == 0 {
            return Err(ParseError::EmptyInput);
        }
        let c0 = s.get_char(0);
        let mut digits: Vec<u8> = Vec::new();
        let mut is_positive: bool = true;
        let mut comma: Option<usize> = None;
        let ghost off: int;
        if c0 as u32 >= 48 && (c0 as u32) < 48 + (BASE as u32) {
            digits.push((c0 as u32 - 48) as u8);
            proof {
                off = 0;
                assert(body_of(s@) == s@);
                assert(s@.take(1).drop_last() =~= Seq::<char>::empty());
                assert(s@.take(1).last() == s@[0]);
                assert(raw_digits(Seq::<char>::empty()) == Seq::<u8>::empty());
                assert(raw_comma(Seq::<char>::empty()) is None);
                assert(',' as u32 == 44);
                assert(digits@ =~= raw_digits(s@.take(1)));
                assert(raw_comma(s@.take(1)) is None);
            }
        } else if c0 == '-' {
            is_positive = false;
            proof {
                off = 1;
                assert(body_of(s@) == s@.drop_first());
                assert(body_of(s@).take(0) =~= Seq::<char>::empty());
                assert(raw_digits(Seq::<char>::empty()) == Seq::<u8>::empty());
                assert(raw_comma(Seq::<char>::empty()) is None);
            }
        } else {
            return Err(ParseError::InvalidCharacter);
        }
        let ghost b = body_of(s@);
        let mut i: usize = 1;
        while i < len
            invariant
                1 <= i <= len,
                len == s@.len(),
                off == if s@[0] == '-' {
                    1int
                } else {
                    0int
                },
                is_digit_char(s@[0]) || s@[0] == '-',
                b == body_of(s@),
                b == s@.skip(off),
                is_positive == sign_of(s@),
                digits_ok(digits@),
                digits@ == raw_digits(b.take(i - off)),
                match comma {
                    Option::None => raw_comma(b.take(i - off)) is None,
                    Option::Some(c) => raw_comma(b.take(i - off)) == Some(c as nat) && c
                        <= digits@.len(),
                },
                scan_err(s@, off, false) == scan_err(s@, i as int, comma is Some),
            decreases len - i,
        {
            let c = s.get_char(i);
            proof {
                assert(b.take(i + 1 - off).drop_last() =~= b.take(i - off));
                assert(b.take(i + 1 - off).last() == b[i - off]);
                assert(b[i - off] == s@[i as int]);
            }
            if c as u32 >= 48 && (c as u32) < 48 + (BASE as u32) {
                digits.push((c as u32 - 48) as u8);
                proof {
                    assert(is_digit_char(s@[i as int]));
                    assert(digits@ =~= raw_digits(b.take(i + 1 - off)));
                }
            } else if c == ',' {
                match comma {
                    Option::None => {
                        comma = Some(digits.len());
                        proof {
                            assert(!is_digit_char(s@[i as int])) by {
                                assert(',' as u32 == 44);
                            }
                            assert(raw_comma(b.take(i + 1 - off)) == Some(digits@.len() as nat));
                        }
                    },
                    Option::Some(_) => {
                        proof {
                            assert(!is_digit_char(s@[i as int])) by {
                                assert(',' as u32 == 44);
                            }
                            assert(scan_err(s@, i as int, true) == Some(
                                ParseError::MultipleSeparators,
                            ));
                        }
                        return Err(ParseError::MultipleSeparators);
                    },
                }
            } else {
                proof {
                    assert(!is_digit_char(s@[i as int]));
                    assert(s@[i as int] != ',');
                    assert(scan_err(s@, i as int, comma is Some) == Some(
                        ParseError::InvalidCharacter,
                    ));
                }
                return Err(ParseError::InvalidCharacter);
            }
            i += 1;
        }
        proof {
            assert(b.take(i - off) =~= b);
            assert(scan_err(s@, len as int, comma is Some) == None::<ParseError>);
        }
        let comma_index: usize;
        match comma {
            Option::Some(c) => {
                if c == digits.len() {
                    return Err(ParseError::TrailingSeparator);
                }
                comma_index = c;
            },
            Option::None => {
                comma_index = digits.len();
            },
        }
        let mut number = Number { digits, comma_index, is_positive };
        number.normalize();
        Ok(number)
    }

    /// Write this number in its text form, the exact inverse of `parse` on
    /// normalized values.
    pub fn format(&self) -> (r: String)
        requires
            self.wf(),
        ensures
            r@ == spec_format(*self),
    {
        let ghost prefix = if self.is_positive {
            Seq::<char>::empty()
        } else {
            seq!['-']
        };
        let ghost middle = if self.comma_index == 0 {
            seq!['0']
        } else {
            chars_of(self.int_part())
        };
        let mut out = String::new();
        if !self.is_positive {
            out.append("-");
            proof {
                reveal_strlit("-");
                assert(out@ =~= prefix);
            }
        }
        proof {
            assert(out@ == prefix);
        }
        if self.comma_index == 0 {
            out.append("0");
            proof {
                reveal_strlit("0");
                assert(out@ =~= prefix + middle);
            }
        } else {
            let mut i: usize = 0;
            while i < self.comma_index
                invariant
                    self.wf(),
                    i <= self.comma_index,
                    out@ == prefix + chars_of(self.digits@.take(i as int)),
                decreases self.comma_index - i,
            {
                let d = self.digits[i];
                out.append(digit_str(d));
                proof {
                    assert(self.digits@.take(i + 1) =~= self.digits@.take(i as int).push(
                        self.digits@[i as int],
                    ));
                    assert(chars_of(self.digits@.take(i + 1)) =~= chars_of(
                        self.digits@.take(i as int),
                    ).push(digit_char(self.digits@[i as int])));
                    assert(out@ =~= prefix + chars_of(self.digits@.take(i + 1)));
                }
                i += 1;
            }
            proof {
                assert(self.digits@.take(self.comma_index as int) == self.int_part());
                assert(out@ == prefix + middle);
            }
        }
        if self.digits.len() > self.comma_index {
            out.append(",");
            proof {
                reveal_strlit(",");
                assert(out@ =~= prefix + middle + seq![',']);
            }
            let mut i: usize = self.comma_index;
            while i < self.digits.len()
                invariant
                    self.wf(),
                    self.comma_index <= i <= self.digits@.len(),
                    self.digits@.len() > self.comma_index,
                    out@ == prefix + middle + (seq![','] + chars_of(
                        self.digits@.subrange(self.comma_index as int, i as int),
                    )),
                decreases self.digits@.len() - i,
            {
                let d = self.digits[i];
                out.append(digit_str(d));
                proof {
                    let c = self.comma_index as int;
                    assert(self.digits@.subrange(c, i + 1) =~= self.digits@.subrange(c,
                    i as int).push(self.digits@[i as int]));
                    assert(chars_of(self.digits@.subrange(c, i + 1)) =~= chars_of(
                        self.digits@.subrange(c, i as int),
                    ).push(digit_char(self.digits@[i as int])));
                    assert(out@ =~= prefix + middle + (seq![','] + chars_of(
                        self.digits@.subrange(c, i + 1),
                    )));
                }
                i += 1;
            }
            proof {
                assert(self.digits@.subrange(
                    self.comma_index as int,
                    self.digits@.len() as int,
                ) == self.fract_part());
                assert(out@ =~= spec_format(*self));
            }
        } else {
            proof {
                assert(out@ =~= spec_format(*self));
            }
        }
        out
    }
}

/// The one-character text of a single digit.
fn digit_str(d: u8) -> (r: &'static str)
    requires
        d < BASE,
    ensures
        r@ == seq![digit_char(d)],
{
    proof {
        reveal_strlit("0");
        reveal_strlit("1");
        reveal_strlit("2");
        reveal_strlit("3");
        reveal_strlit("4");
        reveal_strlit("5");
        reveal_strlit("6");
        reveal_strlit("7");
        reveal_strlit("8");
    }
    if d == 0 {
        proof {
            assert("0"@ =~= seq![digit_char(d)]);
        }
        "0"
    } else if d == 1 {
        proof {
            assert("1"@ =~= seq![digit_char(d)]);
        }
        "1"
    } else if d == 2 {
        proof {
            assert("2"@ =~= seq![digit_char(d)]);
        }
        "2"
    } else if d == 3 {
        proof {
            assert("3"@ =~= seq![digit_char(d)]);
        }
        "3"
    } else if d == 4 {
        proof {
            assert("4"@ =~= seq![digit_char(d)]);
        }
        "4"
    } else if d == 5 {
        proof {
            assert("5"@ =~= seq![digit_char(d)]);
        }
        "5"
    } else if d == 6 {
        proof {
            assert("6"@ =~= seq![digit_char(d)]);
        }
        "6"
    } else if d == 7 {
        proof {
            assert("7"@ =~= seq![digit_char(d)]);
        }
        "7"
    } else {
        proof {
            assert("8"@ =~= seq![digit_char(d)]);
        }
        "8"
    }
}

/// Digit characters and digits are inverse to one another, and a digit
/// character is neither the separator nor the minus sign.
pub proof fn lemma_digit_char_val(v: u8)
    requires
        v < BASE,
    ensures
        is_digit_char(digit_char(v)),
        digit_val(digit_char(v)) == v,
        digit_char(v) != ',',
        digit_char(v) != '-',
{
    assert('0' as u32 == 48);
    assert('1' as u32 == 49);
    assert('2' as u32 == 50);
    assert('3' as u32 == 51);
    assert('4' as u32 == 52);
    assert('5' as u32 == 53);
    assert('6' as u32 == 54);
    assert('7' as u32 == 55);
    assert('8' as u32 == 56);
    assert(',' as u32 == 44);
    assert('-' as u32 == 45);
}

/// Appending the characters of a digit sequence appends exactly those
/// digits to the collected ones, and introduces no separator.
proof fn lemma_raw_of_digit_chars(t: Seq<char>, d: Seq<u8>)
    requires
        digits_ok(d),
    ensures
        raw_digits(t + chars_of(d)) == raw_digits(t) + d,
        raw_comma(t + chars_of(d)) == raw_comma(t),
    decreases d.len(),
{
    if d.len() == 0 {
        assert(t + chars_of(d) =~= t);
        assert(raw_digits(t) + d =~= raw_digits(t));
    } else {
        let d0 = d.drop_last();
        let u = t + chars_of(d0);
        let w = t + chars_of(d);
        assert(w.drop_last() =~= u);
        assert(w.last() == digit_char(d.last()));
        lemma_digit_char_val(d.last());
        lemma_raw_of_digit_chars(t, d0);
        assert(raw_digits(w) == raw_digits(u).push(d.last()));
        assert(raw_digits(t) + d =~= (raw_digits(t) + d0).push(d.last()));
    }
}

/// A scan over digit characters meets no fault and keeps its state.
proof fn lemma_scan_all_digits(s: Seq<char>, i: int, j: int, seen: bool)
    requires
        0 <= i <= j <= s.len(),
        forall|k: int| i <= k < j ==> is_digit_char(s[k]),
    ensures
        scan_err(s, i, seen) == scan_err(s, j, seen),
    decreases j - i,
{
    if i < j {
        assert(is_digit_char(s[i]));
        lemma_scan_all_digits(s, i + 1, j, seen);
    }
}

/// Round trip: the text form of a normalized number parses without fault,
/// and what it gives back normalizes to exactly that number's digits,
/// split point and sign. Together with the contracts of `parse` and
/// `format` this says `parse(format(n))` returns `n` itself.
pub proof fn lemma_format_parse_round_trip(n: Number)
    requires
        n.normalized(),
    ensures
        ({
            let t = spec_format(n);
            let b = body_of(t);
            &&& parse_err(t) is None
            &&& sign_of(t) == n.is_positive
            &&& norm_digits(raw_digits(b), raw_comma_val(b)) == n.digits@
            &&& norm_comma(raw_digits(b), raw_comma_val(b)) == n.comma_index as nat
            &&& norm_sign(raw_digits(b), raw_comma_val(b), sign_of(t)) == n.is_positive
        }),
{
    let t = spec_format(n);
    let prefix = if n.is_positive {
        Seq::<char>::empty()
    } else {
        seq!['-']
    };
    let m: Seq<u8> = if n.comma_index == 0 {
        seq![0u8]
    } else {
        n.int_part()
    };
    let mid = chars_of(m);
    assert(chars_of(seq![0u8]) =~= seq!['0']);
    assert(mid == if n.comma_index == 0 {
        seq!['0']
    } else {
        chars_of(n.int_part())
    });
    let frac = if n.fracs() > 0 {
        seq![','] + chars_of(n.fract_part())
    } else {
        Seq::<char>::empty()
    };
    assert(t == prefix + mid + frac);
    assert(digits_ok(m));
    assert(m.len() > 0);
    // the first character fixes the sign, and the body is the rest
    assert(mid[0] == digit_char(m[0]));
    lemma_digit_char_val(m[0]);
    assert('-' as u32 == 45);
    if n.is_positive {
        assert(t[0] == mid[0]);
        assert(t[0] != '-');
        assert(body_of(t) == t);
        assert(sign_of(t));
    } else {
        assert(t[0] == '-');
        assert(body_of(t) == t.drop_first());
        assert(!sign_of(t));
    }
    let b = body_of(t);
    assert(b =~= mid + frac);
    // the digits and the split point the text gives back
    assert(Seq::<char>::empty() + mid =~= mid);
    assert(raw_digits(Seq::<char>::empty()) == Seq::<u8>::empty());
    assert(raw_comma(Seq::<char>::empty()) is None);
    lemma_raw_of_digit_chars(Seq::<char>::empty(), m);
    assert(raw_digits(mid) == m);
    assert(raw_comma(mid) is None);
    if n.fracs() > 0 {
        let u = mid + seq![','];
        assert(u.drop_last() =~= mid);
        assert(u.last() == ',');
        assert(raw_digits(u) == m);
        assert(raw_comma(u) == Some(m.len() as nat));
        assert(b =~= u + chars_of(n.fract_part()));
        assert(digits_ok(n.fract_part()));
        lemma_raw_of_digit_chars(u, n.fract_part());
        assert(raw_digits(b) == m + n.fract_part());
        assert(raw_comma(b) == Some(m.len() as nat));
    } else {
        assert(b =~= mid);
        assert(n.fract_part() =~= Seq::<u8>::empty());
        assert(raw_digits(b) =~= m + n.fract_part());
    }
    let rd = raw_digits(b);
    let rc = raw_comma_val(b);
    assert(rc == m.len());
    // normalizing the raw form gives the number back
    if n.comma_index == 0 {
        assert(n.int_part() =~= Seq::<u8>::empty());
        assert(n.fract_part() =~= n.digits@);
        assert(rd =~= seq![0u8] + n.digits@);
        assert(rd[0] == 0);
        assert(rd.drop_first() =~= n.digits@);
        assert(crate::number::strip_lead(rd, 1) == crate::number::strip_lead(n.digits@, 0));
        assert(crate::number::strip_lead(n.digits@, 0) == (n.digits@, 0nat));
        assert(crate::number::strip_trail(n.digits@, 0) == n.digits@);
    } else {
        assert(rd =~= n.digits@);
        assert(rd[0] == n.digits@[0]);
        assert(crate::number::strip_lead(rd, rc) == (n.digits@, n.comma_index as nat));
        assert(crate::number::strip_trail(n.digits@, n.comma_index as nat) == n.digits@);
    }
    assert(norm_digits(rd, rc) == n.digits@);
    assert(norm_comma(rd, rc) == n.comma_index as nat);
    if !n.is_positive {
        assert(n.digits@.len() > 0);
        assert(norm_sign(rd, rc, sign_of(t)) == n.is_positive);
    }
    // the scan meets no fault
    let start: int = if n.is_positive {
        0
    } else {
        1
    };
    assert(t.len() == start + m.len() + frac.len());
    assert(forall|k: int| 0 <= k < m.len() ==> t[start + k] == mid[k]);
    assert(forall|k: int|
        start <= k < start + m.len() ==> #[trigger] is_digit_char(t[k])) by {
        assert forall|k: int| start <= k < start + m.len() implies #[trigger] is_digit_char(
            t[k],
        ) by {
            assert(t[k] == mid[k - start]);
            assert(mid[k - start] == digit_char(m[k - start]));
            lemma_digit_char_val(m[k - start]);
        }
    }
    lemma_scan_all_digits(t, start, start + m.len() as int, false);
    if n.fracs() > 0 {
        let cpos = start + m.len() as int;
        assert(t[cpos] == frac[0]);
        assert(frac[0] == ',');
        assert(',' as u32 == 44);
        assert(!is_digit_char(t[cpos]));
        assert(scan_err(t, cpos, false) == scan_err(t, cpos + 1, true));
        assert(forall|k: int|
            cpos + 1 <= k < t.len() ==> #[trigger] is_digit_char(t[k])) by {
            assert forall|k: int| cpos + 1 <= k < t.len() implies #[trigger] is_digit_char(
                t[k],
            ) by {
                assert(t[k] == frac[k - start - m.len()]);
                assert(frac[k - start - m.len()] == chars_of(n.fract_part())[k - start - m.len()
                    - 1]);
                lemma_digit_char_val(n.fract_part()[k - start - m.len() - 1]);
            }
        }
        lemma_scan_all_digits(t, cpos + 1, t.len() as int, true);
        assert(scan_err(t, start, false) is None);
        // a separator followed by digits is not a trailing separator
        assert(rd.len() > m.len());
    } else {
        assert(scan_err(t, start, false) is None);
        assert(raw_comma(b) is None);
    }
    assert(parse_err(t) is None);
}

} // verus!
