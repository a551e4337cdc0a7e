//! Arbitrary-precision signed integers, stored as their canonical decimal
//! digit string. The Bencodex wire format and the JSON bridge only ever
//! read and write numbers as decimal text, so the digit string itself is
//! the executable representation; the mathematical model of a number is
//! the `int` it denotes.

use crate::ascii::{DIGIT_0, DIGIT_9};
use vstd::prelude::*;

verus! {

/// Whether `b` is an ASCII decimal digit.
pub open spec fn is_digit_byte(b: u8) -> bool {
    DIGIT_0 <= b <= DIGIT_9
}

/// Whether every byte of `s` is an ASCII decimal digit.
pub open spec fn all_digit_bytes(s: Seq<u8>) -> bool {
    forall|i: int| 0 <= i < s.len() ==> is_digit_byte(#[trigger] s[i])
}

/// The non-negative integer denoted by the digit string `s` (most
/// significant digit first). The empty string denotes 0.
pub open spec fn digits_value(s: Seq<u8>) -> int
    decreases s.len(),
{
    if s.len() == 0 {
        0
    } else {
        digits_value(s.drop_last()) * 10 + (s.last() - DIGIT_0)
    }
}

/// The canonical decimal digit string of the non-negative integer `n`:
/// most significant digit first, no leading zeros, and `"0"` for zero.
pub open spec fn dec_digits(n: nat) -> Seq<u8>
    decreases n,
{
    if n < 10 {
        seq![(n + DIGIT_0) as u8]
    } else {
        dec_digits(n / 10).push(((n % 10) + DIGIT_0) as u8)
    }
}

/// Whether `s` is a canonical digit string: nonempty, all digits, and no
/// leading zero unless `s` is exactly `"0"`.
pub open spec fn canonical_digits(s: Seq<u8>) -> bool {
    &&& s.len() > 0
    &&& all_digit_bytes(s)
    &&& (s.len() > 1 ==> s[0] != DIGIT_0)
}

/// An arbitrary-precision signed integer in canonical decimal form.
#[derive(Debug, Clone, PartialEq, Eq)]
pub struct BencodexNumber {
    /// True for numbers strictly below zero. Zero is never negative.
    pub negative: bool,
    /// The decimal digits of the magnitude, most significant first.
    pub digits: Vec<u8>,
}

impl BencodexNumber {
    /// The representation invariant: canonical digits, and no negative zero.
    pub open spec fn wf(self) -> bool {
        &&& canonical_digits(self.digits@)
        &&& (self.negative ==> digits_value(self.digits@) != 0)
    }
}

impl View for BencodexNumber {
    type V = int;

    open spec fn view(&self) -> int {
        if self.negative {
            -digits_value(self.digits@)
        } else {
            digits_value(self.digits@)
        }
    }
}

/// A digit string denotes a non-negative integer.
pub proof fn lemma_digits_value_nonneg(s: Seq<u8>)
    requires
        all_digit_bytes(s),
    ensures
        digits_value(s) >= 0,
    decreases s.len(),
{
    if s.len() > 0 {
        assert(all_digit_bytes(s.drop_last()));
        lemma_digits_value_nonneg(s.drop_last());
    }
}

/// The canonical digit string of `n` denotes `n`.
pub proof fn lemma_dec_digits_value(n: nat)
    ensures
        digits_value(dec_digits(n)) == n,
    decreases n,
{
    if n < 10 {
        assert(dec_digits(n) =~= seq![(n + DIGIT_0) as u8]);
        assert(dec_digits(n).drop_last() =~= Seq::<u8>::empty());
        assert(digits_value(Seq::<u8>::empty()) == 0);
    } else {
        lemma_dec_digits_value(n / 10);
        assert(dec_digits(n).drop_last() =~= dec_digits(n / 10));
        assert(n == (n / 10) * 10 + n % 10) by (nonlinear_arith);
    }
}

/// Canonical digit strings are made of digits, and carry no leading zero.
pub proof fn lemma_dec_digits_canonical(n: nat)
    ensures
        canonical_digits(dec_digits(n)),
        n > 0 ==> dec_digits(n)[0] != DIGIT_0,
        n < 10 ==> dec_digits(n).len() == 1,
        n >= 10 ==> dec_digits(n).len() > 1,
    decreases n,
{
    if n < 10 {
    } else {
        lemma_dec_digits_canonical(n / 10);
        let s = dec_digits(n);
        let p = dec_digits(n / 10);
        assert(s =~= p.push(((n % 10) + DIGIT_0) as u8));
        assert forall|i: int| 0 <= i < s.len() implies is_digit_byte(#[trigger] s[i]) by {
            if i < p.len() {
                assert(s[i] == p[i]);
            }
        }
    }
}

/// A nonempty digit string without a leading zero is the canonical digit
/// string of its value; canonical forms are therefore unique.
pub proof fn lemma_canonical_digits_unique(s: Seq<u8>)
    requires
        canonical_digits(s),
    ensures
        s == dec_digits(digits_value(s) as nat),
    decreases s.len(),
{
    lemma_digits_value_nonneg(s);
    let n = digits_value(s) as nat;
    if s.len() == 1 {
        assert(digits_value(s.drop_last()) == 0);
        assert(n < 10);
        assert(dec_digits(n) =~= s);
    } else {
        let p = s.drop_last();
        assert(all_digit_bytes(p));
        assert(p[0] == s[0]);
        assert(canonical_digits(p));
        lemma_canonical_digits_unique(p);
        lemma_digits_value_nonneg(p);
        let pv = digits_value(p) as nat;
        // The prefix is nonzero because it is nonempty without a leading zero.
        lemma_no_leading_zero_positive(p);
        assert(pv >= 1);
        assert(n == pv * 10 + (s.last() - DIGIT_0));
        assert(n >= 10);
        assert(n / 10 == pv && n % 10 == s.last() - DIGIT_0) by (nonlinear_arith)
            requires
                n == pv * 10 + (s.last() - DIGIT_0),
                0 <= s.last() - DIGIT_0 < 10,
                pv >= 0,
        ;
        assert(dec_digits(n) =~= s);
    }
}

/// A digit string longer than one byte whose first digit is not zero
/// denotes a value of at least one.
pub proof fn lemma_no_leading_zero_positive(s: Seq<u8>)
    requires
        s.len() > 0,
        all_digit_bytes(s),
        s[0] != DIGIT_0,
    ensures
        digits_value(s) >= 1,
    decreases s.len(),
{
    assert(is_digit_byte(s[s.len() - 1]));
    if s.len() == 1 {
        assert(s.drop_last().len() == 0);
        assert(digits_value(s.drop_last()) == 0);
        assert(digits_value(s) == s.last() - DIGIT_0);
        assert(s.last() == s[0]);
    } else {
        let p = s.drop_last();
        assert(p[0] == s[0]);
        assert(all_digit_bytes(p));
        lemma_no_leading_zero_positive(p);
        assert(digits_value(s) == digits_value(p) * 10 + (s.last() - DIGIT_0));
        assert(digits_value(p) * 10 >= 10) by (nonlinear_arith)
            requires
                digits_value(p) >= 1,
        ;
    }
}

impl BencodexNumber {
    /// The number zero.
    pub fn zero() -> (r: BencodexNumber)
        ensures
            r.wf(),
            r@ == 0,
    {
        let mut digits: Vec<u8> = Vec::new();
        digits.push(DIGIT_0);
        proof {
            assert(digits@ =~= seq![DIGIT_0]);
            assert(digits@.drop_last() =~= Seq::<u8>::empty());
            assert(digits_value(Seq::<u8>::empty()) == 0);
        }
        BencodexNumber { negative: false, digits }
    }

    /// Builds the number for the unsigned value `v`.
    pub fn from_u64(v: u64) -> (r: BencodexNumber)
        ensures
            r.wf(),
            r@ == v as int,
            !r.negative,
    {
        let mut digits: Vec<u8> = Vec::new();
        let mut n: u64 = v;
        let d0: u8 = DIGIT_0 + (n % 10) as u8;
        digits.push(d0);
        proof {
            assert(digits@ =~= seq![d0]);
        }
        n = n / 10;
        proof {
            if n > 0 {
                assert(v >= 10);
                assert(dec_digits(v as nat) == dec_digits((v as nat) / 10).push(d0));
                assert(dec_digits((v as nat) / 10).push(d0) =~= dec_digits(n as nat).add(digits@));
            } else {
                assert(v < 10);
                assert(v as nat % 10 == v as nat);
                assert(dec_digits(v as nat) =~= seq![d0]);
            }
        }
        while n > 0
            invariant
                digits@.len() > 0,
                n > 0 ==> dec_digits(v as nat) == dec_digits(n as nat).add(digits@),
                n == 0 ==> dec_digits(v as nat) == digits@,
            decreases n,
        {
            let ghost old_n = n as nat;
            let ghost old_digits = digits@;
            let d: u8 = DIGIT_0 + (n % 10) as u8;
            digits.insert(0, d);
            n = n / 10;
            proof {
                assert(digits@ =~= seq![d].add(old_digits));
                if n > 0 {
                    assert(old_n >= 10);
                    assert(dec_digits(old_n) == dec_digits(old_n / 10).push(d));
                    assert(dec_digits(old_n / 10).push(d).add(old_digits) =~= dec_digits(
                        n as nat,
                    ).add(digits@));
                } else {
                    assert(old_n < 10);
                    assert(old_n % 10 == old_n);
                    assert(dec_digits(old_n) =~= seq![d]);
                    assert(dec_digits(old_n).add(old_digits) =~= digits@);
                }
            }
        }
        proof {
            assert(digits@ == dec_digits(v as nat));
            lemma_dec_digits_canonical(v as nat);
            lemma_dec_digits_value(v as nat);
        }
        BencodexNumber { negative: false, digits }
    }

    /// Builds the number for the signed value `v`.
    pub fn from_i64(v: i64) -> (r: BencodexNumber)
        ensures
            r.wf(),
            r@ == v as int,
    {
        if v >= 0 {
            Self::from_u64(v as u64)
        } else {
            let magnitude: u64 = if v == i64::MIN {
                9223372036854775808u64
            } else {
                (-v) as u64
            };
            let r = Self::from_u64(magnitude);
            proof {
                assert(digits_value(r.digits@) == magnitude as int);
            }
            BencodexNumber { negative: true, digits: r.digits }
        }
    }

    /// The value of the magnitude as a `usize`, when it fits.
    pub fn magnitude_to_usize(&self) -> (r: Option<usize>)
        requires
            all_digit_bytes(self.digits@),
        ensures
            match r {
                Some(u) => u as int == digits_value(self.digits@),
                None => digits_value(self.digits@) > usize::MAX,
            },
    {
        let mut acc: usize = 0;
        let mut i: usize = 0;
        let n = self.digits.len();
        proof {
            assert(self.digits@.subrange(0, 0) =~= Seq::<u8>::empty());
        }
        while i < n
            invariant
                0 <= i <= n,
                n == self.digits@.len(),
                all_digit_bytes(self.digits@),
                acc as int == digits_value(self.digits@.subrange(0, i as int)),
            decreases n - i,
        {
            let d: u8 = self.digits[i];
            let shifted: Option<usize> = acc.checked_mul(10);
            let next: Option<usize> = match shifted {
                Some(s) => s.checked_add((d - DIGIT_0) as usize),
                None => None,
            };
            proof {
                assert(self.digits@.subrange(0, i + 1).drop_last() =~= self.digits@.subrange(
                    0,
                    i as int,
                ));
            }
            match next {
                Some(s) => {
                    acc = s;
                },
                None => {
                    proof {
                        let q = self.digits@.subrange(0, i + 1);
                        assert(q.last() == self.digits@[i as int]);
                        assert(is_digit_byte(self.digits@[i as int]));
                        assert(digits_value(q) == acc * 10 + (d - DIGIT_0));
                        assert(digits_value(q) > usize::MAX);
                        lemma_digits_value_grows(self.digits@, i + 1);
                    }
                    return None;
                },
            }
            i = i + 1;
        }
        proof {
            assert(self.digits@.subrange(0, n as int) =~= self.digits@);
        }
        Some(acc)
    }
}

/// Extending a digit string cannot shrink the value it denotes: the value
/// of the whole string is at least the value of any prefix.
pub proof fn lemma_digits_value_grows(s: Seq<u8>, i: int)
    requires
        all_digit_bytes(s),
        0 <= i <= s.len(),
    ensures
        digits_value(s) >= digits_value(s.subrange(0, i)),
    decreases s.len() - i,
{
    if i < s.len() {
        lemma_digits_value_grows(s, i + 1);
        let p = s.subrange(0, i);
        let q = s.subrange(0, i + 1);
        assert(q.drop_last() =~= p);
        assert(all_digit_bytes(p));
        lemma_digits_value_nonneg(p);
        assert(q.last() == s[i]);
        assert(is_digit_byte(s[i]));
        assert(digits_value(q) == digits_value(p) * 10 + (q.last() - DIGIT_0));
        assert(digits_value(p) * 10 >= digits_value(p)) by (nonlinear_arith)
            requires
                digits_value(p) >= 0,
        ;
    } else {
        assert(s.subrange(0, i) =~= s);
    }
}

/// A leading zero does not change the value a digit string denotes.
pub proof fn lemma_digits_value_leading_zero(s: Seq<u8>)
    requires
        s.len() >= 2,
        s[0] == DIGIT_0,
    ensures
        digits_value(s) == digits_value(s.subrange(1, s.len() as int)),
    decreases s.len(),
{
    let t = s.drop_last();
    let r = s.subrange(1, s.len() as int);
    if s.len() == 2 {
        assert(t =~= seq![s[0]]);
        assert(t.drop_last() =~= Seq::<u8>::empty());
        assert(digits_value(Seq::<u8>::empty()) == 0);
        assert(t.last() == DIGIT_0);
        assert(digits_value(t) == 0);
        assert(r =~= seq![s[1]]);
        assert(r.drop_last() =~= Seq::<u8>::empty());
    } else {
        assert(t[0] == s[0]);
        lemma_digits_value_leading_zero(t);
        assert(r.drop_last() =~= t.subrange(1, t.len() as int));
        assert(r.last() == s.last());
    }
}

impl BencodexNumber {
    /// Whether this number is in canonical form: nonempty digits, all
    /// decimal, no leading zero unless the number is zero, and no
    /// negative zero.
    pub fn is_canonical(&self) -> (r: bool)
        ensures
            r == self.wf(),
    {
        let len = self.digits.len();
        if len == 0 {
            return false;
        }
        let mut i: usize = 0;
        while i < len
            invariant
                0 <= i <= len,
                len == self.digits@.len(),
                forall|k: int| 0 <= k < i ==> is_digit_byte(#[trigger] self.digits@[k]),
            decreases len - i,
        {
            let d = self.digits[i];
            if d < DIGIT_0 || d > DIGIT_9 {
                proof {
                    assert(!is_digit_byte(self.digits@[i as int]));
                }
                return false;
            }
            i = i + 1;
        }
        if len > 1 && self.digits[0] == DIGIT_0 {
            return false;
        }
        let is_zero = len == 1 && self.digits[0] == DIGIT_0;
        proof {
            if is_zero {
                assert(self.digits@ =~= seq![DIGIT_0]);
                assert(self.digits@.drop_last() =~= Seq::<u8>::empty());
                assert(digits_value(Seq::<u8>::empty()) == 0);
                assert(self.digits@.last() == DIGIT_0);
                assert(digits_value(self.digits@) == 0);
            } else {
                assert(self.digits@[0] != DIGIT_0);
                lemma_no_leading_zero_positive(self.digits@);
            }
        }
        !(self.negative && is_zero)
    }
}

} // verus!
