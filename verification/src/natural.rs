//! Whole numbers of any size, as far as the band boundaries need them: they
//! are multiplied by a machine word and compared with one another.

use vstd::prelude::*;

verus! {

/// What a digit at `place` counts for: 2^32 to the power of `place`.
pub open spec fn weight(place: nat) -> nat
    decreases place,
{
    if place == 0 {
        1
    } else {
        4294967296 * weight((place - 1) as nat)
    }
}

/// The digit at `place`; beyond the digits written down, zero.
pub open spec fn digit(digits: Seq<u32>, place: int) -> nat {
    if 0 <= place < digits.len() {
        digits[place] as nat
    } else {
        0
    }
}

/// The number that the lowest `upto` digits stand for, the least significant
/// digit first.
pub open spec fn value_upto(digits: Seq<u32>, upto: nat) -> nat
    decreases upto,
{
    if upto == 0 {
        0
    } else {
        value_upto(digits, (upto - 1) as nat) + digit(digits, upto - 1) * weight((upto - 1) as nat)
    }
}

/// The lowest digits of a number stand for less than the next digit counts
/// for.
pub proof fn lemma_value_below_weight(digits: Seq<u32>, upto: nat)
    ensures
        value_upto(digits, upto) < weight(upto),
    decreases upto,
{
    if upto > 0 {
        let below = (upto - 1) as nat;
        lemma_value_below_weight(digits, below);
        let d = digit(digits, upto - 1);
        let w = weight(below);
        assert(d * w <= 4294967295 * w) by (nonlinear_arith)
            requires
                d <= 4294967295,
                w >= 0,
        ;
    }
}

/// Two rows of digits that agree in their lowest `upto` places stand for the
/// same number there.
pub proof fn lemma_value_of_equal_digits(a: Seq<u32>, b: Seq<u32>, upto: nat)
    requires
        forall|place: int| 0 <= place < upto ==> digit(a, place) == digit(b, place),
    ensures
        value_upto(a, upto) == value_upto(b, upto),
    decreases upto,
{
    if upto > 0 {
        lemma_value_of_equal_digits(a, b, (upto - 1) as nat);
    }
}

/// Places beyond the digits written down add nothing.
pub proof fn lemma_value_beyond_digits(digits: Seq<u32>, upto: nat)
    requires
        upto >= digits.len(),
    ensures
        value_upto(digits, upto) == value_upto(digits, digits.len()),
    decreases upto,
{
    if upto > digits.len() {
        lemma_value_beyond_digits(digits, (upto - 1) as nat);
        assert(digit(digits, upto - 1) * weight((upto - 1) as nat) == 0) by (nonlinear_arith)
            requires
                digit(digits, upto - 1) == 0,
        ;
    }
}

/// A whole number, zero or above, of any size.
pub struct Natural {
    digits: Vec<u32>,
}

impl View for Natural {
    type V = nat;

    /// The number itself.
    closed spec fn view(&self) -> nat {
        value_upto(self.digits@, self.digits@.len())
    }
}

impl Natural {
    /// The number `value`.
    pub fn from_word(value: u32) -> (n: Natural)
        ensures
            n@ == value,
    {
        let mut digits: Vec<u32> = Vec::new();
        digits.push(value);
        assert(value_upto(digits@, 0) == 0);
        assert(weight(0) == 1);
        assert(value_upto(digits@, 1) == value_upto(digits@, 0) + digit(digits@, 0) * weight(0));
        Natural { digits }
    }

    /// The product of this number and `factor`.
    pub fn times(&self, factor: u32) -> (product: Natural)
        ensures
            product@ == self@ * factor,
    {
        let n: usize = self.digits.len();
        let mut digits: Vec<u32> = Vec::new();
        let mut carry: u64 = 0;
        let mut place: usize = 0;
        assert(value_upto(digits@, 0) == 0 && value_upto(self.digits@, 0) == 0);
        while place < n
            invariant
                n == self.digits@.len(),
                place <= n,
                digits@.len() == place,
                carry <= 4294967295,
                value_upto(digits@, place as nat) + carry * weight(place as nat) == value_upto(
                    self.digits@,
                    place as nat,
                ) * factor,
            decreases n - place,
        {
            let here: u32 = self.digits[place];
            assert(here * factor <= 4294967295 * 4294967295) by (nonlinear_arith)
                requires
                    here <= 4294967295,
                    factor <= 4294967295,
            ;
            let sum: u64 = (here as u64) * (factor as u64) + carry;
            let low: u32 = (sum % 4294967296) as u32;
            let ghost before = digits@;
            let ghost carried = carry as nat;
            digits.push(low);
            carry = sum / 4294967296;
            proof {
                let w = weight(place as nat);
                let v = value_upto(self.digits@, place as nat);
                lemma_value_of_equal_digits(before, digits@, place as nat);
                assert(digit(digits@, place as int) == low);
                assert(digit(self.digits@, place as int) == here);
                assert(low * w + carry * (4294967296 * w) == (here * factor + carried) * w)
                    by (nonlinear_arith)
                    requires
                        low + carry * 4294967296 == here * factor + carried,
                ;
                assert((v + here * w) * factor == v * factor + (here * factor) * w)
                    by (nonlinear_arith);
                assert((here * factor + carried) * w == (here * factor) * w + carried * w)
                    by (nonlinear_arith);
            }
            place = place + 1;
        }
        if carry > 0 {
            let ghost before = digits@;
            digits.push(carry as u32);
            proof {
                lemma_value_of_equal_digits(before, digits@, n as nat);
                assert(digit(digits@, n as int) == carry);
            }
        } else {
            assert(carry * weight(n as nat) == 0) by (nonlinear_arith)
                requires
                    carry == 0,
            ;
        }
        Natural { digits }
    }

    /// Tells whether this number is at least as large as `other`.
    pub fn reaches(&self, other: &Natural) -> (reached: bool)
        ensures
            reached == (self@ >= other@),
    {
        let n: usize = self.digits.len();
        let m: usize = other.digits.len();
        let longest: usize = if n > m { n } else { m };
        let mut reached: bool = true;
        let mut place: usize = 0;
        while place < longest
            invariant
                n == self.digits@.len(),
                m == other.digits@.len(),
                place <= longest,
                reached == (value_upto(self.digits@, place as nat) >= value_upto(
                    other.digits@,
                    place as nat,
                )),
            decreases longest - place,
        {
            let mine: u32 = if place < n { self.digits[place] } else { 0 };
            let theirs: u32 = if place < m { other.digits[place] } else { 0 };
            proof {
                let w = weight(place as nat);
                lemma_value_below_weight(self.digits@, place as nat);
                lemma_value_below_weight(other.digits@, place as nat);
                assert(digit(self.digits@, place as int) == mine);
                assert(digit(other.digits@, place as int) == theirs);
                if mine > theirs {
                    assert(mine * w >= theirs * w + w) by (nonlinear_arith)
                        requires
                            mine >= theirs + 1,
                            w >= 0,
                    ;
                }
                if mine < theirs {
                    assert(theirs * w >= mine * w + w) by (nonlinear_arith)
                        requires
                            theirs >= mine + 1,
                            w >= 0,
                    ;
                }
            }
            if mine > theirs {
                reached = true;
            } else if mine < theirs {
                reached = false;
            }
            place = place + 1;
        }
        proof {
            lemma_value_beyond_digits(self.digits@, longest as nat);
            lemma_value_beyond_digits(other.digits@, longest as nat);
        }
        reached
    }
}

} // verus!
