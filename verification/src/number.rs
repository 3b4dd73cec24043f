//! Binary floating point numbers, held as their bits, and formulas over them.
//!
//! Nothing here computes with such a number. A number is told apart by its bits, and arithmetic
//! is written down as a `Formula` for the host to evaluate, operation by operation.

use vstd::arithmetic::power2::{lemma_pow2_pos, pow2};
use vstd::prelude::*;

verus! {

/// A currency, by the host's number for it.
pub type Currency = u32;

/// An IEEE 754 double precision number, by its bits.
#[derive(Debug, Clone, Copy, PartialEq, Eq, Structural)]
pub struct Real {
    pub bits: u64,
}

impl Real {
    /// The sign bit.
    pub open spec fn negative(self) -> bool {
        self.bits >= 0x8000_0000_0000_0000
    }

    /// The eleven exponent bits.
    pub open spec fn exponent(self) -> int {
        self.bits as int / 0x10_0000_0000_0000 % 0x800
    }

    /// The fifty-two fraction bits.
    pub open spec fn fraction(self) -> int {
        self.bits as int % 0x10_0000_0000_0000
    }

    /// Whether this is neither infinite nor not a number.
    pub open spec fn finite(self) -> bool {
        self.exponent() != 0x7ff
    }

    /// Whether this is positive or negative zero.
    pub open spec fn zero(self) -> bool {
        self.exponent() == 0 && self.fraction() == 0
    }

    /// This number with the sign bit cleared.
    pub open spec fn magnitude(self) -> Real {
        Real { bits: (self.bits as int % 0x8000_0000_0000_0000) as u64 }
    }

    /// The magnitude of a finite number, in units of the smallest positive one.
    pub open spec fn units(self) -> nat {
        if self.exponent() == 0 {
            self.fraction() as nat
        } else {
            ((0x10_0000_0000_0000 + self.fraction()) * pow2((self.exponent() - 1) as nat)) as nat
        }
    }

    /// The value of a finite number.
    pub open spec fn value(self) -> real {
        let magnitude = self.units() as real / pow2(1074) as real;
        if self.negative() { -magnitude } else { magnitude }
    }

    /// Returns whether this is neither infinite nor not a number.
    pub fn is_finite(self) -> (finite: bool)
        ensures
            finite == self.finite(),
    {
        self.bits / 0x10_0000_0000_0000 % 0x800 != 0x7ff
    }

    /// Returns whether this is positive or negative zero.
    pub fn is_zero(self) -> (zero: bool)
        ensures
            zero == self.zero(),
    {
        self.bits % 0x8000_0000_0000_0000 == 0
    }

    /// Returns whether the sign bit is set.
    pub fn is_sign_negative(self) -> (negative: bool)
        ensures
            negative == self.negative(),
    {
        self.bits >= 0x8000_0000_0000_0000
    }

    /// Returns this number without its sign.
    pub fn abs(self) -> (abs: Real)
        ensures
            abs == self.magnitude(),
            !abs.negative(),
            abs.exponent() == self.exponent(),
            abs.fraction() == self.fraction(),
    {
        Real { bits: self.bits % 0x8000_0000_0000_0000 }
    }
}

/// A finite number has the value zero exactly where it is a zero.
pub proof fn lemma_zero_value(number: Real)
    requires
        number.finite(),
    ensures
        number.zero() <==> number.value() == 0real,
        number.negative() ==> number.value() <= 0real,
        !number.negative() ==> number.value() >= 0real,
{
    lemma_pow2_pos(1074);
    if number.exponent() != 0 {
        let scale = pow2((number.exponent() - 1) as nat) as int;
        lemma_pow2_pos((number.exponent() - 1) as nat);
        assert((0x10_0000_0000_0000 + number.fraction()) * scale > 0) by (nonlinear_arith)
            requires
                scale > 0,
                number.fraction() >= 0,
        ;
    }
    let units = number.units() as real;
    let scale = pow2(1074) as real;
    assert(units > 0real ==> units / scale > 0real) by (nonlinear_arith)
        requires
            scale > 0real,
    ;
    assert(units == 0real ==> units / scale == 0real) by (nonlinear_arith)
        requires
            scale > 0real,
    ;
}

/// Arithmetic that the host carries out in double precision, in the order written down.
#[derive(Debug)]
pub enum Formula {
    /// A number.
    Number(Real),
    /// A whole number.
    Integer(i32),
    /// The negation of a term.
    Negated(Box<Formula>),
    /// The product of two terms.
    Product(Box<Formula>, Box<Formula>),
    /// The quotient of two terms.
    Quotient(Box<Formula>, Box<Formula>),
    /// A term as an amount of money, rounded to the precision of the currency. An amount that
    /// the currency cannot hold leaves the whole formula without a value.
    Rounded(Box<Formula>, Currency),
}

impl Formula {
    /// The value of this formula in exact arithmetic, for a way of rounding money.
    pub open spec fn value(self, round: spec_fn(real, Currency) -> real) -> real
        decreases self,
    {
        match self {
            Formula::Number(number) => number.value(),
            Formula::Integer(integer) => integer as real,
            Formula::Negated(term) => -term.value(round),
            Formula::Product(left, right) => left.value(round) * right.value(round),
            Formula::Quotient(left, right) => left.value(round) / right.value(round),
            Formula::Rounded(term, currency) => round(term.value(round), currency),
        }
    }
}

}
