//! Amounts of the network's token, counted in its smallest unit.

use vstd::prelude::*;

verus! {

/// An amount of tokens in atto units (10^-18 of a token).
#[derive(Clone, Copy, Debug, PartialEq, Eq, Structural)]
pub struct AttoTokens {
    pub atto: u128,
}

/// The character of a decimal digit.
pub open spec fn decimal_digit(d: int) -> char {
    if d == 0 {
        '0'
    } else if d == 1 {
        '1'
    } else if d == 2 {
        '2'
    } else if d == 3 {
        '3'
    } else if d == 4 {
        '4'
    } else if d == 5 {
        '5'
    } else if d == 6 {
        '6'
    } else if d == 7 {
        '7'
    } else if d == 8 {
        '8'
    } else {
        '9'
    }
}

/// The decimal numeral of `n`, without leading zeros.
pub open spec fn decimal(n: nat) -> Seq<char>
    decreases n,
{
    if n < 10 {
        seq![decimal_digit(n as int)]
    } else {
        decimal(n / 10).push(decimal_digit(n as int % 10))
    }
}

fn digit_char(d: u8) -> (c: char)
    requires
        d < 10,
    ensures
        c == decimal_digit(d as int),
{
    if d == 0 {
        '0'
    } else if d == 1 {
        '1'
    } else if d == 2 {
        '2'
    } else if d == 3 {
        '3'
    } else if d == 4 {
        '4'
    } else if d == 5 {
        '5'
    } else if d == 6 {
        '6'
    } else if d == 7 {
        '7'
    } else if d == 8 {
        '8'
    } else {
        '9'
    }
}

impl AttoTokens {
    /// No tokens.
    pub fn zero() -> (t: AttoTokens)
        ensures
            t.atto == 0,
    {
        AttoTokens { atto: 0 }
    }

    /// The amount of `atto` units.
    pub fn from_atto(atto: u128) -> (t: AttoTokens)
        ensures
            t.atto == atto,
    {
        AttoTokens { atto }
    }

    /// The amount in atto units.
    pub fn as_atto(&self) -> (atto: u128)
        ensures
            atto == self.atto,
    {
        self.atto
    }

    /// The sum of two amounts, or `None` where it exceeds what an amount
    /// can hold.
    pub fn checked_add(&self, other: AttoTokens) -> (sum: Option<AttoTokens>)
        ensures
            self.atto + other.atto <= u128::MAX ==> sum == Some(
                AttoTokens { atto: (self.atto + other.atto) as u128 },
            ),
            self.atto + other.atto > u128::MAX ==> sum is None,
    {
        if self.atto > u128::MAX - other.atto {
            None
        } else {
            Some(AttoTokens { atto: self.atto + other.atto })
        }
    }

    /// The amount as a decimal numeral of atto units.
    pub fn to_string(&self) -> (text: String)
        ensures
            text@ == decimal(self.atto as nat),
    {
        let mut digits: Vec<char> = Vec::new();
        let mut rest: u128 = self.atto;
        loop
            invariant_except_break
                digits@.len() == 0 || rest > 0,
                decimal(self.atto as nat) == if digits@.len() == 0 {
                    decimal(rest as nat)
                } else {
                    decimal(rest as nat) + digits@.reverse()
                },
            ensures
                decimal(self.atto as nat) == digits@.reverse(),
            decreases rest,
        {
            let d: u8 = (rest % 10) as u8;
            let ghost before = digits@;
            digits.push(digit_char(d));
            proof {
                assert(digits@.reverse() =~= seq![decimal_digit(d as int)] + before.reverse());
                if rest >= 10 {
                    assert(decimal(rest as nat) == decimal(rest as nat / 10).push(
                        decimal_digit(d as int),
                    ));
                    assert(decimal(rest as nat / 10).push(decimal_digit(d as int))
                        + before.reverse() =~= decimal(rest as nat / 10) + digits@.reverse());
                } else {
                    assert(decimal(rest as nat) + before.reverse() =~= digits@.reverse());
                    assert(decimal(rest as nat) =~= seq![decimal_digit(d as int)]);
                }
            }
            rest = rest / 10;
            if rest == 0 {
                break ;
            }
        }
        let mut text = String::new();
        let mut i: usize = digits.len();
        while i > 0
            invariant
                i <= digits@.len(),
                text@ == digits@.reverse().take(digits@.len() - i),
            decreases i,
        {
            i -= 1;
            text.push(digits[i]);
            proof {
                let r = digits@.reverse();
                let k = digits@.len() - i - 1;
                assert(r[k] == digits@[i as int]);
                assert(r.take(k + 1) =~= r.take(k).push(r[k]));
            }
        }
        proof {
            assert(digits@.reverse().take(digits@.len() as int) =~= digits@.reverse());
        }
        text
    }
}

} // verus!
