//! Natural numbers of any size.
//!
//! A score is a quotient of two products of lengths, and such products do
//! not fit a machine word for every query and candidate. They are therefore
//! computed in `Natural`, which never overflows.

use vstd::prelude::*;

verus! {

/// The base of the digits of a `Natural`: two to the power 64.
pub open spec fn radix() -> nat {
    0x1_0000_0000_0000_0000
}

/// `radix()` to the power `exponent`.
pub open spec fn weight(exponent: nat) -> nat
    decreases exponent,
{
    if exponent == 0 {
        1
    } else {
        radix() * weight((exponent - 1) as nat)
    }
}

/// The digit at `position`, where a digit past the end counts as zero.
pub open spec fn digit(digits: Seq<u64>, position: int) -> nat {
    if 0 <= position < digits.len() {
        digits[position] as nat
    } else {
        0
    }
}

/// The number that the `count` least significant digits stand for.
pub open spec fn low_part(digits: Seq<u64>, count: nat) -> nat
    decreases count,
{
    if count == 0 {
        0
    } else {
        low_part(digits, (count - 1) as nat) + digit(digits, count - 1) * weight(
            (count - 1) as nat,
        )
    }
}

/// The number that `digits` stand for, least significant digit first.
pub open spec fn value(digits: Seq<u64>) -> nat {
    low_part(digits, digits.len())
}

/// How one natural number stands to another.
#[derive(Clone, Copy, Debug, PartialEq, Eq)]
pub enum Relation {
    Less,
    Equal,
    Greater,
}

/// The relation of `left` to `right`.
pub open spec fn relation_of(left: nat, right: nat) -> Relation {
    if left < right {
        Relation::Less
    } else if left == right {
        Relation::Equal
    } else {
        Relation::Greater
    }
}

proof fn lemma_low_part_bound(digits: Seq<u64>, count: nat)
    ensures
        low_part(digits, count) < weight(count),
    decreases count,
{
    if count > 0 {
        let below = (count - 1) as nat;
        lemma_low_part_bound(digits, below);
        let d = digit(digits, count - 1);
        let w = weight(below);
        assert(d * w + w <= radix() * w) by (nonlinear_arith)
            requires
                d + 1 <= radix(),
        ;
    }
}

proof fn lemma_low_part_agrees(left: Seq<u64>, right: Seq<u64>, count: nat)
    requires
        forall|i: int| 0 <= i < count ==> digit(left, i) == digit(right, i),
    ensures
        low_part(left, count) == low_part(right, count),
    decreases count,
{
    if count > 0 {
        lemma_low_part_agrees(left, right, (count - 1) as nat);
    }
}

proof fn lemma_low_part_past_end(digits: Seq<u64>, count: nat)
    requires
        count >= digits.len(),
    ensures
        low_part(digits, count) == value(digits),
    decreases count,
{
    if count > digits.len() {
        lemma_low_part_past_end(digits, (count - 1) as nat);
        assert(digit(digits, count - 1) * weight((count - 1) as nat) == 0) by (nonlinear_arith)
            requires
                digit(digits, count - 1) == 0,
        ;
    }
}

proof fn lemma_value_push(digits: Seq<u64>, top: u64)
    ensures
        value(digits.push(top)) == value(digits) + top * weight(digits.len()),
{
    lemma_low_part_agrees(digits.push(top), digits, digits.len());
}

/// Where two numbers agree in every digit from `position + 1` up, the digit
/// at `position` decides which is the smaller.
proof fn lemma_decided_at(left: Seq<u64>, right: Seq<u64>, position: nat, count: nat)
    requires
        position < count,
        digit(left, position as int) < digit(right, position as int),
        forall|i: int| position < i < count ==> digit(left, i) == digit(right, i),
    ensures
        low_part(left, count) < low_part(right, count),
    decreases count,
{
    if count == position + 1 {
        lemma_low_part_bound(left, position);
        let w = weight(position);
        let l = digit(left, position as int);
        let r = digit(right, position as int);
        assert(l * w + w <= r * w) by (nonlinear_arith)
            requires
                l + 1 <= r,
        ;
    } else {
        lemma_decided_at(left, right, position, (count - 1) as nat);
    }
}

/// A natural number of any size.
pub struct Natural {
    digits: Vec<u64>,
}

impl View for Natural {
    type V = nat;

    closed spec fn view(&self) -> nat {
        value(self.digits@)
    }
}

impl Clone for Natural {
    fn clone(&self) -> (copy: Natural)
        ensures
            copy@ == self@,
    {
        Natural { digits: self.digits.clone() }
    }
}

impl Natural {
    /// The number zero.
    pub fn zero() -> (number: Natural)
        ensures
            number@ == 0,
    {
        Natural { digits: Vec::new() }
    }

    /// The number `small`.
    pub fn from_u128(small: u128) -> (number: Natural)
        ensures
            number@ == small,
    {
        let low: u64 = (small % 0x1_0000_0000_0000_0000) as u64;
        let high: u64 = (small / 0x1_0000_0000_0000_0000) as u64;
        let mut digits: Vec<u64> = Vec::new();
        digits.push(low);
        digits.push(high);
        proof {
            let none = Seq::<u64>::empty();
            let w0 = weight(0);
            let w1 = weight(1);
            assert(w0 == 1);
            assert(w1 == radix()) by {
                reveal_with_fuel(weight, 2);
            }
            assert(low * w0 == low) by (nonlinear_arith)
                requires
                    w0 == 1,
            ;
            assert(high * w1 == high * radix()) by (nonlinear_arith)
                requires
                    w1 == radix(),
            ;
            lemma_value_push(none, low);
            lemma_value_push(none.push(low), high);
            assert(digits@ =~= none.push(low).push(high));
            assert(small == low + high * radix()) by (nonlinear_arith)
                requires
                    low == small % 0x1_0000_0000_0000_0000,
                    high == small / 0x1_0000_0000_0000_0000,
                    radix() == 0x1_0000_0000_0000_0000,
            ;
        }
        Natural { digits }
    }

    /// The digits of the number in base two to the power 64, least
    /// significant first. The most significant ones may be zero.
    pub fn digits(&self) -> (digits: &Vec<u64>)
        ensures
            value(digits@) == self@,
    {
        &self.digits
    }

    /// The sum of `self` and `other`.
    pub fn plus(&self, other: &Natural) -> (sum: Natural)
        ensures
            sum@ == self@ + other@,
    {
        let count: usize = if self.digits.len() >= other.digits.len() {
            self.digits.len()
        } else {
            other.digits.len()
        };
        let mut digits: Vec<u64> = Vec::new();
        let mut carry: u64 = 0;
        let mut i: usize = 0;
        proof {
            assert(carry * weight(0) == 0) by (nonlinear_arith)
                requires
                    carry == 0,
            ;
        }
        while i < count
            invariant
                i <= count,
                digits@.len() == i,
                carry <= 1,
                low_part(digits@, i as nat) + carry * weight(i as nat) == low_part(
                    self.digits@,
                    i as nat,
                ) + low_part(other.digits@, i as nat),
            decreases count - i,
        {
            let x: u64 = if i < self.digits.len() {
                self.digits[i]
            } else {
                0
            };
            let y: u64 = if i < other.digits.len() {
                other.digits[i]
            } else {
                0
            };
            let total: u128 = x as u128 + y as u128 + carry as u128;
            let low: u64 = (total % 0x1_0000_0000_0000_0000) as u64;
            let high: u64 = (total / 0x1_0000_0000_0000_0000) as u64;
            proof {
                let w = weight(i as nat);
                lemma_low_part_agrees(digits@.push(low), digits@, i as nat);
                assert(digit(digits@.push(low), i as int) == low);
                assert(digit(self.digits@, i as int) == x);
                assert(digit(other.digits@, i as int) == y);
                assert(low * w + high * (radix() * w) == x * w + y * w + carry * w)
                    by (nonlinear_arith)
                    requires
                        low + high * radix() == x + y + carry,
                ;
            }
            digits.push(low);
            carry = high;
            i += 1;
        }
        proof {
            lemma_low_part_past_end(self.digits@, count as nat);
            lemma_low_part_past_end(other.digits@, count as nat);
        }
        if carry > 0 {
            proof {
                lemma_value_push(digits@, carry);
            }
            digits.push(carry);
        }
        Natural { digits }
    }

    /// The product of `self` and `factor`.
    pub fn times(&self, factor: u64) -> (product: Natural)
        ensures
            product@ == self@ * factor,
    {
        let count: usize = self.digits.len();
        let mut digits: Vec<u64> = Vec::new();
        let mut carry: u64 = 0;
        let mut i: usize = 0;
        proof {
            let none = low_part(self.digits@, 0);
            assert(none * factor == 0) by (nonlinear_arith)
                requires
                    none == 0,
            ;
            assert(carry * weight(0) == 0) by (nonlinear_arith)
                requires
                    carry == 0,
            ;
        }
        while i < count
            invariant
                i <= count,
                count == self.digits@.len(),
                digits@.len() == i,
                low_part(digits@, i as nat) + carry * weight(i as nat) == low_part(
                    self.digits@,
                    i as nat,
                ) * factor,
            decreases count - i,
        {
            let x: u64 = self.digits[i];
            assert(x * factor + carry <= 0xFFFF_FFFF_FFFF_FFFF_FFFF_FFFF_FFFF_FFFF)
                by (nonlinear_arith)
                requires
                    x <= 0xFFFF_FFFF_FFFF_FFFF,
                    factor <= 0xFFFF_FFFF_FFFF_FFFF,
                    carry <= 0xFFFF_FFFF_FFFF_FFFF,
            ;
            let total: u128 = x as u128 * factor as u128 + carry as u128;
            let low: u64 = (total % 0x1_0000_0000_0000_0000) as u64;
            let high: u64 = (total / 0x1_0000_0000_0000_0000) as u64;
            proof {
                let w = weight(i as nat);
                let below = low_part(self.digits@, i as nat);
                lemma_low_part_agrees(digits@.push(low), digits@, i as nat);
                assert(digit(digits@.push(low), i as int) == low);
                assert(digit(self.digits@, i as int) == x);
                assert(low * w + high * (radix() * w) + below * factor == (below + x * w) * factor
                    + carry * w) by (nonlinear_arith)
                    requires
                        low + high * radix() == x * factor + carry,
                ;
            }
            digits.push(low);
            carry = high;
            i += 1;
        }
        if carry > 0 {
            proof {
                lemma_value_push(digits@, carry);
            }
            digits.push(carry);
        }
        Natural { digits }
    }

    /// How `self` stands to `other`.
    pub fn relation(&self, other: &Natural) -> (relation: Relation)
        ensures
            relation == relation_of(self@, other@),
    {
        let count: usize = if self.digits.len() >= other.digits.len() {
            self.digits.len()
        } else {
            other.digits.len()
        };
        let mut i: usize = count;
        while i > 0
            invariant
                i <= count,
                count >= self.digits@.len(),
                count >= other.digits@.len(),
                forall|j: int| i <= j < count ==> digit(self.digits@, j) == digit(other.digits@, j),
            decreases i,
        {
            i -= 1;
            let x: u64 = if i < self.digits.len() {
                self.digits[i]
            } else {
                0
            };
            let y: u64 = if i < other.digits.len() {
                other.digits[i]
            } else {
                0
            };
            if x < y {
                proof {
                    lemma_low_part_past_end(self.digits@, count as nat);
                    lemma_low_part_past_end(other.digits@, count as nat);
                    lemma_decided_at(self.digits@, other.digits@, i as nat, count as nat);
                }
                return Relation::Less;
            }
            if x > y {
                proof {
                    lemma_low_part_past_end(self.digits@, count as nat);
                    lemma_low_part_past_end(other.digits@, count as nat);
                    lemma_decided_at(other.digits@, self.digits@, i as nat, count as nat);
                }
                return Relation::Greater;
            }
        }
        proof {
            lemma_low_part_past_end(self.digits@, count as nat);
            lemma_low_part_past_end(other.digits@, count as nat);
            lemma_low_part_agrees(self.digits@, other.digits@, count as nat);
        }
        Relation::Equal
    }
}

} // verus!
