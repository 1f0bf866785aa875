//! Natural numbers of any size.
//!
//! A [`Big`] is a list of base 2^32 digits, the least significant first. Its model is the
//! number that it denotes.

use vstd::prelude::*;

verus! {

/// Two to the power of `exponent`.
pub open spec fn two(exponent: nat) -> nat
    decreases exponent,
{
    if exponent == 0 {
        1
    } else {
        2 * two((exponent - 1) as nat)
    }
}

/// Ten to the power of `exponent`.
pub open spec fn ten(exponent: nat) -> nat
    decreases exponent,
{
    if exponent == 0 {
        1
    } else {
        10 * ten((exponent - 1) as nat)
    }
}

/// The weight of the digit at `index`.
pub open spec fn weight(index: nat) -> nat
    decreases index,
{
    if index == 0 {
        1
    } else {
        4294967296 * weight((index - 1) as nat)
    }
}

/// The number that a list of digits denotes.
pub open spec fn number_of(digits: Seq<u32>) -> nat
    decreases digits.len(),
{
    if digits.len() == 0 {
        0
    } else {
        number_of(digits.drop_last()) + digits.last() as nat * weight((digits.len() - 1) as nat)
    }
}

/// Powers of two multiply by adding their exponents.
pub proof fn two_adds(a: nat, b: nat)
    ensures
        two(a + b) == two(a) * two(b),
        two(a) > 0,
    decreases a,
{
    if a > 0 {
        two_adds((a - 1) as nat, b);
        assert(two(a + b) == 2 * two((a - 1 + b) as nat));
        assert(two(a) == 2 * two((a - 1) as nat));
        assert(2 * (two((a - 1) as nat) * two(b)) == two(a) * two(b)) by (nonlinear_arith)
            requires
                two(a) == 2 * two((a - 1) as nat),
        ;
    } else {
        assert(two(a) * two(b) == two(b)) by (nonlinear_arith)
            requires
                two(a) == 1,
        ;
    }
}

/// Powers of ten multiply by adding their exponents.
pub proof fn ten_adds(a: nat, b: nat)
    ensures
        ten(a + b) == ten(a) * ten(b),
        ten(a) > 0,
    decreases a,
{
    if a > 0 {
        ten_adds((a - 1) as nat, b);
        assert(ten(a + b) == 10 * ten((a - 1 + b) as nat));
        assert(ten(a) == 10 * ten((a - 1) as nat));
        assert(10 * (ten((a - 1) as nat) * ten(b)) == ten(a) * ten(b)) by (nonlinear_arith)
            requires
                ten(a) == 10 * ten((a - 1) as nat),
        ;
    } else {
        assert(ten(a) * ten(b) == ten(b)) by (nonlinear_arith)
            requires
                ten(a) == 1,
        ;
    }
}

/// Powers of two grow with their exponents.
pub proof fn two_grows(a: nat, b: nat)
    requires
        a <= b,
    ensures
        two(a) <= two(b),
    decreases b,
{
    if a < b {
        two_grows(a, (b - 1) as nat);
    }
}

/// Powers of ten grow with their exponents.
pub proof fn ten_grows(a: nat, b: nat)
    requires
        a <= b,
    ensures
        ten(a) <= ten(b),
    decreases b,
{
    if a < b {
        ten_grows(a, (b - 1) as nat);
    }
}

/// A power of ten is at least the power of two with three times its exponent.
pub proof fn ten_above_two(a: nat)
    ensures
        ten(a) >= two(3 * a),
    decreases a,
{
    if a > 0 {
        ten_above_two((a - 1) as nat);
        assert(two(3 * a) == 2 * two((3 * a - 1) as nat));
        assert(two((3 * a - 1) as nat) == 2 * two((3 * a - 2) as nat));
        assert(two((3 * a - 2) as nat) == 2 * two((3 * a - 3) as nat));
    }
}

proof fn number_of_bound(digits: Seq<u32>)
    ensures
        number_of(digits) < weight(digits.len()),
    decreases digits.len(),
{
    if digits.len() > 0 {
        number_of_bound(digits.drop_last());
        let last = digits.last() as nat;
        let w = weight((digits.len() - 1) as nat);
        assert(weight(digits.len()) == 4294967296 * w);
        assert((last + 1) * w <= 4294967296 * w) by (nonlinear_arith)
            requires
                last + 1 <= 4294967296,
        ;
        assert((last + 1) * w == last * w + w) by (nonlinear_arith);
    }
}

proof fn number_of_push(digits: Seq<u32>, digit: u32)
    ensures
        number_of(digits.push(digit)) == number_of(digits) + digit as nat * weight(digits.len()),
{
    assert(digits.push(digit).drop_last() =~= digits);
}

proof fn number_of_take(digits: Seq<u32>, upto: int)
    requires
        0 <= upto < digits.len(),
    ensures
        number_of(digits.take(upto + 1)) == number_of(digits.take(upto)) + digits[upto] as nat
            * weight(upto as nat),
{
    assert(digits.take(upto + 1).drop_last() =~= digits.take(upto));
}

proof fn number_of_prefix(digits: Seq<u32>, upto: int)
    requires
        0 <= upto <= digits.len(),
    ensures
        number_of(digits.take(upto)) <= number_of(digits),
    decreases digits.len() - upto,
{
    if upto < digits.len() {
        number_of_take(digits, upto);
        number_of_prefix(digits, upto + 1);
        assert(digits[upto] as nat * weight(upto as nat) >= 0) by (nonlinear_arith);
    } else {
        assert(digits.take(upto) =~= digits);
    }
}

/// A natural number of any size.
#[derive(Debug)]
pub struct Big {
    digits: Vec<u32>,
}

impl View for Big {
    type V = nat;

    closed spec fn view(&self) -> nat {
        number_of(self.digits@)
    }
}

/// How two numbers compare.
#[derive(Clone, Copy, Debug, PartialEq, Eq, Structural)]
pub enum Relation {
    /// The first is smaller.
    Below,
    /// They are equal.
    Same,
    /// The first is larger.
    Above,
}

impl Big {
    /// The number `value`.
    pub fn from_u64(value: u64) -> (made: Self)
        ensures
            made@ == value,
    {
        let low: u32 = (value % 4294967296) as u32;
        let high: u32 = (value / 4294967296) as u32;
        let mut digits: Vec<u32> = Vec::new();
        digits.push(low);
        digits.push(high);
        proof {
            let none = Seq::<u32>::empty();
            number_of_push(none, low);
            number_of_push(none.push(low), high);
            assert(digits@ =~= none.push(low).push(high));
            assert(weight(0) == 1);
            assert(weight(1) == 4294967296 * weight(0));
            assert(low as nat * weight(0) + high as nat * weight(1) == value) by (nonlinear_arith)
                requires
                    weight(0) == 1,
                    weight(1) == 4294967296,
                    value == low + high * 4294967296,
            ;
        }
        Big { digits }
    }

    /// The same number again.
    pub fn copy(&self) -> (made: Self)
        ensures
            made@ == self@,
    {
        let mut digits: Vec<u32> = Vec::new();
        let mut at: usize = 0;
        while at < self.digits.len()
            invariant
                at <= self.digits@.len(),
                digits@ == self.digits@.take(at as int),
            decreases self.digits@.len() - at,
        {
            digits.push(self.digits[at]);
            at = at + 1;
            assert(digits@ =~= self.digits@.take(at as int));
        }
        assert(digits@ =~= self.digits@);
        Big { digits }
    }

    /// This number times `factor`.
    pub fn times(&self, factor: u64) -> (product: Self)
        ensures
            product@ == self@ * factor,
    {
        let mut digits: Vec<u32> = Vec::new();
        let mut carry: u64 = 0;
        let mut at: usize = 0;
        assert(number_of(self.digits@.take(0)) == 0);
        assert(0 * factor == 0) by (nonlinear_arith);
        assert(0 * weight(0) == 0) by (nonlinear_arith);
        while at < self.digits.len()
            invariant
                at <= self.digits@.len(),
                digits@.len() == at,
                number_of(self.digits@.take(at as int)) * factor == number_of(digits@) + carry
                    * weight(at as nat),
            decreases self.digits@.len() - at,
        {
            let digit: u32 = self.digits[at];
            assert(digit as u128 * factor as u128 <= 4294967295 * 18446744073709551615)
                by (nonlinear_arith)
                requires
                    digit <= 4294967295,
                    factor <= 18446744073709551615,
            ;
            let total: u128 = digit as u128 * factor as u128 + carry as u128;
            let low: u32 = (total % 4294967296) as u32;
            let high: u64 = (total / 4294967296) as u64;
            proof {
                let before = number_of(self.digits@.take(at as int));
                let w = weight(at as nat);
                number_of_take(self.digits@, at as int);
                number_of_push(digits@, low);
                assert(weight((at + 1) as nat) == 4294967296 * w);
                assert((before + digit as nat * w) * factor == before * factor + (digit as nat
                    * factor) * w) by (nonlinear_arith);
                assert(carry * w + (digit as nat * factor) * w == total as nat * w)
                    by (nonlinear_arith)
                    requires
                        total == digit * factor + carry,
                ;
                assert(total as nat * w == low as nat * w + high * (4294967296 * w))
                    by (nonlinear_arith)
                    requires
                        total == low + high * 4294967296,
                ;
            }
            digits.push(low);
            carry = high;
            at = at + 1;
        }
        assert(self.digits@.take(at as int) =~= self.digits@);
        let low: u32 = (carry % 4294967296) as u32;
        let high: u32 = (carry / 4294967296) as u32;
        proof {
            let w = weight(at as nat);
            number_of_push(digits@, low);
            number_of_push(digits@.push(low), high);
            assert(weight((at + 1) as nat) == 4294967296 * w);
            assert(carry * w == low as nat * w + high as nat * (4294967296 * w))
                by (nonlinear_arith)
                requires
                    carry == low + high * 4294967296,
            ;
        }
        digits.push(low);
        digits.push(high);
        Big { digits }
    }

    fn digit(&self, at: usize) -> (digit: u32)
        ensures
            digit == (if at < self.digits@.len() {
                self.digits@[at as int]
            } else {
                0
            }),
    {
        if at < self.digits.len() {
            self.digits[at]
        } else {
            0
        }
    }

    spec fn low(&self, upto: int) -> nat {
        if upto <= self.digits@.len() {
            number_of(self.digits@.take(upto))
        } else {
            self@
        }
    }

    spec fn digit_at(&self, at: int) -> u32 {
        if at < self.digits@.len() {
            self.digits@[at]
        } else {
            0
        }
    }

    proof fn low_step(&self, at: int)
        requires
            0 <= at,
        ensures
            self.low(at + 1) == self.low(at) + self.digit_at(at) as nat * weight(at as nat),
            self.low(at) < weight(at as nat),
            self.low(0) == 0,
            at >= self.digits@.len() ==> self.low(at) == self@,
    {
        if at < self.digits@.len() {
            number_of_take(self.digits@, at);
            number_of_bound(self.digits@.take(at));
        } else {
            assert(self.digits@.take(self.digits@.len() as int) =~= self.digits@);
            assert(0 * weight(at as nat) == 0) by (nonlinear_arith);
            number_of_bound(self.digits@);
            weight_grows(self.digits@.len(), at as nat);
        }
    }

    /// The sum of two numbers.
    pub fn plus(&self, other: &Big) -> (sum: Self)
        ensures
            sum@ == self@ + other@,
    {
        let count: usize = if self.digits.len() < other.digits.len() {
            other.digits.len()
        } else {
            self.digits.len()
        };
        let mut digits: Vec<u32> = Vec::new();
        let mut carry: u32 = 0;
        let mut at: usize = 0;
        proof {
            self.low_step(0);
            other.low_step(0);
            assert(0 * weight(0) == 0) by (nonlinear_arith);
        }
        while at < count
            invariant
                at <= count,
                carry <= 1,
                digits@.len() == at,
                self.low(at as int) + other.low(at as int) == number_of(digits@) + carry as nat
                    * weight(at as nat),
            decreases count - at,
        {
            let a: u32 = self.digit(at);
            let b: u32 = other.digit(at);
            let total: u64 = a as u64 + b as u64 + carry as u64;
            let low: u32 = (total % 4294967296) as u32;
            let high: u32 = (total / 4294967296) as u32;
            proof {
                let w = weight(at as nat);
                self.low_step(at as int);
                other.low_step(at as int);
                number_of_push(digits@, low);
                assert(weight((at + 1) as nat) == 4294967296 * w);
                assert(a as nat * w + b as nat * w + carry as nat * w == low as nat * w
                    + high as nat * (4294967296 * w)) by (nonlinear_arith)
                    requires
                        a + b + carry == low + high * 4294967296,
                ;
            }
            digits.push(low);
            carry = high;
            at = at + 1;
        }
        proof {
            self.low_step(count as int);
            other.low_step(count as int);
            number_of_push(digits@, carry);
        }
        digits.push(carry);
        Big { digits }
    }

    /// How this number compares to another.
    pub fn relation(&self, other: &Big) -> (relation: Relation)
        ensures
            match relation {
                Relation::Below => self@ < other@,
                Relation::Same => self@ == other@,
                Relation::Above => self@ > other@,
            },
    {
        let mut at: usize = if self.digits.len() < other.digits.len() {
            other.digits.len()
        } else {
            self.digits.len()
        };
        proof {
            self.low_step(at as int);
            other.low_step(at as int);
        }
        while at > 0
            invariant
                self@ - self.low(at as int) == other@ - other.low(at as int),
            decreases at,
        {
            let a: u32 = self.digit(at - 1);
            let b: u32 = other.digit(at - 1);
            proof {
                let w = weight((at - 1) as nat);
                self.low_step(at - 1);
                other.low_step(at - 1);
                if a < b {
                    assert((a as nat + 1) * w <= b as nat * w) by (nonlinear_arith)
                        requires
                            a + 1 <= b,
                    ;
                    assert((a as nat + 1) * w == a as nat * w + w) by (nonlinear_arith);
                }
                if b < a {
                    assert((b as nat + 1) * w <= a as nat * w) by (nonlinear_arith)
                        requires
                            b + 1 <= a,
                    ;
                    assert((b as nat + 1) * w == b as nat * w + w) by (nonlinear_arith);
                }
            }
            if a < b {
                return Relation::Below;
            }
            if b < a {
                return Relation::Above;
            }
            at = at - 1;
        }
        proof {
            self.low_step(0);
            other.low_step(0);
        }
        Relation::Same
    }

    /// The difference of two numbers, the larger first.
    pub fn minus(&self, other: &Big) -> (difference: Self)
        requires
            self@ >= other@,
        ensures
            difference@ == self@ - other@,
    {
        let count: usize = if self.digits.len() < other.digits.len() {
            other.digits.len()
        } else {
            self.digits.len()
        };
        let mut digits: Vec<u32> = Vec::new();
        let mut borrow: u32 = 0;
        let mut at: usize = 0;
        proof {
            self.low_step(0);
            other.low_step(0);
            assert(0 * weight(0) == 0) by (nonlinear_arith);
        }
        while at < count
            invariant
                at <= count,
                borrow <= 1,
                digits@.len() == at,
                self.low(at as int) + borrow as nat * weight(at as nat) == number_of(digits@)
                    + other.low(at as int),
            decreases count - at,
        {
            let a: u32 = self.digit(at);
            let b: u32 = other.digit(at);
            let total: u64 = a as u64 + 4294967296 - b as u64 - borrow as u64;
            let low: u32 = (total % 4294967296) as u32;
            let next: u32 = if total < 4294967296 {
                1
            } else {
                0
            };
            proof {
                let w = weight(at as nat);
                self.low_step(at as int);
                other.low_step(at as int);
                number_of_push(digits@, low);
                assert(weight((at + 1) as nat) == 4294967296 * w);
                assert(low + b + borrow == a + next * 4294967296);
                assert(low as nat * w + b as nat * w + borrow as nat * w == a as nat * w
                    + next as nat * (4294967296 * w)) by (nonlinear_arith)
                    requires
                        low + b + borrow == a + next * 4294967296,
                ;
            }
            digits.push(low);
            borrow = next;
            at = at + 1;
        }
        proof {
            self.low_step(count as int);
            other.low_step(count as int);
            number_of_bound(digits@);
            let w = weight(count as nat);
            if borrow == 1 {
                assert(1 * w == w) by (nonlinear_arith);
                assert(false);
            }
            assert(0 * w == 0) by (nonlinear_arith);
        }
        Big { digits }
    }

    /// The number `value`.
    pub fn from_u128(value: u128) -> (made: Self)
        ensures
            made@ == value,
    {
        let low: u64 = (value % 18446744073709551616) as u64;
        let high: u64 = (value / 18446744073709551616) as u64;
        let upper = Big::from_u64(high).times(4294967296).times(4294967296);
        proof {
            assert(high * 4294967296 * 4294967296 == high * 18446744073709551616)
                by (nonlinear_arith);
        }
        upper.plus(&Big::from_u64(low))
    }

    /// The quotient and the remainder of a division by a small number.
    pub fn divide(&self, by: u32) -> (parts: (Big, u32))
        requires
            by > 0,
        ensures
            self@ == parts.0@ * by + parts.1,
            parts.1 < by,
    {
        let count: usize = self.digits.len();
        let mut quotient: Vec<u32> = Vec::new();
        let mut zero: usize = 0;
        while zero < count
            invariant
                zero <= count,
                quotient@.len() == zero,
            decreases count - zero,
        {
            quotient.push(0);
            zero = zero + 1;
        }
        let mut rest: u32 = 0;
        let mut at: usize = count;
        proof {
            self.low_step(count as int);
            high_empty(quotient@, count as int);
            assert(0 * by == 0) by (nonlinear_arith);
            assert(0 * weight(count as nat) == 0) by (nonlinear_arith);
        }
        while at > 0
            invariant
                at <= count,
                count == self.digits@.len(),
                quotient@.len() == count,
                rest < by,
                self@ - self.low(at as int) == number_high(quotient@, at as int) * by + rest as nat
                    * weight(at as nat),
            decreases at,
        {
            let digit: u32 = self.digits[at - 1];
            let total: u64 = rest as u64 * 4294967296 + digit as u64;
            proof {
                assert(total / by as u64 <= 4294967295) by (nonlinear_arith)
                    requires
                        total == rest * 4294967296 + digit,
                        rest + 1 <= by,
                        digit <= 4294967295,
                        by > 0,
                ;
            }
            let part: u32 = (total / by as u64) as u32;
            let left: u32 = (total % by as u64) as u32;
            let ghost before = quotient@;
            quotient.set(at - 1, part);
            proof {
                let w = weight((at - 1) as nat);
                self.low_step(at - 1);
                high_set(before, at - 1, part);
                assert(weight(at as nat) == 4294967296 * w);
                assert(total == part * by + left) by (nonlinear_arith)
                    requires
                        part == total / by as u64,
                        left == total % by as u64,
                        by > 0,
                ;
                let q = number_high(before, at as int);
                assert((q + part as nat * w) * by == q * by + (part * by) * w)
                    by (nonlinear_arith);
                assert(rest as nat * (4294967296 * w) + digit as nat * w == (part * by) * w
                    + left as nat * w) by (nonlinear_arith)
                    requires
                        rest * 4294967296 + digit == part * by + left,
                ;
            }
            rest = left;
            at = at - 1;
        }
        proof {
            self.low_step(0);
            high_whole(quotient@);
            assert(rest as nat * weight(0) == rest) by (nonlinear_arith)
                requires
                    weight(0) == 1,
            ;
        }
        (Big { digits: quotient }, rest)
    }

    /// This number as a `u64`, where it is below ten.
    pub fn small(&self) -> (value: Option<u64>)
        ensures
            match value {
                Some(number) => number == self@ && self@ < 10,
                None => self@ >= 10,
            },
    {
        let mut value: u64 = 0;
        while value < 10
            invariant
                value <= 10,
                self@ >= value,
            decreases 10 - value,
        {
            match self.relation(&Big::from_u64(value)) {
                Relation::Same => {
                    return Some(value);
                }
                _ => {}
            }
            value = value + 1;
        }
        None
    }

    /// This number times two to the power of `exponent`.
    pub fn times_two(&self, exponent: u32) -> (product: Self)
        ensures
            product@ == self@ * two(exponent as nat),
    {
        let mut product = self.copy();
        let mut done: u32 = 0;
        assert(self@ * 1 == self@) by (nonlinear_arith);
        while done < exponent
            invariant
                done <= exponent,
                product@ == self@ * two(done as nat),
            decreases exponent - done,
        {
            if exponent - done >= 32 {
                proof {
                    two_adds(done as nat, 32);
                    two_thirty_two();
                    let p = two(done as nat);
                    assert((self@ * p) * 4294967296 == self@ * (p * 4294967296))
                        by (nonlinear_arith);
                }
                product = product.times(4294967296);
                done = done + 32;
            } else {
                proof {
                    let p = two(done as nat);
                    assert(two((done + 1) as nat) == 2 * p);
                    assert((self@ * p) * 2 == self@ * (2 * p)) by (nonlinear_arith);
                }
                product = product.times(2);
                done = done + 1;
            }
        }
        product
    }

    /// This number times ten to the power of `exponent`.
    pub fn times_ten(&self, exponent: u32) -> (product: Self)
        ensures
            product@ == self@ * ten(exponent as nat),
    {
        let mut product = self.copy();
        let mut done: u32 = 0;
        assert(self@ * 1 == self@) by (nonlinear_arith);
        while done < exponent
            invariant
                done <= exponent,
                product@ == self@ * ten(done as nat),
            decreases exponent - done,
        {
            proof {
                let p = ten(done as nat);
                assert(ten((done + 1) as nat) == 10 * p);
                assert((self@ * p) * 10 == self@ * (10 * p)) by (nonlinear_arith);
            }
            product = product.times(10);
            done = done + 1;
        }
        product
    }
}

/// What the digits from `from` on denote.
spec fn number_high(digits: Seq<u32>, from: int) -> nat
    decreases digits.len() - from,
{
    if from >= digits.len() {
        0
    } else {
        digits[from] as nat * weight(from as nat) + number_high(digits, from + 1)
    }
}

proof fn high_empty(digits: Seq<u32>, from: int)
    requires
        from >= digits.len(),
    ensures
        number_high(digits, from) == 0,
{
}

proof fn high_agrees(left: Seq<u32>, right: Seq<u32>, from: int)
    requires
        left.len() == right.len(),
        forall|i: int| from <= i < left.len() ==> left[i] == right[i],
    ensures
        number_high(left, from) == number_high(right, from),
    decreases left.len() - from,
{
    if from < left.len() {
        high_agrees(left, right, from + 1);
    }
}

proof fn high_set(digits: Seq<u32>, at: int, digit: u32)
    requires
        0 <= at < digits.len(),
    ensures
        number_high(digits.update(at, digit), at) == number_high(digits, at + 1) + digit as nat
            * weight(at as nat),
{
    high_agrees(digits.update(at, digit), digits, at + 1);
}

proof fn high_low(digits: Seq<u32>, upto: int)
    requires
        0 <= upto <= digits.len(),
    ensures
        number_of(digits) == number_of(digits.take(upto)) + number_high(digits, upto),
    decreases digits.len() - upto,
{
    if upto < digits.len() {
        number_of_take(digits, upto);
        high_low(digits, upto + 1);
    } else {
        assert(digits.take(upto) =~= digits);
    }
}

proof fn high_whole(digits: Seq<u32>)
    ensures
        number_of(digits) == number_high(digits, 0),
{
    high_low(digits, 0);
}

proof fn two_thirty_two()
    ensures
        two(32) == 4294967296,
{
    assert(two(8) == 256) by {
        reveal_with_fuel(two, 9);
    }
    two_adds(8, 8);
    two_adds(16, 16);
    assert(256 * 256 == 65536nat && 65536 * 65536 == 4294967296nat);
}

proof fn weight_grows(a: nat, b: nat)
    requires
        a <= b,
    ensures
        weight(a) <= weight(b),
    decreases b,
{
    if a < b {
        weight_grows(a, (b - 1) as nat);
    }
}

} // verus!
