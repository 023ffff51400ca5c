//! Arbitrary-size natural numbers, stored as base-2^32 digits, least significant first.
use vstd::prelude::*;
use vstd::arithmetic::power::*;
use vstd::arithmetic::mul::*;

verus! {

pub open spec fn radix() -> nat {
    0x1_0000_0000
}

/// The number that a digit sequence stands for.
pub open spec fn value(s: Seq<u32>) -> nat
    decreases s.len(),
{
    if s.len() == 0 {
        0
    } else {
        value(s.drop_last()) + s.last() as nat * pow(radix() as int, (s.len() - 1) as nat) as nat
    }
}

/// The digit at position `i`, zero past the end.
pub open spec fn digit(s: Seq<u32>, i: int) -> nat {
    if 0 <= i < s.len() { s[i] as nat } else { 0 }
}

/// The value of the lowest `i` digits.
pub open spec fn low_value(s: Seq<u32>, i: nat) -> nat {
    if i <= s.len() { value(s.subrange(0, i as int)) } else { value(s) }
}

pub proof fn lemma_pow_step(i: nat)
    ensures
        pow(radix() as int, i + 1) == radix() * pow(radix() as int, i),
        pow(radix() as int, i) >= 1,
{
    reveal(pow);
    lemma_pow_positive(radix() as int, i);
}

pub proof fn lemma_value_push(s: Seq<u32>, x: u32)
    ensures
        value(s.push(x)) == value(s) + x as nat * pow(radix() as int, s.len()),
{
    lemma_pow_positive(radix() as int, s.len());
    assert(s.push(x).drop_last() =~= s);
    assert(s.push(x).last() == x);
    assert(s.push(x).len() - 1 == s.len());
}

pub proof fn lemma_low_value_step(s: Seq<u32>, i: nat)
    ensures
        low_value(s, i + 1) == low_value(s, i) + digit(s, i as int) * pow(radix() as int, i),
{
    if i < s.len() {
        let t = s.subrange(0, (i + 1) as int);
        assert(t =~= s.subrange(0, i as int).push(s[i as int]));
        lemma_value_push(s.subrange(0, i as int), s[i as int]);
    } else if i == s.len() {
        assert(s.subrange(0, i as int) =~= s);
    }
}

pub proof fn lemma_low_value_zero(s: Seq<u32>)
    ensures
        low_value(s, 0) == 0,
{
    assert(s.subrange(0, 0) =~= Seq::<u32>::empty());
}

pub proof fn lemma_low_value_full(s: Seq<u32>)
    ensures
        low_value(s, s.len()) == value(s),
{
    assert(s.subrange(0, s.len() as int) =~= s);
}

pub proof fn lemma_value_bound(s: Seq<u32>)
    ensures
        value(s) < pow(radix() as int, s.len()),
    decreases s.len(),
{
    reveal(pow);
    if s.len() > 0 {
        let p = pow(radix() as int, (s.len() - 1) as nat);
        lemma_value_bound(s.drop_last());
        lemma_pow_step((s.len() - 1) as nat);
        let v = value(s.drop_last());
        let d = s.last() as int;
        assert(v + d * p < radix() * p) by (nonlinear_arith)
            requires v < p, 0 <= d < radix(), p >= 1;
    }
}

pub proof fn lemma_value_shift(s: Seq<u32>)
    ensures
        value(seq![0u32] + s) == radix() * value(s),
    decreases s.len(),
{
    let t = seq![0u32] + s;
    if s.len() == 0 {
        assert(t =~= Seq::<u32>::empty().push(0u32));
        lemma_value_push(Seq::<u32>::empty(), 0u32);
    } else {
        assert(t =~= (seq![0u32] + s.drop_last()).push(s.last()));
        lemma_value_push(seq![0u32] + s.drop_last(), s.last());
        assert(s =~= s.drop_last().push(s.last()));
        lemma_value_push(s.drop_last(), s.last());
        lemma_value_shift(s.drop_last());
        lemma_pow_step((s.len() - 1) as nat);
        let p = pow(radix() as int, (s.len() - 1) as nat);
        let v = value(s.drop_last());
        let d = s.last() as int;
        assert(radix() * v + d * (radix() * p) == radix() * (v + d * p)) by (nonlinear_arith);
    }
}

/// A natural number of any size.
pub struct Natural {
    pub digits: Vec<u32>,
}

impl Natural {
    pub open spec fn view(&self) -> nat {
        value(self.digits@)
    }

    pub fn zero() -> (r: Natural)
        ensures
            r@ == 0,
    {
        Natural { digits: Vec::new() }
    }

    pub fn from_u128(x: u128) -> (r: Natural)
        ensures
            r@ == x,
    {
        let mut digits: Vec<u32> = Vec::new();
        let mut rest: u128 = x;
        proof {
            lemma_pow0(radix() as int);
        }
        while rest > 0
            invariant
                value(digits@) + rest * pow(radix() as int, digits@.len() as nat) == x,
            decreases rest,
        {
            let ghost p = pow(radix() as int, digits@.len() as nat);
            let ghost old_digits = digits@;
            let d: u32 = (rest % 0x1_0000_0000) as u32;
            let next: u128 = rest / 0x1_0000_0000;
            digits.push(d);
            proof {
                lemma_value_push(old_digits, d);
                lemma_pow_step(old_digits.len() as nat);
                let r = rest as int;
                assert(r == d as int + radix() * next as int);
                assert(d as int * p + next as int * (radix() * p) == r * p) by (nonlinear_arith)
                    requires r == d as int + radix() * next as int;
            }
            rest = next;
        }
        Natural { digits }
    }

    /// The product of this number and one digit.
    pub fn mul_digit(&self, d: u32) -> (r: Natural)
        ensures
            r@ == self@ * d,
    {
        let n = self.digits.len();
        let mut digits: Vec<u32> = Vec::new();
        let mut carry: u64 = 0;
        let mut i: usize = 0;
        proof {
            lemma_pow0(radix() as int);
            lemma_low_value_zero(self.digits@);
        }
        while i < n
            invariant
                n == self.digits@.len(),
                i <= n,
                digits@.len() == i,
                carry < radix(),
                value(digits@) + carry * pow(radix() as int, i as nat)
                    == low_value(self.digits@, i as nat) * d,
            decreases n - i,
        {
            let ghost p = pow(radix() as int, i as nat);
            let ghost old_digits = digits@;
            let a: u64 = self.digits[i] as u64;
            assert(a * (d as u64) + carry <= 0xffff_ffff_ffff_ffff) by (nonlinear_arith)
                requires a < radix(), d < radix(), carry < radix();
            let prod: u64 = a * (d as u64) + carry;
            let lo: u32 = (prod % 0x1_0000_0000) as u32;
            carry = prod / 0x1_0000_0000;
            digits.push(lo);
            proof {
                lemma_value_push(old_digits, lo);
                lemma_pow_step(i as nat);
                lemma_low_value_step(self.digits@, i as nat);
                let lv = low_value(self.digits@, i as nat) as int;
                let v = value(old_digits) as int;
                let c0 = prod as int - a as int * d as int;
                assert(v + c0 * p == lv * d);
                assert(prod as int == lo as int + radix() * carry as int);
                assert(v + lo as int * p + carry as int * (radix() * p)
                    == (lv + a as int * p) * d) by (nonlinear_arith)
                    requires
                        v + c0 * p == lv * d,
                        prod as int == lo as int + radix() * carry as int,
                        c0 == prod as int - a as int * d as int;
            }
            i = i + 1;
        }
        let ghost old_digits = digits@;
        digits.push(carry as u32);
        proof {
            lemma_value_push(old_digits, carry as u32);
            lemma_low_value_full(self.digits@);
        }
        Natural { digits }
    }

    /// This number times the radix.
    pub fn shifted(&self) -> (r: Natural)
        ensures
            r@ == radix() * self@,
    {
        let mut digits: Vec<u32> = Vec::new();
        digits.push(0);
        let n = self.digits.len();
        let mut i: usize = 0;
        while i < n
            invariant
                n == self.digits@.len(),
                i <= n,
                digits@ =~= seq![0u32] + self.digits@.subrange(0, i as int),
            decreases n - i,
        {
            digits.push(self.digits[i]);
            i = i + 1;
            assert(digits@ =~= seq![0u32] + self.digits@.subrange(0, i as int));
        }
        proof {
            assert(self.digits@.subrange(0, n as int) =~= self.digits@);
            lemma_value_shift(self.digits@);
        }
        Natural { digits }
    }

    /// The sum of two numbers.
    pub fn add(&self, other: &Natural) -> (r: Natural)
        ensures
            r@ == self@ + other@,
    {
        let a = &self.digits;
        let b = &other.digits;
        let n: usize = if a.len() > b.len() { a.len() } else { b.len() };
        let mut digits: Vec<u32> = Vec::new();
        let mut carry: u64 = 0;
        let mut i: usize = 0;
        proof {
            lemma_pow0(radix() as int);
            lemma_low_value_zero(a@);
            lemma_low_value_zero(b@);
        }
        while i < n
            invariant
                n == if a@.len() > b@.len() { a@.len() } else { b@.len() },
                i <= n,
                digits@.len() == i,
                carry <= 1,
                value(digits@) + carry * pow(radix() as int, i as nat)
                    == low_value(a@, i as nat) + low_value(b@, i as nat),
            decreases n - i,
        {
            let ghost p = pow(radix() as int, i as nat);
            let ghost old_digits = digits@;
            let x: u64 = if i < a.len() { a[i] as u64 } else { 0 };
            let y: u64 = if i < b.len() { b[i] as u64 } else { 0 };
            let s: u64 = x + y + carry;
            let lo: u32 = (s % 0x1_0000_0000) as u32;
            let ghost c0 = carry as int;
            carry = s / 0x1_0000_0000;
            digits.push(lo);
            proof {
                lemma_value_push(old_digits, lo);
                lemma_pow_step(i as nat);
                lemma_low_value_step(a@, i as nat);
                lemma_low_value_step(b@, i as nat);
                assert(x == digit(a@, i as int));
                assert(y == digit(b@, i as int));
                let v = value(old_digits) as int;
                assert(v + c0 * p == low_value(a@, i as nat) + low_value(b@, i as nat));
                assert(s as int == lo as int + radix() * carry as int);
                assert(v + lo as int * p + carry as int * (radix() * p)
                    == v + c0 * p + x as int * p + y as int * p) by (nonlinear_arith)
                    requires
                        s as int == lo as int + radix() * carry as int,
                        s as int == x as int + y as int + c0;
            }
            i = i + 1;
        }
        let ghost old_digits = digits@;
        digits.push(carry as u32);
        proof {
            lemma_value_push(old_digits, carry as u32);
            lemma_low_value_full(a@);
            lemma_low_value_full(b@);
        }
        Natural { digits }
    }

    /// The product of two numbers.
    pub fn mul(&self, other: &Natural) -> (r: Natural)
        ensures
            r@ == self@ * other@,
    {
        let b = &other.digits;
        let n = b.len();
        let mut acc = Natural::zero();
        let mut term = Natural { digits: self.digits.clone() };
        assert(term.digits@ =~= self.digits@);
        proof {
            lemma_pow0(radix() as int);
            assert(b@.subrange(0, 0) =~= Seq::<u32>::empty());
            assert(low_value(b@, 0) == 0);
            assert(acc@ == self@ * low_value(b@, 0));
        }
        let mut j: usize = 0;
        while j < n
            invariant
                n == b@.len(),
                j <= n,
                term@ == self@ * pow(radix() as int, j as nat),
                acc@ == self@ * low_value(b@, j as nat),
            decreases n - j,
        {
            let part = term.mul_digit(b[j]);
            acc = acc.add(&part);
            proof {
                lemma_low_value_step(b@, j as nat);
                lemma_pow_step(j as nat);
                let p = pow(radix() as int, j as nat);
                let lv = low_value(b@, j as nat) as int;
                let dj = b@[j as int] as int;
                assert(self@ * lv + self@ * p * dj == self@ * (lv + dj * p)) by (nonlinear_arith);
                assert(radix() * (self@ * p) == self@ * (radix() * p)) by (nonlinear_arith);
            }
            term = term.shifted();
            j = j + 1;
        }
        proof {
            lemma_low_value_full(b@);
        }
        acc
    }

    /// Whether this number is at least the other.
    pub fn ge(&self, other: &Natural) -> (r: bool)
        ensures
            r == (self@ >= other@),
    {
        let a = &self.digits;
        let b = &other.digits;
        let n: usize = if a.len() > b.len() { a.len() } else { b.len() };
        let mut borrow: u64 = 0;
        let ghost mut diff: Seq<u32> = Seq::empty();
        let mut i: usize = 0;
        while i < n
            invariant
                n == if a@.len() > b@.len() { a@.len() } else { b@.len() },
                i <= n,
                diff.len() == i,
                borrow <= 1,
                low_value(a@, i as nat) + borrow * pow(radix() as int, i as nat)
                    == low_value(b@, i as nat) + value(diff),
            decreases n - i,
        {
            let ghost p = pow(radix() as int, i as nat);
            let ghost old_diff = diff;
            let x: u64 = if i < a.len() { a[i] as u64 } else { 0 };
            let y: u64 = if i < b.len() { b[i] as u64 } else { 0 };
            let ghost b0 = borrow as int;
            let lo: u64;
            if x >= y + borrow {
                lo = x - y - borrow;
                borrow = 0;
            } else {
                lo = x + 0x1_0000_0000 - y - borrow;
                borrow = 1;
            }
            proof {
                diff = diff.push(lo as u32);
                lemma_value_push(old_diff, lo as u32);
                lemma_pow_step(i as nat);
                lemma_low_value_step(a@, i as nat);
                lemma_low_value_step(b@, i as nat);
                assert(x == digit(a@, i as int));
                assert(y == digit(b@, i as int));
                assert(x as int + borrow as int * radix() == y as int + b0 + lo as int);
                assert((x as int) * p + borrow as int * (radix() * p)
                    == (y as int) * p + b0 * p + lo as int * p) by (nonlinear_arith)
                    requires x as int + borrow as int * radix() == y as int + b0 + lo as int;
            }
            i = i + 1;
        }
        proof {
            lemma_low_value_full(a@);
            lemma_low_value_full(b@);
            lemma_value_bound(diff);
        }
        borrow == 0
    }

    /// The difference of two numbers, the first being at least the second.
    pub fn sub(&self, other: &Natural) -> (r: Natural)
        requires
            self@ >= other@,
        ensures
            r@ == self@ - other@,
    {
        let a = &self.digits;
        let b = &other.digits;
        let n: usize = if a.len() > b.len() { a.len() } else { b.len() };
        let mut borrow: u64 = 0;
        let mut digits: Vec<u32> = Vec::new();
        let mut i: usize = 0;
        proof {
            lemma_pow0(radix() as int);
            lemma_low_value_zero(a@);
            lemma_low_value_zero(b@);
        }
        while i < n
            invariant
                n == if a@.len() > b@.len() { a@.len() } else { b@.len() },
                i <= n,
                digits@.len() == i,
                borrow <= 1,
                low_value(a@, i as nat) + borrow * pow(radix() as int, i as nat)
                    == low_value(b@, i as nat) + value(digits@),
            decreases n - i,
        {
            let ghost p = pow(radix() as int, i as nat);
            let ghost old_digits = digits@;
            let x: u64 = if i < a.len() { a[i] as u64 } else { 0 };
            let y: u64 = if i < b.len() { b[i] as u64 } else { 0 };
            let ghost b0 = borrow as int;
            let lo: u64;
            if x >= y + borrow {
                lo = x - y - borrow;
                borrow = 0;
            } else {
                lo = x + 0x1_0000_0000 - y - borrow;
                borrow = 1;
            }
            digits.push(lo as u32);
            proof {
                lemma_value_push(old_digits, lo as u32);
                lemma_pow_step(i as nat);
                lemma_low_value_step(a@, i as nat);
                lemma_low_value_step(b@, i as nat);
                assert(x == digit(a@, i as int));
                assert(y == digit(b@, i as int));
                assert(x as int + borrow as int * radix() == y as int + b0 + lo as int);
                assert((x as int) * p + borrow as int * (radix() * p)
                    == (y as int) * p + b0 * p + lo as int * p) by (nonlinear_arith)
                    requires x as int + borrow as int * radix() == y as int + b0 + lo as int;
            }
            i = i + 1;
        }
        proof {
            lemma_low_value_full(a@);
            lemma_low_value_full(b@);
            lemma_value_bound(digits@);
        }
        Natural { digits }
    }
}

} // verus!
