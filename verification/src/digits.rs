//! Natural numbers of any size, as decimal digits.
use vstd::prelude::*;

verus! {

/// Digit `i` of a number whose digits stand lowest first.
pub open spec fn digit_at(s: Seq<u8>, i: nat) -> nat {
    if i < s.len() {
        s[i as int] as nat
    } else {
        0
    }
}

/// The number that the `n` lowest digits make.
pub open spec fn low_value(s: Seq<u8>, n: nat) -> nat
    decreases n,
{
    if n == 0 {
        0
    } else {
        low_value(s, (n - 1) as nat) + digit_at(s, (n - 1) as nat) * ten_to((n - 1) as nat)
    }
}

/// A power of ten.
pub open spec fn ten_to(n: nat) -> nat
    decreases n,
{
    if n == 0 {
        1
    } else {
        10 * ten_to((n - 1) as nat)
    }
}

/// A natural number, its decimal digits lowest first.
pub struct Digits {
    pub d: Vec<u8>,
}

pub open spec fn are_digits(s: Seq<u8>) -> bool {
    forall|i: int| 0 <= i < s.len() ==> s[i] < 10
}

pub proof fn lemma_ten_to_pos(n: nat)
    ensures
        ten_to(n) > 0,
    decreases n,
{
    if n > 0 {
        lemma_ten_to_pos((n - 1) as nat);
    }
}

pub proof fn lemma_ten_to_adds(m: nat, n: nat)
    ensures
        ten_to(m + n) == ten_to(m) * ten_to(n),
    decreases n,
{
    if n > 0 {
        lemma_ten_to_adds(m, (n - 1) as nat);
        assert(ten_to(m) * (10 * ten_to((n - 1) as nat)) == 10 * (ten_to(m) * ten_to(
            (n - 1) as nat,
        ))) by (nonlinear_arith);
    } else {
        assert(ten_to(m) * 1 == ten_to(m));
    }
}

/// The `n` lowest digits make a number below `10^n`.
pub proof fn lemma_low_value_bound(s: Seq<u8>, n: nat)
    requires
        are_digits(s),
    ensures
        low_value(s, n) < ten_to(n),
    decreases n,
{
    if n > 0 {
        lemma_low_value_bound(s, (n - 1) as nat);
        let w = ten_to((n - 1) as nat);
        let c = digit_at(s, (n - 1) as nat);
        assert(c * w <= 9 * w) by (nonlinear_arith)
            requires c <= 9;
    }
}

/// Digits past the end count nothing.
pub proof fn lemma_low_value_past(s: Seq<u8>, n: nat)
    requires
        n >= s.len(),
    ensures
        low_value(s, n) == low_value(s, s.len()),
    decreases n,
{
    if n > s.len() {
        lemma_low_value_past(s, (n - 1) as nat);
        assert(0 * ten_to((n - 1) as nat) == 0);
    }
}

/// Lower digits do not depend on what comes after them.
pub proof fn lemma_low_value_agree(s: Seq<u8>, t: Seq<u8>, n: nat)
    requires
        forall|i: nat| i < n ==> digit_at(s, i) == digit_at(t, i),
    ensures
        low_value(s, n) == low_value(t, n),
    decreases n,
{
    if n > 0 {
        lemma_low_value_agree(s, t, (n - 1) as nat);
        assert(digit_at(s, (n - 1) as nat) == digit_at(t, (n - 1) as nat));
    }
}

impl Digits {
    pub open spec fn value(self) -> nat {
        low_value(self.d@, self.d@.len())
    }

    pub open spec fn wf(self) -> bool {
        are_digits(self.d@)
    }

    /// Digit `i`.
    fn digit(&self, i: usize) -> (c: u8)
        requires
            self.wf(),
        ensures
            c == digit_at(self.d@, i as nat),
            c < 10,
    {
        if i < self.d.len() {
            self.d[i]
        } else {
            0
        }
    }

    /// Appends a number above the digits that are there.
    fn push_number(&mut self, n: u64)
        requires
            old(self).wf(),
        ensures
            final(self).wf(),
            final(self).value() == old(self).value() + n * ten_to(old(self).d@.len()),
    {
        let ghost start = self.value();
        let ghost base = self.d@.len();
        let ghost s0 = self.d@;
        let mut rest: u64 = n;
        proof {
            assert(rest as nat * ten_to(base) == n * ten_to(base));
        }
        while rest > 0
            invariant
                self.wf(),
                self.value() + rest as nat * ten_to(self.d@.len()) == start + n * ten_to(base),
            decreases rest,
        {
            let ghost before = self.d@;
            let c: u8 = (rest % 10) as u8;
            self.d.push(c);
            proof {
                let w = ten_to(before.len());
                let h = (rest / 10) as nat;
                lemma_low_value_agree(self.d@, before, before.len());
                assert(digit_at(self.d@, before.len()) == c);
                assert(rest as nat * w == h * (10 * w) + c as nat * w) by (nonlinear_arith)
                    requires rest as nat == 10 * h + c as nat;
            }
            rest = rest / 10;
        }
    }

    /// A number.
    pub fn of(n: u64) -> (r: Digits)
        ensures
            r.wf(),
            r.value() == n,
    {
        let mut r = Digits { d: Vec::new() };
        r.push_number(n);
        proof {
            assert(ten_to(0) == 1);
            assert(n * 1 == n);
        }
        r
    }

    /// The number times `m`, plus `c`.
    pub fn times_plus(&mut self, m: u32, c: u32)
        requires
            old(self).wf(),
        ensures
            final(self).wf(),
            final(self).value() == old(self).value() * m + c,
    {
        let ghost s0 = self.d@;
        let n: usize = self.d.len();
        let mut carry: u64 = c as u64;
        let mut i: usize = 0;
        proof {
            assert(ten_to(0) == 1);
            assert(carry as nat * 1 == carry);
            assert(low_value(s0, 0) * m == 0) by (nonlinear_arith)
                requires low_value(s0, 0) == 0;
        }
        while i < n
            invariant
                i <= n == s0.len(),
                self.d@.len() == n,
                self.wf(),
                are_digits(s0),
                forall|j: int| i <= j < n ==> self.d@[j] == s0[j],
                carry <= 0xFFFF_FFFF,
                low_value(self.d@, i as nat) + carry as nat * ten_to(i as nat) == low_value(
                    s0,
                    i as nat,
                ) * m + c,
            decreases n - i,
        {
            let ghost before = self.d@;
            proof {
                assert((self.d@[i as int] as u64) * (m as u64) <= 9 * 0xFFFF_FFFF)
                    by (nonlinear_arith)
                    requires self.d@[i as int] <= 9, m <= 0xFFFF_FFFF;
            }
            let x: u64 = (self.d[i] as u64) * (m as u64) + carry;
            self.d.set(i, (x % 10) as u8);
            proof {
                let w = ten_to(i as nat);
                let a = s0[i as int] as nat;
                let lo = (x % 10) as nat;
                let hi = (x / 10) as nat;
                lemma_low_value_agree(self.d@, before, i as nat);
                assert(digit_at(self.d@, i as nat) == lo);
                assert(digit_at(s0, i as nat) == a);
                assert((low_value(s0, i as nat) + a * w) * m == low_value(s0, i as nat) * m + (a
                    * m) * w) by (nonlinear_arith);
                assert(lo * w + hi * (10 * w) == (a * m) * w + carry as nat * w)
                    by (nonlinear_arith)
                    requires lo + 10 * hi == a * m + carry as nat;
            }
            carry = x / 10;
            i = i + 1;
        }
        self.push_number(carry);
    }

    /// Whether this number is less than another.
    pub fn less(&self, other: &Digits) -> (r: bool)
        requires
            self.wf(),
            other.wf(),
        ensures
            r == (self.value() < other.value()),
    {
        let n: usize = if self.d.len() >= other.d.len() { self.d.len() } else { other.d.len() };
        let mut r: bool = false;
        let mut i: usize = 0;
        while i < n
            invariant
                i <= n,
                self.wf(),
                other.wf(),
                r == (low_value(self.d@, i as nat) < low_value(other.d@, i as nat)),
            decreases n - i,
        {
            let a = self.digit(i);
            let b = other.digit(i);
            proof {
                let w = ten_to(i as nat);
                lemma_low_value_bound(self.d@, i as nat);
                lemma_low_value_bound(other.d@, i as nat);
                assert(a < b ==> a as nat * w + w <= b as nat * w) by (nonlinear_arith);
                assert(a > b ==> b as nat * w + w <= a as nat * w) by (nonlinear_arith);
            }
            r = a < b || (a == b && r);
            i = i + 1;
        }
        proof {
            lemma_low_value_past(self.d@, n as nat);
            lemma_low_value_past(other.d@, n as nat);
        }
        r
    }

    /// Takes a number away that is not larger.
    pub fn subtract(&mut self, other: &Digits)
        requires
            old(self).wf(),
            other.wf(),
            other.value() <= old(self).value(),
        ensures
            final(self).wf(),
            final(self).value() == old(self).value() - other.value(),
    {
        let ghost s0 = self.d@;
        let n: usize = self.d.len();
        let mut borrow: u8 = 0;
        let mut i: usize = 0;
        while i < n
            invariant
                i <= n == s0.len(),
                self.d@.len() == n,
                self.wf(),
                other.wf(),
                are_digits(s0),
                forall|j: int| i <= j < n ==> self.d@[j] == s0[j],
                borrow <= 1,
                low_value(self.d@, i as nat) + low_value(other.d@, i as nat) == low_value(
                    s0,
                    i as nat,
                ) + borrow as nat * ten_to(i as nat),
            decreases n - i,
        {
            let ghost before = self.d@;
            let a: u8 = self.d[i];
            let b: u8 = other.digit(i) + borrow;
            let ghost w = ten_to(i as nat);
            let low: u8 = if a >= b { a - b } else { a + 10 - b };
            let next: u8 = if a >= b { 0 } else { 1 };
            self.d.set(i, low);
            proof {
                lemma_low_value_agree(self.d@, before, i as nat);
                let c = digit_at(other.d@, i as nat);
                assert(low as nat * w + c * w + borrow as nat * w == a as nat * w + next as nat * (10
                    * w)) by (nonlinear_arith)
                    requires low as nat + c + borrow as nat == a as nat + 10 * next as nat;
            }
            borrow = next;
            i = i + 1;
        }
        proof {
            lemma_low_value_bound(self.d@, n as nat);
            lemma_low_value_bound(s0, n as nat);
            lemma_low_value_past(other.d@, if n < other.d@.len() { other.d@.len() } else { n as nat });
            lemma_higher_part(other.d@, n as nat, if n < other.d@.len() { other.d@.len() } else { n as nat });
            assert(1 * ten_to(n as nat) == ten_to(n as nat));
        }
    }

    /// Whether the number is zero.
    pub fn is_zero(&self) -> (r: bool)
        requires
            self.wf(),
        ensures
            r == (self.value() == 0),
    {
        let zero = Digits::of(0);
        !zero.less(self)
    }

    /// Another copy.
    pub fn copied(&self) -> (r: Digits)
        requires
            self.wf(),
        ensures
            r.wf(),
            r.value() == self.value(),
    {
        let mut d: Vec<u8> = Vec::new();
        let mut i: usize = 0;
        while i < self.d.len()
            invariant
                i <= self.d@.len(),
                d@ == self.d@.take(i as int),
            decreases self.d@.len() - i,
        {
            d.push(self.d[i]);
            i = i + 1;
        }
        proof {
            assert(d@ =~= self.d@);
        }
        Digits { d }
    }
}

/// Higher digits add nothing or at least the power of ten that they start at.
pub proof fn lemma_higher_part(s: Seq<u8>, n: nat, m: nat)
    requires
        n <= m,
    ensures
        low_value(s, n) == low_value(s, m) || low_value(s, m) >= ten_to(n),
    decreases m,
{
    if n < m {
        lemma_higher_part(s, n, (m - 1) as nat);
        let c = digit_at(s, (m - 1) as nat);
        let w = ten_to((m - 1) as nat);
        lemma_ten_to_adds((m - 1 - n) as nat, n);
        lemma_ten_to_pos((m - 1 - n) as nat);
        assert(w >= ten_to(n)) by (nonlinear_arith)
            requires
                w == ten_to((m - 1 - n) as nat) * ten_to(n),
                ten_to((m - 1 - n) as nat) > 0;
        assert(c > 0 ==> c * w >= w) by (nonlinear_arith);
        assert(c == 0 ==> c * w == 0);
    }
}

} // verus!
