//! Exact decimal quantities and the comparison of products of them.
use crate::natural::Natural;
use std::cmp::Ordering;
use vstd::arithmetic::power::*;
use vstd::prelude::*;

verus! {

/// The product of a sequence of machine words.
pub open spec fn product(s: Seq<u64>) -> int
    decreases s.len(),
{
    if s.len() == 0 {
        1
    } else {
        product(s.drop_last()) * s.last()
    }
}

/// The decimal `n · 10^e` counted in units of `10^base` (for `base <= e`).
pub open spec fn in_units(n: int, e: int, base: int) -> int {
    n * pow(10, (e - base) as nat)
}

pub open spec fn min_int(a: int, b: int) -> int {
    if a <= b {
        a
    } else {
        b
    }
}

/// The sign of `x - y`.
pub open spec fn sign(x: int, y: int) -> int {
    if x < y {
        -1
    } else if x == y {
        0
    } else {
        1
    }
}

/// Three-way comparison of the decimals `n1 · 10^e1` and `n2 · 10^e2`:
/// -1, 0 or 1 as the first is smaller than, equal to or larger than the second.
pub open spec fn decimal_cmp(n1: int, e1: int, n2: int, e2: int) -> int {
    let b = min_int(e1, e2);
    sign(in_units(n1, e1, b), in_units(n2, e2, b))
}

/// The sign that an `Ordering` stands for.
pub open spec fn ordering_sign(o: Ordering) -> int {
    match o {
        Ordering::Less => -1,
        Ordering::Equal => 0,
        Ordering::Greater => 1,
    }
}

/// A decimal comparison may be made in any unit no larger than both.
pub proof fn lemma_decimal_cmp_in_units(n1: int, e1: int, n2: int, e2: int, b: int)
    requires
        b <= e1,
        b <= e2,
    ensures
        decimal_cmp(n1, e1, n2, e2) == sign(in_units(n1, e1, b), in_units(n2, e2, b)),
{
    let m = min_int(e1, e2);
    let s = pow(10, (m - b) as nat);
    lemma_pow_positive(10, (m - b) as nat);
    lemma_pow_adds(10, (e1 - m) as nat, (m - b) as nat);
    lemma_pow_adds(10, (e2 - m) as nat, (m - b) as nat);
    let x = in_units(n1, e1, m);
    let y = in_units(n2, e2, m);
    assert(in_units(n1, e1, b) == x * s) by (nonlinear_arith)
        requires
            x == n1 * pow(10, (e1 - m) as nat),
            in_units(n1, e1, b) == n1 * (pow(10, (e1 - m) as nat) * s),
    ;
    assert(in_units(n2, e2, b) == y * s) by (nonlinear_arith)
        requires
            y == n2 * pow(10, (e2 - m) as nat),
            in_units(n2, e2, b) == n2 * (pow(10, (e2 - m) as nat) * s),
    ;
    assert(x < y ==> x * s < y * s) by (nonlinear_arith)
        requires s > 0;
    assert(x > y ==> x * s > y * s) by (nonlinear_arith)
        requires s > 0;
}

/// Decimal comparison is transitive.
pub proof fn lemma_decimal_cmp_transitive(
    n1: int,
    e1: int,
    n2: int,
    e2: int,
    n3: int,
    e3: int,
)
    ensures
        decimal_cmp(n1, e1, n2, e2) <= 0 && decimal_cmp(n2, e2, n3, e3) <= 0 ==> decimal_cmp(
            n1,
            e1,
            n3,
            e3,
        ) <= 0,
        decimal_cmp(n1, e1, n2, e2) < 0 && decimal_cmp(n2, e2, n3, e3) <= 0 ==> decimal_cmp(
            n1,
            e1,
            n3,
            e3,
        ) < 0,
        decimal_cmp(n1, e1, n2, e2) <= 0 && decimal_cmp(n2, e2, n3, e3) < 0 ==> decimal_cmp(
            n1,
            e1,
            n3,
            e3,
        ) < 0,
{
    let b = min_int(min_int(e1, e2), e3);
    lemma_decimal_cmp_in_units(n1, e1, n2, e2, b);
    lemma_decimal_cmp_in_units(n2, e2, n3, e3, b);
    lemma_decimal_cmp_in_units(n1, e1, n3, e3, b);
}

/// The product of the words, as a natural number.
pub fn natural_product(a: &Vec<u64>) -> (r: Natural)
    ensures
        r@ == product(a@),
{
    let mut acc = Natural::from_u64(1);
    let mut i: usize = 0;
    while i < a.len()
        invariant
            i <= a@.len(),
            acc@ == product(a@.subrange(0, i as int)),
        decreases a@.len() - i,
    {
        proof {
            assert(a@.subrange(0, i as int + 1).drop_last() =~= a@.subrange(0, i as int));
        }
        acc = acc.mul_word(a[i]);
        i = i + 1;
    }
    proof {
        assert(a@.subrange(0, i as int) =~= a@);
    }
    acc
}

/// `n · 10^count`.
fn scale_up(n: Natural, count: u128) -> (r: Natural)
    ensures
        r@ == n@ * pow(10, count as nat),
{
    let mut acc = n;
    let mut k: u128 = 0;
    proof {
        reveal(pow);
        assert(pow(10, 0) == 1);
    }
    while k < count
        invariant
            k <= count,
            acc@ == n@ * pow(10, k as nat),
        decreases count - k,
    {
        proof {
            reveal(pow);
            assert(pow(10, (k + 1) as nat) == 10 * pow(10, k as nat));
            assert(n@ * pow(10, k as nat) * 10 == n@ * (10 * pow(10, k as nat))) by (
            nonlinear_arith);
        }
        acc = acc.mul_word(10);
        k = k + 1;
    }
    acc
}

/// Three-way comparison of `product(a) · 10^ea` and `product(b) · 10^eb`, exactly.
pub fn compare_products(a: &Vec<u64>, ea: i64, b: &Vec<u64>, eb: i64) -> (r: Ordering)
    ensures
        ordering_sign(r) == decimal_cmp(product(a@), ea as int, product(b@), eb as int),
{
    let na = natural_product(a);
    let nb = natural_product(b);
    let (x, y) = if ea >= eb {
        let d = (ea as i128 - eb as i128) as u128;
        (scale_up(na, d), nb)
    } else {
        let d = (eb as i128 - ea as i128) as u128;
        (na, scale_up(nb, d))
    };
    proof {
        reveal(pow);
        assert(pow(10, 0) == 1);
    }
    x.compare(&y)
}

/// A non-negative decimal quantity: `significand · 10^exponent`.
#[derive(Clone, Copy, Debug, PartialEq, Eq, Structural)]
pub struct Quantity {
    pub significand: u64,
    pub exponent: i32,
}

/// Three-way comparison of two quantities by value.
pub open spec fn quantity_cmp(a: Quantity, b: Quantity) -> int {
    decimal_cmp(a.significand as int, a.exponent as int, b.significand as int, b.exponent as int)
}

impl Quantity {
    pub fn new(significand: u64, exponent: i32) -> (r: Quantity)
        ensures
            r.significand == significand,
            r.exponent == exponent,
    {
        Quantity { significand, exponent }
    }

    /// Three-way comparison by value.
    pub fn compare(&self, other: &Quantity) -> (r: Ordering)
        ensures
            ordering_sign(r) == quantity_cmp(*self, *other),
    {
        let a = vec![self.significand];
        let b = vec![other.significand];
        proof {
            assert(a@.drop_last().len() == 0);
            assert(b@.drop_last().len() == 0);
            assert(product(a@.drop_last()) == 1);
            assert(product(b@.drop_last()) == 1);
            assert(product(a@) == self.significand);
            assert(product(b@) == other.significand);
        }
        compare_products(&a, self.exponent as i64, &b, other.exponent as i64)
    }
}

} // verus!
