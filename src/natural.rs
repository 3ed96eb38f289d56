//! Arbitrary-precision natural numbers, just enough to multiply by machine
//! words and compare, so that products of decimal quantities are decided
//! exactly.
use vstd::arithmetic::power::*;
use vstd::prelude::*;
use std::cmp::Ordering;

verus! {

/// The radix of one limb.
pub open spec fn radix() -> int {
    0x1_0000_0000
}

/// The number that a little-endian sequence of limbs stands for.
pub open spec fn limbs_value(s: Seq<u32>) -> int
    decreases s.len(),
{
    if s.len() == 0 {
        0
    } else {
        limbs_value(s.drop_last()) + s.last() as int * pow(radix(), (s.len() - 1) as nat)
    }
}

proof fn lemma_limbs_bounds(s: Seq<u32>)
    ensures
        0 <= limbs_value(s) < pow(radix(), s.len()),
    decreases s.len(),
{
    reveal(pow);
    if s.len() > 0 {
        let n = (s.len() - 1) as nat;
        lemma_limbs_bounds(s.drop_last());
        lemma_pow_positive(radix(), n);
        let p = pow(radix(), n);
        let l = s.last() as int;
        assert(l * p <= (radix() - 1) * p) by (nonlinear_arith)
            requires l <= radix() - 1, p > 0;
        assert(pow(radix(), s.len()) == radix() * p);
    }
}

proof fn lemma_limbs_split(s: Seq<u32>, j: int)
    requires
        0 <= j <= s.len(),
    ensures
        limbs_value(s) == limbs_value(s.subrange(0, j)) + limbs_value(s.subrange(j, s.len() as int))
            * pow(radix(), j as nat),
    decreases s.len(),
{
    if j == s.len() {
        assert(s.subrange(0, j) =~= s);
        assert(s.subrange(j, s.len() as int).len() == 0);
    } else {
        let n = s.len() as int;
        let t = s.drop_last();
        lemma_limbs_split(t, j);
        assert(t.subrange(0, j) =~= s.subrange(0, j));
        let hi = s.subrange(j, n);
        assert(hi.drop_last() =~= t.subrange(j, n - 1));
        let a = limbs_value(t.subrange(j, n - 1));
        let l = s.last() as int;
        lemma_pow_adds(radix(), (n - 1 - j) as nat, j as nat);
        let pj = pow(radix(), j as nat);
        let pk = pow(radix(), (n - 1 - j) as nat);
        assert((a + l * pk) * pj == a * pj + l * (pk * pj)) by (nonlinear_arith);
    }
}

proof fn lemma_limbs_push_zero(s: Seq<u32>)
    ensures
        limbs_value(s.push(0u32)) == limbs_value(s),
{
    let t = s.push(0u32);
    assert(t.drop_last() =~= s);
    assert(t.last() == 0u32);
    assert(0u32 as int * pow(radix(), s.len()) == 0);
}

proof fn lemma_two_limbs(s: Seq<u32>)
    requires
        s.len() == 2,
    ensures
        limbs_value(s) == s[0] as int + s[1] as int * radix(),
{
    reveal_with_fuel(pow, 2);
    let t = s.drop_last();
    assert(t.drop_last().len() == 0);
    assert(limbs_value(t.drop_last()) == 0);
    assert(limbs_value(t) == s[0] as int);
}

/// A natural number held as little-endian 32-bit limbs.
pub struct Natural {
    pub limbs: Vec<u32>,
}

impl View for Natural {
    type V = int;

    open spec fn view(&self) -> int {
        limbs_value(self.limbs@)
    }
}

impl Natural {
    pub fn from_u64(x: u64) -> (r: Natural)
        ensures
            r@ == x as int,
            r.limbs@.len() == 2,
    {
        let lo = (x % 0x1_0000_0000) as u32;
        let hi = (x / 0x1_0000_0000) as u32;
        let mut limbs: Vec<u32> = Vec::new();
        limbs.push(lo);
        limbs.push(hi);
        proof {
            lemma_two_limbs(limbs@);
        }
        Natural { limbs }
    }

    /// The product of this number and a machine word.
    pub fn mul_word(&self, k: u64) -> (r: Natural)
        ensures
            r@ == self@ * k,
    {
        let a = &self.limbs;
        let mut out: Vec<u32> = Vec::new();
        let mut carry: u64 = 0;
        let mut i: usize = 0;
        while i < a.len()
            invariant
                i <= a.len(),
                out@.len() == i,
                limbs_value(out@) + carry * pow(radix(), i as nat) == limbs_value(
                    a@.subrange(0, i as int),
                ) * k,
            decreases a.len() - i,
        {
            proof {
                let ai = a@[i as int] as int;
                let kk = k as int;
                assert(ai * kk <= 0xffff_ffff * 0xffff_ffff_ffff_ffff) by (nonlinear_arith)
                    requires 0 <= ai <= 0xffff_ffff, 0 <= kk <= 0xffff_ffff_ffff_ffff;
            }
            let t: u128 = (a[i] as u128) * (k as u128) + (carry as u128);
            let lo = (t % 0x1_0000_0000) as u32;
            let next = (t / 0x1_0000_0000) as u64;
            proof {
                let ai = a@[i as int] as int;
                let kk = k as int;
                let c = carry as int;
                let p = pow(radix(), i as nat);
                reveal(pow);
                assert(pow(radix(), (i + 1) as nat) == radix() * p);
                assert(out@.push(lo).drop_last() =~= out@);
                assert(a@.subrange(0, i as int + 1).drop_last() =~= a@.subrange(0, i as int));
                let tt = t as int;
                assert(tt == lo as int + next as int * radix());
                let v = limbs_value(a@.subrange(0, i as int));
                assert(limbs_value(out@) + tt * p == v * kk + ai * p * kk) by (nonlinear_arith)
                    requires limbs_value(out@) + c * p == v * kk, tt == ai * kk + c;
                assert(tt * p == lo as int * p + next as int * (radix() * p)) by (nonlinear_arith)
                    requires tt == lo as int + next as int * radix();
                assert(v * kk + ai * p * kk == (v + ai * p) * kk) by (nonlinear_arith);
            }
            out.push(lo);
            carry = next;
            i = i + 1;
        }
        proof {
            assert(a@.subrange(0, i as int) =~= a@);
        }
        let top = Natural::from_u64(carry);
        let ghost body = out@;
        out.push(top.limbs[0]);
        out.push(top.limbs[1]);
        proof {
            let n = body.len();
            reveal_with_fuel(pow, 2);
            let p = pow(radix(), n);
            assert(out@.drop_last() =~= body.push(top.limbs@[0]));
            assert(out@.drop_last().drop_last() =~= body);
            lemma_pow_adds(radix(), n, 1);
            lemma_two_limbs(top.limbs@);
            let l0 = top.limbs@[0] as int;
            let l1 = top.limbs@[1] as int;
            assert(limbs_value(top.limbs@) == l0 + l1 * radix());
            assert(pow(radix(), n + 1) == radix() * p);
            assert(carry * p == l0 * p + l1 * (radix() * p)) by (nonlinear_arith)
                requires carry == l0 + l1 * radix();
            assert(out@.last() == top.limbs@[1]);
            assert(out@.drop_last().last() == top.limbs@[0]);
            assert(limbs_value(out@.drop_last()) == limbs_value(body) + l0 * p);
            assert(limbs_value(out@) == limbs_value(out@.drop_last()) + l1 * pow(radix(), n + 1));
        }
        Natural { limbs: out }
    }

    /// The limbs of this number, extended with zero limbs to length `n`.
    fn padded(&self, n: usize) -> (r: Vec<u32>)
        requires
            self.limbs@.len() <= n,
        ensures
            r@.len() == n,
            limbs_value(r@) == self@,
    {
        let mut r: Vec<u32> = Vec::new();
        let mut i: usize = 0;
        while i < self.limbs.len()
            invariant
                i <= self.limbs@.len(),
                r@ =~= self.limbs@.subrange(0, i as int),
            decreases self.limbs@.len() - i,
        {
            r.push(self.limbs[i]);
            i = i + 1;
        }
        proof {
            assert(self.limbs@.subrange(0, i as int) =~= self.limbs@);
        }
        while r.len() < n
            invariant
                r@.len() <= n,
                limbs_value(r@) == self@,
            decreases n - r@.len(),
        {
            proof {
                lemma_limbs_push_zero(r@);
            }
            r.push(0);
        }
        r
    }

    /// Three-way comparison of two numbers.
    pub fn compare(&self, other: &Natural) -> (r: Ordering)
        ensures
            (r == Ordering::Less) == (self@ < other@),
            (r == Ordering::Equal) == (self@ == other@),
            (r == Ordering::Greater) == (self@ > other@),
    {
        let n = if self.limbs.len() < other.limbs.len() {
            other.limbs.len()
        } else {
            self.limbs.len()
        };
        let a = self.padded(n);
        let b = other.padded(n);
        let mut i: usize = n;
        while i > 0
            invariant
                i <= n,
                a@.len() == n,
                b@.len() == n,
                limbs_value(a@) == self@,
                limbs_value(b@) == other@,
                a@.subrange(i as int, n as int) =~= b@.subrange(i as int, n as int),
            decreases i,
        {
            let j = i - 1;
            if a[j] != b[j] {
                proof {
                    lemma_first_difference(a@, b@, j as int);
                }
                if a[j] < b[j] {
                    return Ordering::Less;
                } else {
                    return Ordering::Greater;
                }
            }
            proof {
                assert(a@.subrange(j as int, n as int) =~= a@.subrange(j as int, j + 1).add(
                    a@.subrange(i as int, n as int),
                ));
                assert(b@.subrange(j as int, n as int) =~= b@.subrange(j as int, j + 1).add(
                    b@.subrange(i as int, n as int),
                ));
            }
            i = j;
        }
        proof {
            assert(a@ =~= a@.subrange(0, n as int));
            assert(b@ =~= b@.subrange(0, n as int));
            assert(a@ == b@);
            assert(self@ == other@);
        }
        Ordering::Equal
    }
}

/// Where two limb sequences of one length first differ from the top, that
/// limb decides their order.
proof fn lemma_first_difference(a: Seq<u32>, b: Seq<u32>, j: int)
    requires
        a.len() == b.len(),
        0 <= j < a.len(),
        a[j] != b[j],
        a.subrange(j + 1, a.len() as int) =~= b.subrange(j + 1, b.len() as int),
    ensures
        a[j] < b[j] ==> limbs_value(a) < limbs_value(b),
        a[j] > b[j] ==> limbs_value(a) > limbs_value(b),
{
    let n = a.len() as int;
    lemma_limbs_split(a, j);
    lemma_limbs_split(b, j);
    let ta = a.subrange(j, n);
    let tb = b.subrange(j, n);
    lemma_limbs_split(ta, 1);
    lemma_limbs_split(tb, 1);
    assert(ta.subrange(1, ta.len() as int) =~= a.subrange(j + 1, n));
    assert(tb.subrange(1, tb.len() as int) =~= b.subrange(j + 1, n));
    assert(ta.subrange(0, 1).drop_last().len() == 0);
    assert(tb.subrange(0, 1).drop_last().len() == 0);
    assert(pow(radix(), 0) == 1 && pow(radix(), 1) == radix()) by {
        reveal_with_fuel(pow, 2);
    }
    assert(ta.subrange(0, 1).len() == 1);
    assert(tb.subrange(0, 1).len() == 1);
    assert(ta.subrange(0, 1).last() == a[j]);
    assert(tb.subrange(0, 1).last() == b[j]);
    assert(limbs_value(ta.subrange(0, 1).drop_last()) == 0);
    assert(limbs_value(tb.subrange(0, 1).drop_last()) == 0);
    assert(limbs_value(ta.subrange(0, 1)) == a[j] as int);
    assert(limbs_value(tb.subrange(0, 1)) == b[j] as int);
    lemma_limbs_bounds(a.subrange(0, j));
    lemma_limbs_bounds(b.subrange(0, j));
    let h = limbs_value(a.subrange(j + 1, n));
    let p = pow(radix(), j as nat);
    let la = limbs_value(a.subrange(0, j));
    let lb = limbs_value(b.subrange(0, j));
    let x = a[j] as int;
    let y = b[j] as int;
    assert(limbs_value(a) == la + (x + h * radix()) * p);
    assert(limbs_value(b) == lb + (y + h * radix()) * p);
    assert(x < y ==> la + (x + h * radix()) * p < lb + (y + h * radix()) * p) by (nonlinear_arith)
        requires 0 <= la < p, 0 <= lb < p;
    assert(x > y ==> la + (x + h * radix()) * p > lb + (y + h * radix()) * p) by (nonlinear_arith)
        requires 0 <= la < p, 0 <= lb < p;
}

} // verus!
