//! The search for component values that realise a gyrator filter.
//!
//! Every test is decided exactly on decimals. With `L = R1·R2·C2` the
//! synthesised inductance, the resonant frequency is `f = 1 / (2π·√(L·C1))`
//! and the quality factor `Q = 2π·f·L / R1 = √(L / C1) / R1`. The windows are
//! tested on squares: `f ≥ f_min` holds exactly when
//! `4π²·L·C1·f_min² ≤ 1`, and `Q ≥ Q_min` when `Q_min²·C1·R1 ≤ R2·C2`.
//! π is taken as `PI_NUMERATOR / PI_DENOMINATOR`, within 10^-16 of it.
use crate::argument::{arg_table, arg_window, value_to_tolerance, Arg, Window};
use crate::natural::Natural;
use crate::order::{cr_significand, lemma_ascending_is_ordered, ordered, sort_selections};
use crate::quantity::{
    compare_products, decimal_cmp, in_units, min_int, natural_product, ordering_sign, product,
    quantity_cmp, Quantity,
};
use crate::series::lemma_empty_range_has_no_values;
use std::cmp::Ordering;
use vstd::arithmetic::mul::lemma_mul_strictly_positive;
use vstd::arithmetic::power::{lemma_pow_positive, pow};
use vstd::prelude::*;

verus! {

/// π is taken as `PI_NUMERATOR / PI_DENOMINATOR`, a convergent of its
/// continued fraction.
pub const PI_NUMERATOR: u64 = 245850922;

pub const PI_DENOMINATOR: u64 = 78256779;

/// One choice of the four components.
#[derive(Clone, Copy, Debug, PartialEq, Eq, Structural)]
pub struct Selection {
    pub r1: Quantity,
    pub r2: Quantity,
    pub c1: Quantity,
    pub c2: Quantity,
}

impl Selection {
    pub fn r1_resistance(&self) -> (r: Quantity)
        ensures
            r == self.r1,
    {
        self.r1
    }

    pub fn r2_resistance(&self) -> (r: Quantity)
        ensures
            r == self.r2,
    {
        self.r2
    }

    pub fn c1_capacitance(&self) -> (r: Quantity)
        ensures
            r == self.c1,
    {
        self.c1
    }

    pub fn c2_capacitance(&self) -> (r: Quantity)
        ensures
            r == self.c2,
    {
        self.c2
    }

    /// The inductance `R1·R2·C2`, as a significand and a power of ten.
    pub fn inductance(&self) -> (r: (Natural, i64))
        ensures
            r.0@ == product(inductance_factors(*self)),
            r.1 == inductance_exponent(*self),
    {
        let f = vec![self.r1.significand, self.r2.significand, self.c2.significand];
        proof {
            assert(f@ =~= inductance_factors(*self));
        }
        (natural_product(&f), exp(self.r1) + exp(self.r2) + exp(self.c2))
    }
}

/// The factors of the inductance `R1·R2·C2`.
pub open spec fn inductance_factors(s: Selection) -> Seq<u64> {
    seq![s.r1.significand, s.r2.significand, s.c2.significand]
}

pub open spec fn inductance_exponent(s: Selection) -> int {
    ex(s.r1) + ex(s.r2) + ex(s.c2)
}

pub open spec fn sel(r1: Quantity, r2: Quantity, c1: Quantity, c2: Quantity) -> Selection {
    Selection { r1, r2, c1, c2 }
}

pub open spec fn ex(q: Quantity) -> int {
    q.exponent as int
}

/// The factors of the inductance `R1·R2·C2` times a frequency `t`.
pub open spec fn inductance_times(r1: Quantity, r2: Quantity, c2: Quantity, t: Quantity) -> Seq<
    u64,
> {
    seq![r1.significand, r2.significand, c2.significand, t.significand]
}

/// The inductance lies within one decade of `R1 / t` either way, for a
/// frequency target `t > 0`: `R1/10/t ≤ L ≤ R1·10/t`.
pub open spec fn inductance_ok(t: Quantity, r1: Quantity, r2: Quantity, c2: Quantity) -> bool {
    let e = ex(r1) + ex(r2) + ex(c2) + ex(t);
    &&& t.significand > 0
    &&& decimal_cmp(product(inductance_times(r1, r2, c2, t)), e + 1, r1.significand as int, ex(r1))
        >= 0
    &&& decimal_cmp(product(inductance_times(r1, r2, c2, t)), e, r1.significand as int, ex(r1) + 1)
        <= 0
}

/// The factors of `4π²·L·C1·b²` for a window end `b = q · k · 10^-9`,
/// with π's denominator left out.
pub open spec fn resonance_factors(q: Quantity, k: u64, s: Selection) -> Seq<u64> {
    seq![
        q.significand,
        q.significand,
        k,
        k,
        4,
        PI_NUMERATOR,
        PI_NUMERATOR,
        s.r1.significand,
        s.r2.significand,
        s.c2.significand,
        s.c1.significand,
    ]
}

pub open spec fn resonance_exponent(q: Quantity, s: Selection) -> int {
    2 * ex(q) - 18 + ex(s.r1) + ex(s.r2) + ex(s.c2) + ex(s.c1)
}

/// The resonant frequency lies in the window.
pub open spec fn frequency_ok(w: Window, s: Selection) -> bool {
    let one = product(seq![PI_DENOMINATOR, PI_DENOMINATOR]);
    &&& decimal_cmp(
        product(resonance_factors(w.low, w.low_factor, s)),
        resonance_exponent(w.low, s),
        one,
        0,
    ) <= 0
    &&& decimal_cmp(
        one,
        0,
        product(resonance_factors(w.high, w.high_factor, s)),
        resonance_exponent(w.high, s),
    ) <= 0
}

/// The factors of `b²·C1·R1` for a window end `b = q · k · 10^-9`.
pub open spec fn quality_factors(q: Quantity, k: u64, s: Selection) -> Seq<u64> {
    seq![q.significand, q.significand, k, k, s.c1.significand, s.r1.significand]
}

pub open spec fn quality_exponent(q: Quantity, s: Selection) -> int {
    2 * ex(q) - 18 + ex(s.c1) + ex(s.r1)
}

/// The quality factor lies in the window.
pub open spec fn quality_ok(w: Window, s: Selection) -> bool {
    let rc = product(seq![s.r2.significand, s.c2.significand]);
    let erc = ex(s.r2) + ex(s.c2);
    &&& decimal_cmp(
        product(quality_factors(w.low, w.low_factor, s)),
        quality_exponent(w.low, s),
        rc,
        erc,
    ) <= 0
    &&& decimal_cmp(
        rc,
        erc,
        product(quality_factors(w.high, w.high_factor, s)),
        quality_exponent(w.high, s),
    ) <= 0
}

/// Whether a selection meets the frequency window `fw` (whose target bounds
/// the inductance) and the quality-factor window `qw`.
pub open spec fn accepted(fw: Window, qw: Window, s: Selection) -> bool {
    &&& inductance_ok(fw.target, s.r1, s.r2, s.c2)
    &&& frequency_ok(fw, s)
    &&& quality_ok(qw, s)
}

/// A product with a zero factor is zero.
proof fn lemma_product_zero(s: Seq<u64>, i: int)
    requires
        0 <= i < s.len(),
        s[i] == 0,
    ensures
        product(s) == 0,
    decreases s.len(),
{
    if i < s.len() - 1 {
        lemma_product_zero(s.drop_last(), i);
    }
    assert(product(s) == product(s.drop_last()) * s.last());
}

/// An accepted selection has a finite resonant frequency, so none of its
/// components is zero; in particular `C1·R1` is positive.
pub proof fn lemma_accepted_positive(fw: Window, qw: Window, s: Selection)
    requires
        accepted(fw, qw, s),
    ensures
        cr_significand(s) > 0,
{
    let f = resonance_factors(fw.high, fw.high_factor, s);
    let d = seq![PI_DENOMINATOR, PI_DENOMINATOR];
    assert(product(d) == PI_DENOMINATOR * PI_DENOMINATOR) by {
        reveal_with_fuel(product, 3);
        assert(d.drop_last() =~= seq![PI_DENOMINATOR]);
        assert(d.drop_last().drop_last() =~= Seq::<u64>::empty());
    }
    if s.r1.significand == 0 || s.c1.significand == 0 {
        if s.r1.significand == 0 {
            lemma_product_zero(f, 7);
        } else {
            lemma_product_zero(f, 10);
        }
        let e = resonance_exponent(fw.high, s);
        let b = min_int(0, e);
        lemma_pow_positive(10, (0 - b) as nat);
        assert(in_units(product(d), 0, b) > 0) by (nonlinear_arith)
            requires
                product(d) > 0,
                pow(10, (0 - b) as nat) > 0,
                in_units(product(d), 0, b) == product(d) * pow(10, (0 - b) as nat),
        ;
        assert(in_units(0, e, b) == 0);
    }
    lemma_mul_strictly_positive(s.c1.significand as int, s.r1.significand as int);
}

/// Two selections whose four components are equal in value; then all seven
/// quantities of the selections are equal.
pub open spec fn same_values(a: Selection, b: Selection) -> bool {
    &&& quantity_cmp(a.r1, b.r1) == 0
    &&& quantity_cmp(a.r2, b.r2) == 0
    &&& quantity_cmp(a.c1, b.c1) == 0
    &&& quantity_cmp(a.c2, b.c2) == 0
}

/// Some element of `s` equals `x` in value.
pub open spec fn present(s: Seq<Selection>, x: Selection) -> bool {
    exists|k: int| 0 <= k < s.len() && same_values(#[trigger] s[k], x)
}

pub(crate) fn compare(a: Vec<u64>, ea: i64, b: Vec<u64>, eb: i64) -> (r: Ordering)
    ensures
        ordering_sign(r) == decimal_cmp(product(a@), ea as int, product(b@), eb as int),
{
    compare_products(&a, ea, &b, eb)
}

pub(crate) fn exp(q: Quantity) -> (r: i64)
    ensures
        r == q.exponent as int,
{
    q.exponent as i64
}

proof fn lemma_product_one(a: u64)
    ensures
        product(seq![a]) == a as int,
{
    let s = seq![a];
    assert(s.drop_last() =~= Seq::<u64>::empty());
    assert(product(s.drop_last()) == 1);
    assert(s.last() == a);
}

fn check_inductance(t: Quantity, r1: Quantity, r2: Quantity, c2: Quantity) -> (r: bool)
    ensures
        r == inductance_ok(t, r1, r2, c2),
{
    if t.significand == 0 {
        return false;
    }
    let e = exp(r1) + exp(r2) + exp(c2) + exp(t);
    let lhs = vec![r1.significand, r2.significand, c2.significand, t.significand];
    let one = vec![r1.significand];
    proof {
        assert(lhs@ =~= inductance_times(r1, r2, c2, t));
        assert(one@ =~= seq![r1.significand]);
        lemma_product_one(r1.significand);
    }
    let above = compare(lhs.clone(), e + 1, one.clone(), exp(r1));
    let below = compare(lhs, e, one, exp(r1) + 1);
    !matches!(above, Ordering::Less) && !matches!(below, Ordering::Greater)
}

fn check_resonance(fw: Window, qw: Window, s: Selection) -> (r: bool)
    ensures
        r == (frequency_ok(fw, s) && quality_ok(qw, s)),
{
    let es = exp(s.r1) + exp(s.r2) + exp(s.c2) + exp(s.c1);
    let one = vec![PI_DENOMINATOR, PI_DENOMINATOR];
    let low = vec![
        fw.low.significand,
        fw.low.significand,
        fw.low_factor,
        fw.low_factor,
        4,
        PI_NUMERATOR,
        PI_NUMERATOR,
        s.r1.significand,
        s.r2.significand,
        s.c2.significand,
        s.c1.significand,
    ];
    let high = vec![
        fw.high.significand,
        fw.high.significand,
        fw.high_factor,
        fw.high_factor,
        4,
        PI_NUMERATOR,
        PI_NUMERATOR,
        s.r1.significand,
        s.r2.significand,
        s.c2.significand,
        s.c1.significand,
    ];
    let rc = vec![s.r2.significand, s.c2.significand];
    let erc = exp(s.r2) + exp(s.c2);
    let qlow = vec![
        qw.low.significand,
        qw.low.significand,
        qw.low_factor,
        qw.low_factor,
        s.c1.significand,
        s.r1.significand,
    ];
    let qhigh = vec![
        qw.high.significand,
        qw.high.significand,
        qw.high_factor,
        qw.high_factor,
        s.c1.significand,
        s.r1.significand,
    ];
    proof {
        assert(one@ =~= seq![PI_DENOMINATOR, PI_DENOMINATOR]);
        assert(low@ =~= resonance_factors(fw.low, fw.low_factor, s));
        assert(high@ =~= resonance_factors(fw.high, fw.high_factor, s));
        assert(rc@ =~= seq![s.r2.significand, s.c2.significand]);
        assert(qlow@ =~= quality_factors(qw.low, qw.low_factor, s));
        assert(qhigh@ =~= quality_factors(qw.high, qw.high_factor, s));
    }
    let f_low = compare(low, 2 * exp(fw.low) - 18 + es, one.clone(), 0);
    let f_high = compare(one, 0, high, 2 * exp(fw.high) - 18 + es);
    let q_low = compare(qlow, 2 * exp(qw.low) - 18 + exp(s.c1) + exp(s.r1), rc.clone(), erc);
    let q_high = compare(rc, erc, qhigh, 2 * exp(qw.high) - 18 + exp(s.c1) + exp(s.r1));
    !matches!(f_low, Ordering::Greater) && !matches!(f_high, Ordering::Greater) && !matches!(
        q_low,
        Ordering::Greater,
    ) && !matches!(q_high, Ordering::Greater)
}

fn same_quantity(a: Quantity, b: Quantity) -> (r: bool)
    ensures
        r == (quantity_cmp(a, b) == 0),
{
    matches!(a.compare(&b), Ordering::Equal)
}

fn check_same_values(a: Selection, b: Selection) -> (r: bool)
    ensures
        r == same_values(a, b),
{
    same_quantity(a.r1, b.r1) && same_quantity(a.r2, b.r2) && same_quantity(a.c1, b.c1)
        && same_quantity(a.c2, b.c2)
}

/// Every element meets the windows and takes its components from the tables.
pub open spec fn sound(
    s: Seq<Selection>,
    fw: Window,
    qw: Window,
    t1: Seq<Quantity>,
    t2: Seq<Quantity>,
    t3: Seq<Quantity>,
    t4: Seq<Quantity>,
) -> bool {
    forall|k: int|
        0 <= k < s.len() ==> {
            &&& accepted(fw, qw, #[trigger] s[k])
            &&& t1.contains(s[k].r1)
            &&& t2.contains(s[k].r2)
            &&& t3.contains(s[k].c1)
            &&& t4.contains(s[k].c2)
        }
}

/// No two elements are equal in value.
pub open spec fn distinct(s: Seq<Selection>) -> bool {
    forall|k: int, l: int| 0 <= k < s.len() && 0 <= l < s.len() && k != l ==> !same_values(#[trigger] s[k], #[trigger] s[l])
}

/// The selection made of the entries `j1`, `j2`, `j3`, `j4` of the tables of
/// R1, R2, C1 and C2, if it is accepted, is present in `s`.
pub open spec fn handled(
    s: Seq<Selection>,
    fw: Window,
    qw: Window,
    t1: Seq<Quantity>,
    t2: Seq<Quantity>,
    t3: Seq<Quantity>,
    t4: Seq<Quantity>,
    j1: int,
    j2: int,
    j3: int,
    j4: int,
) -> bool {
    accepted(fw, qw, sel(t1[j1], t2[j2], t3[j3], t4[j4])) ==> present(
        s,
        sel(t1[j1], t2[j2], t3[j3], t4[j4]),
    )
}

/// `(j1, j2, j4, j3)` comes before `(i1, i2, i4, i3)` in lexicographic order.
pub open spec fn before(j1: int, j2: int, j4: int, j3: int, i1: int, i2: int, i4: int, i3: int) -> bool {
    ||| j1 < i1
    ||| j1 == i1 && j2 < i2
    ||| j1 == i1 && j2 == i2 && j4 < i4
    ||| j1 == i1 && j2 == i2 && j4 == i4 && j3 < i3
}

/// Every combination before `(i1, i2, i4, i3)` has been handled.
pub open spec fn handled_before(
    s: Seq<Selection>,
    fw: Window,
    qw: Window,
    t1: Seq<Quantity>,
    t2: Seq<Quantity>,
    t3: Seq<Quantity>,
    t4: Seq<Quantity>,
    i1: int,
    i2: int,
    i4: int,
    i3: int,
) -> bool {
    forall|j1: int, j2: int, j3: int, j4: int|
        0 <= j1 < t1.len() && 0 <= j2 < t2.len() && 0 <= j3 < t3.len() && 0 <= j4 < t4.len()
            && before(j1, j2, j4, j3, i1, i2, i4, i3) ==> #[trigger] handled(
            s,
            fw,
            qw,
            t1,
            t2,
            t3,
            t4,
            j1,
            j2,
            j3,
            j4,
        )
}

proof fn lemma_handled_grows(
    s: Seq<Selection>,
    t: Seq<Selection>,
    fw: Window,
    qw: Window,
    t1: Seq<Quantity>,
    t2: Seq<Quantity>,
    t3: Seq<Quantity>,
    t4: Seq<Quantity>,
    i1: int,
    i2: int,
    i4: int,
    i3: int,
)
    requires
        handled_before(s, fw, qw, t1, t2, t3, t4, i1, i2, i4, i3),
        s.len() <= t.len(),
        forall|k: int| 0 <= k < s.len() ==> t[k] == s[k],
    ensures
        handled_before(t, fw, qw, t1, t2, t3, t4, i1, i2, i4, i3),
{
    assert forall|j1: int, j2: int, j3: int, j4: int|
        0 <= j1 < t1.len() && 0 <= j2 < t2.len() && 0 <= j3 < t3.len() && 0 <= j4 < t4.len()
            && before(j1, j2, j4, j3, i1, i2, i4, i3) implies #[trigger] handled(
        t,
        fw,
        qw,
        t1,
        t2,
        t3,
        t4,
        j1,
        j2,
        j3,
        j4,
    ) by {
        assert(handled(s, fw, qw, t1, t2, t3, t4, j1, j2, j3, j4));
        let x = sel(t1[j1], t2[j2], t3[j3], t4[j4]);
        if accepted(fw, qw, x) {
            let k = choose|k: int| 0 <= k < s.len() && same_values(#[trigger] s[k], x);
            assert(same_values(t[k], x));
        }
    }
}

/// Adds `x` unless an element equal to it in value is there already.
fn add_new(found: &mut Vec<Selection>, x: Selection)
    requires
        distinct(old(found)@),
    ensures
        distinct(final(found)@),
        present(final(found)@, x),
        final(found)@ == old(found)@ || final(found)@ == old(found)@.push(x),
{
    let mut k: usize = 0;
    while k < found.len()
        invariant
            k <= found@.len(),
            found@ == old(found)@,
            distinct(found@),
            forall|l: int| 0 <= l < k ==> !same_values(#[trigger] found@[l], x),
        decreases found@.len() - k,
    {
        if check_same_values(found[k], x) {
            assert(same_values(found@[k as int], x));
            return;
        }
        k = k + 1;
    }
    found.push(x);
    proof {
        let n = found@.len() - 1;
        assert(same_values(found@[n], x));
        assert forall|a: int, b: int|
            0 <= a < found@.len() && 0 <= b < found@.len() && a != b implies !same_values(
            #[trigger] found@[a],
            #[trigger] found@[b],
        ) by {
            if a == n {
                assert(!same_values(found@[b], x));
            } else if b == n {
                assert(!same_values(found@[a], x));
            }
        }
    }
}

proof fn lemma_handled_next(
    s: Seq<Selection>,
    fw: Window,
    qw: Window,
    t1: Seq<Quantity>,
    t2: Seq<Quantity>,
    t3: Seq<Quantity>,
    t4: Seq<Quantity>,
    i1: int,
    i2: int,
    i4: int,
    i3: int,
)
    requires
        0 <= i1 < t1.len(),
        0 <= i2 < t2.len(),
        0 <= i3 < t3.len(),
        0 <= i4 < t4.len(),
        handled_before(s, fw, qw, t1, t2, t3, t4, i1, i2, i4, i3),
        handled(s, fw, qw, t1, t2, t3, t4, i1, i2, i3, i4),
    ensures
        handled_before(s, fw, qw, t1, t2, t3, t4, i1, i2, i4, i3 + 1),
{
    assert forall|j1: int, j2: int, j3: int, j4: int|
        0 <= j1 < t1.len() && 0 <= j2 < t2.len() && 0 <= j3 < t3.len() && 0 <= j4 < t4.len()
            && before(j1, j2, j4, j3, i1, i2, i4, i3 + 1) implies #[trigger] handled(
        s,
        fw,
        qw,
        t1,
        t2,
        t3,
        t4,
        j1,
        j2,
        j3,
        j4,
    ) by {
        if !before(j1, j2, j4, j3, i1, i2, i4, i3) {
            assert(j1 == i1 && j2 == i2 && j4 == i4 && j3 == i3);
        }
    }
}

/// `handled_before` at one position gives it at another that is no later,
/// within the tables.
proof fn lemma_handled_reindex(
    s: Seq<Selection>,
    fw: Window,
    qw: Window,
    t1: Seq<Quantity>,
    t2: Seq<Quantity>,
    t3: Seq<Quantity>,
    t4: Seq<Quantity>,
    i1: int,
    i2: int,
    i4: int,
    i3: int,
    k1: int,
    k2: int,
    k4: int,
    k3: int,
)
    requires
        handled_before(s, fw, qw, t1, t2, t3, t4, i1, i2, i4, i3),
        forall|j1: int, j2: int, j3: int, j4: int|
            0 <= j1 < t1.len() && 0 <= j2 < t2.len() && 0 <= j3 < t3.len() && 0 <= j4 < t4.len()
                && #[trigger] before(j1, j2, j4, j3, k1, k2, k4, k3) ==> before(
                j1,
                j2,
                j4,
                j3,
                i1,
                i2,
                i4,
                i3,
            ),
    ensures
        handled_before(s, fw, qw, t1, t2, t3, t4, k1, k2, k4, k3),
{
}

/// All accepted selections from the four tables, each once up to value, in
/// the order of the search.
fn find_selections(
    fw: Window,
    qw: Window,
    t1: &Vec<Quantity>,
    t2: &Vec<Quantity>,
    t3: &Vec<Quantity>,
    t4: &Vec<Quantity>,
) -> (r: Vec<Selection>)
    ensures
        sound(r@, fw, qw, t1@, t2@, t3@, t4@),
        distinct(r@),
        handled_before(r@, fw, qw, t1@, t2@, t3@, t4@, t1@.len() as int, 0, 0, 0),
{
    let mut found: Vec<Selection> = Vec::new();
    let mut i1: usize = 0;
    while i1 < t1.len()
        invariant
            i1 <= t1@.len(),
            sound(found@, fw, qw, t1@, t2@, t3@, t4@),
            distinct(found@),
            handled_before(found@, fw, qw, t1@, t2@, t3@, t4@, i1 as int, 0, 0, 0),
        decreases t1@.len() - i1,
    {
        let r1 = t1[i1];
        let mut i2: usize = 0;
        while i2 < t2.len()
            invariant
                i1 < t1@.len(),
                i2 <= t2@.len(),
                r1 == t1@[i1 as int],
                sound(found@, fw, qw, t1@, t2@, t3@, t4@),
                distinct(found@),
                handled_before(found@, fw, qw, t1@, t2@, t3@, t4@, i1 as int, i2 as int, 0, 0),
            decreases t2@.len() - i2,
        {
            let r2 = t2[i2];
            let mut i4: usize = 0;
            while i4 < t4.len()
                invariant
                    i1 < t1@.len(),
                    i2 < t2@.len(),
                    i4 <= t4@.len(),
                    r1 == t1@[i1 as int],
                    r2 == t2@[i2 as int],
                    sound(found@, fw, qw, t1@, t2@, t3@, t4@),
                    distinct(found@),
                    handled_before(
                        found@,
                        fw,
                        qw,
                        t1@,
                        t2@,
                        t3@,
                        t4@,
                        i1 as int,
                        i2 as int,
                        i4 as int,
                        0,
                    ),
                decreases t4@.len() - i4,
            {
                let c2 = t4[i4];
                if check_inductance(fw.target, r1, r2, c2) {
                    let mut i3: usize = 0;
                    while i3 < t3.len()
                        invariant
                            i1 < t1@.len(),
                            i2 < t2@.len(),
                            i4 < t4@.len(),
                            i3 <= t3@.len(),
                            r1 == t1@[i1 as int],
                            r2 == t2@[i2 as int],
                            c2 == t4@[i4 as int],
                            sound(found@, fw, qw, t1@, t2@, t3@, t4@),
                            distinct(found@),
                            handled_before(
                                found@,
                                fw,
                                qw,
                                t1@,
                                t2@,
                                t3@,
                                t4@,
                                i1 as int,
                                i2 as int,
                                i4 as int,
                                i3 as int,
                            ),
                            inductance_ok(fw.target, r1, r2, c2),
                        decreases t3@.len() - i3,
                    {
                        let c1 = t3[i3];
                        let x = Selection { r1, r2, c1, c2 };
                        if check_resonance(fw, qw, x) {
                            let ghost before_add = found@;
                            add_new(&mut found, x);
                            proof {
                                lemma_handled_grows(
                                    before_add,
                                    found@,
                                    fw,
                                    qw,
                                    t1@,
                                    t2@,
                                    t3@,
                                    t4@,
                                    i1 as int,
                                    i2 as int,
                                    i4 as int,
                                    i3 as int,
                                );
                                assert(t1@[i1 as int] == x.r1);
                                assert(t2@[i2 as int] == x.r2);
                                assert(t3@[i3 as int] == x.c1);
                                assert(t4@[i4 as int] == x.c2);
                                assert forall|k: int| 0 <= k < found@.len() implies {
                                    &&& accepted(fw, qw, #[trigger] found@[k])
                                    &&& t1@.contains(found@[k].r1)
                                    &&& t2@.contains(found@[k].r2)
                                    &&& t3@.contains(found@[k].c1)
                                    &&& t4@.contains(found@[k].c2)
                                } by {
                                    if k >= before_add.len() {
                                        assert(found@[k] == x);
                                    } else {
                                        assert(found@[k] == before_add[k]);
                                    }
                                }
                            }
                        }
                        proof {
                            assert(handled(
                                found@,
                                fw,
                                qw,
                                t1@,
                                t2@,
                                t3@,
                                t4@,
                                i1 as int,
                                i2 as int,
                                i3 as int,
                                i4 as int,
                            ));
                            lemma_handled_next(
                                found@,
                                fw,
                                qw,
                                t1@,
                                t2@,
                                t3@,
                                t4@,
                                i1 as int,
                                i2 as int,
                                i4 as int,
                                i3 as int,
                            );
                        }
                        i3 = i3 + 1;
                    }
                    proof {
                        lemma_handled_reindex(
                            found@,
                            fw,
                            qw,
                            t1@,
                            t2@,
                            t3@,
                            t4@,
                            i1 as int,
                            i2 as int,
                            i4 as int,
                            t3@.len() as int,
                            i1 as int,
                            i2 as int,
                            i4 + 1,
                            0,
                        );
                    }
                } else {
                    proof {
                        assert forall|j1: int, j2: int, j3: int, j4: int|
                            0 <= j1 < t1@.len() && 0 <= j2 < t2@.len() && 0 <= j3 < t3@.len() && 0
                                <= j4 < t4@.len() && before(
                                j1,
                                j2,
                                j4,
                                j3,
                                i1 as int,
                                i2 as int,
                                i4 + 1,
                                0,
                            ) implies #[trigger] handled(
                            found@,
                            fw,
                            qw,
                            t1@,
                            t2@,
                            t3@,
                            t4@,
                            j1,
                            j2,
                            j3,
                            j4,
                        ) by {
                            if !before(j1, j2, j4, j3, i1 as int, i2 as int, i4 as int, 0) {
                                assert(j1 == i1 && j2 == i2 && j4 == i4);
                                assert(!inductance_ok(fw.target, t1@[j1], t2@[j2], t4@[j4]));
                            }
                        }
                    }
                }
                i4 = i4 + 1;
            }
            proof {
                lemma_handled_reindex(
                    found@,
                    fw,
                    qw,
                    t1@,
                    t2@,
                    t3@,
                    t4@,
                    i1 as int,
                    i2 as int,
                    t4@.len() as int,
                    0,
                    i1 as int,
                    i2 + 1,
                    0,
                    0,
                );
            }
            i2 = i2 + 1;
        }
        proof {
            lemma_handled_reindex(
                found@,
                fw,
                qw,
                t1@,
                t2@,
                t3@,
                t4@,
                i1 as int,
                t2@.len() as int,
                0,
                0,
                i1 + 1,
                0,
                0,
                0,
            );
        }
        i1 = i1 + 1;
    }
    found
}

/// Every accepted selection from the four tables is present in `s`.
pub open spec fn complete(
    s: Seq<Selection>,
    fw: Window,
    qw: Window,
    t1: Seq<Quantity>,
    t2: Seq<Quantity>,
    t3: Seq<Quantity>,
    t4: Seq<Quantity>,
) -> bool {
    forall|j1: int, j2: int, j3: int, j4: int|
        0 <= j1 < t1.len() && 0 <= j2 < t2.len() && 0 <= j3 < t3.len() && 0 <= j4 < t4.len()
            ==> #[trigger] handled(s, fw, qw, t1, t2, t3, t4, j1, j2, j3, j4)
}

/// The selections of R1, R2, C1 and C2 from their arguments' candidate
/// values whose frequency and quality factor lie in their windows, and whose
/// inductance lies within a decade of `R1 / f` either way for the frequency
/// target `f`: each once up to value, ordered by `selection_cmp`.
pub fn calculate(frequency: Arg, q_factor: Arg, r1: Arg, r2: Arg, c1: Arg, c2: Arg) -> (r: Vec<
    Selection,
>)
    ensures
        sound(
            r@,
            arg_window(frequency),
            arg_window(q_factor),
            arg_table(r1),
            arg_table(r2),
            arg_table(c1),
            arg_table(c2),
        ),
        complete(
            r@,
            arg_window(frequency),
            arg_window(q_factor),
            arg_table(r1),
            arg_table(r2),
            arg_table(c1),
            arg_table(c2),
        ),
        distinct(r@),
        ordered(r@),
{
    let fw = value_to_tolerance(frequency);
    let qw = value_to_tolerance(q_factor);
    let t1 = r1.to_table();
    let t2 = r2.to_table();
    let t3 = c1.to_table();
    let t4 = c2.to_table();
    let found = find_selections(fw, qw, &t1, &t2, &t3, &t4);
    let ghost f = found@;
    let r = sort_selections(found);
    proof {
        assert forall|k: int| 0 <= k < r@.len() implies {
            &&& accepted(fw, qw, #[trigger] r@[k])
            &&& t1@.contains(r@[k].r1)
            &&& t2@.contains(r@[k].r2)
            &&& t3@.contains(r@[k].c1)
            &&& t4@.contains(r@[k].c2)
        } by {
            assert(f.contains(r@[k]));
            let m = choose|m: int| 0 <= m < f.len() && f[m] == r@[k];
            assert(accepted(fw, qw, f[m]));
        }
        assert forall|k: int| 0 <= k < r@.len() implies cr_significand(#[trigger] r@[k]) > 0 by {
            lemma_accepted_positive(fw, qw, r@[k]);
        }
        lemma_ascending_is_ordered(r@);
        assert forall|j1: int, j2: int, j3: int, j4: int|
            0 <= j1 < t1@.len() && 0 <= j2 < t2@.len() && 0 <= j3 < t3@.len() && 0 <= j4
                < t4@.len() implies #[trigger] handled(
            r@,
            fw,
            qw,
            t1@,
            t2@,
            t3@,
            t4@,
            j1,
            j2,
            j3,
            j4,
        ) by {
            assert(handled(f, fw, qw, t1@, t2@, t3@, t4@, j1, j2, j3, j4));
            let x = sel(t1@[j1], t2@[j2], t3@[j3], t4@[j4]);
            if accepted(fw, qw, x) {
                let m = choose|m: int| 0 <= m < f.len() && same_values(#[trigger] f[m], x);
                assert(r@.contains(f[m]));
                let k = choose|k: int| 0 <= k < r@.len() && r@[k] == f[m];
                assert(same_values(r@[k], x));
            }
        }
    }
    r
}

/// A series argument with an empty range for R1, R2, C1 or C2 leaves the
/// search without a result: no sequence that `calculate` may return for such
/// arguments holds an element.
pub proof fn lemma_empty_range_gives_no_selection(
    frequency: Arg,
    q_factor: Arg,
    r1: Arg,
    r2: Arg,
    c1: Arg,
    c2: Arg,
    r: Seq<Selection>,
)
    requires
        sound(
            r,
            arg_window(frequency),
            arg_window(q_factor),
            arg_table(r1),
            arg_table(r2),
            arg_table(c1),
            arg_table(c2),
        ),
        empty_range(r1) || empty_range(r2) || empty_range(c1) || empty_range(c2),
    ensures
        r.len() == 0,
{
    lemma_empty_range_empty_table(r1);
    lemma_empty_range_empty_table(r2);
    lemma_empty_range_empty_table(c1);
    lemma_empty_range_empty_table(c2);
    if r.len() > 0 {
        assert(arg_table(r1).contains(r[0].r1));
        assert(arg_table(r2).contains(r[0].r2));
        assert(arg_table(c1).contains(r[0].c1));
        assert(arg_table(c2).contains(r[0].c2));
    }
}

/// A series argument whose range `[min, max)` is empty.
pub open spec fn empty_range(a: Arg) -> bool {
    match a {
        Arg::ArgWithSeries(_, min, max) => quantity_cmp(min, max) >= 0,
        _ => false,
    }
}

proof fn lemma_empty_range_empty_table(a: Arg)
    ensures
        empty_range(a) ==> arg_table(a).len() == 0,
{
    if let Arg::ArgWithSeries(s, min, max) = a {
        if quantity_cmp(min, max) >= 0 {
            lemma_empty_range_has_no_values(s, min, max);
        }
    }
}

} // verus!
