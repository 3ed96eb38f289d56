//! The order of search results: by frequency, quality factor, inductance,
//! R1, R2, C1 and C2, each ascending, decided exactly.
use crate::quantity::{
    decimal_cmp, in_units, lemma_decimal_cmp_in_units, lemma_decimal_cmp_transitive, min_int,
    ordering_sign, product, quantity_cmp, sign,
};
use vstd::arithmetic::mul::lemma_mul_strictly_positive;
use vstd::arithmetic::power::{lemma_pow_adds, lemma_pow_positive, pow};
use crate::search::{
    compare, distinct, ex, exp, inductance_exponent, inductance_factors, same_values, Selection,
};
use std::cmp::Ordering;
use vstd::prelude::*;

verus! {

/// The factors of `L·C1`.
pub open spec fn resonance_product(s: Selection) -> Seq<u64> {
    seq![s.r1.significand, s.r2.significand, s.c2.significand, s.c1.significand]
}

pub open spec fn resonance_product_exponent(s: Selection) -> int {
    ex(s.r1) + ex(s.r2) + ex(s.c2) + ex(s.c1)
}

/// Comparison by resonant frequency. The frequency falls as `L·C1` rises.
pub open spec fn frequency_cmp(a: Selection, b: Selection) -> int {
    decimal_cmp(
        product(resonance_product(b)),
        resonance_product_exponent(b),
        product(resonance_product(a)),
        resonance_product_exponent(a),
    )
}

/// The factors of `R2·C2` of `a` times `C1·R1` of `b`.
pub open spec fn quality_cross(a: Selection, b: Selection) -> Seq<u64> {
    seq![a.r2.significand, a.c2.significand, b.c1.significand, b.r1.significand]
}

pub open spec fn quality_cross_exponent(a: Selection, b: Selection) -> int {
    ex(a.r2) + ex(a.c2) + ex(b.c1) + ex(b.r1)
}

/// Comparison by quality factor: `Q² = R2·C2 / (C1·R1)`, compared crosswise.
pub open spec fn quality_cmp(a: Selection, b: Selection) -> int {
    decimal_cmp(
        product(quality_cross(a, b)),
        quality_cross_exponent(a, b),
        product(quality_cross(b, a)),
        quality_cross_exponent(b, a),
    )
}

/// Comparison by inductance.
pub open spec fn inductance_cmp(a: Selection, b: Selection) -> int {
    decimal_cmp(
        product(inductance_factors(a)),
        inductance_exponent(a),
        product(inductance_factors(b)),
        inductance_exponent(b),
    )
}

/// The order of results: by frequency, then quality factor, inductance, R1,
/// R2, C1 and C2, each ascending; -1, 0 or 1.
#[verifier::opaque]
pub open spec fn selection_cmp(a: Selection, b: Selection) -> int {
    if frequency_cmp(a, b) != 0 {
        frequency_cmp(a, b)
    } else if quality_cmp(a, b) != 0 {
        quality_cmp(a, b)
    } else if inductance_cmp(a, b) != 0 {
        inductance_cmp(a, b)
    } else if quantity_cmp(a.r1, b.r1) != 0 {
        quantity_cmp(a.r1, b.r1)
    } else if quantity_cmp(a.r2, b.r2) != 0 {
        quantity_cmp(a.r2, b.r2)
    } else if quantity_cmp(a.c1, b.c1) != 0 {
        quantity_cmp(a.c1, b.c1)
    } else {
        quantity_cmp(a.c2, b.c2)
    }
}

/// Each element is no greater than the next.
pub open spec fn ascending(s: Seq<Selection>) -> bool {
    forall|k: int| 0 <= k < s.len() - 1 ==> selection_cmp(#[trigger] s[k], s[k + 1]) <= 0
}

/// Every element is no greater than any later one.
pub open spec fn ordered(s: Seq<Selection>) -> bool {
    forall|i: int, j: int| 0 <= i < j < s.len() ==> selection_cmp(#[trigger] s[i], #[trigger] s[j]) <= 0
}

/// Three comparisons `a : b`, `b : c` and `a : c` that chain as an order does.
pub open spec fn chains(ab: int, bc: int, ac: int) -> bool {
    &&& (ab <= 0 && bc <= 0 ==> ac <= 0)
    &&& (ab < 0 && bc <= 0 ==> ac < 0)
    &&& (ab <= 0 && bc < 0 ==> ac < 0)
    &&& (ab >= 0 && bc >= 0 ==> ac >= 0)
    &&& (ab > 0 && bc >= 0 ==> ac > 0)
    &&& (ab >= 0 && bc > 0 ==> ac > 0)
}

proof fn lemma_decimal_chains(n1: int, e1: int, n2: int, e2: int, n3: int, e3: int)
    ensures
        chains(
            decimal_cmp(n1, e1, n2, e2),
            decimal_cmp(n2, e2, n3, e3),
            decimal_cmp(n1, e1, n3, e3),
        ),
{
    lemma_decimal_cmp_transitive(n1, e1, n2, e2, n3, e3);
    lemma_decimal_cmp_transitive(n3, e3, n2, e2, n1, e1);
}

/// `R2·C2` of a selection: its significand and exponent.
pub open spec fn rc_significand(s: Selection) -> int {
    s.r2.significand * s.c2.significand
}

pub open spec fn rc_exponent(s: Selection) -> int {
    ex(s.r2) + ex(s.c2)
}

/// `C1·R1` of a selection: its significand and exponent.
pub open spec fn cr_significand(s: Selection) -> int {
    s.c1.significand * s.r1.significand
}

pub open spec fn cr_exponent(s: Selection) -> int {
    ex(s.c1) + ex(s.r1)
}

proof fn lemma_quality_in_units(a: Selection, b: Selection, bx: int, by: int)
    requires
        bx <= rc_exponent(a),
        bx <= rc_exponent(b),
        by <= cr_exponent(a),
        by <= cr_exponent(b),
    ensures
        quality_cmp(a, b) == sign(
            in_units(rc_significand(a), rc_exponent(a), bx) * in_units(
                cr_significand(b),
                cr_exponent(b),
                by,
            ),
            in_units(rc_significand(b), rc_exponent(b), bx) * in_units(
                cr_significand(a),
                cr_exponent(a),
                by,
            ),
        ),
{
    lemma_product_four(a.r2.significand, a.c2.significand, b.c1.significand, b.r1.significand);
    lemma_product_four(b.r2.significand, b.c2.significand, a.c1.significand, a.r1.significand);
    assert(quality_cross(a, b) =~= seq![a.r2.significand, a.c2.significand, b.c1.significand, b.r1.significand]);
    assert(quality_cross(b, a) =~= seq![b.r2.significand, b.c2.significand, a.c1.significand, a.r1.significand]);
    lemma_decimal_cmp_in_units(
        rc_significand(a) * cr_significand(b),
        rc_exponent(a) + cr_exponent(b),
        rc_significand(b) * cr_significand(a),
        rc_exponent(b) + cr_exponent(a),
        bx + by,
    );
    lemma_units_of_product(rc_significand(a), rc_exponent(a), bx, cr_significand(b), cr_exponent(b), by);
    lemma_units_of_product(rc_significand(b), rc_exponent(b), bx, cr_significand(a), cr_exponent(a), by);
}

proof fn lemma_product_four(p: u64, q: u64, r: u64, t: u64)
    ensures
        product(seq![p, q, r, t]) == (p * q) * (r * t),
{
    reveal_with_fuel(product, 5);
    let s = seq![p, q, r, t];
    assert(s.drop_last() =~= seq![p, q, r]);
    assert(s.drop_last().drop_last() =~= seq![p, q]);
    assert(s.drop_last().drop_last().drop_last() =~= seq![p]);
    assert(s.drop_last().drop_last().drop_last().drop_last() =~= Seq::<u64>::empty());
    assert(1 * p * q * r * t == (p * q) * (r * t)) by (nonlinear_arith);
}

proof fn lemma_units_of_product(x: int, ex_: int, bx: int, y: int, ey: int, by: int)
    requires
        bx <= ex_,
        by <= ey,
    ensures
        in_units(x * y, ex_ + ey, bx + by) == in_units(x, ex_, bx) * in_units(y, ey, by),
{
    lemma_pow_adds(10, (ex_ - bx) as nat, (ey - by) as nat);
    let px = pow(10, (ex_ - bx) as nat);
    let py = pow(10, (ey - by) as nat);
    assert((x * y) * (px * py) == (x * px) * (y * py)) by (nonlinear_arith);
}

/// Comparing ratios `x / y` with positive `y` crosswise chains.
proof fn lemma_ratio_chains(xa: int, ya: int, xb: int, yb: int, xc: int, yc: int)
    requires
        ya > 0,
        yb > 0,
        yc > 0,
    ensures
        chains(sign(xa * yb, xb * ya), sign(xb * yc, xc * yb), sign(xa * yc, xc * ya)),
{
    assert(xa * yb <= xb * ya && xb * yc <= xc * yb ==> xa * yc <= xc * ya) by (nonlinear_arith)
        requires ya > 0, yb > 0, yc > 0;
    assert(xa * yb < xb * ya && xb * yc <= xc * yb ==> xa * yc < xc * ya) by (nonlinear_arith)
        requires ya > 0, yb > 0, yc > 0;
    assert(xa * yb <= xb * ya && xb * yc < xc * yb ==> xa * yc < xc * ya) by (nonlinear_arith)
        requires ya > 0, yb > 0, yc > 0;
    assert(xa * yb >= xb * ya && xb * yc >= xc * yb ==> xa * yc >= xc * ya) by (nonlinear_arith)
        requires ya > 0, yb > 0, yc > 0;
    assert(xa * yb > xb * ya && xb * yc >= xc * yb ==> xa * yc > xc * ya) by (nonlinear_arith)
        requires ya > 0, yb > 0, yc > 0;
    assert(xa * yb >= xb * ya && xb * yc > xc * yb ==> xa * yc > xc * ya) by (nonlinear_arith)
        requires ya > 0, yb > 0, yc > 0;
}

proof fn lemma_quality_chains(a: Selection, b: Selection, c: Selection)
    requires
        cr_significand(a) > 0,
        cr_significand(b) > 0,
        cr_significand(c) > 0,
    ensures
        chains(quality_cmp(a, b), quality_cmp(b, c), quality_cmp(a, c)),
{
    let bx = min_int(min_int(rc_exponent(a), rc_exponent(b)), rc_exponent(c));
    let by = min_int(min_int(cr_exponent(a), cr_exponent(b)), cr_exponent(c));
    lemma_quality_in_units(a, b, bx, by);
    lemma_quality_in_units(b, c, bx, by);
    lemma_quality_in_units(a, c, bx, by);
    let ya = in_units(cr_significand(a), cr_exponent(a), by);
    let yb = in_units(cr_significand(b), cr_exponent(b), by);
    let yc = in_units(cr_significand(c), cr_exponent(c), by);
    lemma_pow_positive(10, (cr_exponent(a) - by) as nat);
    lemma_pow_positive(10, (cr_exponent(b) - by) as nat);
    lemma_pow_positive(10, (cr_exponent(c) - by) as nat);
    lemma_mul_strictly_positive(cr_significand(a), pow(10, (cr_exponent(a) - by) as nat));
    lemma_mul_strictly_positive(cr_significand(b), pow(10, (cr_exponent(b) - by) as nat));
    lemma_mul_strictly_positive(cr_significand(c), pow(10, (cr_exponent(c) - by) as nat));
    lemma_ratio_chains(
        in_units(rc_significand(a), rc_exponent(a), bx),
        ya,
        in_units(rc_significand(b), rc_exponent(b), bx),
        yb,
        in_units(rc_significand(c), rc_exponent(c), bx),
        yc,
    );
}

/// The order of results chains on selections whose `C1·R1` is positive, as
/// that of every accepted selection is.
pub proof fn lemma_selection_cmp_chains(a: Selection, b: Selection, c: Selection)
    requires
        cr_significand(a) > 0,
        cr_significand(b) > 0,
        cr_significand(c) > 0,
    ensures
        chains(selection_cmp(a, b), selection_cmp(b, c), selection_cmp(a, c)),
{
    reveal(selection_cmp);
    lemma_decimal_chains(
        product(resonance_product(c)),
        resonance_product_exponent(c),
        product(resonance_product(b)),
        resonance_product_exponent(b),
        product(resonance_product(a)),
        resonance_product_exponent(a),
    );
    lemma_quality_chains(a, b, c);
    lemma_decimal_chains(
        product(inductance_factors(a)),
        inductance_exponent(a),
        product(inductance_factors(b)),
        inductance_exponent(b),
        product(inductance_factors(c)),
        inductance_exponent(c),
    );
    lemma_decimal_chains(
        a.r1.significand as int,
        ex(a.r1),
        b.r1.significand as int,
        ex(b.r1),
        c.r1.significand as int,
        ex(c.r1),
    );
    lemma_decimal_chains(
        a.r2.significand as int,
        ex(a.r2),
        b.r2.significand as int,
        ex(b.r2),
        c.r2.significand as int,
        ex(c.r2),
    );
    lemma_decimal_chains(
        a.c1.significand as int,
        ex(a.c1),
        b.c1.significand as int,
        ex(b.c1),
        c.c1.significand as int,
        ex(c.c1),
    );
    lemma_decimal_chains(
        a.c2.significand as int,
        ex(a.c2),
        b.c2.significand as int,
        ex(b.c2),
        c.c2.significand as int,
        ex(c.c2),
    );
}

proof fn lemma_ordered_pair(s: Seq<Selection>, i: int, j: int)
    requires
        ascending(s),
        forall|k: int| 0 <= k < s.len() ==> cr_significand(#[trigger] s[k]) > 0,
        0 <= i < j < s.len(),
    ensures
        selection_cmp(s[i], s[j]) <= 0,
    decreases j - i,
{
    if j > i + 1 {
        lemma_ordered_pair(s, i, j - 1);
        assert(selection_cmp(s[j - 1], s[j]) <= 0);
        lemma_selection_cmp_chains(s[i], s[j - 1], s[j]);
    }
}

/// An ascending sequence of selections with positive `C1·R1` is ordered.
pub proof fn lemma_ascending_is_ordered(s: Seq<Selection>)
    requires
        ascending(s),
        forall|k: int| 0 <= k < s.len() ==> cr_significand(#[trigger] s[k]) > 0,
    ensures
        ordered(s),
{
    assert forall|i: int, j: int| 0 <= i < j < s.len() implies selection_cmp(
        #[trigger] s[i],
        #[trigger] s[j],
    ) <= 0 by {
        lemma_ordered_pair(s, i, j);
    }
}

pub proof fn lemma_selection_cmp_antisymmetric(a: Selection, b: Selection)
    ensures
        selection_cmp(a, b) == -selection_cmp(b, a),
{
    reveal(selection_cmp);
}

fn compare_selections(a: Selection, b: Selection) -> (r: Ordering)
    ensures
        ordering_sign(r) == selection_cmp(a, b),
{
    reveal(selection_cmp);
    let la = vec![a.r1.significand, a.r2.significand, a.c2.significand, a.c1.significand];
    let lb = vec![b.r1.significand, b.r2.significand, b.c2.significand, b.c1.significand];
    let qa = vec![a.r2.significand, a.c2.significand, b.c1.significand, b.r1.significand];
    let qb = vec![b.r2.significand, b.c2.significand, a.c1.significand, a.r1.significand];
    let ia = vec![a.r1.significand, a.r2.significand, a.c2.significand];
    let ib = vec![b.r1.significand, b.r2.significand, b.c2.significand];
    proof {
        assert(la@ =~= resonance_product(a));
        assert(lb@ =~= resonance_product(b));
        assert(qa@ =~= quality_cross(a, b));
        assert(qb@ =~= quality_cross(b, a));
        assert(ia@ =~= inductance_factors(a));
        assert(ib@ =~= inductance_factors(b));
    }
    let ela = exp(a.r1) + exp(a.r2) + exp(a.c2) + exp(a.c1);
    let elb = exp(b.r1) + exp(b.r2) + exp(b.c2) + exp(b.c1);
    let by_frequency = compare(lb, elb, la, ela);
    if !matches!(by_frequency, Ordering::Equal) {
        return by_frequency;
    }
    let eqa = exp(a.r2) + exp(a.c2) + exp(b.c1) + exp(b.r1);
    let eqb = exp(b.r2) + exp(b.c2) + exp(a.c1) + exp(a.r1);
    let by_quality = compare(qa, eqa, qb, eqb);
    if !matches!(by_quality, Ordering::Equal) {
        return by_quality;
    }
    let by_inductance = compare(
        ia,
        exp(a.r1) + exp(a.r2) + exp(a.c2),
        ib,
        exp(b.r1) + exp(b.r2) + exp(b.c2),
    );
    if !matches!(by_inductance, Ordering::Equal) {
        return by_inductance;
    }
    let by_r1 = a.r1.compare(&b.r1);
    if !matches!(by_r1, Ordering::Equal) {
        return by_r1;
    }
    let by_r2 = a.r2.compare(&b.r2);
    if !matches!(by_r2, Ordering::Equal) {
        return by_r2;
    }
    let by_c1 = a.c1.compare(&b.c1);
    if !matches!(by_c1, Ordering::Equal) {
        return by_c1;
    }
    a.c2.compare(&b.c2)
}

/// Inserting `v[i]` into a sequence that holds just `v[0..i]` gives one that
/// holds just `v[0..i+1]`.
proof fn lemma_insert_members(v: Seq<Selection>, i: int, old_sorted: Seq<Selection>, j: int)
    requires
        0 <= i < v.len(),
        old_sorted.len() == i,
        0 <= j <= i,
        forall|k: int| 0 <= k < i ==> old_sorted.contains(#[trigger] v[k]),
        forall|k: int| 0 <= k < old_sorted.len() ==> v.subrange(0, i).contains(#[trigger] old_sorted[k]),
    ensures
        ({
            let n = old_sorted.insert(j, v[i]);
            &&& n.len() == i + 1
            &&& forall|k: int| 0 <= k < i + 1 ==> n.contains(#[trigger] v[k])
            &&& forall|k: int| 0 <= k < n.len() ==> v.subrange(0, i + 1).contains(#[trigger] n[k])
        }),
{
    let x = v[i];
    old_sorted.insert_ensures(j, x);
    let n = old_sorted.insert(j, x);
    let prefix = v.subrange(0, i);
    let next_prefix = v.subrange(0, i + 1);
    assert forall|k: int| 0 <= k < i + 1 implies n.contains(#[trigger] v[k]) by {
        if k == i {
            assert(n[j] == x);
        } else {
            assert(old_sorted.contains(v[k]));
            let m = choose|m: int| 0 <= m < old_sorted.len() && old_sorted[m] == v[k];
            if m < j {
                assert(n[m] == v[k]);
            } else {
                assert(n[m + 1] == v[k]);
            }
        }
    }
    assert forall|k: int| 0 <= k < n.len() implies next_prefix.contains(#[trigger] n[k]) by {
        if k == j {
            assert(next_prefix[i] == x);
        } else {
            let m = if k < j {
                k
            } else {
                k - 1
            };
            assert(n[k] == old_sorted[m]);
            assert(prefix.contains(old_sorted[m]));
            let w = choose|w: int| 0 <= w < prefix.len() && prefix[w] == old_sorted[m];
            assert(next_prefix[w] == n[k]);
        }
    }
}

/// Inserting `x`, equal in value to no element, keeps the elements distinct.
proof fn lemma_insert_distinct(old_sorted: Seq<Selection>, j: int, x: Selection)
    requires
        0 <= j <= old_sorted.len(),
        distinct(old_sorted),
        forall|m: int| 0 <= m < old_sorted.len() ==> !same_values(#[trigger] old_sorted[m], x),
    ensures
        distinct(old_sorted.insert(j, x)),
{
    old_sorted.insert_ensures(j, x);
    let n = old_sorted.insert(j, x);
    assert forall|a: int, b: int|
        0 <= a < n.len() && 0 <= b < n.len() && a != b implies !same_values(
        #[trigger] n[a],
        #[trigger] n[b],
    ) by {
        let ma = if a < j {
            a
        } else {
            a - 1
        };
        let mb = if b < j {
            b
        } else {
            b - 1
        };
        if a == j {
            assert(!same_values(old_sorted[mb], x));
        } else if b == j {
            assert(!same_values(old_sorted[ma], x));
        } else {
            assert(n[a] == old_sorted[ma]);
            assert(n[b] == old_sorted[mb]);
        }
    }
}

/// Inserting `x` after every element not above it and before the rest keeps
/// the sequence ascending.
proof fn lemma_insert_ascending(old_sorted: Seq<Selection>, j: int, x: Selection)
    requires
        0 <= j <= old_sorted.len(),
        ascending(old_sorted),
        j < old_sorted.len() ==> selection_cmp(x, old_sorted[j]) < 0,
        j > 0 ==> selection_cmp(old_sorted[j - 1], x) <= 0,
    ensures
        ascending(old_sorted.insert(j, x)),
{
    old_sorted.insert_ensures(j, x);
    let n = old_sorted.insert(j, x);
    assert forall|k: int| 0 <= k < n.len() - 1 implies selection_cmp(
        #[trigger] n[k],
        n[k + 1],
    ) <= 0 by {
        if k + 1 < j {
            assert(selection_cmp(old_sorted[k], old_sorted[k + 1]) <= 0);
        } else if k + 1 == j {
        } else if k == j {
        } else {
            assert(selection_cmp(old_sorted[k - 1], old_sorted[k]) <= 0);
        }
    }
}

/// Inserting `v[i]` at `j` keeps the invariant of the insertion sort, where
/// `j` is past every element not above `v[i]`.
proof fn lemma_insert_in_order(v: Seq<Selection>, i: int, old_sorted: Seq<Selection>, j: int)
    requires
        0 <= i < v.len(),
        distinct(v),
        old_sorted.len() == i,
        0 <= j <= i,
        forall|k: int| 0 <= k < i ==> old_sorted.contains(#[trigger] v[k]),
        forall|k: int| 0 <= k < old_sorted.len() ==> v.subrange(0, i).contains(#[trigger] old_sorted[k]),
        distinct(old_sorted),
        ascending(old_sorted),
        j < old_sorted.len() ==> selection_cmp(v[i], old_sorted[j]) < 0,
        j > 0 ==> selection_cmp(old_sorted[j - 1], v[i]) <= 0,
    ensures
        ({
            let n = old_sorted.insert(j, v[i]);
            &&& n.len() == i + 1
            &&& forall|k: int| 0 <= k < i + 1 ==> n.contains(#[trigger] v[k])
            &&& forall|k: int| 0 <= k < n.len() ==> v.subrange(0, i + 1).contains(#[trigger] n[k])
            &&& distinct(n)
            &&& ascending(n)
        }),
{
    let x = v[i];
    let prefix = v.subrange(0, i);
    // Each element of old_sorted is some v[w] with w < i, so none equals x in value.
    assert forall|m: int| 0 <= m < old_sorted.len() implies !same_values(
        #[trigger] old_sorted[m],
        x,
    ) by {
        assert(prefix.contains(old_sorted[m]));
        let w = choose|w: int| 0 <= w < prefix.len() && prefix[w] == old_sorted[m];
        assert(v[w] == old_sorted[m]);
        assert(!same_values(v[w], v[i]));
    }
    lemma_insert_members(v, i, old_sorted, j);
    lemma_insert_distinct(old_sorted, j, x);
    lemma_insert_ascending(old_sorted, j, x);
}

/// Where `x` goes in `sorted`: after every element not above it, scanning
/// from the end.
fn insertion_point(sorted: &Vec<Selection>, x: Selection) -> (j: usize)
    ensures
        j <= sorted@.len(),
        j < sorted@.len() ==> selection_cmp(x, sorted@[j as int]) < 0,
        j > 0 ==> selection_cmp(sorted@[j - 1], x) <= 0,
{
    let mut j: usize = sorted.len();
    while j > 0 && matches!(compare_selections(x, sorted[j - 1]), Ordering::Less)
        invariant
            j <= sorted@.len(),
            j < sorted@.len() ==> selection_cmp(x, sorted@[j as int]) < 0,
        decreases j,
    {
        j = j - 1;
    }
    proof {
        if j > 0 {
            lemma_selection_cmp_antisymmetric(x, sorted@[j - 1]);
        }
    }
    j
}

/// The same selections, ascending.
pub(crate) fn sort_selections(v: Vec<Selection>) -> (r: Vec<Selection>)
    requires
        distinct(v@),
    ensures
        r@.len() == v@.len(),
        forall|k: int| 0 <= k < v@.len() ==> r@.contains(#[trigger] v@[k]),
        forall|k: int| 0 <= k < r@.len() ==> v@.contains(#[trigger] r@[k]),
        distinct(r@),
        ascending(r@),
{
    let mut sorted: Vec<Selection> = Vec::new();
    let mut i: usize = 0;
    while i < v.len()
        invariant
            i <= v@.len(),
            distinct(v@),
            sorted@.len() == i,
            forall|k: int| 0 <= k < i ==> sorted@.contains(#[trigger] v@[k]),
            forall|k: int| 0 <= k < sorted@.len() ==> v@.subrange(0, i as int).contains(#[trigger] sorted@[k]),
            distinct(sorted@),
            ascending(sorted@),
        decreases v@.len() - i,
    {
        let x = v[i];
        let j = insertion_point(&sorted, x);
        let ghost old_sorted = sorted@;
        sorted.insert(j, x);
        proof {
            lemma_insert_in_order(v@, i as int, old_sorted, j as int);
        }
        i = i + 1;
    }
    proof {
        assert(v@.subrange(0, i as int) =~= v@);
    }
    sorted
}

} // verus!
