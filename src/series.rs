//! The preferred-value series and the candidate values that they give.
use crate::quantity::{quantity_cmp, Quantity};
use std::cmp::Ordering;
use vstd::arithmetic::div_mod::*;
use vstd::arithmetic::power::*;
use vstd::prelude::*;

verus! {

/// A preferred-value series. Each series includes every coarser one: E6 in
/// E12, E12 in E24, E24 in E48.
#[derive(Clone, Copy, Debug, PartialEq, Eq, Structural)]
pub enum Series {
    E6,
    E12,
    E24,
    E48,
}

/// The position of a series in the inclusion order, coarsest first.
pub open spec fn rank(s: Series) -> int {
    match s {
        Series::E6 => 0,
        Series::E12 => 1,
        Series::E24 => 2,
        Series::E48 => 3,
    }
}

/// The lower-case name of a series.
pub open spec fn series_name(s: Series) -> Seq<char> {
    match s {
        Series::E6 => "e6"@,
        Series::E12 => "e12"@,
        Series::E24 => "e24"@,
        Series::E48 => "e48"@,
    }
}

/// The series that a name stands for; an unknown name stands for E6.
pub open spec fn series_named(name: Seq<char>) -> Series {
    if name == "e12"@ {
        Series::E12
    } else if name == "e24"@ {
        Series::E24
    } else if name == "e48"@ {
        Series::E48
    } else {
        Series::E6
    }
}

impl Series {
    pub fn as_str(&self) -> (r: String)
        ensures
            r@ == series_name(*self),
    {
        match self {
            Series::E6 => "e6".to_string(),
            Series::E12 => "e12".to_string(),
            Series::E24 => "e24".to_string(),
            Series::E48 => "e48".to_string(),
        }
    }

    /// Whether a value of series `other` may be used in this series.
    pub fn includes(&self, other: Series) -> (r: bool)
        ensures
            r == (rank(other) <= rank(*self)),
    {
        let a: u8 = match self {
            Series::E6 => 0,
            Series::E12 => 1,
            Series::E24 => 2,
            Series::E48 => 3,
        };
        let b: u8 = match other {
            Series::E6 => 0,
            Series::E12 => 1,
            Series::E24 => 2,
            Series::E48 => 3,
        };
        b <= a
    }
}

impl From<String> for Series {
    fn from(value: String) -> (r: Series) {
        if value == "e12".to_string() {
            Series::E12
        } else if value == "e24".to_string() {
            Series::E24
        } else if value == "e48".to_string() {
            Series::E48
        } else {
            Series::E6
        }
    }
}

impl vstd::std_specs::convert::FromSpecImpl<String> for Series {
    open spec fn obeys_from_spec() -> bool {
        true
    }

    open spec fn from_spec(v: String) -> Series {
        series_named(v@)
    }
}

/// The number of preferred mantissas.
pub const MANTISSA_COUNT: usize = 69;

/// The number of decades that the mantissas are scaled to.
pub const DECADE_COUNT: usize = 24;

/// The exponent of the lowest decade, for mantissas given in hundredths:
/// the lowest value is 1.00 · 10^-15.
pub const LOWEST_EXPONENT: i32 = -17;

/// The preferred mantissas in hundredths, ascending, each with the coarsest
/// series that holds it.
pub open spec fn preferred_values() -> Seq<(u64, Series)> {
    seq![
        (100, Series::E6), (105, Series::E48), (110, Series::E24), (115, Series::E48),
        (120, Series::E12), (121, Series::E48), (127, Series::E48), (130, Series::E24),
        (133, Series::E48), (140, Series::E48), (147, Series::E48), (150, Series::E6),
        (154, Series::E48), (160, Series::E24), (162, Series::E48), (169, Series::E48),
        (178, Series::E48), (180, Series::E12), (187, Series::E48), (196, Series::E48),
        (200, Series::E24), (205, Series::E48), (215, Series::E48), (220, Series::E6),
        (226, Series::E48), (237, Series::E48), (240, Series::E24), (249, Series::E48),
        (261, Series::E48), (270, Series::E12), (274, Series::E48), (287, Series::E48),
        (300, Series::E24), (301, Series::E48), (316, Series::E48), (330, Series::E6),
        (332, Series::E48), (348, Series::E48), (360, Series::E24), (365, Series::E48),
        (383, Series::E48), (390, Series::E12), (402, Series::E48), (422, Series::E48),
        (430, Series::E24), (442, Series::E48), (464, Series::E48), (470, Series::E6),
        (487, Series::E48), (510, Series::E24), (511, Series::E48), (536, Series::E48),
        (560, Series::E12), (562, Series::E48), (590, Series::E48), (619, Series::E48),
        (620, Series::E24), (649, Series::E48), (680, Series::E6), (681, Series::E48),
        (715, Series::E48), (750, Series::E24), (787, Series::E48), (820, Series::E12),
        (825, Series::E48), (866, Series::E48), (909, Series::E48), (910, Series::E24),
        (953, Series::E48),
    ]
}

fn preferred_table() -> (r: Vec<(u64, Series)>)
    ensures
        r@ == preferred_values(),
{
    let r = vec![
        (100, Series::E6), (105, Series::E48), (110, Series::E24), (115, Series::E48),
        (120, Series::E12), (121, Series::E48), (127, Series::E48), (130, Series::E24),
        (133, Series::E48), (140, Series::E48), (147, Series::E48), (150, Series::E6),
        (154, Series::E48), (160, Series::E24), (162, Series::E48), (169, Series::E48),
        (178, Series::E48), (180, Series::E12), (187, Series::E48), (196, Series::E48),
        (200, Series::E24), (205, Series::E48), (215, Series::E48), (220, Series::E6),
        (226, Series::E48), (237, Series::E48), (240, Series::E24), (249, Series::E48),
        (261, Series::E48), (270, Series::E12), (274, Series::E48), (287, Series::E48),
        (300, Series::E24), (301, Series::E48), (316, Series::E48), (330, Series::E6),
        (332, Series::E48), (348, Series::E48), (360, Series::E24), (365, Series::E48),
        (383, Series::E48), (390, Series::E12), (402, Series::E48), (422, Series::E48),
        (430, Series::E24), (442, Series::E48), (464, Series::E48), (470, Series::E6),
        (487, Series::E48), (510, Series::E24), (511, Series::E48), (536, Series::E48),
        (560, Series::E12), (562, Series::E48), (590, Series::E48), (619, Series::E48),
        (620, Series::E24), (649, Series::E48), (680, Series::E6), (681, Series::E48),
        (715, Series::E48), (750, Series::E24), (787, Series::E48), (820, Series::E12),
        (825, Series::E48), (866, Series::E48), (909, Series::E48), (910, Series::E24),
        (953, Series::E48),
    ];
    proof {
        assert(r@ =~= preferred_values());
    }
    r
}

/// The mantissas rise strictly, from 1.00 to 9.53.
proof fn lemma_preferred_ascending()
    ensures
        preferred_values().len() == MANTISSA_COUNT,
        preferred_values()[0].0 == 100,
        preferred_values()[MANTISSA_COUNT - 1].0 == 953,
        forall|i: int|
            0 <= i < MANTISSA_COUNT - 1 ==> #[trigger] preferred_values()[i].0 < preferred_values()[i
                + 1].0,
{
    assert(preferred_values().len() == MANTISSA_COUNT && preferred_values()[0].0 == 100
        && preferred_values()[MANTISSA_COUNT - 1].0 == 953 && forall|i: int|
        0 <= i < MANTISSA_COUNT - 1 ==> #[trigger] preferred_values()[i].0 < preferred_values()[i
            + 1].0);
}

/// The candidate at position `p` of the enumeration: decade by decade, and
/// within a decade by ascending mantissa; with the series that it needs.
pub open spec fn candidate(p: int) -> (Quantity, Series) {
    let e = preferred_values()[p % (MANTISSA_COUNT as int)];
    (
        Quantity { significand: e.0, exponent: (p / (MANTISSA_COUNT as int) + LOWEST_EXPONENT) as i32 },
        e.1,
    )
}

/// The number of candidates in the enumeration.
pub open spec fn candidate_count() -> int {
    (MANTISSA_COUNT * DECADE_COUNT) as int
}

/// Whether the candidate at position `p` belongs to series `t` and lies in
/// `[min, max)`.
pub open spec fn admitted(t: Series, min: Quantity, max: Quantity, p: int) -> bool {
    &&& rank(candidate(p).1) <= rank(t)
    &&& quantity_cmp(min, candidate(p).0) <= 0
    &&& quantity_cmp(candidate(p).0, max) < 0
}

/// The admitted candidates among the first `n`, in enumeration order.
pub open spec fn admitted_prefix(t: Series, min: Quantity, max: Quantity, n: nat) -> Seq<Quantity>
    decreases n,
{
    if n == 0 {
        Seq::empty()
    } else {
        let before = admitted_prefix(t, min, max, (n - 1) as nat);
        if admitted(t, min, max, n - 1) {
            before.push(candidate(n - 1).0)
        } else {
            before
        }
    }
}

/// The values of series `t` (or of a coarser one) that lie in `[min, max)`,
/// in enumeration order.
pub open spec fn series_values(t: Series, min: Quantity, max: Quantity) -> Seq<Quantity> {
    admitted_prefix(t, min, max, candidate_count() as nat)
}

/// Each candidate is smaller than the next one.
proof fn lemma_candidate_ascending(p: int)
    requires
        0 <= p,
        p + 1 < candidate_count(),
    ensures
        quantity_cmp(candidate(p).0, candidate(p + 1).0) < 0,
{
    lemma_preferred_ascending();
    let n = MANTISSA_COUNT as int;
    let a = candidate(p).0;
    let b = candidate(p + 1).0;
    lemma_fundamental_div_mod(p, n);
    if p % n < n - 1 {
        lemma_fundamental_div_mod_converse(p + 1, n, p / n, p % n + 1);
        assert(pow(10, 0) == 1) by {
            reveal(pow);
        }
    } else {
        assert(p + 1 == (p / n + 1) * n) by (nonlinear_arith)
            requires p % n == n - 1, p == (p / n) * n + p % n;
        lemma_fundamental_div_mod_converse(p + 1, n, p / n + 1, 0);
        assert(pow(10, 0) == 1 && pow(10, 1) == 10) by {
            reveal_with_fuel(pow, 2);
        }
    }
}

/// An empty range `[min, max)`, with `min >= max`, holds no value.
pub proof fn lemma_empty_range_has_no_values(t: Series, min: Quantity, max: Quantity)
    requires
        quantity_cmp(min, max) >= 0,
    ensures
        series_values(t, min, max).len() == 0,
{
    lemma_prefix_empty(t, min, max, candidate_count() as nat);
}

proof fn lemma_prefix_empty(t: Series, min: Quantity, max: Quantity, n: nat)
    requires
        quantity_cmp(min, max) >= 0,
    ensures
        admitted_prefix(t, min, max, n).len() == 0,
    decreases n,
{
    if n > 0 {
        lemma_prefix_empty(t, min, max, (n - 1) as nat);
        let c = candidate(n - 1).0;
        crate::quantity::lemma_decimal_cmp_transitive(
            min.significand as int,
            min.exponent as int,
            c.significand as int,
            c.exponent as int,
            max.significand as int,
            max.exponent as int,
        );
    }
}

/// The values of series `t` (or of a coarser one) in `[min, max)`, ascending.
pub fn series_table(table_series: Series, min_value: Quantity, max_value: Quantity) -> (r: Vec<
    Quantity,
>)
    ensures
        r@ == series_values(table_series, min_value, max_value),
        forall|i: int, j: int|
            0 <= i < j < r@.len() ==> quantity_cmp(#[trigger] r@[i], #[trigger] r@[j]) < 0,
        forall|i: int|
            0 <= i < r@.len() ==> quantity_cmp(min_value, #[trigger] r@[i]) <= 0 && quantity_cmp(
                r@[i],
                max_value,
            ) < 0,
        quantity_cmp(min_value, max_value) >= 0 ==> r@.len() == 0,
{
    let table = preferred_table();
    let mut r: Vec<Quantity> = Vec::new();
    let mut p: usize = 0;
    let total: usize = MANTISSA_COUNT * DECADE_COUNT;
    proof {
        lemma_preferred_ascending();
    }
    while p < total
        invariant
            total == candidate_count(),
            table@ == preferred_values(),
            preferred_values().len() == MANTISSA_COUNT,
            p <= total,
            r@ == admitted_prefix(table_series, min_value, max_value, p as nat),
            forall|i: int, j: int|
                0 <= i < j < r@.len() ==> quantity_cmp(#[trigger] r@[i], #[trigger] r@[j]) < 0,
            forall|i: int|
                0 <= i < r@.len() ==> quantity_cmp(min_value, #[trigger] r@[i]) <= 0
                    && quantity_cmp(r@[i], max_value) < 0,
            p < total ==> forall|i: int|
                0 <= i < r@.len() ==> quantity_cmp(#[trigger] r@[i], candidate(p as int).0) < 0,
        decreases total - p,
    {
        let (mantissa, tier) = table[p % MANTISSA_COUNT];
        let exponent: i32 = (p / MANTISSA_COUNT) as i32 + LOWEST_EXPONENT;
        let q = Quantity { significand: mantissa, exponent };
        assert(q == candidate(p as int).0 && tier == candidate(p as int).1);
        let ok = table_series.includes(tier) && !matches!(min_value.compare(&q), Ordering::Greater)
            && matches!(q.compare(&max_value), Ordering::Less);
        let ghost before = r@;
        if ok {
            r.push(q);
        }
        proof {
            if p + 1 < total {
                lemma_candidate_ascending(p as int);
                let nxt = candidate(p + 1).0;
                assert forall|i: int| 0 <= i < r@.len() implies quantity_cmp(
                    #[trigger] r@[i],
                    nxt,
                ) < 0 by {
                    let x = r@[i];
                    crate::quantity::lemma_decimal_cmp_transitive(
                        x.significand as int,
                        x.exponent as int,
                        q.significand as int,
                        q.exponent as int,
                        nxt.significand as int,
                        nxt.exponent as int,
                    );
                }
            }
        }
        p = p + 1;
    }
    proof {
        if quantity_cmp(min_value, max_value) >= 0 && r@.len() > 0 {
            let x = r@[0];
            crate::quantity::lemma_decimal_cmp_transitive(
                min_value.significand as int,
                min_value.exponent as int,
                x.significand as int,
                x.exponent as int,
                max_value.significand as int,
                max_value.exponent as int,
            );
        }
    }
    r
}

} // verus!
